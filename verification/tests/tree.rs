use pstidy::{diagnose, format_ascii, parse};

#[test]
fn parse_basic_line() {
    let records = parse("1 0 init");
    assert_eq!(records.len(), 1);
    assert_eq!(records[0].pid, 1);
    assert_eq!(records[0].ppid, 0);
    assert_eq!(records[0].command, "init");
}

#[test]
fn parse_tolerates_whitespace_blanks_and_comments() {
    let input = "\n# a comment\n  810   1     sshd  \n\n1  0  init\n";
    let records = parse(input);
    assert_eq!(records.len(), 2);
    assert_eq!(records[0].pid, 810);
    assert_eq!(records[0].ppid, 1);
    assert_eq!(records[0].command, "sshd");
    assert_eq!(records[1].pid, 1);
}

#[test]
fn parse_joins_multi_word_command() {
    let records = parse("42 1 /usr/bin/env python3 -m http.server");
    assert_eq!(records.len(), 1);
    assert_eq!(records[0].command, "/usr/bin/env python3 -m http.server");
}

#[test]
fn parse_defaults_missing_command_to_question_mark() {
    let records = parse("1 0");
    assert_eq!(records.len(), 1);
    assert_eq!(records[0].command, "?");
}

#[test]
fn parse_skips_lines_missing_numeric_fields() {
    let input = "not a pid line\n1\n1 also-not-numeric foo\n2 0 ok\n";
    let records = parse(input);
    assert_eq!(records.len(), 1);
    assert_eq!(records[0].pid, 2);
}

#[test]
fn parse_detects_ps_ef_header_and_reorders_columns() {
    let input = "UID        PID  PPID  C STIME TTY          TIME CMD\n\
                  root         1     0  0 08:00 ?        00:00:01 /sbin/init\n\
                  root       810     1  0 08:00 ?        00:00:00 /usr/sbin/sshd\n";
    let records = parse(input);
    assert_eq!(records.len(), 2);
    assert_eq!(records[0].pid, 1);
    assert_eq!(records[0].ppid, 0);
    assert_eq!(records[0].command, "/sbin/init");
    assert_eq!(records[1].pid, 810);
    assert_eq!(records[1].ppid, 1);
    assert_eq!(records[1].command, "/usr/sbin/sshd");
}

#[test]
fn parse_ps_ef_header_is_case_insensitive_and_accepts_command_column() {
    let input = "uid pid ppid command\nroot 1 0 init\n";
    let records = parse(input);
    assert_eq!(records.len(), 1);
    assert_eq!(records[0].pid, 1);
    assert_eq!(records[0].command, "init");
}

#[test]
fn format_renders_ps_ef_input_as_tree() {
    let input = "UID   PID  PPID CMD\n\
                  root    1     0 init\n\
                  root  810     1 sshd\n";
    let records = parse(input);
    assert_eq!(pstidy::render::format(&records), "init (1)\n└── sshd (810)\n");
}

#[test]
fn format_single_root_no_children() {
    let records = parse("1 0 init");
    assert_eq!(pstidy::render::format(&records), "init (1)\n");
}

#[test]
fn format_nested_tree_matches_readme_example() {
    let input = "810 1 sshd\n1 0 init\n2200 810 bash\n2350 2200 vim\n900 1 cron\n";
    let records = parse(input);
    let expected = "init (1)\n\
                     ├── sshd (810)\n\
                     │   └── bash (2200)\n\
                     │       └── vim (2350)\n\
                     └── cron (900)\n";
    assert_eq!(pstidy::render::format(&records), expected);
}

#[test]
fn format_sorts_roots_and_siblings_by_pid() {
    let input = "50 0 c\n10 0 a\n30 0 b\n";
    let records = parse(input);
    let expected = "a (10)\nb (30)\nc (50)\n";
    assert_eq!(pstidy::render::format(&records), expected);
}

#[test]
fn format_treats_missing_parent_as_root() {
    // ppid 999 was never given its own line, so this becomes a root.
    let records = parse("5 999 orphan");
    assert_eq!(pstidy::render::format(&records), "orphan (5)\n");
}

#[test]
fn format_treats_self_parent_as_root() {
    let records = parse("7 7 loopy");
    assert_eq!(pstidy::render::format(&records), "loopy (7)\n");
}

#[test]
fn format_keeps_first_of_duplicate_pid() {
    let input = "1 0 init\n1 0 impostor\n";
    let records = parse(input);
    assert_eq!(pstidy::render::format(&records), "init (1)\n");
}

#[test]
fn diagnose_reports_nothing_for_clean_input() {
    let records = parse("1 0 init\n2 1 sshd\n");
    let diag = diagnose(&records);
    assert!(diag.is_empty());
}

#[test]
fn diagnose_reports_self_parented_pid() {
    let records = parse("7 7 loopy");
    let diag = diagnose(&records);
    assert_eq!(diag.self_parented, vec![7]);
    assert!(diag.missing_parent.is_empty());
    assert!(diag.cycles.is_empty());
}

#[test]
fn diagnose_reports_missing_parent() {
    let records = parse("5 999 orphan");
    let diag = diagnose(&records);
    assert_eq!(diag.missing_parent, vec![(5, 999)]);
    assert!(diag.self_parented.is_empty());
    assert!(diag.cycles.is_empty());
}

#[test]
fn diagnose_reports_mutual_cycle() {
    // 1 and 2 name each other as parent, so neither ever reaches a root.
    let records = parse("1 2 a\n2 1 b\n");
    let diag = diagnose(&records);
    assert_eq!(diag.cycles, vec![1, 2]);
    assert!(diag.self_parented.is_empty());
    assert!(diag.missing_parent.is_empty());
    // format() silently drops cycle members rather than looping forever.
    assert_eq!(pstidy::render::format(&records), "");
}

#[test]
fn diagnose_reports_cycle_with_a_tail_hanging_off_it() {
    // 3's ancestry runs 3 -> 2 -> 1 -> 2, looping through the 1/2 cycle,
    // so all three pids are unreachable from any root.
    let records = parse("1 2 a\n2 1 b\n3 2 c\n");
    let diag = diagnose(&records);
    assert_eq!(diag.cycles, vec![1, 2, 3]);
}

#[test]
fn format_ascii_uses_plain_connectors() {
    let input = "810 1 sshd\n1 0 init\n2200 810 bash\n900 1 cron\n";
    let records = parse(input);
    let expected = "init (1)\n\
                     |-- sshd (810)\n\
                     |   `-- bash (2200)\n\
                     `-- cron (900)\n";
    assert_eq!(format_ascii(&records), expected);
}
