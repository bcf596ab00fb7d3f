use pstidy::{diagnose, format_ascii, parse, Record};

fn rec(pid: u32, ppid: u32, command: &str) -> Record {
    Record { pid, ppid, command: command.to_string() }
}

#[test]
fn input_order_does_not_change_the_tree() {
    let a = parse("810 1 sshd\n1 0 init\n2200 810 bash\n900 1 cron\n");
    let b = parse("900 1 cron\n2200 810 bash\n1 0 init\n810 1 sshd\n");
    assert_eq!(pstidy::render::format(&a), pstidy::render::format(&b));
    assert_eq!(format_ascii(&a), format_ascii(&b));
    let (da, db) = (diagnose(&a), diagnose(&b));
    assert_eq!(da.cycles, db.cycles);
    assert_eq!(da.missing_parent, db.missing_parent);
}

#[test]
fn later_duplicate_changes_nothing() {
    let a = parse("1 0 init\n2 1 sh\n");
    let b = parse("1 0 init\n2 1 sh\n2 7 impostor\n");
    assert_eq!(pstidy::render::format(&a), pstidy::render::format(&b));
    let db = diagnose(&b);
    assert!(db.is_empty());
}

#[test]
fn roots_are_self_parented_missing_parent_or_init() {
    let records = parse("5 999 orphan\n7 7 loopy\n1 0 init\n2 1 child\n");
    assert_eq!(pstidy::render::format(&records), "init (1)\n└── child (2)\norphan (5)\nloopy (7)\n");
    let diag = diagnose(&records);
    assert_eq!(diag.self_parented, vec![7]);
    assert_eq!(diag.missing_parent, vec![(5, 999)]);
    assert!(diag.cycles.is_empty());
    assert!(!diag.is_empty());
}

#[test]
fn ppid_zero_is_a_child_when_pid_zero_exists() {
    let records = parse("1 0 init\n0 0 sched\n");
    assert_eq!(pstidy::render::format(&records), "sched (0)\n└── init (1)\n");
    let diag = diagnose(&records);
    assert_eq!(diag.self_parented, vec![0]);
    assert!(diag.missing_parent.is_empty());
}

#[test]
fn cycle_beside_a_tree_is_dropped_from_format() {
    let records = parse("1 0 init\n2 1 sh\n10 11 a\n11 10 b\n12 11 c\n");
    assert_eq!(pstidy::render::format(&records), "init (1)\n└── sh (2)\n");
    let diag = diagnose(&records);
    assert_eq!(diag.cycles, vec![10, 11, 12]);
    assert!(diag.self_parented.is_empty());
    assert!(diag.missing_parent.is_empty());
}

#[test]
fn spacing_within_lines_does_not_matter() {
    let a = parse("1 0 init\n2 1 sh -c x\n");
    let b = parse("  1\t\t0  init \r\n2 1\u{3000}sh   -c\u{a0}x\n");
    assert_eq!(a.len(), b.len());
    for (x, y) in a.iter().zip(b.iter()) {
        assert_eq!(x.pid, y.pid);
        assert_eq!(x.ppid, y.ppid);
        assert_eq!(x.command, y.command);
    }
    assert_eq!(b[1].command, "sh -c x");
}

#[test]
fn inserted_blank_and_comment_lines_are_skipped() {
    let a = parse("1 0 init\n2 1 sh\n");
    let b = parse("1 0 init\n   \n  # 3 1 hidden\n2 1 sh\n");
    assert_eq!(pstidy::render::format(&a), pstidy::render::format(&b));
    assert_eq!(b.len(), 2);
}

#[test]
fn commands_are_joined_by_single_spaces() {
    let records = parse("1 0    a     b   c   ");
    assert_eq!(records[0].command, "a b c");
}

#[test]
fn numbers_parse_like_u32_from_str() {
    let records = parse("+5 0 plus\n-1 0 minus\n007 0 zeros\n4294967295 0 max\n4294967296 0 over\n+ 0 sign\n");
    let pids: Vec<u32> = records.iter().map(|r| r.pid).collect();
    assert_eq!(pids, vec![5, 7, 4294967295]);
}

#[test]
fn header_only_counts_as_first_content_line() {
    let records = parse("# listing\n1 0 init\nUID PID PPID CMD\n2 1 sh\n");
    assert_eq!(records.len(), 2);
    assert_eq!(records[1].pid, 2);
}

#[test]
fn incomplete_header_falls_back_to_bare_layout() {
    let records = parse("PID PPID NAME\n1 0 init\n");
    assert_eq!(records.len(), 1);
    assert_eq!(records[0].command, "init");
}

#[test]
fn header_with_command_first() {
    let records = parse("Cmd PPid Pid\nbash 1 20\n");
    assert_eq!(records.len(), 1);
    assert_eq!(records[0].pid, 20);
    assert_eq!(records[0].ppid, 1);
    assert_eq!(records[0].command, "bash 1 20");
}

#[test]
fn empty_input_gives_nothing() {
    let records = parse("");
    assert!(records.is_empty());
    assert_eq!(pstidy::render::format(&records), "");
    assert!(diagnose(&records).is_empty());
}

#[test]
fn pid_zero_and_large_pids_are_printed_in_decimal() {
    let records = vec![rec(0, 0, "swapper"), rec(4294967295, 0, "big")];
    assert_eq!(pstidy::render::format(&records), "swapper (0)\n└── big (4294967295)\n");
}

#[test]
fn deep_ascii_tree_uses_blank_and_vertical_prefixes() {
    let records = parse("1 0 a\n2 1 b\n3 2 c\n4 1 d\n5 4 e\n");
    let expected = "a (1)\n|-- b (2)\n|   `-- c (3)\n`-- d (4)\n    `-- e (5)\n";
    assert_eq!(format_ascii(&records), expected);
    let expected = "a (1)\n├── b (2)\n│   └── c (3)\n└── d (4)\n    └── e (5)\n";
    assert_eq!(pstidy::render::format(&records), expected);
}

#[test]
fn files_are_concatenated_one_line_apart() {
    let texts = vec!["1 0 init".to_string(), String::new(), "2 1 sh\n".to_string(), "3 1 x".to_string()];
    assert_eq!(pstidy::text::concat_files(&texts), "1 0 init\n2 1 sh\n3 1 x\n");
    assert_eq!(pstidy::text::concat_files(&Vec::new()), "");
}

#[test]
fn ascii_and_unicode_draw_the_same_processes_in_order() {
    let records = parse("1 0 a\n2 1 b\n3 2 c\n4 1 d\n9 9 z\n");
    let uni = pstidy::render::format(&records);
    let asc = format_ascii(&records);
    let tail = |s: &str| -> Vec<String> {
        s.lines().map(|l| l.rsplit(' ').next().unwrap().to_string()).collect()
    };
    assert_eq!(tail(&uni), tail(&asc));
    assert_eq!(tail(&uni), vec!["(1)", "(2)", "(3)", "(4)", "(9)"]);
}

#[test]
fn each_reachable_pid_is_drawn_once_and_cycles_never() {
    let records = parse("1 0 init\n2 1 a\n3 1 b\n4 2 c\n5 4 d\n6 7 x\n7 6 y\n8 5 e\n");
    let out = pstidy::render::format(&records);
    let mut shown: Vec<u32> = out
        .lines()
        .map(|l| {
            let open = l.rfind('(').unwrap();
            l[open + 1..l.len() - 1].parse().unwrap()
        })
        .collect();
    shown.sort();
    assert_eq!(shown, vec![1, 2, 3, 4, 5, 8]);
    assert_eq!(diagnose(&records).cycles, vec![6, 7]);
}

#[test]
fn ascii_output_is_unicode_output_with_glyphs_swapped() {
    let records = parse("1 0 init\n2 1 a\n3 2 b\n4 1 c\n5 4 d\n6 5 e\n7 7 loop\n");
    let swapped: String = pstidy::render::format(&records)
        .chars()
        .map(|c| match c {
            '├' | '│' => '|',
            '└' => '`',
            '─' => '-',
            other => other,
        })
        .collect();
    assert_eq!(format_ascii(&records), swapped);
}

#[test]
fn flagged_pids_get_plain_root_lines() {
    let records = parse("1 0 init\n5 999 orphan\n7 7 loopy\n8 7 kid\n");
    let out = pstidy::render::format(&records);
    let lines: Vec<&str> = out.lines().collect();
    assert!(lines.contains(&"orphan (5)"));
    assert!(lines.contains(&"loopy (7)"));
    assert!(lines.contains(&"└── kid (8)"));
    assert_eq!(lines.len(), 4);
}
