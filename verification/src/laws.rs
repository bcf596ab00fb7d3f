//! Properties of the library as a whole, over the specifications that the
//! contracts of `parse`, `format`, `format_ascii` and `diagnose` use.

use vstd::prelude::*;

use crate::diagnose::{
    climb, cycle_set, missing_parent_pairs, missing_parent_set, reaches_root, self_parented_set,
};
use crate::forest::{is_root, lemma_table, root_set, table};
use crate::records::{
    header_layout, is_skipped, lemma_parse_lines_by_fields, lemma_parse_std_lines, parse_lines,
    parse_spec, position_of, push_some, record_of, word_cmd, word_command, word_pid, word_ppid,
    Layout, RecordView,
};
use crate::text::{
    all_digits, concatenated, decimal, decimal_value, digit_char, digit_value, eq_ignore_case,
    fields, is_ws, join_words, lemma_fields_wellformed, lemma_split_lines_nonempty, parse_u32_spec,
    split_lines, std_lines, trim_start,
};
use crate::order::{increasing, lemma_ascending_finite};
use crate::render::{render_tree, Glyphs};

verus! {

/// No two records share a pid.
pub open spec fn distinct_pids(rs: Seq<RecordView>) -> bool {
    forall|i: int, j: int| 0 <= i < rs.len() && 0 <= j < rs.len() && i != j ==> rs[i].pid != rs[j].pid
}

/// With distinct pids, the table maps each record's pid to that record and
/// holds no other pid.
pub proof fn lemma_table_distinct(rs: Seq<RecordView>)
    requires
        distinct_pids(rs),
    ensures
        forall|i: int| 0 <= i < rs.len() ==> #[trigger] table(rs)[rs[i].pid] == rs[i],
        forall|p: u32| #[trigger] table(rs).contains_key(p) <==> exists|i: int| 0 <= i < rs.len() && rs[i].pid == p,
    decreases rs.len(),
{
    lemma_table(rs);
    if rs.len() > 0 {
        let pre = rs.drop_last();
        assert(distinct_pids(pre)) by {
            assert forall|i: int, j: int| 0 <= i < pre.len() && 0 <= j < pre.len() && i != j implies pre[i].pid != pre[j].pid by {
                assert(rs[i] == pre[i] && rs[j] == pre[j]);
            }
        }
        lemma_table_distinct(pre);
        let last = rs.last();
        assert(!table(pre).contains_key(last.pid)) by {
            if table(pre).contains_key(last.pid) {
                let i = choose|i: int| 0 <= i < pre.len() && pre[i].pid == last.pid;
                assert(rs[i].pid == rs[rs.len() - 1].pid);
            }
        }
        assert forall|i: int| 0 <= i < rs.len() implies #[trigger] table(rs)[rs[i].pid] == rs[i] by {
            if i < rs.len() - 1 {
                assert(pre[i] == rs[i]);
                assert(rs[i].pid != last.pid);
            }
        }
        assert forall|p: u32| #[trigger] table(rs).contains_key(p) implies exists|i: int| 0 <= i < rs.len() && rs[i].pid == p by {
            if table(pre).contains_key(p) {
                let i = choose|i: int| 0 <= i < pre.len() && pre[i].pid == p;
                assert(rs[i].pid == p);
            } else {
                assert(rs[rs.len() - 1].pid == p);
            }
        }
    }
}

/// The order of the input does not matter: two lists holding the same
/// records, no pid twice, give the same tree and the same diagnostics.
pub proof fn law_input_order_irrelevant(rs1: Seq<RecordView>, rs2: Seq<RecordView>, g: Glyphs)
    requires
        distinct_pids(rs1),
        distinct_pids(rs2),
        rs1.to_set() == rs2.to_set(),
    ensures
        table(rs1) == table(rs2),
        render_tree(table(rs1), g) == render_tree(table(rs2), g),
        self_parented_set(table(rs1)) == self_parented_set(table(rs2)),
        missing_parent_pairs(table(rs1)) == missing_parent_pairs(table(rs2)),
        cycle_set(table(rs1)) == cycle_set(table(rs2)),
{
    lemma_table_distinct(rs1);
    lemma_table_distinct(rs2);
    let t1 = table(rs1);
    let t2 = table(rs2);
    assert forall|p: u32| #[trigger] t1.contains_key(p) implies t2.contains_key(p) && t1[p] == t2[p] by {
        let i = choose|i: int| 0 <= i < rs1.len() && rs1[i].pid == p;
        assert(t1[rs1[i].pid] == rs1[i]);
        assert(rs1.to_set().contains(rs1[i]));
        let j = choose|j: int| 0 <= j < rs2.len() && rs2[j] == rs1[i];
        assert(t2[rs2[j].pid] == rs2[j]);
    }
    assert forall|p: u32| #[trigger] t2.contains_key(p) implies t1.contains_key(p) by {
        let j = choose|j: int| 0 <= j < rs2.len() && rs2[j].pid == p;
        assert(rs2.to_set().contains(rs2[j]));
        let i = choose|i: int| 0 <= i < rs1.len() && rs1[i] == rs2[j];
        assert(rs1[i].pid == p);
    }
    assert(t1.dom() =~= t2.dom());
    assert(t1 =~= t2);
}

/// Of records sharing a pid the first one wins: a record whose pid came
/// earlier changes neither the tree nor the diagnostics.
pub proof fn law_later_duplicate_ignored(rs: Seq<RecordView>, r: RecordView, g: Glyphs)
    requires
        exists|i: int| 0 <= i < rs.len() && rs[i].pid == r.pid,
    ensures
        table(rs.push(r)) == table(rs),
        render_tree(table(rs.push(r)), g) == render_tree(table(rs), g),
        self_parented_set(table(rs.push(r))) == self_parented_set(table(rs)),
        missing_parent_pairs(table(rs.push(r))) == missing_parent_pairs(table(rs)),
        cycle_set(table(rs.push(r))) == cycle_set(table(rs)),
{
    lemma_table(rs);
    let i = choose|i: int| 0 <= i < rs.len() && rs[i].pid == r.pid;
    assert(table(rs).contains_key(rs[i].pid));
    assert(rs.push(r).drop_last() == rs);
}

/// The roots that `format` draws are exactly the self-parented pids, the
/// pids whose parent is missing, and the pids whose ppid is 0 where no
/// record has pid 0.
pub proof fn law_roots_are_flagged_or_init(rs: Seq<RecordView>)
    ensures
        ({
            let t = table(rs);
            root_set(t) == self_parented_set(t) + missing_parent_set(t) + t.dom().filter(
                |p: u32| t[p].ppid == 0 && p != 0 && !t.contains_key(0),
            )
        }),
{
    let t = table(rs);
    assert(root_set(t) =~= self_parented_set(t) + missing_parent_set(t) + t.dom().filter(
        |p: u32| t[p].ppid == 0 && p != 0 && !t.contains_key(0),
    ));
}

/// The pids that `diagnose` reports as cycles are never roots, and the
/// parent of each of them is again one of them: following ppids from there
/// goes round without reaching a root.
pub proof fn law_cycles_closed_under_parent(rs: Seq<RecordView>, p: u32)
    requires
        cycle_set(table(rs)).contains(p),
    ensures
        !is_root(table(rs), p),
        !root_set(table(rs)).contains(p),
        table(rs).contains_key(table(rs)[p].ppid),
        cycle_set(table(rs)).contains(table(rs)[p].ppid),
{
    let t = table(rs);
    assert(!reaches_root(t, p));
    assert(climb(t, p, 0) == p);
    assert(!is_root(t, p));
    let q = t[p].ppid;
    if reaches_root(t, q) {
        let k = choose|k: nat| is_root(t, #[trigger] climb(t, q, k));
        assert(climb(t, p, k + 1) == climb(t, q, k));
    }
}


/// Whitespace within a line does not matter: two inputs whose lines, one by
/// one, split into the same fields give the same records.
pub proof fn law_parse_ignores_spacing(a: Seq<char>, b: Seq<char>)
    requires
        std_lines(a).len() == std_lines(b).len(),
        forall|i: int|
            0 <= i < std_lines(a).len() ==> fields(#[trigger] std_lines(a)[i]) == fields(
                std_lines(b)[i],
            ),
    ensures
        parse_spec(a) == parse_spec(b),
{
    lemma_parse_lines_by_fields(std_lines(a), std_lines(b));
}

/// Splitting at a newline splits the lines.
pub proof fn lemma_split_lines_concat(a: Seq<char>, b: Seq<char>)
    ensures
        split_lines(a + seq!['\n'] + b) == split_lines(a) + split_lines(b),
    decreases b.len(),
{
    let s = a + seq!['\n'] + b;
    if b.len() == 0 {
        assert(s.drop_last() == a);
        assert(s == a + seq!['\n']);
        assert(split_lines(b) == seq![Seq::<char>::empty()]);
    } else {
        let b1 = b.drop_last();
        lemma_split_lines_concat(a, b1);
        assert(s.drop_last() == a + seq!['\n'] + b1);
        lemma_split_lines_nonempty(b1);
        lemma_split_lines_nonempty(a);
        let x = split_lines(a);
        let y = split_lines(b1);
        if b.last() == '\n' {
            assert(split_lines(s) == (x + y).push(Seq::<char>::empty()));
            assert((x + y).push(Seq::<char>::empty()) == x + y.push(Seq::<char>::empty()));
        } else {
            let z = x + y;
            assert(z.update(z.len() - 1, z.last().push(b.last())) == x + y.update(
                y.len() - 1,
                y.last().push(b.last()),
            ));
        }
    }
}

/// A line without a newline in it is one line.
pub proof fn lemma_split_lines_single(x: Seq<char>)
    requires
        !x.contains('\n'),
    ensures
        split_lines(x) == seq![x],
    decreases x.len(),
{
    if x.len() > 0 {
        let pre = x.drop_last();
        assert(!pre.contains('\n')) by {
            if pre.contains('\n') {
                let i = choose|i: int| 0 <= i < pre.len() && pre[i] == '\n';
                assert(x[i] == '\n');
            }
        }
        lemma_split_lines_single(pre);
        assert(x[x.len() - 1] != '\n');
        assert(pre.push(x.last()) == x);
    } else {
        assert(x == Seq::<char>::empty());
    }
}

/// A skipped line changes nothing wherever it stands.
proof fn lemma_parse_lines_skip(la: Seq<Seq<char>>, x: Seq<char>, lb: Seq<Seq<char>>)
    requires
        is_skipped(x),
    ensures
        parse_lines(la + seq![x] + lb) == parse_lines(la + lb),
    decreases lb.len(),
{
    if lb.len() == 0 {
        assert(la + seq![x] + lb == la.push(x));
        assert((la + seq![x] + lb).drop_last() == la);
        assert(la + lb == la);
    } else {
        let lb1 = lb.drop_last();
        lemma_parse_lines_skip(la, x, lb1);
        assert((la + seq![x] + lb).drop_last() == la + seq![x] + lb1);
        assert((la + lb).drop_last() == la + lb1);
    }
}

/// Blank lines and `#` comment lines are skipped: inserting one between
/// two lines of an input does not change the records it gives.
pub proof fn law_blank_and_comment_lines_skipped(a: Seq<char>, x: Seq<char>, b: Seq<char>)
    requires
        !x.contains('\n'),
        is_skipped(x),
    ensures
        parse_spec(a + seq!['\n'] + x + seq!['\n'] + b) == parse_spec(a + seq!['\n'] + b),
{
    lemma_split_lines_concat(x, b);
    lemma_split_lines_concat(a, x + seq!['\n'] + b);
    assert(a + seq!['\n'] + (x + seq!['\n'] + b) == a + seq!['\n'] + x + seq!['\n'] + b);
    lemma_split_lines_concat(a, b);
    lemma_split_lines_single(x);
    let la = split_lines(a);
    let lb = split_lines(b);
    assert(la + (seq![x] + lb) == la + seq![x] + lb);
    lemma_parse_lines_skip(la, x, lb);
    lemma_parse_std_lines(a + seq!['\n'] + x + seq!['\n'] + b);
    lemma_parse_std_lines(a + seq!['\n'] + b);
}

/// The shape of a command: not empty, no whitespace at either end, and no
/// whitespace inside but single spaces.
pub open spec fn tidy_command(c: Seq<char>) -> bool {
    &&& c.len() > 0
    &&& !is_ws(c[0])
    &&& !is_ws(c.last())
    &&& forall|k: int| 0 <= k < c.len() && is_ws(#[trigger] c[k]) ==> c[k] == ' '
}

proof fn lemma_join_tidy(ws: Seq<Seq<char>>)
    requires
        ws.len() > 0,
        forall|i: int| 0 <= i < ws.len() ==> #[trigger] ws[i].len() > 0,
        forall|i: int, j: int| 0 <= i < ws.len() && 0 <= j < ws[i].len() ==> !is_ws(#[trigger] ws[i][j]),
    ensures
        tidy_command(join_words(ws)),
    decreases ws.len(),
{
    if ws.len() == 1 {
        assert(ws[0].len() > 0);
        assert(!is_ws(ws[0][0]));
        assert(!is_ws(ws[0][ws[0].len() - 1]));
    } else {
        let pre = ws.drop_last();
        assert forall|i: int| 0 <= i < pre.len() implies #[trigger] pre[i].len() > 0 by {
            assert(pre[i] == ws[i]);
        }
        assert forall|i: int, j: int| 0 <= i < pre.len() && 0 <= j < pre[i].len() implies !is_ws(#[trigger] pre[i][j]) by {
            assert(pre[i] == ws[i]);
        }
        lemma_join_tidy(pre);
        let jp = join_words(pre);
        let last = ws.last();
        assert(last == ws[ws.len() - 1]);
        assert(last.len() > 0);
        let j = join_words(ws);
        assert(j == jp + seq![' '] + last);
        assert(!is_ws(last[last.len() - 1]));
        assert forall|k: int| 0 <= k < j.len() && is_ws(#[trigger] j[k]) implies j[k] == ' ' by {
            if k < jp.len() {
                assert(j[k] == jp[k]);
            } else if k > jp.len() {
                assert(j[k] == last[k - jp.len() - 1]);
            }
        }
    }
}

proof fn lemma_parse_lines_tidy(ls: Seq<Seq<char>>)
    ensures
        forall|i: int|
            0 <= i < parse_lines(ls).1.len() ==> tidy_command(#[trigger] parse_lines(ls).1[i].command),
    decreases ls.len(),
{
    if ls.len() > 0 {
        lemma_parse_lines_tidy(ls.drop_last());
        let st = parse_lines(ls.drop_last());
        let fs = fields(ls.last());
        lemma_fields_wellformed(ls.last());
        assert forall|lay: crate::records::Layout| #![trigger record_of(lay, fs)]
            record_of(lay, fs) is Some implies tidy_command(record_of(lay, fs)->0.command) by {
            if lay.cmd_idx < fs.len() {
                let rest = fs.skip(lay.cmd_idx as int);
                assert forall|i: int| 0 <= i < rest.len() implies #[trigger] rest[i].len() > 0 by {
                    assert(rest[i] == fs[i + lay.cmd_idx]);
                }
                assert forall|i: int, j: int| 0 <= i < rest.len() && 0 <= j < rest[i].len() implies !is_ws(#[trigger] rest[i][j]) by {
                    assert(rest[i] == fs[i + lay.cmd_idx]);
                }
                lemma_join_tidy(rest);
            }
            assert(!is_ws('?'));
        }
        let out = parse_lines(ls).1;
        assert forall|i: int| 0 <= i < out.len() implies tidy_command(#[trigger] out[i].command) by {
            if i < st.1.len() {
                assert(out[i] == st.1[i]) by {
                    if !is_skipped(ls.last()) {
                        match st.0 {
                            None => match crate::records::header_layout(fs) {
                                Some(h) => {},
                                None => {
                                    let o = record_of(crate::records::Layout::spec_bare(), fs);
                                    if o is Some {
                                        assert(out == st.1.push(o->0));
                                    }
                                },
                            },
                            Some(lay) => {
                                let o = record_of(lay, fs);
                                if o is Some {
                                    assert(out == st.1.push(o->0));
                                }
                            },
                        }
                    }
                }
            }
        }
    }
}

/// Every record that `parse` gives has a tidy command: never empty (a line
/// without one gets `"?"`), with its words joined by single spaces.
pub proof fn law_parsed_commands_tidy(input: Seq<char>)
    ensures
        forall|i: int|
            0 <= i < parse_spec(input).len() ==> tidy_command(#[trigger] parse_spec(input)[i].command),
{
    lemma_parse_lines_tidy(std_lines(input));
}


/// The pids of the table that satisfy `pred` are finitely many, and
/// `ascending` lists exactly them, smallest first.
proof fn lemma_listed(t: Map<u32, RecordView>, s: Set<u32>)
    requires
        t.dom().finite(),
        s.subset_of(t.dom()),
    ensures
        increasing(ascending_of(s)),
        forall|p: u32| #[trigger] ascending_of(s).contains(p) <==> s.contains(p),
{
    vstd::set_lib::lemma_len_subset(s, t.dom());
    lemma_ascending_finite(s);
    assert forall|p: u32| #[trigger] ascending_of(s).contains(p) <==> s.contains(p) by {
        assert(ascending_of(s).to_set().contains(p) == ascending_of(s).contains(p));
    }
}

pub open spec fn ascending_of(s: Set<u32>) -> Seq<u32> {
    crate::order::ascending(s)
}

/// `diagnose` reports, in increasing pid order and once each, every pid
/// whose ppid is neither itself nor 0 and matches no record, paired with
/// that ppid, and nothing else.
pub proof fn law_missing_parents_listed(rs: Seq<RecordView>)
    ensures
        ({
            let t = table(rs);
            let m = missing_parent_pairs(t);
            &&& forall|i: int|
                0 <= i < m.len() ==> t.contains_key(#[trigger] m[i].0) && m[i].1 == t[m[i].0].ppid
                    && m[i].1 != m[i].0 && m[i].1 != 0 && !t.contains_key(m[i].1)
            &&& forall|p: u32|
                #[trigger] t.contains_key(p) && t[p].ppid != p && t[p].ppid != 0 && !t.contains_key(
                    t[p].ppid,
                ) ==> exists|i: int| 0 <= i < m.len() && m[i] == (p, t[p].ppid)
            &&& forall|i: int, j: int| 0 <= i < j < m.len() ==> m[i].0 < m[j].0
        }),
{
    let t = table(rs);
    lemma_table(rs);
    let s = missing_parent_set(t);
    lemma_listed(t, s);
    let a = ascending_of(s);
    let m = missing_parent_pairs(t);
    assert forall|i: int| 0 <= i < m.len() implies t.contains_key(#[trigger] m[i].0) && m[i].1
        == t[m[i].0].ppid && m[i].1 != m[i].0 && m[i].1 != 0 && !t.contains_key(m[i].1) by {
        assert(m[i] == (a[i], t[a[i]].ppid));
        assert(a.contains(a[i]));
    }
    assert forall|p: u32|
        #[trigger] t.contains_key(p) && t[p].ppid != p && t[p].ppid != 0 && !t.contains_key(t[p].ppid)
            implies exists|i: int| 0 <= i < m.len() && m[i] == (p, t[p].ppid) by {
        assert(s.contains(p));
        assert(a.contains(p));
        let i = choose|i: int| 0 <= i < a.len() && a[i] == p;
        assert(m[i] == (p, t[p].ppid));
    }
    assert forall|i: int, j: int| 0 <= i < j < m.len() implies m[i].0 < m[j].0 by {
        assert(m[i].0 == a[i] && m[j].0 == a[j]);
    }
}

/// `diagnose` reports, in increasing order and once each, exactly the pids
/// whose ppid is their own pid.
pub proof fn law_self_parented_listed(rs: Seq<RecordView>)
    ensures
        ({
            let t = table(rs);
            let sp = ascending_of(self_parented_set(t));
            &&& forall|p: u32| #[trigger] sp.contains(p) <==> (t.contains_key(p) && t[p].ppid == p)
            &&& increasing(sp)
        }),
{
    let t = table(rs);
    lemma_table(rs);
    lemma_listed(t, self_parented_set(t));
}

/// `diagnose` reports as cycles, in increasing order and once each, exactly
/// the pids from which no number of ppid steps reaches a root.
pub proof fn law_cycles_listed(rs: Seq<RecordView>)
    ensures
        ({
            let t = table(rs);
            let c = ascending_of(cycle_set(t));
            &&& forall|p: u32|
                #[trigger] c.contains(p) <==> (t.contains_key(p) && forall|k: nat|
                    !is_root(t, #[trigger] climb(t, p, k)))
            &&& increasing(c)
        }),
{
    let t = table(rs);
    lemma_table(rs);
    lemma_listed(t, cycle_set(t));
}

/// A data line gives a record exactly when its pid and ppid columns exist
/// and hold numbers; those are its pid and ppid, and its command is exactly
/// its fields from the command column on, joined by single spaces, with
/// `"?"` only when there are none.
pub proof fn law_command_is_the_joined_fields(lay: Layout, fs: Seq<Seq<char>>)
    requires
        forall|i: int| 0 <= i < fs.len() ==> #[trigger] fs[i].len() > 0,
    ensures
        record_of(lay, fs) is Some <==> (lay.pid_idx < fs.len() && lay.ppid_idx < fs.len() && parse_u32_spec(
            fs[lay.pid_idx as int],
        ) is Some && parse_u32_spec(fs[lay.ppid_idx as int]) is Some),
        record_of(lay, fs) matches Some(r) ==> {
            &&& Some(r.pid) == parse_u32_spec(fs[lay.pid_idx as int])
            &&& Some(r.ppid) == parse_u32_spec(fs[lay.ppid_idx as int])
            &&& lay.cmd_idx < fs.len() ==> r.command == join_words(fs.skip(lay.cmd_idx as int))
            &&& lay.cmd_idx >= fs.len() ==> r.command == seq!['?']
        },
{
    if lay.cmd_idx < fs.len() {
        let rest = fs.skip(lay.cmd_idx as int);
        lemma_join_nonempty(rest);
    }
}

proof fn lemma_join_nonempty(ws: Seq<Seq<char>>)
    requires
        ws.len() > 0,
        forall|i: int| 0 <= i < ws.len() ==> #[trigger] ws[i].len() > 0,
    ensures
        join_words(ws).len() > 0,
    decreases ws.len(),
{
    if ws.len() > 1 {
        assert(ws[ws.len() - 1].len() > 0);
    } else {
        assert(ws[0].len() > 0);
    }
}

/// The parse state after the given lines.
proof fn lemma_parse_two(h: Seq<char>, x: Seq<char>)
    ensures
        parse_lines(seq![h, x]) == crate::records::parse_step(
            crate::records::parse_step((None, Seq::<RecordView>::empty()), h),
            x,
        ),
{
    reveal_with_fuel(parse_lines, 3);
    assert(seq![h, x].drop_last() == seq![h]);
    assert(seq![h].drop_last() == Seq::<Seq<char>>::empty());
}

/// A `ps -ef` style header row followed by a data line gives one record:
/// the numbers in the header's PID and PPID columns, and as command the
/// fields from the header's CMD/COMMAND column on, joined by single spaces
/// (`"?"` when the line ends before that column).
pub proof fn law_header_then_line(h: Seq<char>, x: Seq<char>, lay: Layout)
    requires
        !h.contains('\n'),
        !x.contains('\n'),
        !is_skipped(h),
        !is_skipped(x),
        header_layout(fields(h)) == Some(lay),
        lay.pid_idx < fields(x).len(),
        lay.ppid_idx < fields(x).len(),
        parse_u32_spec(fields(x)[lay.pid_idx as int]) is Some,
        parse_u32_spec(fields(x)[lay.ppid_idx as int]) is Some,
    ensures
        parse_spec(h + seq!['\n'] + x) == seq![
            RecordView {
                pid: parse_u32_spec(fields(x)[lay.pid_idx as int])->0,
                ppid: parse_u32_spec(fields(x)[lay.ppid_idx as int])->0,
                command: if lay.cmd_idx < fields(x).len() {
                    join_words(fields(x).skip(lay.cmd_idx as int))
                } else {
                    seq!['?']
                },
            },
        ],
{
    let s = h + seq!['\n'] + x;
    lemma_parse_std_lines(s);
    lemma_split_lines_concat(h, x);
    lemma_split_lines_single(h);
    lemma_split_lines_single(x);
    assert(split_lines(s) == seq![h, x]);
    lemma_parse_two(h, x);
    let fs = fields(x);
    lemma_fields_wellformed(x);
    law_command_is_the_joined_fields(lay, fs);
    assert(Seq::<RecordView>::empty().push(record_of(lay, fs)->0) == seq![record_of(lay, fs)->0]);
}

/// A single data line in the bare "pid ppid command" format gives one
/// record: the first two fields as numbers, and as command the remaining
/// fields joined by single spaces (`"?"` when there are none).
pub proof fn law_bare_line(x: Seq<char>)
    requires
        !x.contains('\n'),
        !is_skipped(x),
        header_layout(fields(x)) is None,
        fields(x).len() >= 2,
        parse_u32_spec(fields(x)[0]) is Some,
        parse_u32_spec(fields(x)[1]) is Some,
    ensures
        parse_spec(x) == seq![
            RecordView {
                pid: parse_u32_spec(fields(x)[0])->0,
                ppid: parse_u32_spec(fields(x)[1])->0,
                command: if fields(x).len() > 2 {
                    join_words(fields(x).skip(2))
                } else {
                    seq!['?']
                },
            },
        ],
{
    lemma_parse_std_lines(x);
    lemma_split_lines_single(x);
    reveal_with_fuel(parse_lines, 2);
    assert(seq![x].drop_last() == Seq::<Seq<char>>::empty());
    let fs = fields(x);
    lemma_fields_wellformed(x);
    law_command_is_the_joined_fields(Layout::spec_bare(), fs);
    let lay = Layout::spec_bare();
    assert(Seq::<RecordView>::empty().push(record_of(lay, fs)->0) == seq![record_of(lay, fs)->0]);
}

/// Files are read one after another, and after each one the text read so
/// far ends a line: a file's text follows what came before unchanged, with
/// at most a newline added after it, and none when the text read so far
/// already ends a line (in particular when the file ends with a newline).
pub proof fn law_files_end_lines(ts: Seq<Seq<char>>)
    ensures
        ts.len() == 0 ==> concatenated(ts).len() == 0,
        ts.len() > 0 ==> concatenated(ts).len() > 0 && concatenated(ts).last() == '\n',
        ts.len() > 0 ==> (concatenated(ts.drop_last()) + ts.last()).is_prefix_of(concatenated(ts)),
        ts.len() > 0 ==> concatenated(ts).len() <= concatenated(ts.drop_last()).len() + ts.last().len() + 1,
        ts.len() > 0 && ts.last().len() > 0 && ts.last().last() == '\n' ==> concatenated(ts) == concatenated(ts.drop_last()) + ts.last(),
        ts.len() > 0 && (concatenated(ts.drop_last()) + ts.last()).len() > 0 && (concatenated(ts.drop_last())
            + ts.last()).last() == '\n' ==> concatenated(ts) == concatenated(ts.drop_last()) + ts.last(),
{
    if ts.len() > 0 {
        let b = concatenated(ts.drop_last()) + ts.last();
        if ts.last().len() > 0 && ts.last().last() == '\n' {
            assert(b.last() == ts.last().last());
        }
        assert(b.is_prefix_of(b.push('\n')));
        assert(b.is_prefix_of(b));
    }
}

/// Field `k` of `fs` equals one of `names`, ASCII case ignored.
pub open spec fn names_field(fs: Seq<Seq<char>>, names: Seq<Seq<char>>, k: int) -> bool {
    &&& 0 <= k < fs.len()
    &&& exists|j: int| 0 <= j < names.len() && eq_ignore_case(fs[k], #[trigger] names[j])
}

/// Field `k` of `fs` is the first that equals one of `names`.
pub open spec fn first_named(fs: Seq<Seq<char>>, names: Seq<Seq<char>>, k: int) -> bool {
    &&& names_field(fs, names, k)
    &&& forall|m: int| 0 <= m < k ==> !#[trigger] names_field(fs, names, m)
}

proof fn lemma_position_of(fs: Seq<Seq<char>>, names: Seq<Seq<char>>)
    ensures
        position_of(fs, names) is None <==> forall|k: int| !#[trigger] names_field(fs, names, k),
        position_of(fs, names) matches Some(k) ==> first_named(fs, names, k),
    decreases fs.len(),
{
    if fs.len() > 0 {
        let pre = fs.drop_last();
        lemma_position_of(pre, names);
        assert forall|m: int| 0 <= m < pre.len() implies #[trigger] names_field(fs, names, m) == names_field(
            pre,
            names,
            m,
        ) by {
            assert(fs[m] == pre[m]);
        }
        assert(fs[fs.len() - 1] == fs.last());
        if position_of(pre, names) is None {
            if names_field(fs, names, fs.len() - 1) {
            } else {
                assert forall|k: int| !#[trigger] names_field(fs, names, k) by {
                    if 0 <= k < pre.len() {
                        assert(!names_field(pre, names, k));
                    }
                }
            }
        } else {
            let k = position_of(pre, names)->0;
            assert(names_field(pre, names, k));
            assert(names_field(fs, names, k));
        }
    }
}

/// The name of the pid column.
pub open spec fn pid_names() -> Seq<Seq<char>> {
    seq![word_pid()]
}

/// The name of the ppid column.
pub open spec fn ppid_names() -> Seq<Seq<char>> {
    seq![word_ppid()]
}

/// The names of the command column.
pub open spec fn cmd_names() -> Seq<Seq<char>> {
    seq![word_cmd(), word_command()]
}

/// A line is read as a `ps -ef` style header row exactly when its fields
/// include `PID`, `PPID`, and `CMD` or `COMMAND`, each compared without
/// regard to ASCII case; its columns are then the first field of each kind.
pub proof fn law_header_columns(fs: Seq<Seq<char>>)
    requires
        fs.len() <= usize::MAX,
    ensures
        header_layout(fs) is Some <==> ((exists|k: int| #[trigger] names_field(fs, pid_names(), k))
            && (exists|k: int| #[trigger] names_field(fs, ppid_names(), k)) && (exists|k: int|
            #[trigger] names_field(fs, cmd_names(), k))),
        header_layout(fs) matches Some(lay) ==> {
            &&& first_named(fs, pid_names(), lay.pid_idx as int)
            &&& first_named(fs, ppid_names(), lay.ppid_idx as int)
            &&& first_named(fs, cmd_names(), lay.cmd_idx as int)
        },
{
    lemma_position_of(fs, pid_names());
    lemma_position_of(fs, ppid_names());
    lemma_position_of(fs, cmd_names());
}

/// Once the first content line has fixed the column layout `lay` (a header
/// row's, or the bare one), every further line that is not skipped adds
/// exactly the record its fields give under `lay`, or nothing when its pid
/// or ppid column is missing or no number; a later line that looks like a
/// header is read as data as well.
pub proof fn law_later_lines_use_the_layout(a: Seq<char>, x: Seq<char>, lay: Layout)
    requires
        parse_lines(std_lines(a)).0 == Some(lay),
        !x.contains('\n'),
        !is_skipped(x),
    ensures
        parse_spec(a + seq!['\n'] + x) == push_some(parse_spec(a), record_of(lay, fields(x))),
{
    let s = a + seq!['\n'] + x;
    lemma_parse_std_lines(s);
    lemma_parse_std_lines(a);
    lemma_split_lines_concat(a, x);
    lemma_split_lines_single(x);
    let la = split_lines(a);
    assert((la + seq![x]).drop_last() == la);
    assert((la + seq![x]).last() == x);
}

proof fn lemma_decimal_value(n: nat)
    ensures
        decimal_value(decimal(n)) == n,
        decimal(n)[0] == '0' ==> n == 0,
    decreases n,
{
    let d = decimal(n);
    if n >= 10 {
        lemma_decimal_value(n / 10);
        crate::text::lemma_decimal_digits(n / 10);
        assert(d.drop_last() == decimal(n / 10));
        assert(d.last() == digit_char(n % 10));
        assert(digit_value(digit_char(n % 10)) == n % 10);
        assert((n / 10) * 10 + n % 10 == n) by (nonlinear_arith);
        assert(decimal_value(d) == decimal_value(d.drop_last()) * 10 + digit_value(d.last()));
        assert(d[0] == decimal(n / 10)[0]);
    } else {
        assert(d.drop_last() == Seq::<char>::empty());
        assert(decimal_value(Seq::<char>::empty()) == 0);
        assert(d.last() == digit_char(n));
        assert(digit_value(digit_char(n)) == n);
        assert(decimal_value(d) == decimal_value(d.drop_last()) * 10 + digit_value(d.last()));
    }
}

/// The pid at the end of a line, ` (pid)`, is written as `u32::to_string`
/// writes it: decimal digits without a leading zero, which the parser reads
/// back as the same pid.
pub proof fn law_pid_text_reads_back(n: u32)
    ensures
        parse_u32_spec(decimal(n as nat)) == Some(n),
        decimal(n as nat)[0] == '0' ==> n == 0,
{
    lemma_decimal_value(n as nat);
    crate::text::lemma_decimal_digits(n as nat);
    let d = decimal(n as nat);
    assert(crate::text::is_digit(d[0]));
    assert(all_digits(d));
}

proof fn lemma_fields_push_word(a: Seq<char>, w: Seq<char>)
    requires
        a.len() == 0 || is_ws(a.last()),
        w.len() > 0,
        forall|i: int| 0 <= i < w.len() ==> !is_ws(#[trigger] w[i]),
    ensures
        fields(a + w) == fields(a).push(w),
    decreases w.len(),
{
    let s = a + w;
    if w.len() == 1 {
        assert(s.drop_last() == a);
        assert(s.last() == w[0]);
        assert(w == seq![w[0]]);
        if s.len() >= 2 {
            assert(s[s.len() - 2] == a.last());
        }
    } else {
        let w1 = w.drop_last();
        lemma_fields_push_word(a, w1);
        assert(s.drop_last() == a + w1);
        assert(s[s.len() - 2] == w1.last());
        assert(!is_ws(w[w.len() - 1]));
        assert(w1.push(w.last()) =~= w);
        assert(fields(a).push(w1).update(fields(a).len() as int, w1.push(w.last())) =~= fields(a).push(w));
    }
}

/// The number of characters in the words `ws`.
pub open spec fn total_len(ws: Seq<Seq<char>>) -> nat
    decreases ws.len(),
{
    if ws.len() == 0 {
        0
    } else {
        total_len(ws.drop_last()) + ws.last().len()
    }
}

/// Words joined by single spaces, as a command is made of its fields, come
/// apart again into the same words at whitespace, and the joined text has
/// one character more than the words for each gap between two of them.
pub proof fn law_joined_words_split_back(ws: Seq<Seq<char>>)
    requires
        forall|i: int| 0 <= i < ws.len() ==> #[trigger] ws[i].len() > 0,
        forall|i: int, j: int| 0 <= i < ws.len() && 0 <= j < ws[i].len() ==> !is_ws(#[trigger] ws[i][j]),
    ensures
        fields(join_words(ws)) == ws,
        ws.len() > 0 ==> join_words(ws).len() == total_len(ws) + ws.len() - 1,
    decreases ws.len(),
{
    if ws.len() > 0 {
        let w = ws.last();
        assert(w == ws[ws.len() - 1]);
        assert(forall|j: int| 0 <= j < w.len() ==> !is_ws(#[trigger] w[j]));
        let empty = Seq::<char>::empty();
        if ws.len() == 1 {
            lemma_fields_push_word(empty, w);
            assert(empty + w == w);
            assert(fields(empty) == Seq::<Seq<char>>::empty());
            assert(ws == seq![w]);
            assert(ws.drop_last() == Seq::<Seq<char>>::empty());
        } else {
            let pre = ws.drop_last();
            assert forall|i: int| 0 <= i < pre.len() implies #[trigger] pre[i].len() > 0 by {
                assert(pre[i] == ws[i]);
            }
            assert forall|i: int, j: int| 0 <= i < pre.len() && 0 <= j < pre[i].len() implies !is_ws(
                #[trigger] pre[i][j],
            ) by {
                assert(pre[i] == ws[i]);
            }
            law_joined_words_split_back(pre);
            let a = join_words(pre) + seq![' '];
            assert(a.drop_last() == join_words(pre));
            assert(fields(a) == fields(join_words(pre)));
            lemma_fields_push_word(a, w);
            assert(join_words(ws) == a + w);
            assert(pre.push(w) == ws);
        }
    }
}

proof fn lemma_trim_start(x: Seq<char>) -> (k: int)
    ensures
        0 <= k <= x.len(),
        trim_start(x) == x.skip(k),
        forall|i: int| 0 <= i < k ==> is_ws(#[trigger] x[i]),
        k < x.len() ==> !is_ws(x[k]),
    decreases x.len(),
{
    if x.len() > 0 && is_ws(x[0]) {
        let rest = x.drop_first();
        let k1 = lemma_trim_start(rest);
        assert(rest.skip(k1) == x.skip(k1 + 1));
        assert forall|i: int| 0 <= i < k1 + 1 implies is_ws(#[trigger] x[i]) by {
            if i > 0 {
                assert(x[i] == rest[i - 1]);
            }
        }
        if k1 + 1 < x.len() {
            assert(x[k1 + 1] == rest[k1]);
        }
        k1 + 1
    } else {
        assert(x.skip(0) == x);
        0
    }
}

/// The lines that the parser skips are exactly those with nothing but
/// whitespace, and those whose first character other than whitespace is
/// `#`.
pub proof fn law_skipped_lines(x: Seq<char>)
    ensures
        is_skipped(x) <==> ((forall|i: int| 0 <= i < x.len() ==> is_ws(#[trigger] x[i])) || exists|k: int|
            0 <= k < x.len() && #[trigger] x[k] == '#' && forall|i: int| 0 <= i < k ==> is_ws(#[trigger] x[i])),
{
    let k = lemma_trim_start(x);
    let trimmed = trim_start(x);
    if trimmed.len() > 0 {
        assert(trimmed[0] == x[k]);
    }
    if forall|i: int| 0 <= i < x.len() ==> is_ws(#[trigger] x[i]) {
        if k < x.len() {
            assert(is_ws(x[k]));
        }
    }
    if exists|m: int| 0 <= m < x.len() && #[trigger] x[m] == '#' && forall|i: int| 0 <= i < m ==> is_ws(#[trigger] x[i]) {
        let m = choose|m: int| 0 <= m < x.len() && #[trigger] x[m] == '#' && forall|i: int| 0 <= i < m ==> is_ws(#[trigger] x[i]);
        assert(!is_ws('#'));
        if k < m {
            assert(is_ws(x[k]));
        }
        if m < k {
            assert(is_ws(x[m]));
        }
        assert(k == m);
    }
    if trimmed.len() > 0 && trimmed[0] == '#' {
        assert(x[k] == '#');
    }
}

/// The characters of `s` that are not whitespace, in order.
pub open spec fn non_ws_chars(s: Seq<char>) -> Seq<char>
    decreases s.len(),
{
    if s.len() == 0 {
        Seq::<char>::empty()
    } else if is_ws(s.last()) {
        non_ws_chars(s.drop_last())
    } else {
        non_ws_chars(s.drop_last()).push(s.last())
    }
}

/// The words `ws` written one after the other.
pub open spec fn concat_words(ws: Seq<Seq<char>>) -> Seq<char>
    decreases ws.len(),
{
    if ws.len() == 0 {
        Seq::<char>::empty()
    } else {
        concat_words(ws.drop_last()) + ws.last()
    }
}

/// How many runs of characters other than whitespace `s` has: the places
/// where such a character starts the text or follows whitespace.
pub open spec fn run_count(s: Seq<char>) -> nat
    decreases s.len(),
{
    if s.len() == 0 {
        0
    } else if !is_ws(s.last()) && (s.len() == 1 || is_ws(s[s.len() - 2])) {
        run_count(s.drop_last()) + 1
    } else {
        run_count(s.drop_last())
    }
}

/// The fields of a line are its runs of characters other than whitespace:
/// one field per run, each non-empty and free of whitespace, and together
/// they hold every character of the line that is not whitespace, in order.
pub proof fn law_fields_are_the_runs(s: Seq<char>)
    ensures
        fields(s).len() == run_count(s),
        concat_words(fields(s)) == non_ws_chars(s),
        forall|i: int| 0 <= i < fields(s).len() ==> #[trigger] fields(s)[i].len() > 0,
        forall|i: int, j: int|
            0 <= i < fields(s).len() && 0 <= j < fields(s)[i].len() ==> !is_ws(#[trigger] fields(s)[i][j]),
    decreases s.len(),
{
    lemma_fields_wellformed(s);
    if s.len() > 0 {
        let x = s.drop_last();
        let c = s.last();
        law_fields_are_the_runs(x);
        let pre = fields(x);
        if is_ws(c) {
        } else if s.len() >= 2 && !is_ws(s[s.len() - 2]) {
            assert(x.last() == s[s.len() - 2]);
            crate::text::lemma_fields_last(x);
            let w = pre.last();
            let f = pre.update(pre.len() - 1, w.push(c));
            assert(f.drop_last() == pre.drop_last());
            assert(f.last() == w.push(c));
            assert(concat_words(pre) == concat_words(pre.drop_last()) + w);
            assert(concat_words(f) == concat_words(pre.drop_last()) + w.push(c));
            assert(concat_words(pre.drop_last()) + w.push(c) == (concat_words(pre.drop_last()) + w).push(c));
        } else {
            let f = pre.push(seq![c]);
            assert(f.drop_last() == pre);
            assert(concat_words(f) == concat_words(pre) + seq![c]);
            assert(concat_words(pre) + seq![c] == concat_words(pre).push(c));
        }
    }
}

} // verus!
