//! Process records and the parser that reads them from pid/ppid listings.

use vstd::prelude::*;

use crate::text::{
    chars_of, eq_ignore_case, equal_ignoring_case, fields, fields_of, is_ws, join_from,
    join_words, lemma_fields_wellformed, lemma_split_lines_nonempty, lemma_trim_by_fields,
    lines_of, parse_u32, parse_u32_spec, split_lines, std_lines, string_of, trim_start, views,
};

verus! {

/// One process: its pid, its parent's pid and its command line.
pub struct Record {
    pub pid: u32,
    pub ppid: u32,
    pub command: String,
}

/// The mathematical value of a `Record`.
pub struct RecordView {
    pub pid: u32,
    pub ppid: u32,
    pub command: Seq<char>,
}

impl View for Record {
    type V = RecordView;

    open spec fn view(&self) -> RecordView {
        RecordView { pid: self.pid, ppid: self.ppid, command: self.command@ }
    }
}

/// The views of a sequence of records.
pub open spec fn record_views(rs: Seq<Record>) -> Seq<RecordView> {
    rs.map_values(|r: Record| r@)
}

/// Column positions of pid, ppid, and the start of the command within the
/// whitespace-separated fields of a line. The bare "pid ppid command" format
/// is fixed (0, 1, 2); a `ps -ef` style header shifts these around (e.g. UID
/// comes first) so the layout is detected from the header row instead of
/// assumed.
#[derive(Clone, Copy)]
pub struct Layout {
    pub pid_idx: usize,
    pub ppid_idx: usize,
    pub cmd_idx: usize,
}

impl Layout {
    pub open spec fn spec_bare() -> Layout {
        Layout { pid_idx: 0, ppid_idx: 1, cmd_idx: 2 }
    }

    #[verifier::when_used_as_spec(spec_bare)]
    pub fn bare() -> (r: Layout)
        ensures
            r == Layout::spec_bare(),
    {
        Layout { pid_idx: 0, ppid_idx: 1, cmd_idx: 2 }
    }
}

pub open spec fn word_pid() -> Seq<char> {
    seq!['p', 'i', 'd']
}

pub open spec fn word_ppid() -> Seq<char> {
    seq!['p', 'p', 'i', 'd']
}

pub open spec fn word_cmd() -> Seq<char> {
    seq!['c', 'm', 'd']
}

pub open spec fn word_command() -> Seq<char> {
    seq!['c', 'o', 'm', 'm', 'a', 'n', 'd']
}

/// The index of the first of `fs` that equals one of `names` up to ASCII
/// case, if any does.
pub open spec fn position_of(fs: Seq<Seq<char>>, names: Seq<Seq<char>>) -> Option<int>
    decreases fs.len(),
{
    if fs.len() == 0 {
        None
    } else {
        match position_of(fs.drop_last(), names) {
            Some(k) => Some(k),
            None => if exists|j: int| 0 <= j < names.len() && eq_ignore_case(fs.last(), #[trigger] names[j]) {
                Some(fs.len() - 1)
            } else {
                None
            },
        }
    }
}

/// A `ps -ef` style header row: it has a PID, a PPID and a CMD or COMMAND
/// field (compared without regard to ASCII case), and the layout is where
/// the first of each stands.
pub open spec fn header_layout(fs: Seq<Seq<char>>) -> Option<Layout> {
    match (
        position_of(fs, seq![word_pid()]),
        position_of(fs, seq![word_ppid()]),
        position_of(fs, seq![word_cmd(), word_command()]),
    ) {
        (Some(p), Some(pp), Some(c)) => Some(
            Layout { pid_idx: p as usize, ppid_idx: pp as usize, cmd_idx: c as usize },
        ),
        _ => None,
    }
}

/// A line is skipped when `line.trim()` is empty or starts with `'#'`.
/// Trimming the end changes neither, so only the start is trimmed here.
pub open spec fn is_skipped(line: Seq<char>) -> bool {
    let trimmed = trim_start(line);
    trimmed.len() == 0 || trimmed[0] == '#'
}

/// The command of a data line: the fields from the command column on, joined
/// by single spaces, or `"?"` where that is empty.
pub open spec fn command_of(lay: Layout, fs: Seq<Seq<char>>) -> Seq<char> {
    let joined = if lay.cmd_idx < fs.len() {
        join_words(fs.skip(lay.cmd_idx as int))
    } else {
        Seq::<char>::empty()
    };
    if joined.len() == 0 {
        seq!['?']
    } else {
        joined
    }
}

/// The record that a data line gives under `lay`: there is none unless the
/// pid and ppid columns exist and hold numbers that `parse::<u32>` accepts.
pub open spec fn record_of(lay: Layout, fs: Seq<Seq<char>>) -> Option<RecordView> {
    if lay.pid_idx < fs.len() && lay.ppid_idx < fs.len() && parse_u32_spec(
        fs[lay.pid_idx as int],
    ) is Some && parse_u32_spec(fs[lay.ppid_idx as int]) is Some {
        Some(
            RecordView {
                pid: parse_u32_spec(fs[lay.pid_idx as int])->0,
                ppid: parse_u32_spec(fs[lay.ppid_idx as int])->0,
                command: command_of(lay, fs),
            },
        )
    } else {
        None
    }
}

pub open spec fn push_some(rs: Seq<RecordView>, r: Option<RecordView>) -> Seq<RecordView> {
    match r {
        Some(x) => rs.push(x),
        None => rs,
    }
}

/// The parser's state after a line: the layout, once the first content line
/// fixed it, and the records so far.
pub open spec fn parse_step(
    st: (Option<Layout>, Seq<RecordView>),
    line: Seq<char>,
) -> (Option<Layout>, Seq<RecordView>) {
    let fs = fields(line);
    if is_skipped(line) {
        st
    } else {
        match st.0 {
            None => match header_layout(fs) {
                Some(h) => (Some(h), st.1),
                None => (
                    Some(Layout::spec_bare()),
                    push_some(st.1, record_of(Layout::spec_bare(), fs)),
                ),
            },
            Some(lay) => (Some(lay), push_some(st.1, record_of(lay, fs))),
        }
    }
}

pub open spec fn parse_lines(ls: Seq<Seq<char>>) -> (Option<Layout>, Seq<RecordView>)
    decreases ls.len(),
{
    if ls.len() == 0 {
        (None, Seq::<RecordView>::empty())
    } else {
        parse_step(parse_lines(ls.drop_last()), ls.last())
    }
}

/// The records that `parse` reads from `input`.
pub open spec fn parse_spec(input: Seq<char>) -> Seq<RecordView> {
    parse_lines(std_lines(input)).1
}

/// Lines with the same fields are parsed alike.
pub proof fn lemma_parse_lines_by_fields(la: Seq<Seq<char>>, lb: Seq<Seq<char>>)
    requires
        la.len() == lb.len(),
        forall|i: int| 0 <= i < la.len() ==> fields(#[trigger] la[i]) == fields(lb[i]),
    ensures
        parse_lines(la) == parse_lines(lb),
    decreases la.len(),
{
    if la.len() > 0 {
        lemma_parse_lines_by_fields(la.drop_last(), lb.drop_last());
        assert(fields(la.last()) == fields(lb.last()));
        lemma_trim_by_fields(la.last());
        lemma_trim_by_fields(lb.last());
    }
}

/// Parsing the lines of `str::lines` is parsing the pieces between newlines:
/// a final empty piece is skipped, and a line-ending `'\r'` is whitespace.
pub proof fn lemma_parse_std_lines(s: Seq<char>)
    ensures
        parse_lines(std_lines(s)) == parse_lines(split_lines(s)),
{
    let pieces = split_lines(s);
    lemma_split_lines_nonempty(s);
    let kept = if pieces.last().len() == 0 {
        pieces.drop_last()
    } else {
        pieces
    };
    let ls = std_lines(s);
    if pieces.last().len() == 0 {
        assert(pieces == kept.push(pieces.last()));
        assert(fields(pieces.last()) == Seq::<Seq<char>>::empty());
        assert(pieces.drop_last() == kept);
    }
    assert(parse_lines(pieces) == parse_lines(kept));
    assert forall|i: int| 0 <= i < ls.len() implies fields(#[trigger] ls[i]) == fields(kept[i]) by {
        if i + 1 < pieces.len() && kept[i].len() > 0 && kept[i].last() == '\r' {
            assert(is_ws('\r'));
        }
    }
    lemma_parse_lines_by_fields(ls, kept);
}

/// The index of the first of `fs` that equals one of `names` up to ASCII case.
fn find_field(fs: &Vec<Vec<char>>, names: &Vec<Vec<char>>) -> (r: Option<usize>)
    ensures
        match position_of(views(fs@), views(names@)) {
            Some(k) => r == Some(k as usize),
            None => r is None,
        },
{
    let ghost vf = views(fs@);
    let ghost vn = views(names@);
    let n = fs.len();
    let mut i: usize = 0;
    while i < n
        invariant
            n == fs@.len(),
            vf == views(fs@),
            vn == views(names@),
            i <= n,
            position_of(vf.take(i as int), vn) is None,
        decreases n - i,
    {
        assert(vf.take(i + 1).drop_last() == vf.take(i as int));
        let mut j: usize = 0;
        let mut hit = false;
        while j < names.len()
            invariant
                vn == views(names@),
                vf == views(fs@),
                i < n == fs@.len(),
                j <= names@.len(),
                hit == exists|k: int| 0 <= k < j && eq_ignore_case(vf[i as int], #[trigger] vn[k]),
            decreases names@.len() - j,
        {
            assert(vn[j as int] == names@[j as int]@);
            assert(vf[i as int] == fs@[i as int]@);
            if equal_ignoring_case(&fs[i], &names[j]) {
                hit = true;
            }
            j = j + 1;
        }
        if hit {
            proof {
                lemma_position_prefix(vf, vn, i + 1);
            }
            return Some(i);
        }
        i = i + 1;
    }
    assert(vf.take(n as int) == vf);
    None
}

/// A match found within the first `k` fields stays the first match.
proof fn lemma_position_prefix(fs: Seq<Seq<char>>, names: Seq<Seq<char>>, k: int)
    requires
        0 < k <= fs.len(),
        position_of(fs.take(k), names) is Some,
    ensures
        position_of(fs, names) == position_of(fs.take(k), names),
    decreases fs.len(),
{
    if k < fs.len() {
        assert(fs.drop_last().take(k) == fs.take(k));
        lemma_position_prefix(fs.drop_last(), names, k);
    } else {
        assert(fs.take(k) == fs);
    }
}

fn detect_header(fs: &Vec<Vec<char>>) -> (r: Option<Layout>)
    ensures
        r == header_layout(views(fs@)),
{
    let pid_name = vec![vec!['p', 'i', 'd']];
    let ppid_name = vec![vec!['p', 'p', 'i', 'd']];
    let cmd_names = vec![vec!['c', 'm', 'd'], vec!['c', 'o', 'm', 'm', 'a', 'n', 'd']];
    assert(views(pid_name@) == seq![word_pid()]);
    assert(views(ppid_name@) == seq![word_ppid()]);
    assert(views(cmd_names@) == seq![word_cmd(), word_command()]);
    let pid_idx = match find_field(fs, &pid_name) {
        Some(k) => k,
        None => return None,
    };
    let ppid_idx = match find_field(fs, &ppid_name) {
        Some(k) => k,
        None => return None,
    };
    let cmd_idx = match find_field(fs, &cmd_names) {
        Some(k) => k,
        None => return None,
    };
    Some(Layout { pid_idx, ppid_idx, cmd_idx })
}

fn record_from(lay: Layout, fs: &Vec<Vec<char>>) -> (r: Option<Record>)
    ensures
        match record_of(lay, views(fs@)) {
            Some(v) => r is Some && r->0@ == v,
            None => r is None,
        },
{
    let ghost vf = views(fs@);
    if lay.pid_idx >= fs.len() || lay.ppid_idx >= fs.len() {
        return None;
    }
    assert(vf[lay.pid_idx as int] == fs@[lay.pid_idx as int]@);
    assert(vf[lay.ppid_idx as int] == fs@[lay.ppid_idx as int]@);
    let pid = match parse_u32(&fs[lay.pid_idx]) {
        Some(p) => p,
        None => return None,
    };
    let ppid = match parse_u32(&fs[lay.ppid_idx]) {
        Some(p) => p,
        None => return None,
    };
    let joined = if lay.cmd_idx < fs.len() {
        join_from(fs, lay.cmd_idx)
    } else {
        Vec::new()
    };
    assert(joined@ == (if lay.cmd_idx < vf.len() {
        join_words(vf.skip(lay.cmd_idx as int))
    } else {
        Seq::<char>::empty()
    }));
    let command = if joined.len() == 0 {
        let q = vec!['?'];
        assert(q@ == seq!['?']);
        string_of(&q)
    } else {
        string_of(&joined)
    };
    Some(Record { pid, ppid, command })
}

/// Parses process records, tolerating extra whitespace, blank lines, and
/// '#' comments. Lines that don't have at least a numeric pid and ppid
/// at the expected columns are skipped rather than treated as errors.
///
/// The column layout defaults to "pid ppid command" (what
/// `ps -eo pid,ppid,comm --no-headers` produces), but if the first
/// content line looks like a `ps -ef` header, its column order is used
/// for the rest of the input instead.
pub fn parse(input: &str) -> (records: Vec<Record>)
    ensures
        record_views(records@) == parse_spec(input@),
{
    let chars = chars_of(input);
    let lines = lines_of(&chars);
    let ghost ls = views(lines@);
    let mut records: Vec<Record> = Vec::new();
    let mut layout: Option<Layout> = None;
    let n = lines.len();
    let mut k: usize = 0;
    while k < n
        invariant
            n == lines@.len(),
            ls == views(lines@),
            k <= n,
            (layout, record_views(records@)) == parse_lines(ls.take(k as int)),
        decreases n - k,
    {
        assert(ls.take(k + 1).drop_last() == ls.take(k as int));
        let ghost before = record_views(records@);
        let fs = fields_of(&lines[k]);
        proof {
            lemma_fields_wellformed(ls[k as int]);
            lemma_trim_by_fields(ls[k as int]);
            assert(lines@[k as int]@ == ls[k as int]);
            if fs@.len() > 0 {
                assert(views(fs@)[0] == fs@[0]@);
            }
        }
        if fs.len() == 0 || fs[0][0] == '#' {
            k = k + 1;
            continue;
        }
        let lay = match layout {
            Some(l) => l,
            None => match detect_header(&fs) {
                Some(h) => {
                    layout = Some(h);
                    k = k + 1;
                    continue;
                },
                None => Layout::bare(),
            },
        };
        layout = Some(lay);
        match record_from(lay, &fs) {
            Some(r) => {
                let ghost rv = r@;
                records.push(r);
                assert(record_views(records@) == before.push(rv));
            },
            None => {},
        }
        k = k + 1;
    }
    assert(ls.take(n as int) == ls);
    proof {
        lemma_parse_std_lines(input@);
    }
    records
}

} // verus!
