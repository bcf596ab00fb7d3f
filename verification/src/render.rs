//! Drawing the records as a tree of text lines.

use vstd::prelude::*;

use std::collections::HashMap;

use crate::forest::{
    build, child_set, children_of, is_child_of, is_root, lookup_tables, roots_of, table,
};
use crate::order::{increasing, lemma_ascending_finite};
use crate::records::{record_views, Record, RecordView};
use crate::text::{chars_of, decimal, push_chars, push_decimal};

verus! {

/// The four connector pieces a tree is drawn with.
pub struct Glyphs {
    pub branch: Seq<char>,
    pub last_branch: Seq<char>,
    pub vertical: Seq<char>,
    pub blank: Seq<char>,
}

/// `├── `, `└── `, `│   `, and four spaces.
pub open spec fn unicode_glyphs() -> Glyphs {
    Glyphs {
        branch: seq!['├', '─', '─', ' '],
        last_branch: seq!['└', '─', '─', ' '],
        vertical: seq!['│', ' ', ' ', ' '],
        blank: seq![' ', ' ', ' ', ' '],
    }
}

/// ``|-- ``, `` `-- ``, `|   `, and four spaces.
pub open spec fn ascii_glyphs() -> Glyphs {
    Glyphs {
        branch: seq!['|', '-', '-', ' '],
        last_branch: seq!['`', '-', '-', ' '],
        vertical: seq!['|', ' ', ' ', ' '],
        blank: seq![' ', ' ', ' ', ' '],
    }
}

/// The connector text before `command (pid)` on a node's line: nothing on
/// a root's line, else the prefix and a branch connector.
pub open spec fn line_head(g: Glyphs, prefix: Seq<char>, is_last: bool, is_root: bool) -> Seq<
    char,
> {
    if is_root {
        Seq::<char>::empty()
    } else {
        prefix + if is_last {
            g.last_branch
        } else {
            g.branch
        }
    }
}

/// The line drawn for `p`: its head, then `command (pid)` and a newline,
/// from the record that `t` holds for `p`.
pub open spec fn node_line(
    t: Map<u32, RecordView>,
    g: Glyphs,
    p: u32,
    prefix: Seq<char>,
    is_last: bool,
    is_root: bool,
) -> Seq<char> {
    line_head(g, prefix, is_last, is_root) + t[p].command + seq![' ', '('] + decimal(
        t[p].pid as nat,
    ) + seq![')', '\n']
}

/// The prefix that the children of a node are drawn with.
pub open spec fn child_prefix(g: Glyphs, prefix: Seq<char>, is_last: bool, is_root: bool) -> Seq<
    char,
> {
    if is_root {
        Seq::<char>::empty()
    } else {
        prefix + if is_last {
            g.blank
        } else {
            g.vertical
        }
    }
}

/// The children listed for `p` in `ks`, none where it lists none.
pub open spec fn kids_of(ks: Map<u32, Seq<u32>>, p: u32) -> Seq<u32> {
    if ks.contains_key(p) {
        ks[p]
    } else {
        Seq::<u32>::empty()
    }
}

/// The text drawn for `p` and everything below it, with `t` giving each
/// pid's record and `ks` each pid's children in drawing order. Nothing is
/// drawn for a pid that `t` lacks. `depth` bounds how many levels are drawn.
pub open spec fn render_node(
    t: Map<u32, RecordView>,
    ks: Map<u32, Seq<u32>>,
    g: Glyphs,
    p: u32,
    prefix: Seq<char>,
    is_last: bool,
    is_root: bool,
    depth: nat,
) -> Seq<char>
    decreases depth, 0nat,
{
    if depth == 0 || !t.contains_key(p) {
        Seq::<char>::empty()
    } else {
        node_line(t, g, p, prefix, is_last, is_root) + render_kids(
            t,
            ks,
            g,
            kids_of(ks, p),
            0,
            child_prefix(g, prefix, is_last, is_root),
            (depth - 1) as nat,
        )
    }
}

/// The text drawn for `kids[i..]`, siblings below one parent.
pub open spec fn render_kids(
    t: Map<u32, RecordView>,
    ks: Map<u32, Seq<u32>>,
    g: Glyphs,
    kids: Seq<u32>,
    i: nat,
    prefix: Seq<char>,
    depth: nat,
) -> Seq<char>
    decreases depth, kids.len() + 1 - i,
{
    if i >= kids.len() {
        Seq::<char>::empty()
    } else {
        render_node(t, ks, g, kids[i as int], prefix, i + 1 == kids.len(), false, depth)
            + render_kids(t, ks, g, kids, i + 1, prefix, depth)
    }
}

/// The text drawn for the trees rooted at `roots[i..]`.
pub open spec fn render_roots(
    t: Map<u32, RecordView>,
    ks: Map<u32, Seq<u32>>,
    g: Glyphs,
    roots: Seq<u32>,
    i: nat,
    depth: nat,
) -> Seq<char>
    decreases roots.len() - i,
{
    if i >= roots.len() {
        Seq::<char>::empty()
    } else {
        render_node(t, ks, g, roots[i as int], Seq::<char>::empty(), i + 1 == roots.len(), true, depth)
            + render_roots(t, ks, g, roots, i + 1, depth)
    }
}

/// The children of every pid that has any, smallest pid first.
pub open spec fn tree_kids(t: Map<u32, RecordView>) -> Map<u32, Seq<u32>> {
    Map::new(|p: u32| child_set(t, p) != Set::<u32>::empty(), |p: u32| children_of(t, p))
}

/// The whole drawing: every root in increasing pid order, each followed by
/// its descendants, children in increasing pid order at every level. The
/// tree is drawn with as many levels as there are pids, which no chain of
/// parents can exceed (see `lemma_descent_within`), so no branch is cut
/// (see `law_drawing_shows_each_reachable_pid_once`).
pub open spec fn render_tree(t: Map<u32, RecordView>, g: Glyphs) -> Seq<char> {
    render_roots(t, tree_kids(t), g, roots_of(t), 0, t.dom().len())
}

/// `rank` bounds the depth below every ranked pid of `t`: each child that
/// `ks` lists for it is ranked lower.
pub open spec fn ranked(t: Map<u32, RecordView>, ks: Map<u32, Seq<u32>>, rank: Map<u32, nat>) -> bool {
    forall|p: u32, j: int|
        #![trigger rank.contains_key(p), kids_of(ks, p)[j]]
        rank.contains_key(p) && t.contains_key(p) && 0 <= j < kids_of(ks, p).len() ==> rank.contains_key(
            kids_of(ks, p)[j],
        ) && rank[kids_of(ks, p)[j]] < rank[p]
}

/// The records that a pid-keyed map of references holds.
pub open spec fn record_map(m: Map<u32, &Record>) -> Map<u32, RecordView> {
    m.map_values(|r: &Record| r@)
}

/// The children lists that a pid-keyed map of vectors holds.
pub open spec fn kid_map(m: Map<u32, Vec<u32>>) -> Map<u32, Seq<u32>> {
    m.map_values(|v: Vec<u32>| v@)
}

/// The text of one line of the drawing, given the descent from a root to
/// the pid it shows and the connector text before `command (pid)`.
pub open spec fn entry_text(t: Map<u32, RecordView>, e: (Seq<u32>, Seq<char>)) -> Seq<char> {
    e.1 + t[e.0.last()].command + seq![' ', '('] + decimal(t[e.0.last()].pid as nat) + seq![')', '\n']
}

/// The text of a sequence of lines.
pub open spec fn text_of(t: Map<u32, RecordView>, es: Seq<(Seq<u32>, Seq<char>)>) -> Seq<char>
    decreases es.len(),
{
    if es.len() == 0 {
        Seq::<char>::empty()
    } else {
        text_of(t, es.drop_last()) + entry_text(t, es.last())
    }
}

/// The lines drawn for the node at the end of `path` and everything below
/// it, each as the descent to the pid it shows and its connector text; the
/// same recursion as `render_node`.
pub open spec fn layout_node(
    t: Map<u32, RecordView>,
    g: Glyphs,
    path: Seq<u32>,
    prefix: Seq<char>,
    is_last: bool,
    is_root: bool,
    depth: nat,
) -> Seq<(Seq<u32>, Seq<char>)>
    decreases depth, 0nat,
{
    if depth == 0 || path.len() == 0 || !t.contains_key(path.last()) {
        Seq::empty()
    } else {
        seq![(path, line_head(g, prefix, is_last, is_root))] + layout_kids(
            t,
            g,
            path,
            children_of(t, path.last()),
            0,
            child_prefix(g, prefix, is_last, is_root),
            (depth - 1) as nat,
        )
    }
}

/// The lines drawn for the children `kids[i..]` of the node at the end of
/// `path`.
pub open spec fn layout_kids(
    t: Map<u32, RecordView>,
    g: Glyphs,
    path: Seq<u32>,
    kids: Seq<u32>,
    i: nat,
    prefix: Seq<char>,
    depth: nat,
) -> Seq<(Seq<u32>, Seq<char>)>
    decreases depth, kids.len() + 1 - i,
{
    if i >= kids.len() {
        Seq::empty()
    } else {
        layout_node(t, g, path.push(kids[i as int]), prefix, i + 1 == kids.len(), false, depth)
            + layout_kids(t, g, path, kids, i + 1, prefix, depth)
    }
}

/// The lines drawn for the trees rooted at `roots[i..]`.
pub open spec fn layout_roots(
    t: Map<u32, RecordView>,
    g: Glyphs,
    roots: Seq<u32>,
    i: nat,
    depth: nat,
) -> Seq<(Seq<u32>, Seq<char>)>
    decreases roots.len() - i,
{
    if i >= roots.len() {
        Seq::empty()
    } else {
        layout_node(t, g, seq![roots[i as int]], Seq::<char>::empty(), i + 1 == roots.len(), true, depth)
            + layout_roots(t, g, roots, i + 1, depth)
    }
}

/// The lines of the whole drawing, in order.
pub open spec fn layout_tree(t: Map<u32, RecordView>, g: Glyphs) -> Seq<(Seq<u32>, Seq<char>)> {
    layout_roots(t, g, roots_of(t), 0, t.dom().len())
}

/// The pids drawn, one per line, in order.
pub open spec fn drawn_pids(t: Map<u32, RecordView>, g: Glyphs) -> Seq<u32> {
    layout_tree(t, g).map_values(|e: (Seq<u32>, Seq<char>)| e.0.last())
}

/// A chain from a root down to `path.last()`, each element a child of the
/// one before it.
pub open spec fn is_descent(t: Map<u32, RecordView>, path: Seq<u32>) -> bool {
    &&& path.len() > 0
    &&& is_root(t, path[0])
    &&& forall|i: int| 0 < i < path.len() ==> is_child_of(t, #[trigger] path[i], path[i - 1])
}

/// A descent never meets the same pid twice.
pub proof fn lemma_descent_distinct(t: Map<u32, RecordView>, path: Seq<u32>)
    requires
        is_descent(t, path),
    ensures
        path.no_duplicates(),
    decreases path.len(),
{
    if path.len() > 1 {
        let pre = path.drop_last();
        assert forall|i: int| 0 < i < pre.len() implies is_child_of(
            t,
            #[trigger] pre[i],
            pre[i - 1],
        ) by {
            assert(is_child_of(t, path[i], path[i - 1]));
        }
        lemma_descent_distinct(t, pre);
        let c = path.last();
        let l = path.len() - 1;
        assert(is_child_of(t, path[l], path[l - 1]));
        assert forall|i: int, j: int| 0 <= i < path.len() && 0 <= j < path.len() && i != j
            implies path[i] != path[j] by {
            if i < l && j < l {
                assert(pre[i] != pre[j]);
            } else {
                let k = if i == l { j } else { i };
                if path[k] == c {
                    if k == 0 {
                        assert(is_root(t, path[0]));
                    } else {
                        assert(is_child_of(t, path[k], path[k - 1]));
                        assert(pre[k - 1] == pre[l - 1]);
                    }
                }
            }
        }
    }
}

/// A descent is no longer than the number of pids.
pub proof fn lemma_descent_within(t: Map<u32, RecordView>, path: Seq<u32>)
    requires
        t.dom().finite(),
        is_descent(t, path),
    ensures
        path.no_duplicates(),
        path.len() <= t.dom().len(),
{
    lemma_descent_distinct(t, path);
    assert forall|x: u32| path.to_set().contains(x) implies t.dom().contains(x) by {
        let i = choose|i: int| 0 <= i < path.len() && path[i] == x;
        if i > 0 {
            assert(is_child_of(t, path[i], path[i - 1]));
        }
    }
    path.unique_seq_to_set();
    vstd::set_lib::lemma_len_subset(path.to_set(), t.dom());
}

/// The children of a pid are in increasing order, and are exactly its
/// children.
pub proof fn lemma_kids(t: Map<u32, RecordView>, p: u32)
    requires
        t.dom().finite(),
    ensures
        increasing(children_of(t, p)),
        children_of(t, p).to_set() == child_set(t, p),
        forall|j: int| 0 <= j < children_of(t, p).len() ==> is_child_of(t, #[trigger] children_of(t, p)[j], p),
{
    vstd::set_lib::lemma_len_subset(child_set(t, p), t.dom());
    lemma_ascending_finite(child_set(t, p));
    let kids = children_of(t, p);
    assert forall|j: int| 0 <= j < kids.len() implies is_child_of(t, #[trigger] kids[j], p) by {
        assert(kids.to_set().contains(kids[j]));
    }
}

/// The descent that ends at a pid is determined by that pid.
pub proof fn lemma_descent_unique(t: Map<u32, RecordView>, a: Seq<u32>, b: Seq<u32>)
    requires
        is_descent(t, a),
        is_descent(t, b),
        a.last() == b.last(),
    ensures
        a == b,
    decreases a.len(),
{
    if a.len() == 1 || b.len() == 1 {
        if a.len() > 1 {
            assert(is_child_of(t, a[a.len() - 1], a[a.len() - 2]));
        }
        if b.len() > 1 {
            assert(is_child_of(t, b[b.len() - 1], b[b.len() - 2]));
        }
        assert(a =~= b);
    } else {
        assert(is_child_of(t, a[a.len() - 1], a[a.len() - 2]));
        assert(is_child_of(t, b[b.len() - 1], b[b.len() - 2]));
        let a1 = a.drop_last();
        let b1 = b.drop_last();
        assert forall|m: int| 0 < m < a1.len() implies is_child_of(t, #[trigger] a1[m], a1[m - 1]) by {
            assert(is_child_of(t, a[m], a[m - 1]));
        }
        assert forall|m: int| 0 < m < b1.len() implies is_child_of(t, #[trigger] b1[m], b1[m - 1]) by {
            assert(is_child_of(t, b[m], b[m - 1]));
        }
        lemma_descent_unique(t, a1, b1);
        assert(a =~= a1.push(a.last()));
        assert(b =~= b1.push(b.last()));
    }
}

/// Each pid that ends a descent, ranked by how many levels of the drawing
/// are left below it.
pub open spec fn descent_rank(t: Map<u32, RecordView>) -> Map<u32, nat> {
    Map::new(|q: u32| ends_descent(t, q), |q: u32| (t.dom().len() - descent_to(t, q).len()) as nat)
}

/// Some descent ends at `q`.
pub open spec fn ends_descent(t: Map<u32, RecordView>, q: u32) -> bool {
    exists|d: Seq<u32>| #[trigger] is_descent(t, d) && d.last() == q
}

/// The descent that ends at `q`, where one does.
pub open spec fn descent_to(t: Map<u32, RecordView>, q: u32) -> Seq<u32> {
    choose|d: Seq<u32>| #[trigger] is_descent(t, d) && d.last() == q
}

/// The children that `tree_kids` lists for a pid are its children in
/// increasing order.
pub proof fn lemma_tree_kids(t: Map<u32, RecordView>, p: u32)
    ensures
        kids_of(tree_kids(t), p) == children_of(t, p),
{
    if child_set(t, p) == Set::<u32>::empty() {
        assert(Seq::<u32>::empty().to_set() =~= Set::<u32>::empty());
        crate::order::lemma_ascending_of(Seq::<u32>::empty());
    }
}

/// A child ranks below its parent.
proof fn lemma_rank_child(t: Map<u32, RecordView>, p: u32, c: u32)
    requires
        t.dom().finite(),
        descent_rank(t).contains_key(p),
        is_child_of(t, c, p),
    ensures
        descent_rank(t).contains_key(c),
        descent_rank(t)[c] < descent_rank(t)[p],
{
    assert(ends_descent(t, p));
    let dp = descent_to(t, p);
    assert(is_descent(t, dp) && dp.last() == p);
    let dc0 = dp.push(c);
    assert forall|m: int| 0 < m < dc0.len() implies is_child_of(t, #[trigger] dc0[m], dc0[m - 1]) by {
        if m < dp.len() {
            assert(dc0[m] == dp[m] && dc0[m - 1] == dp[m - 1]);
        }
    }
    assert(is_descent(t, dc0) && dc0.last() == c);
    assert(ends_descent(t, c));
    let dc = descent_to(t, c);
    assert(is_descent(t, dc) && dc.last() == c);
    lemma_descent_unique(t, dc, dc0);
    lemma_descent_within(t, dc);
    lemma_descent_within(t, dp);
    let n = t.dom().len();
    assert(descent_rank(t)[p] == (n - dp.len()) as nat);
    assert(descent_rank(t)[c] == (n - dc.len()) as nat);
    assert(dc.len() == dp.len() + 1);
}

/// A root ranks below the number of pids.
proof fn lemma_rank_root(t: Map<u32, RecordView>, r: u32)
    requires
        t.dom().finite(),
        is_root(t, r),
    ensures
        descent_rank(t).contains_key(r),
        descent_rank(t)[r] < t.dom().len(),
{
    let s = seq![r];
    assert(is_descent(t, s) && s.last() == r);
    assert(ends_descent(t, r));
    let d = descent_to(t, r);
    lemma_descent_unique(t, d, s);
    vstd::set_lib::lemma_len_subset(set![r], t.dom());
}

/// Ranking every pid that ends a descent by the levels left below it bounds
/// the drawing of the table: children rank lower, and roots rank below the
/// number of pids.
pub proof fn lemma_descent_rank(t: Map<u32, RecordView>)
    requires
        t.dom().finite(),
    ensures
        ranked(t, tree_kids(t), descent_rank(t)),
        forall|r: u32| is_root(t, r) ==> #[trigger] descent_rank(t).contains_key(r) && descent_rank(t)[r] < t.dom().len(),
{
    let rank = descent_rank(t);
    let ks = tree_kids(t);
    assert forall|p: u32, j: int|
        #![trigger rank.contains_key(p), kids_of(ks, p)[j]]
        rank.contains_key(p) && t.contains_key(p) && 0 <= j < kids_of(ks, p).len() implies rank.contains_key(
            kids_of(ks, p)[j],
        ) && rank[kids_of(ks, p)[j]] < rank[p] by {
        lemma_tree_kids(t, p);
        lemma_kids(t, p);
        lemma_rank_child(t, p, kids_of(ks, p)[j]);
    }
    assert forall|r: u32| is_root(t, r) implies #[trigger] rank.contains_key(r) && rank[r] < t.dom().len() by {
        lemma_rank_root(t, r);
    }
}

/// `by_pid` and `children`, as maps of values, are the table and its
/// children lists.
pub proof fn lemma_tables_as_maps<'a>(
    by_pid: Map<u32, &'a Record>,
    children: Map<u32, Vec<u32>>,
    t: Map<u32, RecordView>,
)
    requires
        lookup_tables(by_pid, children, t),
    ensures
        record_map(by_pid) == t,
        kid_map(children) == tree_kids(t),
{
    assert(record_map(by_pid) =~= t);
    assert forall|p: u32| #[trigger] children.contains_key(p) == (child_set(t, p) != Set::<u32>::empty()) by {
        if children.contains_key(p) {
            let c = children[p]@[0];
            assert(children[p]@.to_set().contains(c));
            assert(child_set(t, p).contains(c));
        }
    }
    assert(kid_map(children).dom() =~= tree_kids(t).dom());
    assert(kid_map(children) =~= tree_kids(t));
}

/// Connector glyphs used to draw the tree. Unicode is the default; ascii
/// exists for terminals/fonts/log viewers that mangle box-drawing chars.
struct Connectors {
    branch: &'static str,
    last_branch: &'static str,
    vertical: &'static str,
    blank: &'static str,
}

impl Connectors {
    spec fn glyphs(&self) -> Glyphs {
        Glyphs {
            branch: self.branch@,
            last_branch: self.last_branch@,
            vertical: self.vertical@,
            blank: self.blank@,
        }
    }
}

fn unicode_connectors() -> (c: Connectors)
    ensures
        c.glyphs() == unicode_glyphs(),
{
    let c = Connectors { branch: "├── ", last_branch: "└── ", vertical: "│   ", blank: "    " };
    proof {
        reveal_strlit("├── ");
        reveal_strlit("└── ");
        reveal_strlit("│   ");
        reveal_strlit("    ");
    }
    assert(c.glyphs().branch == unicode_glyphs().branch);
    assert(c.glyphs().last_branch == unicode_glyphs().last_branch);
    assert(c.glyphs().vertical == unicode_glyphs().vertical);
    assert(c.glyphs().blank == unicode_glyphs().blank);
    c
}

fn ascii_connectors() -> (c: Connectors)
    ensures
        c.glyphs() == ascii_glyphs(),
{
    let c = Connectors { branch: "|-- ", last_branch: "`-- ", vertical: "|   ", blank: "    " };
    proof {
        reveal_strlit("|-- ");
        reveal_strlit("`-- ");
        reveal_strlit("|   ");
        reveal_strlit("    ");
    }
    assert(c.glyphs().branch == ascii_glyphs().branch);
    assert(c.glyphs().last_branch == ascii_glyphs().last_branch);
    assert(c.glyphs().vertical == ascii_glyphs().vertical);
    assert(c.glyphs().blank == ascii_glyphs().blank);
    c
}

/// Appends the characters of `s` to `out`.
fn push_str(out: &mut String, s: &str)
    ensures
        final(out)@ == old(out)@ + s@,
{
    let cs = chars_of(s);
    push_chars(out, &cs);
}

/// Renders records as a tree, ├──/└── style by default (or ascii, see
/// `format_ascii`), sorted by pid at every level so the same input
/// always produces the same output.
pub fn format(records: &[Record]) -> (out: String)
    ensures
        out@ == render_tree(table(record_views(records@)), unicode_glyphs()),
{
    format_with(records, &unicode_connectors())
}

/// Same as `format`, but draws connectors with plain ascii characters
/// instead of unicode box-drawing glyphs.
pub fn format_ascii(records: &[Record]) -> (out: String)
    ensures
        out@ == render_tree(table(record_views(records@)), ascii_glyphs()),
{
    format_with(records, &ascii_connectors())
}

fn format_with(records: &[Record], connectors: &Connectors) -> (out: String)
    ensures
        out@ == render_tree(table(record_views(records@)), connectors.glyphs()),
{
    let built = build(records);
    let ghost t = table(record_views(records@));
    let ghost ks = tree_kids(t);
    let ghost g = connectors.glyphs();
    let ghost roots = built.roots@;
    let ghost rank = descent_rank(t);
    let ghost depth = t.dom().len();
    proof {
        lemma_tables_as_maps(built.by_pid@, built.children@, t);
        lemma_descent_rank(t);
    }
    let mut out = String::new();
    let empty: Vec<char> = Vec::new();
    let n = built.roots.len();
    let mut i: usize = 0;
    while i < n
        invariant
            n == roots.len(),
            roots == built.roots@,
            i <= n,
            built.describes(t),
            record_map(built.by_pid@) == t,
            kid_map(built.children@) == ks,
            ks == tree_kids(t),
            ranked(t, ks, rank),
            forall|r: u32| is_root(t, r) ==> #[trigger] rank.contains_key(r) && rank[r] < depth,
            depth == t.dom().len(),
            g == connectors.glyphs(),
            empty@ == Seq::<char>::empty(),
            out@ + render_roots(t, ks, g, roots, i as nat, depth) == render_roots(
                t,
                ks,
                g,
                roots,
                0,
                depth,
            ),
        decreases n - i,
    {
        let root = built.roots[i];
        let ghost before = out@;
        proof {
            assert(roots.to_set().contains(root));
            assert(is_root(t, root));
            assert(rank.contains_key(root));
        }
        write_node(
            root,
            &empty,
            i + 1 == n,
            true,
            &built.by_pid,
            &built.children,
            connectors,
            &mut out,
            Ghost(rank),
        );
        assert(out@ == before + render_node(t, ks, g, root, empty@, i + 1 == n, true, depth));
        assert(before + render_roots(t, ks, g, roots, i as nat, depth) == out@ + render_roots(
            t,
            ks,
            g,
            roots,
            (i + 1) as nat,
            depth,
        ));
        i = i + 1;
    }
    out
}

/// Writes the line for `pid` and, below it, the lines of its descendants:
/// nothing when `by_pid` has no record for `pid`. `rank` bounds the depth
/// below `pid`, so the text written is the drawing with any deeper bound.
fn write_node(
    pid: u32,
    prefix: &Vec<char>,
    is_last: bool,
    is_root: bool,
    by_pid: &HashMap<u32, &Record>,
    children: &HashMap<u32, Vec<u32>>,
    connectors: &Connectors,
    out: &mut String,
    Ghost(rank): Ghost<Map<u32, nat>>,
)
    requires
        ranked(record_map(by_pid@), kid_map(children@), rank),
        by_pid@.contains_key(pid) ==> rank.contains_key(pid),
    ensures
        !by_pid@.contains_key(pid) ==> final(out)@ == old(out)@,
        by_pid@.contains_key(pid) ==> forall|d: nat|
            #![trigger render_node(record_map(by_pid@), kid_map(children@), connectors.glyphs(), pid, prefix@, is_last, is_root, d)]
            d > rank[pid] ==> final(out)@ == old(out)@ + render_node(
                record_map(by_pid@),
                kid_map(children@),
                connectors.glyphs(),
                pid,
                prefix@,
                is_last,
                is_root,
                d,
            ),
    decreases rank[pid],
{
    let ghost t = record_map(by_pid@);
    let ghost ks = kid_map(children@);
    let ghost g = connectors.glyphs();
    let record: &Record = match by_pid.get(&pid) {
        Some(r) => *r,
        None => return ,
    };
    assert(t.contains_key(pid) && t[pid] == record@);
    let ghost start = out@;
    if !is_root {
        push_chars(out, prefix);
        push_str(out, if is_last { connectors.last_branch } else { connectors.branch });
    }
    push_str(out, record.command.as_str());
    push_str(out, " (");
    push_decimal(out, record.pid);
    push_str(out, ")\n");
    proof {
        reveal_strlit(" (");
        reveal_strlit(")\n");
        assert(out@ == start + node_line(t, g, pid, prefix@, is_last, is_root));
    }
    let mut kid_prefix: Vec<char> = Vec::new();
    if !is_root {
        kid_prefix = prefix.clone();
        let mut more = chars_of(if is_last { connectors.blank } else { connectors.vertical });
        kid_prefix.append(&mut more);
    }
    assert(kid_prefix@ == child_prefix(g, prefix@, is_last, is_root));
    let ghost kids = kids_of(ks, pid);
    let ghost after_line = out@;
    match children.get(&pid) {
        Some(list) => {
            assert(list@ == kids);
            let m = list.len();
            let mut i: usize = 0;
            while i < m
                invariant
                    m == list@.len(),
                    list@ == kids,
                    kids == kids_of(ks, pid),
                    i <= m,
                    t == record_map(by_pid@),
                    ks == kid_map(children@),
                    t.contains_key(pid),
                    ranked(t, ks, rank),
                    rank.contains_key(pid),
                    g == connectors.glyphs(),
                    forall|d: nat|
                        #![trigger render_kids(t, ks, g, kids, 0, kid_prefix@, d)]
                        d >= rank[pid] ==> out@ + render_kids(t, ks, g, kids, i as nat, kid_prefix@, d)
                            == after_line + render_kids(t, ks, g, kids, 0, kid_prefix@, d),
                decreases m - i,
            {
                let kid = list[i];
                proof {
                    assert(kids_of(ks, pid)[i as int] == kid);
                    assert(rank.contains_key(kid) && rank[kid] < rank[pid]);
                }
                let ghost before = out@;
                write_node(
                    kid,
                    &kid_prefix,
                    i + 1 == m,
                    false,
                    by_pid,
                    children,
                    connectors,
                    out,
                    Ghost(rank),
                );
                assert forall|d: nat| d >= rank[pid] implies out@ + render_kids(t, ks, g, kids, (i + 1) as nat, kid_prefix@, d)
                    == after_line + #[trigger] render_kids(t, ks, g, kids, 0, kid_prefix@, d) by {
                    assert(kids[i as int] == kid);
                    assert(render_kids(t, ks, g, kids, i as nat, kid_prefix@, d) == render_node(t, ks, g, kid, kid_prefix@, i + 1 == m, false, d)
                        + render_kids(t, ks, g, kids, (i + 1) as nat, kid_prefix@, d));
                    if by_pid@.contains_key(kid) {
                        assert(out@ == before + render_node(record_map(by_pid@), kid_map(children@), connectors.glyphs(), kid, kid_prefix@, i + 1 == m, false, d));
                    } else {
                        assert(render_node(t, ks, g, kid, kid_prefix@, i + 1 == m, false, d) == Seq::<char>::empty());
                    }
                    assert(before + render_kids(t, ks, g, kids, i as nat, kid_prefix@, d)
                        == after_line + render_kids(t, ks, g, kids, 0, kid_prefix@, d));
                    assert(before + render_kids(t, ks, g, kids, i as nat, kid_prefix@, d) == out@
                        + render_kids(t, ks, g, kids, (i + 1) as nat, kid_prefix@, d));
                }
                i = i + 1;
            }
            assert forall|d: nat| d > rank[pid] implies out@ == start + #[trigger] render_node(
                t,
                ks,
                g,
                pid,
                prefix@,
                is_last,
                is_root,
                d,
            ) by {
                let e = (d - 1) as nat;
                assert(render_kids(t, ks, g, kids, m as nat, kid_prefix@, e) == Seq::<char>::empty());
                assert(out@ + render_kids(t, ks, g, kids, m as nat, kid_prefix@, e) == after_line
                    + render_kids(t, ks, g, kids, 0, kid_prefix@, e));
                assert(out@ == after_line + render_kids(t, ks, g, kids, 0, kid_prefix@, e));
            }
        },
        None => {
            assert(kids == Seq::<u32>::empty());
            assert forall|d: nat| d > rank[pid] implies out@ == start + #[trigger] render_node(
                t,
                ks,
                g,
                pid,
                prefix@,
                is_last,
                is_root,
                d,
            ) by {
                assert(render_kids(t, ks, g, kids, 0, kid_prefix@, (d - 1) as nat)
                    == Seq::<char>::empty());
            }
        },
    }
}

} // verus!
