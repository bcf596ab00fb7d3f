//! What the drawing shows: one line per pid from which following ppids
//! reaches a root, no pid twice, and nothing else; in which order the
//! lines come and what connector text each starts with; and how the ASCII
//! drawing relates to the Unicode one.

use vstd::prelude::*;

use crate::diagnose::{climb, cycle_set, missing_parent_set, reaches_root, self_parented_set};
use crate::forest::{
    child_set, children_of, is_child_of, is_root, lemma_table, root_set, roots_of, table,
};
use crate::order::{increasing, lemma_ascending_finite};
use crate::records::RecordView;
use crate::text::{decimal, split_lines, std_lines};
use crate::render::{
    drawn_pids, entry_text, is_descent, layout_kids, layout_node, layout_roots, layout_tree,
    lemma_descent_unique, lemma_descent_within, lemma_kids, lemma_tree_kids, node_line, render_kids,
    render_node, render_roots, render_tree, text_of, tree_kids, Glyphs,
};

verus! {

proof fn lemma_text_of_add(t: Map<u32, RecordView>, a: Seq<(Seq<u32>, Seq<char>)>, b: Seq<(Seq<u32>, Seq<char>)>)
    ensures
        text_of(t, a + b) == text_of(t, a) + text_of(t, b),
    decreases b.len(),
{
    if b.len() == 0 {
        assert(a + b == a);
    } else {
        lemma_text_of_add(t, a, b.drop_last());
        assert((a + b).drop_last() == a + b.drop_last());
        assert((a + b).last() == b.last());
    }
}

proof fn lemma_text_of_single(t: Map<u32, RecordView>, e: (Seq<u32>, Seq<char>))
    ensures
        text_of(t, seq![e]) == entry_text(t, e),
{
    let empty = Seq::<(Seq<u32>, Seq<char>)>::empty();
    assert(seq![e].drop_last() == empty);
    assert(seq![e].last() == e);
    assert(text_of(t, empty) == Seq::<char>::empty());
    assert(Seq::<char>::empty() + entry_text(t, e) == entry_text(t, e));
}

proof fn lemma_node_text(
    t: Map<u32, RecordView>,
    g: Glyphs,
    path: Seq<u32>,
    prefix: Seq<char>,
    is_last: bool,
    is_root: bool,
    depth: nat,
)
    requires
        path.len() > 0,
    ensures
        render_node(t, tree_kids(t), g, path.last(), prefix, is_last, is_root, depth) == text_of(
            t,
            layout_node(t, g, path, prefix, is_last, is_root, depth),
        ),
    decreases depth, 0nat,
{
    if depth > 0 && t.contains_key(path.last()) {
        let p = path.last();
        let cp = crate::render::child_prefix(g, prefix, is_last, is_root);
        let e = (path, crate::render::line_head(g, prefix, is_last, is_root));
        lemma_tree_kids(t, p);
        lemma_kids_text(t, g, path, children_of(t, p), 0, cp, (depth - 1) as nat);
        lemma_text_of_add(t, seq![e], layout_kids(t, g, path, children_of(t, p), 0, cp, (depth - 1) as nat));
        lemma_text_of_single(t, e);
        assert(entry_text(t, e) == node_line(t, g, p, prefix, is_last, is_root));
    }
}

proof fn lemma_kids_text(
    t: Map<u32, RecordView>,
    g: Glyphs,
    path: Seq<u32>,
    kids: Seq<u32>,
    i: nat,
    prefix: Seq<char>,
    depth: nat,
)
    ensures
        render_kids(t, tree_kids(t), g, kids, i, prefix, depth) == text_of(
            t,
            layout_kids(t, g, path, kids, i, prefix, depth),
        ),
    decreases depth, kids.len() + 1 - i,
{
    if i < kids.len() {
        let child = path.push(kids[i as int]);
        lemma_node_text(t, g, child, prefix, i + 1 == kids.len(), false, depth);
        lemma_kids_text(t, g, path, kids, i + 1, prefix, depth);
        lemma_text_of_add(
            t,
            layout_node(t, g, child, prefix, i + 1 == kids.len(), false, depth),
            layout_kids(t, g, path, kids, i + 1, prefix, depth),
        );
    }
}

proof fn lemma_roots_text(t: Map<u32, RecordView>, g: Glyphs, roots: Seq<u32>, i: nat, depth: nat)
    ensures
        render_roots(t, tree_kids(t), g, roots, i, depth) == text_of(
            t,
            layout_roots(t, g, roots, i, depth),
        ),
    decreases roots.len() - i,
{
    if i < roots.len() {
        let single = seq![roots[i as int]];
        lemma_node_text(t, g, single, Seq::<char>::empty(), i + 1 == roots.len(), true, depth);
        lemma_roots_text(t, g, roots, i + 1, depth);
        lemma_text_of_add(
            t,
            layout_node(t, g, single, Seq::<char>::empty(), i + 1 == roots.len(), true, depth),
            layout_roots(t, g, roots, i + 1, depth),
        );
    }
}


/// `q` continues `p` downwards: it starts with `p`, and each pid after that
/// is a child of the pid before it.
pub open spec fn extends(t: Map<u32, RecordView>, p: Seq<u32>, q: Seq<u32>) -> bool {
    &&& p.len() <= q.len()
    &&& q.subrange(0, p.len() as int) == p
    &&& forall|j: int| p.len() <= j < q.len() ==> is_child_of(t, #[trigger] q[j], q[j - 1])
}

/// No two lines of `es` are drawn for the same descent.
pub open spec fn distinct_paths(es: Seq<(Seq<u32>, Seq<char>)>) -> bool {
    forall|a: int, b: int| 0 <= a < b < es.len() ==> es[a].0 != es[b].0
}

proof fn lemma_extends_step(t: Map<u32, RecordView>, path: Seq<u32>, kid: u32, q: Seq<u32>)
    requires
        path.len() > 0,
        is_child_of(t, kid, path.last()),
        extends(t, path.push(kid), q),
    ensures
        extends(t, path, q),
        q.len() > path.len(),
        q[path.len() as int] == kid,
{
    let n = path.len() as int;
    assert(q.subrange(0, n + 1) == path.push(kid));
    assert(q[n] == q.subrange(0, n + 1)[n as int]);
    assert(q.subrange(0, n) == q.subrange(0, n + 1).subrange(0, n));
    assert(path.push(kid).subrange(0, n) == path);
    assert forall|j: int| n <= j < q.len() implies is_child_of(t, #[trigger] q[j], q[j - 1]) by {
        if j == n {
            assert(q[j - 1] == q.subrange(0, n + 1)[j - 1]);
            assert(path.push(kid)[j - 1] == path.last());
        }
    }
}

proof fn lemma_node_shape(
    t: Map<u32, RecordView>,
    g: Glyphs,
    path: Seq<u32>,
    prefix: Seq<char>,
    is_last: bool,
    is_root: bool,
    depth: nat,
)
    requires
        path.len() > 0,
        t.dom().finite(),
    ensures
        forall|k: int|
            0 <= k < layout_node(t, g, path, prefix, is_last, is_root, depth).len() ==> extends(
                t,
                path,
                #[trigger] layout_node(t, g, path, prefix, is_last, is_root, depth)[k].0,
            ) && layout_node(t, g, path, prefix, is_last, is_root, depth)[k].0.len() < path.len()
                + depth,
    decreases depth, 0nat,
{
    let l = layout_node(t, g, path, prefix, is_last, is_root, depth);
    if depth > 0 && t.contains_key(path.last()) {
        let p = path.last();
        let cp = crate::render::child_prefix(g, prefix, is_last, is_root);
        let kids = children_of(t, p);
        lemma_kids(t, p);
        lemma_kids_shape(t, g, path, kids, 0, cp, (depth - 1) as nat);
        let rest = layout_kids(t, g, path, kids, 0, cp, (depth - 1) as nat);
        assert forall|k: int| 0 <= k < l.len() implies extends(t, path, #[trigger] l[k].0)
            && l[k].0.len() < path.len() + depth by {
            if k == 0 {
                assert(l[0].0 == path);
                assert(path.subrange(0, path.len() as int) == path);
            } else {
                assert(l[k] == rest[k - 1]);
            }
        }
    }
}

proof fn lemma_kids_shape(
    t: Map<u32, RecordView>,
    g: Glyphs,
    path: Seq<u32>,
    kids: Seq<u32>,
    i: nat,
    prefix: Seq<char>,
    depth: nat,
)
    requires
        path.len() > 0,
        t.dom().finite(),
        forall|j: int| 0 <= j < kids.len() ==> is_child_of(t, #[trigger] kids[j], path.last()),
    ensures
        forall|k: int|
            0 <= k < layout_kids(t, g, path, kids, i, prefix, depth).len() ==> {
                let q = #[trigger] layout_kids(t, g, path, kids, i, prefix, depth)[k].0;
                &&& extends(t, path, q)
                &&& q.len() > path.len()
                &&& q.len() < path.len() + 1 + depth
                &&& exists|j: int| i <= j < kids.len() && q[path.len() as int] == kids[j]
            },
    decreases depth, kids.len() + 1 - i,
{
    if i < kids.len() {
        let child = path.push(kids[i as int]);
        let first = layout_node(t, g, child, prefix, i + 1 == kids.len(), false, depth);
        let rest = layout_kids(t, g, path, kids, i + 1, prefix, depth);
        lemma_node_shape(t, g, child, prefix, i + 1 == kids.len(), false, depth);
        lemma_kids_shape(t, g, path, kids, i + 1, prefix, depth);
        let all = layout_kids(t, g, path, kids, i, prefix, depth);
        assert(all == first + rest);
        assert forall|k: int| 0 <= k < all.len() implies {
            let q = #[trigger] all[k].0;
            &&& extends(t, path, q)
            &&& q.len() > path.len()
            &&& q.len() < path.len() + 1 + depth
            &&& exists|j: int| i <= j < kids.len() && q[path.len() as int] == kids[j]
        } by {
            if k < first.len() {
                assert(all[k] == first[k]);
                assert(is_child_of(t, kids[i as int], path.last()));
                lemma_extends_step(t, path, kids[i as int], first[k].0);
            } else {
                assert(all[k] == rest[k - first.len()]);
                let q = rest[k - first.len()].0;
                let j = choose|j: int| i + 1 <= j < kids.len() && q[path.len() as int] == kids[j];
            }
        }
    }
}

proof fn lemma_node_distinct(
    t: Map<u32, RecordView>,
    g: Glyphs,
    path: Seq<u32>,
    prefix: Seq<char>,
    is_last: bool,
    is_root: bool,
    depth: nat,
)
    requires
        path.len() > 0,
        t.dom().finite(),
    ensures
        distinct_paths(layout_node(t, g, path, prefix, is_last, is_root, depth)),
    decreases depth, 0nat,
{
    let l = layout_node(t, g, path, prefix, is_last, is_root, depth);
    if depth > 0 && t.contains_key(path.last()) {
        let p = path.last();
        let cp = crate::render::child_prefix(g, prefix, is_last, is_root);
        let kids = children_of(t, p);
        lemma_kids(t, p);
        lemma_kids_shape(t, g, path, kids, 0, cp, (depth - 1) as nat);
        lemma_kids_distinct(t, g, path, kids, 0, cp, (depth - 1) as nat);
        let rest = layout_kids(t, g, path, kids, 0, cp, (depth - 1) as nat);
        assert forall|a: int, b: int| 0 <= a < b < l.len() implies l[a].0 != l[b].0 by {
            assert(l[b] == rest[b - 1]);
            if a == 0 {
                assert(rest[b - 1].0.len() > path.len());
            } else {
                assert(l[a] == rest[a - 1]);
            }
        }
    }
}

proof fn lemma_kids_distinct(
    t: Map<u32, RecordView>,
    g: Glyphs,
    path: Seq<u32>,
    kids: Seq<u32>,
    i: nat,
    prefix: Seq<char>,
    depth: nat,
)
    requires
        path.len() > 0,
        t.dom().finite(),
        increasing(kids),
        forall|j: int| 0 <= j < kids.len() ==> is_child_of(t, #[trigger] kids[j], path.last()),
    ensures
        distinct_paths(layout_kids(t, g, path, kids, i, prefix, depth)),
    decreases depth, kids.len() + 1 - i,
{
    if i < kids.len() {
        let child = path.push(kids[i as int]);
        let first = layout_node(t, g, child, prefix, i + 1 == kids.len(), false, depth);
        let rest = layout_kids(t, g, path, kids, i + 1, prefix, depth);
        lemma_node_shape(t, g, child, prefix, i + 1 == kids.len(), false, depth);
        lemma_node_distinct(t, g, child, prefix, i + 1 == kids.len(), false, depth);
        lemma_kids_shape(t, g, path, kids, i + 1, prefix, depth);
        lemma_kids_distinct(t, g, path, kids, i + 1, prefix, depth);
        let all = layout_kids(t, g, path, kids, i, prefix, depth);
        assert(all == first + rest);
        assert forall|a: int, b: int| 0 <= a < b < all.len() implies all[a].0 != all[b].0 by {
            if b < first.len() {
                assert(all[a] == first[a] && all[b] == first[b]);
            } else if a >= first.len() {
                assert(all[a] == rest[a - first.len()] && all[b] == rest[b - first.len()]);
            } else {
                assert(all[a] == first[a] && all[b] == rest[b - first.len()]);
                assert(is_child_of(t, kids[i as int], path.last()));
                lemma_extends_step(t, path, kids[i as int], first[a].0);
                let q = rest[b - first.len()].0;
                let j = choose|j: int| i + 1 <= j < kids.len() && q[path.len() as int] == kids[j];
                assert(kids[i as int] < kids[j]);
            }
        }
    }
}


proof fn lemma_node_complete(
    t: Map<u32, RecordView>,
    g: Glyphs,
    path: Seq<u32>,
    prefix: Seq<char>,
    is_last: bool,
    is_root: bool,
    depth: nat,
    q: Seq<u32>,
)
    requires
        path.len() > 0,
        t.dom().finite(),
        t.contains_key(path.last()),
        extends(t, path, q),
        q.len() < path.len() + depth,
    ensures
        exists|k: int|
            0 <= k < layout_node(t, g, path, prefix, is_last, is_root, depth).len()
                && #[trigger] layout_node(t, g, path, prefix, is_last, is_root, depth)[k].0 == q,
    decreases depth, 0nat,
{
    let l = layout_node(t, g, path, prefix, is_last, is_root, depth);
    let n = path.len() as int;
    if q.len() == path.len() {
        assert(q == q.subrange(0, n));
        assert(l[0].0 == q);
    } else {
        let p = path.last();
        let kid = q[n];
        assert(is_child_of(t, q[n], q[n - 1]));
        assert(q[n - 1] == q.subrange(0, n)[n - 1]);
        let cp = crate::render::child_prefix(g, prefix, is_last, is_root);
        let kids = children_of(t, p);
        lemma_kids(t, p);
        assert(child_set(t, p).contains(kid));
        assert(kids.to_set().contains(kid));
        let j = choose|j: int| 0 <= j < kids.len() && kids[j] == kid;
        assert(extends(t, path.push(kid), q)) by {
            assert(q.subrange(0, n + 1) == q.subrange(0, n).push(kid));
        }
        lemma_kids_complete(t, g, path, kids, 0, cp, (depth - 1) as nat, q, j);
        let rest = layout_kids(t, g, path, kids, 0, cp, (depth - 1) as nat);
        let k = choose|k: int| 0 <= k < rest.len() && #[trigger] rest[k].0 == q;
        assert(l[k + 1] == rest[k]);
    }
}

proof fn lemma_kids_complete(
    t: Map<u32, RecordView>,
    g: Glyphs,
    path: Seq<u32>,
    kids: Seq<u32>,
    i: nat,
    prefix: Seq<char>,
    depth: nat,
    q: Seq<u32>,
    j: int,
)
    requires
        path.len() > 0,
        t.dom().finite(),
        i <= j < kids.len(),
        is_child_of(t, kids[j], path.last()),
        extends(t, path.push(kids[j]), q),
        q.len() < path.len() + 1 + depth,
    ensures
        exists|k: int|
            0 <= k < layout_kids(t, g, path, kids, i, prefix, depth).len()
                && #[trigger] layout_kids(t, g, path, kids, i, prefix, depth)[k].0 == q,
    decreases depth, kids.len() + 1 - i,
{
    let child = path.push(kids[i as int]);
    let first = layout_node(t, g, child, prefix, i + 1 == kids.len(), false, depth);
    let rest = layout_kids(t, g, path, kids, i + 1, prefix, depth);
    let all = layout_kids(t, g, path, kids, i, prefix, depth);
    assert(all == first + rest);
    if j == i {
        lemma_node_complete(t, g, child, prefix, i + 1 == kids.len(), false, depth, q);
        let k = choose|k: int| 0 <= k < first.len() && #[trigger] first[k].0 == q;
        assert(all[k] == first[k]);
    } else {
        lemma_kids_complete(t, g, path, kids, i + 1, prefix, depth, q, j);
        let k = choose|k: int| 0 <= k < rest.len() && #[trigger] rest[k].0 == q;
        assert(all[first.len() + k] == rest[k]);
    }
}

/// Every line of the drawing below the roots `roots[i..]` is drawn for a
/// descent from one of them, no descent twice.
proof fn lemma_roots_shape(t: Map<u32, RecordView>, g: Glyphs, roots: Seq<u32>, i: nat, depth: nat)
    requires
        t.dom().finite(),
        increasing(roots),
        forall|j: int| 0 <= j < roots.len() ==> is_root(t, #[trigger] roots[j]),
    ensures
        forall|k: int|
            0 <= k < layout_roots(t, g, roots, i, depth).len() ==> {
                let q = #[trigger] layout_roots(t, g, roots, i, depth)[k].0;
                &&& is_descent(t, q)
                &&& exists|j: int| i <= j < roots.len() && q[0] == roots[j]
            },
        distinct_paths(layout_roots(t, g, roots, i, depth)),
    decreases roots.len() - i,
{
    if i < roots.len() {
        let single = seq![roots[i as int]];
        let first = layout_node(t, g, single, Seq::<char>::empty(), i + 1 == roots.len(), true, depth);
        let rest = layout_roots(t, g, roots, i + 1, depth);
        let all = layout_roots(t, g, roots, i, depth);
        lemma_node_shape(t, g, single, Seq::<char>::empty(), i + 1 == roots.len(), true, depth);
        lemma_node_distinct(t, g, single, Seq::<char>::empty(), i + 1 == roots.len(), true, depth);
        lemma_roots_shape(t, g, roots, i + 1, depth);
        assert(all == first + rest);
        assert forall|k: int| 0 <= k < first.len() implies is_descent(t, #[trigger] first[k].0)
            && first[k].0[0] == roots[i as int] by {
            let q = first[k].0;
            assert(q.subrange(0, 1) == single);
            assert(q[0] == q.subrange(0, 1)[0]);
            assert forall|m: int| 0 < m < q.len() implies is_child_of(t, #[trigger] q[m], q[m - 1]) by {}
        }
        assert forall|k: int| 0 <= k < all.len() implies {
            let q = #[trigger] all[k].0;
            &&& is_descent(t, q)
            &&& exists|j: int| i <= j < roots.len() && q[0] == roots[j]
        } by {
            if k < first.len() {
                assert(all[k] == first[k]);
            } else {
                assert(all[k] == rest[k - first.len()]);
                let q = rest[k - first.len()].0;
                let j = choose|j: int| i + 1 <= j < roots.len() && q[0] == roots[j];
            }
        }
        assert forall|a: int, b: int| 0 <= a < b < all.len() implies all[a].0 != all[b].0 by {
            if b < first.len() {
                assert(all[a] == first[a] && all[b] == first[b]);
            } else if a >= first.len() {
                assert(all[a] == rest[a - first.len()] && all[b] == rest[b - first.len()]);
            } else {
                assert(all[a] == first[a] && all[b] == rest[b - first.len()]);
                let q = rest[b - first.len()].0;
                let j = choose|j: int| i + 1 <= j < roots.len() && q[0] == roots[j];
                assert(roots[i as int] < roots[j]);
            }
        }
    }
}

proof fn lemma_roots_complete(
    t: Map<u32, RecordView>,
    g: Glyphs,
    roots: Seq<u32>,
    i: nat,
    depth: nat,
    q: Seq<u32>,
    j: int,
)
    requires
        t.dom().finite(),
        i <= j < roots.len(),
        is_descent(t, q),
        q[0] == roots[j],
        q.len() < 1 + depth,
    ensures
        exists|k: int|
            0 <= k < layout_roots(t, g, roots, i, depth).len()
                && #[trigger] layout_roots(t, g, roots, i, depth)[k].0 == q,
    decreases roots.len() - i,
{
    let single = seq![roots[i as int]];
    let first = layout_node(t, g, single, Seq::<char>::empty(), i + 1 == roots.len(), true, depth);
    let rest = layout_roots(t, g, roots, i + 1, depth);
    let all = layout_roots(t, g, roots, i, depth);
    assert(all == first + rest);
    if j == i {
        assert(q.subrange(0, 1) == single);
        assert(is_root(t, q[0]));
        lemma_node_complete(t, g, single, Seq::<char>::empty(), i + 1 == roots.len(), true, depth, q);
        let k = choose|k: int| 0 <= k < first.len() && #[trigger] first[k].0 == q;
        assert(all[k] == first[k]);
    } else {
        lemma_roots_complete(t, g, roots, i + 1, depth, q, j);
        let k = choose|k: int| 0 <= k < rest.len() && #[trigger] rest[k].0 == q;
        assert(all[first.len() + k] == rest[k]);
    }
}

/// Climbing from the bottom of a descent reaches its root.
proof fn lemma_descent_climbs(t: Map<u32, RecordView>, q: Seq<u32>)
    requires
        is_descent(t, q),
    ensures
        t.contains_key(q.last()),
        climb(t, q.last(), (q.len() - 1) as nat) == q[0],
    decreases q.len(),
{
    if q.len() > 1 {
        let q1 = q.drop_last();
        assert forall|m: int| 0 < m < q1.len() implies is_child_of(t, #[trigger] q1[m], q1[m - 1]) by {
            assert(is_child_of(t, q[m], q[m - 1]));
        }
        lemma_descent_climbs(t, q1);
        assert(is_child_of(t, q[q.len() - 1], q[q.len() - 2]));
    }
}

/// A pid from which `k` ppid steps reach a root ends a descent.
proof fn lemma_descent_to(t: Map<u32, RecordView>, p: u32, k: nat) -> (q: Seq<u32>)
    requires
        is_root(t, climb(t, p, k)),
    ensures
        is_descent(t, q),
        q.last() == p,
    decreases k,
{
    if is_root(t, p) {
        seq![p]
    } else {
        assert(k > 0);
        let up = if t.contains_key(p) {
            t[p].ppid
        } else {
            p
        };
        assert(climb(t, p, k) == climb(t, up, (k - 1) as nat));
        let d = lemma_descent_to(t, up, (k - 1) as nat);
        let q = d.push(p);
        assert(is_child_of(t, p, up)) by {
            if !t.contains_key(p) {
                assert(is_root(t, d.last()) || is_child_of(t, d.last(), d[d.len() - 2]));
            }
        }
        assert forall|m: int| 0 < m < q.len() implies is_child_of(t, #[trigger] q[m], q[m - 1]) by {
            if m < d.len() {
                assert(q[m] == d[m] && q[m - 1] == d[m - 1]);
            }
        }
        q
    }
}

/// What `format` and `format_ascii` draw: the lines of `layout_tree`, one
/// for each pid from which following ppids reaches a root, no pid twice.
/// The pids left out are exactly those that `diagnose` reports as cycles,
/// so the depth bound in `render_tree` never cuts a branch.
pub proof fn law_drawing_shows_each_reachable_pid_once(rs: Seq<RecordView>, g: Glyphs)
    ensures
        ({
            let t = table(rs);
            &&& render_tree(t, g) == text_of(t, layout_tree(t, g))
            &&& drawn_pids(t, g).no_duplicates()
            &&& drawn_pids(t, g).to_set() == t.dom().filter(|p: u32| reaches_root(t, p))
            &&& drawn_pids(t, g).to_set() == t.dom().difference(cycle_set(t))
        }),
{
    let t = table(rs);
    lemma_table(rs);
    let n = t.dom().len();
    let roots = roots_of(t);
    vstd::set_lib::lemma_len_subset(root_set(t), t.dom());
    lemma_ascending_finite(root_set(t));
    assert forall|j: int| 0 <= j < roots.len() implies is_root(t, #[trigger] roots[j]) by {
        assert(roots.to_set().contains(roots[j]));
    }
    lemma_roots_text(t, g, roots, 0, n);
    lemma_roots_shape(t, g, roots, 0, n);
    let es = layout_tree(t, g);
    let drawn = drawn_pids(t, g);
    assert forall|a: int, b: int| 0 <= a < drawn.len() && 0 <= b < drawn.len() && a != b implies drawn[a] != drawn[b] by {
        if drawn[a] == drawn[b] {
            lemma_descent_unique(t, es[a].0, es[b].0);
        }
    }
    assert forall|p: u32| drawn.to_set().contains(p) <==> (t.dom().contains(p) && reaches_root(t, p)) by {
        if drawn.to_set().contains(p) {
            let k = choose|k: int| 0 <= k < drawn.len() && drawn[k] == p;
            let q = es[k].0;
            lemma_descent_climbs(t, q);
            assert(is_root(t, climb(t, p, (q.len() - 1) as nat)));
        }
        if t.dom().contains(p) && reaches_root(t, p) {
            let k = choose|k: nat| is_root(t, #[trigger] climb(t, p, k));
            let q = lemma_descent_to(t, p, k);
            lemma_descent_within(t, q);
            assert(roots.to_set().contains(q[0])) by {
                assert(root_set(t).contains(q[0]));
            }
            let j = choose|j: int| 0 <= j < roots.len() && roots[j] == q[0];
            lemma_roots_complete(t, g, roots, 0, n, q, j);
            let m = choose|m: int| 0 <= m < es.len() && #[trigger] es[m].0 == q;
            assert(drawn[m] == p);
        }
    }
    assert(drawn.to_set() =~= t.dom().filter(|p: u32| reaches_root(t, p)));
    assert(drawn.to_set() =~= t.dom().difference(cycle_set(t)));
}


/// The descents drawn below a node do not depend on the connectors or on
/// the text before the node's line.
proof fn lemma_node_paths_glyph_free(
    t: Map<u32, RecordView>,
    g1: Glyphs,
    g2: Glyphs,
    path: Seq<u32>,
    pr1: Seq<char>,
    pr2: Seq<char>,
    is_last: bool,
    is_root: bool,
    depth: nat,
)
    ensures
        layout_node(t, g1, path, pr1, is_last, is_root, depth).map_values(
            |e: (Seq<u32>, Seq<char>)| e.0,
        ) == layout_node(t, g2, path, pr2, is_last, is_root, depth).map_values(
            |e: (Seq<u32>, Seq<char>)| e.0,
        ),
    decreases depth, 0nat,
{
    let l1 = layout_node(t, g1, path, pr1, is_last, is_root, depth);
    let l2 = layout_node(t, g2, path, pr2, is_last, is_root, depth);
    if depth > 0 && path.len() > 0 && t.contains_key(path.last()) {
        let kids = children_of(t, path.last());
        let c1 = crate::render::child_prefix(g1, pr1, is_last, is_root);
        let c2 = crate::render::child_prefix(g2, pr2, is_last, is_root);
        let k1 = layout_kids(t, g1, path, kids, 0, c1, (depth - 1) as nat);
        let k2 = layout_kids(t, g2, path, kids, 0, c2, (depth - 1) as nat);
        lemma_kids_paths_glyph_free(t, g1, g2, path, kids, 0, c1, c2, (depth - 1) as nat);
        assert(l1.len() == l2.len()) by {
            assert(k1.map_values(|e: (Seq<u32>, Seq<char>)| e.0).len() == k1.len());
        }
        assert forall|k: int| 0 <= k < l1.len() implies l1[k].0 == l2[k].0 by {
            if k > 0 {
                assert(l1[k] == k1[k - 1] && l2[k] == k2[k - 1]);
                assert(k1.map_values(|e: (Seq<u32>, Seq<char>)| e.0)[k - 1] == k1[k - 1].0);
                assert(k2.map_values(|e: (Seq<u32>, Seq<char>)| e.0)[k - 1] == k2[k - 1].0);
            }
        }
    }
    assert(l1.map_values(|e: (Seq<u32>, Seq<char>)| e.0) =~= l2.map_values(
        |e: (Seq<u32>, Seq<char>)| e.0,
    ));
}

proof fn lemma_kids_paths_glyph_free(
    t: Map<u32, RecordView>,
    g1: Glyphs,
    g2: Glyphs,
    path: Seq<u32>,
    kids: Seq<u32>,
    i: nat,
    pr1: Seq<char>,
    pr2: Seq<char>,
    depth: nat,
)
    ensures
        layout_kids(t, g1, path, kids, i, pr1, depth).map_values(|e: (Seq<u32>, Seq<char>)| e.0)
            == layout_kids(t, g2, path, kids, i, pr2, depth).map_values(
            |e: (Seq<u32>, Seq<char>)| e.0,
        ),
    decreases depth, kids.len() + 1 - i,
{
    if i < kids.len() {
        let child = path.push(kids[i as int]);
        let last = i + 1 == kids.len();
        lemma_node_paths_glyph_free(t, g1, g2, child, pr1, pr2, last, false, depth);
        lemma_kids_paths_glyph_free(t, g1, g2, path, kids, i + 1, pr1, pr2, depth);
        let f1 = layout_node(t, g1, child, pr1, last, false, depth);
        let f2 = layout_node(t, g2, child, pr2, last, false, depth);
        let r1 = layout_kids(t, g1, path, kids, i + 1, pr1, depth);
        let r2 = layout_kids(t, g2, path, kids, i + 1, pr2, depth);
        let pick = |e: (Seq<u32>, Seq<char>)| e.0;
        assert((f1 + r1).map_values(pick) =~= f1.map_values(pick) + r1.map_values(pick));
        assert((f2 + r2).map_values(pick) =~= f2.map_values(pick) + r2.map_values(pick));
    }
}

proof fn lemma_roots_paths_glyph_free(
    t: Map<u32, RecordView>,
    g1: Glyphs,
    g2: Glyphs,
    roots: Seq<u32>,
    i: nat,
    depth: nat,
)
    ensures
        layout_roots(t, g1, roots, i, depth).map_values(|e: (Seq<u32>, Seq<char>)| e.0)
            == layout_roots(t, g2, roots, i, depth).map_values(|e: (Seq<u32>, Seq<char>)| e.0),
    decreases roots.len() - i,
{
    if i < roots.len() {
        let single = seq![roots[i as int]];
        let last = i + 1 == roots.len();
        let empty = Seq::<char>::empty();
        lemma_node_paths_glyph_free(t, g1, g2, single, empty, empty, last, true, depth);
        lemma_roots_paths_glyph_free(t, g1, g2, roots, i + 1, depth);
        let f1 = layout_node(t, g1, single, empty, last, true, depth);
        let f2 = layout_node(t, g2, single, empty, last, true, depth);
        let r1 = layout_roots(t, g1, roots, i + 1, depth);
        let r2 = layout_roots(t, g2, roots, i + 1, depth);
        let pick = |e: (Seq<u32>, Seq<char>)| e.0;
        assert((f1 + r1).map_values(pick) =~= f1.map_values(pick) + r1.map_values(pick));
        assert((f2 + r2).map_values(pick) =~= f2.map_values(pick) + r2.map_values(pick));
    }
}

/// Drawing with other connectors (`format_ascii` beside `format`) draws
/// the same descents, hence the same pids, in the same order; only the
/// connector text differs.
pub proof fn law_connectors_only_change_connectors(rs: Seq<RecordView>, g1: Glyphs, g2: Glyphs)
    ensures
        layout_tree(table(rs), g1).map_values(|e: (Seq<u32>, Seq<char>)| e.0) == layout_tree(
            table(rs),
            g2,
        ).map_values(|e: (Seq<u32>, Seq<char>)| e.0),
        drawn_pids(table(rs), g1) == drawn_pids(table(rs), g2),
{
    let t = table(rs);
    lemma_roots_paths_glyph_free(t, g1, g2, roots_of(t), 0, t.dom().len());
    let a = layout_tree(t, g1);
    let b = layout_tree(t, g2);
    let pick = |e: (Seq<u32>, Seq<char>)| e.0;
    assert(a.map_values(pick).len() == a.len());
    assert(b.map_values(pick).len() == b.len());
    assert forall|k: int| 0 <= k < a.len() implies a[k].0 == b[k].0 by {
        assert(a.map_values(pick)[k] == a[k].0);
        assert(b.map_values(pick)[k] == b[k].0);
    }
    assert(drawn_pids(t, g1) =~= drawn_pids(t, g2));
}


/// The ASCII stand-in for a box-drawing character: `├` and `│` become `|`,
/// `└` becomes a backquote, `─` becomes `-`; other characters stay.
pub open spec fn to_ascii_glyph(c: char) -> char {
    if c == '├' || c == '│' {
        '|'
    } else if c == '└' {
        '`'
    } else if c == '─' {
        '-'
    } else {
        c
    }
}

/// `s` with every box-drawing character replaced by its ASCII stand-in.
pub open spec fn ascii_text(s: Seq<char>) -> Seq<char> {
    s.map_values(|c: char| to_ascii_glyph(c))
}

/// No character of `s` is one of the box-drawing characters.
pub open spec fn no_box_chars(s: Seq<char>) -> bool {
    forall|i: int| 0 <= i < s.len() ==> to_ascii_glyph(#[trigger] s[i]) == s[i]
}

proof fn lemma_ascii_text_add(a: Seq<char>, b: Seq<char>)
    ensures
        ascii_text(a + b) == ascii_text(a) + ascii_text(b),
{
    assert(ascii_text(a + b) =~= ascii_text(a) + ascii_text(b));
}

proof fn lemma_ascii_text_keeps(s: Seq<char>)
    requires
        no_box_chars(s),
    ensures
        ascii_text(s) == s,
{
    assert(ascii_text(s) =~= s);
}

proof fn lemma_ascii_line(
    t: Map<u32, RecordView>,
    p: u32,
    pu: Seq<char>,
    is_last: bool,
    is_root: bool,
)
    requires
        t.contains_key(p),
        no_box_chars(t[p].command),
    ensures
        node_line(t, crate::render::ascii_glyphs(), p, ascii_text(pu), is_last, is_root) == ascii_text(
            node_line(t, crate::render::unicode_glyphs(), p, pu, is_last, is_root),
        ),
        crate::render::child_prefix(crate::render::ascii_glyphs(), ascii_text(pu), is_last, is_root)
            == ascii_text(crate::render::child_prefix(crate::render::unicode_glyphs(), pu, is_last, is_root)),
{
    let a = crate::render::ascii_glyphs();
    let u = crate::render::unicode_glyphs();
    assert(ascii_text(u.branch) =~= a.branch);
    assert(ascii_text(u.last_branch) =~= a.last_branch);
    assert(ascii_text(u.vertical) =~= a.vertical);
    assert(ascii_text(u.blank) =~= a.blank);
    assert(ascii_text(Seq::<char>::empty()) =~= Seq::<char>::empty());
    lemma_ascii_text_add(pu, u.branch);
    lemma_ascii_text_add(pu, u.last_branch);
    lemma_ascii_text_add(pu, u.vertical);
    lemma_ascii_text_add(pu, u.blank);
    crate::text::lemma_decimal_digits(t[p].pid as nat);
    let d = decimal(t[p].pid as nat);
    assert(no_box_chars(d)) by {
        assert forall|i: int| 0 <= i < d.len() implies to_ascii_glyph(#[trigger] d[i]) == d[i] by {
            assert(crate::text::is_digit(d[i]));
        }
    }
    lemma_ascii_text_keeps(d);
    lemma_ascii_text_keeps(t[p].command);
    let head = crate::render::line_head(u, pu, is_last, is_root);
    let tail1 = seq![' ', '('];
    let tail2 = seq![')', '\n'];
    assert(ascii_text(tail1) =~= tail1);
    assert(ascii_text(tail2) =~= tail2);
    lemma_ascii_text_add(head, t[p].command);
    lemma_ascii_text_add(head + t[p].command, tail1);
    lemma_ascii_text_add(head + t[p].command + tail1, d);
    lemma_ascii_text_add(head + t[p].command + tail1 + d, tail2);
}

proof fn lemma_ascii_node(
    t: Map<u32, RecordView>,
    ks: Map<u32, Seq<u32>>,
    p: u32,
    pu: Seq<char>,
    is_last: bool,
    is_root: bool,
    depth: nat,
)
    requires
        forall|q: u32| #[trigger] t.contains_key(q) ==> no_box_chars(t[q].command),
    ensures
        render_node(t, ks, crate::render::ascii_glyphs(), p, ascii_text(pu), is_last, is_root, depth)
            == ascii_text(render_node(t, ks, crate::render::unicode_glyphs(), p, pu, is_last, is_root, depth)),
    decreases depth, 0nat,
{
    let a = crate::render::ascii_glyphs();
    let u = crate::render::unicode_glyphs();
    if depth > 0 && t.contains_key(p) {
        lemma_ascii_line(t, p, pu, is_last, is_root);
        let cu = crate::render::child_prefix(u, pu, is_last, is_root);
        lemma_ascii_kids(t, ks, crate::render::kids_of(ks, p), 0, cu, (depth - 1) as nat);
        lemma_ascii_text_add(
            node_line(t, u, p, pu, is_last, is_root),
            render_kids(t, ks, u, crate::render::kids_of(ks, p), 0, cu, (depth - 1) as nat),
        );
    } else {
        assert(ascii_text(Seq::<char>::empty()) =~= Seq::<char>::empty());
    }
}

proof fn lemma_ascii_kids(
    t: Map<u32, RecordView>,
    ks: Map<u32, Seq<u32>>,
    kids: Seq<u32>,
    i: nat,
    pu: Seq<char>,
    depth: nat,
)
    requires
        forall|q: u32| #[trigger] t.contains_key(q) ==> no_box_chars(t[q].command),
    ensures
        render_kids(t, ks, crate::render::ascii_glyphs(), kids, i, ascii_text(pu), depth)
            == ascii_text(render_kids(t, ks, crate::render::unicode_glyphs(), kids, i, pu, depth)),
    decreases depth, kids.len() + 1 - i,
{
    let u = crate::render::unicode_glyphs();
    if i < kids.len() {
        let last = i + 1 == kids.len();
        lemma_ascii_node(t, ks, kids[i as int], pu, last, false, depth);
        lemma_ascii_kids(t, ks, kids, i + 1, pu, depth);
        lemma_ascii_text_add(
            render_node(t, ks, u, kids[i as int], pu, last, false, depth),
            render_kids(t, ks, u, kids, i + 1, pu, depth),
        );
    } else {
        assert(ascii_text(Seq::<char>::empty()) =~= Seq::<char>::empty());
    }
}

proof fn lemma_ascii_roots(
    t: Map<u32, RecordView>,
    ks: Map<u32, Seq<u32>>,
    roots: Seq<u32>,
    i: nat,
    depth: nat,
)
    requires
        forall|q: u32| #[trigger] t.contains_key(q) ==> no_box_chars(t[q].command),
    ensures
        render_roots(t, ks, crate::render::ascii_glyphs(), roots, i, depth) == ascii_text(
            render_roots(t, ks, crate::render::unicode_glyphs(), roots, i, depth),
        ),
    decreases roots.len() - i,
{
    let u = crate::render::unicode_glyphs();
    let empty = Seq::<char>::empty();
    assert(ascii_text(empty) =~= empty);
    if i < roots.len() {
        let last = i + 1 == roots.len();
        lemma_ascii_node(t, ks, roots[i as int], empty, last, true, depth);
        lemma_ascii_roots(t, ks, roots, i + 1, depth);
        lemma_ascii_text_add(
            render_node(t, ks, u, roots[i as int], empty, last, true, depth),
            render_roots(t, ks, u, roots, i + 1, depth),
        );
    }
}

/// Where no command holds a box-drawing character, `format_ascii` draws
/// exactly the text of `format` with each box-drawing character replaced by
/// its ASCII stand-in: same tree, same order, same spacing.
pub proof fn law_ascii_is_unicode_with_glyphs_swapped(rs: Seq<RecordView>)
    requires
        forall|q: u32| #[trigger] table(rs).contains_key(q) ==> no_box_chars(table(rs)[q].command),
    ensures
        render_tree(table(rs), crate::render::ascii_glyphs()) == ascii_text(
            render_tree(table(rs), crate::render::unicode_glyphs()),
        ),
{
    let t = table(rs);
    lemma_ascii_roots(t, tree_kids(t), roots_of(t), 0, t.dom().len());
}


/// No character of `s` is a newline.
pub open spec fn no_newline(s: Seq<char>) -> bool {
    forall|i: int| 0 <= i < s.len() ==> #[trigger] s[i] != '\n'
}

/// ` (pid)`, what a line ends with.
pub open spec fn pid_tag(p: u32) -> Seq<char> {
    seq![' ', '('] + decimal(p as nat) + seq![')']
}

/// `s` ends with `suffix`.
pub open spec fn ends_with(s: Seq<char>, suffix: Seq<char>) -> bool {
    &&& suffix.len() <= s.len()
    &&& s.subrange(s.len() - suffix.len(), s.len() as int) == suffix
}

/// The text of a line of the drawing without its newline.
pub open spec fn line_text(t: Map<u32, RecordView>, e: (Seq<u32>, Seq<char>)) -> Seq<char> {
    e.1 + t[e.0.last()].command + pid_tag(t[e.0.last()].pid)
}

proof fn lemma_split_lines_append(a: Seq<char>, b: Seq<char>)
    requires
        no_newline(b),
    ensures
        split_lines(a + b) == split_lines(a).update(
            split_lines(a).len() - 1,
            split_lines(a).last() + b,
        ),
    decreases b.len(),
{
    crate::text::lemma_split_lines_nonempty(a);
    let l = split_lines(a);
    if b.len() == 0 {
        assert(a + b == a);
        assert(l.last() + b == l.last());
        assert(l.update(l.len() - 1, l.last()) =~= l);
    } else {
        let b1 = b.drop_last();
        assert(no_newline(b1)) by {
            assert forall|i: int| 0 <= i < b1.len() implies #[trigger] b1[i] != '\n' by {
                assert(b[i] != '\n');
            }
        }
        lemma_split_lines_append(a, b1);
        assert((a + b).drop_last() == a + b1);
        assert((a + b).last() == b.last());
        assert(b.last() != '\n');
        assert(l.last() + b1.push(b.last()) == (l.last() + b1).push(b.last()));
        assert(b1.push(b.last()) == b);
        let s1 = split_lines(a + b1);
        assert(s1.update(s1.len() - 1, s1.last().push(b.last())) =~= l.update(
            l.len() - 1,
            l.last() + b,
        ));
    }
}

/// The lines of a drawing's text are the lines of its entries.
proof fn lemma_split_text(t: Map<u32, RecordView>, es: Seq<(Seq<u32>, Seq<char>)>)
    requires
        forall|k: int| 0 <= k < es.len() ==> no_newline(#[trigger] line_text(t, es[k])),
    ensures
        split_lines(text_of(t, es)) == es.map_values(|e: (Seq<u32>, Seq<char>)| line_text(t, e)).push(
            Seq::<char>::empty(),
        ),
    decreases es.len(),
{
    let lt = |e: (Seq<u32>, Seq<char>)| line_text(t, e);
    if es.len() == 0 {
        assert(text_of(t, es) == Seq::<char>::empty());
        assert(es.map_values(lt).push(Seq::<char>::empty()) =~= seq![Seq::<char>::empty()]);
    } else {
        let pre = es.drop_last();
        assert forall|k: int| 0 <= k < pre.len() implies no_newline(#[trigger] line_text(t, pre[k])) by {
            assert(pre[k] == es[k]);
        }
        lemma_split_text(t, pre);
        let x = text_of(t, pre);
        let line = line_text(t, es.last());
        assert(no_newline(line)) by {
            assert(line_text(t, es[es.len() - 1]) == line);
        }
        let whole = text_of(t, es);
        assert(entry_text(t, es.last()) == line.push('\n'));
        assert(whole == (x + line).push('\n'));
        assert(whole.drop_last() == x + line);
        lemma_split_lines_append(x, line);
        let m = pre.map_values(lt);
        assert(split_lines(x) == m.push(Seq::<char>::empty()));
        assert(Seq::<char>::empty() + line == line);
        assert(split_lines(x + line) =~= m.push(line));
        assert(es.map_values(lt) =~= m.push(line));
    }
}

/// `decimal(q)` after ` (` ends a line with the tag of `p` only for `p == q`.
proof fn lemma_tag_unique(x: Seq<char>, q: u32, p: u32)
    ensures
        ends_with(x + pid_tag(q), pid_tag(p)) <==> p == q,
{
    let s = x + pid_tag(q);
    let dq = decimal(q as nat);
    let dp = decimal(p as nat);
    crate::text::lemma_decimal_digits(q as nat);
    crate::text::lemma_decimal_digits(p as nat);
    let tp = pid_tag(p);
    let tq = pid_tag(q);
    let n = s.len();
    assert(tq.len() == dq.len() + 3);
    assert(tp.len() == dp.len() + 3);
    if p == q {
        assert(s.subrange(n - tp.len(), n as int) =~= tp);
    } else if ends_with(s, tp) {
        let sub = s.subrange(n - tp.len(), n as int);
        if dp.len() == dq.len() {
            assert(dp =~= dq) by {
                assert forall|i: int| 0 <= i < dp.len() implies dp[i] == dq[i] by {
                    assert(sub[i + 2] == tp[i + 2]);
                    assert(s[x.len() + 2 + i] == tq[i + 2]);
                }
            }
            crate::text::lemma_decimal_injective(p as nat, q as nat);
        } else if dp.len() < dq.len() {
            let k = dq.len() - dp.len() - 1;
            assert(sub[1] == '(');
            assert(s[n - tp.len() + 1] == sub[1]);
            assert(s[x.len() + 2 + k] == dq[k]);
            assert(crate::text::is_digit(dq[k]));
        } else {
            let k = dp.len() - dq.len() - 1;
            assert(s[x.len() + 1int] == '(');
            assert(sub[2 + k] == dp[k]);
            assert(s[n - tp.len() + 2 + k] == sub[2 + k]);
            assert(crate::text::is_digit(dp[k]));
        }
    }
}

proof fn lemma_node_heads(
    t: Map<u32, RecordView>,
    g: Glyphs,
    path: Seq<u32>,
    prefix: Seq<char>,
    is_last: bool,
    is_root: bool,
    depth: nat,
)
    requires
        no_newline(g.branch) && no_newline(g.last_branch) && no_newline(g.vertical) && no_newline(g.blank),
        no_newline(prefix),
    ensures
        forall|k: int|
            0 <= k < layout_node(t, g, path, prefix, is_last, is_root, depth).len() ==> no_newline(
                #[trigger] layout_node(t, g, path, prefix, is_last, is_root, depth)[k].1,
            ),
    decreases depth, 0nat,
{
    let l = layout_node(t, g, path, prefix, is_last, is_root, depth);
    if depth > 0 && path.len() > 0 && t.contains_key(path.last()) {
        let cp = crate::render::child_prefix(g, prefix, is_last, is_root);
        let head = crate::render::line_head(g, prefix, is_last, is_root);
        assert(no_newline(cp)) by {
            assert forall|i: int| 0 <= i < cp.len() implies #[trigger] cp[i] != '\n' by {
                if !is_root && i >= prefix.len() {
                    if is_last {
                        assert(cp[i] == g.blank[i - prefix.len()]);
                    } else {
                        assert(cp[i] == g.vertical[i - prefix.len()]);
                    }
                }
            }
        }
        assert(no_newline(head)) by {
            assert forall|i: int| 0 <= i < head.len() implies #[trigger] head[i] != '\n' by {
                if !is_root && i >= prefix.len() {
                    if is_last {
                        assert(head[i] == g.last_branch[i - prefix.len()]);
                    } else {
                        assert(head[i] == g.branch[i - prefix.len()]);
                    }
                }
            }
        }
        let kids = children_of(t, path.last());
        lemma_kids_heads(t, g, path, kids, 0, cp, (depth - 1) as nat);
        let rest = layout_kids(t, g, path, kids, 0, cp, (depth - 1) as nat);
        assert forall|k: int| 0 <= k < l.len() implies no_newline(#[trigger] l[k].1) by {
            if k > 0 {
                assert(l[k] == rest[k - 1]);
            }
        }
    }
}

proof fn lemma_kids_heads(
    t: Map<u32, RecordView>,
    g: Glyphs,
    path: Seq<u32>,
    kids: Seq<u32>,
    i: nat,
    prefix: Seq<char>,
    depth: nat,
)
    requires
        no_newline(g.branch) && no_newline(g.last_branch) && no_newline(g.vertical) && no_newline(g.blank),
        no_newline(prefix),
    ensures
        forall|k: int|
            0 <= k < layout_kids(t, g, path, kids, i, prefix, depth).len() ==> no_newline(
                #[trigger] layout_kids(t, g, path, kids, i, prefix, depth)[k].1,
            ),
    decreases depth, kids.len() + 1 - i,
{
    if i < kids.len() {
        let child = path.push(kids[i as int]);
        let last = i + 1 == kids.len();
        lemma_node_heads(t, g, child, prefix, last, false, depth);
        lemma_kids_heads(t, g, path, kids, i + 1, prefix, depth);
        let first = layout_node(t, g, child, prefix, last, false, depth);
        let rest = layout_kids(t, g, path, kids, i + 1, prefix, depth);
        let all = layout_kids(t, g, path, kids, i, prefix, depth);
        assert(all == first + rest);
        assert forall|k: int| 0 <= k < all.len() implies no_newline(#[trigger] all[k].1) by {
            if k < first.len() {
                assert(all[k] == first[k]);
            } else {
                assert(all[k] == rest[k - first.len()]);
            }
        }
    }
}

/// Every line drawn has newline-free connector text, and a line drawn for
/// a one-element descent (a root) has none at all.
proof fn lemma_roots_heads(t: Map<u32, RecordView>, g: Glyphs, roots: Seq<u32>, i: nat, depth: nat)
    requires
        t.dom().finite(),
        no_newline(g.branch) && no_newline(g.last_branch) && no_newline(g.vertical) && no_newline(g.blank),
    ensures
        forall|k: int|
            0 <= k < layout_roots(t, g, roots, i, depth).len() ==> no_newline(
                #[trigger] layout_roots(t, g, roots, i, depth)[k].1,
            ) && (layout_roots(t, g, roots, i, depth)[k].0.len() == 1 ==> layout_roots(
                t,
                g,
                roots,
                i,
                depth,
            )[k].1 == Seq::<char>::empty()),
    decreases roots.len() - i,
{
    if i < roots.len() {
        let single = seq![roots[i as int]];
        let last = i + 1 == roots.len();
        let empty = Seq::<char>::empty();
        assert(no_newline(empty));
        lemma_node_heads(t, g, single, empty, last, true, depth);
        lemma_roots_heads(t, g, roots, i + 1, depth);
        let first = layout_node(t, g, single, empty, last, true, depth);
        let rest = layout_roots(t, g, roots, i + 1, depth);
        let all = layout_roots(t, g, roots, i, depth);
        assert(all == first + rest);
        if depth > 0 && t.contains_key(roots[i as int]) {
            let kids = children_of(t, roots[i as int]);
            lemma_kids(t, roots[i as int]);
            lemma_kids_shape(t, g, single, kids, 0, empty, (depth - 1) as nat);
        }
        assert forall|k: int| 0 <= k < all.len() implies no_newline(#[trigger] all[k].1) && (all[k].0.len()
            == 1 ==> all[k].1 == Seq::<char>::empty()) by {
            if k < first.len() {
                assert(all[k] == first[k]);
                if k > 0 {
                    let kids = children_of(t, roots[i as int]);
                    assert(first[k] == layout_kids(t, g, single, kids, 0, empty, (depth - 1) as nat)[k - 1]);
                }
            } else {
                assert(all[k] == rest[k - first.len()]);
            }
        }
    }
}

/// The lines of the drawing's text, as `str::lines` splits it, are the
/// entries of `layout_tree`, each drawn for a descent.
proof fn lemma_drawing_lines(rs: Seq<RecordView>, g: Glyphs)
    requires
        no_newline(g.branch) && no_newline(g.last_branch) && no_newline(g.vertical) && no_newline(g.blank),
        forall|q: u32| #[trigger] table(rs).contains_key(q) ==> no_newline(table(rs)[q].command),
    ensures
        ({
            let t = table(rs);
            let es = layout_tree(t, g);
            let ls = std_lines(render_tree(t, g));
            &&& ls.len() == es.len()
            &&& forall|k: int| 0 <= k < es.len() ==> #[trigger] ls[k] == line_text(t, es[k])
            &&& forall|k: int| 0 <= k < es.len() ==> is_descent(t, #[trigger] es[k].0)
            &&& forall|k: int|
                0 <= k < es.len() ==> #[trigger] line_text(t, es[k]) == (es[k].1 + t[es[k].0.last()].command)
                    + pid_tag(es[k].0.last())
        }),
{
    let t = table(rs);
    lemma_table(rs);
    let es = layout_tree(t, g);
    let n = t.dom().len();
    let roots = roots_of(t);
    vstd::set_lib::lemma_len_subset(root_set(t), t.dom());
    lemma_ascending_finite(root_set(t));
    assert forall|j: int| 0 <= j < roots.len() implies is_root(t, #[trigger] roots[j]) by {
        assert(roots.to_set().contains(roots[j]));
    }
    lemma_roots_shape(t, g, roots, 0, n);
    lemma_roots_heads(t, g, roots, 0, n);
    let lt = |e: (Seq<u32>, Seq<char>)| line_text(t, e);
    let lines = es.map_values(lt);
    assert forall|k: int| 0 <= k < es.len() implies #[trigger] line_text(t, es[k]) == (es[k].1
        + t[es[k].0.last()].command) + pid_tag(es[k].0.last()) && t.contains_key(es[k].0.last()) by {
        lemma_descent_climbs(t, es[k].0);
    }
    assert forall|k: int| 0 <= k < es.len() implies no_newline(#[trigger] line_text(t, es[k])) by {
        let q = es[k].0.last();
        let x = es[k].1 + t[q].command;
        let line = line_text(t, es[k]);
        crate::text::lemma_decimal_digits(q as nat);
        assert forall|i: int| 0 <= i < line.len() implies #[trigger] line[i] != '\n' by {
            if i < es[k].1.len() {
                assert(line[i] == es[k].1[i]);
            } else if i < x.len() {
                assert(line[i] == t[q].command[i - es[k].1.len()]);
            } else if i >= x.len() + 2 && i < x.len() + 2 + decimal(q as nat).len() {
                assert(line[i] == decimal(q as nat)[i - x.len() - 2]);
                assert(crate::text::is_digit(decimal(q as nat)[i - x.len() - 2]));
            }
        }
    }
    lemma_split_text(t, es);
    lemma_roots_text(t, g, roots, 0, n);
    let text = render_tree(t, g);
    assert(split_lines(text) == lines.push(Seq::<char>::empty()));
    let ls = std_lines(text);
    assert(ls =~= lines) by {
        let pieces = split_lines(text);
        assert(pieces.last() == Seq::<char>::empty());
        assert(pieces.drop_last() == lines);
        assert forall|i: int| 0 <= i < lines.len() implies ls[i] == lines[i] by {
            let line = lines[i];
            assert(line == line_text(t, es[i]));
            assert(line.len() > 0 && line.last() == ')');
        }
    }
    assert forall|k: int| 0 <= k < es.len() implies #[trigger] ls[k] == line_text(t, es[k]) by {
        assert(lines[k] == line_text(t, es[k]));
    }
}

/// The lines of `format`'s and `format_ascii`'s text (as `str::lines` splits
/// it), where no command holds a newline: line `i` ends in ` (pid)` for the
/// `i`-th drawn pid; for each pid exactly one line ends in ` (pid)` when
/// following ppids from it reaches a root, and none when it is in a cycle;
/// and a self-parented pid or a
/// pid with a missing parent gets the root line `command (pid)`.
pub proof fn law_format_lines(rs: Seq<RecordView>, g: Glyphs)
    requires
        no_newline(g.branch) && no_newline(g.last_branch) && no_newline(g.vertical) && no_newline(g.blank),
        forall|q: u32| #[trigger] table(rs).contains_key(q) ==> no_newline(table(rs)[q].command),
    ensures
        ({
            let t = table(rs);
            let ls = std_lines(render_tree(t, g));
            &&& ls.len() == drawn_pids(t, g).len()
            &&& forall|i: int|
                0 <= i < ls.len() ==> #[trigger] ends_with(ls[i], pid_tag(drawn_pids(t, g)[i]))
            &&& forall|p: u32|
                (exists|i: int| 0 <= i < ls.len() && #[trigger] ends_with(ls[i], pid_tag(p))) <==> (
                t.contains_key(p) && !cycle_set(t).contains(p))
            &&& forall|p: u32, i: int, j: int|
                0 <= i < ls.len() && 0 <= j < ls.len() && #[trigger] ends_with(ls[i], pid_tag(p))
                    && #[trigger] ends_with(ls[j], pid_tag(p)) ==> i == j
            &&& forall|p: u32|
                (#[trigger] self_parented_set(t).contains(p) || missing_parent_set(t).contains(p))
                    ==> exists|i: int| 0 <= i < ls.len() && ls[i] == t[p].command + pid_tag(p)
        }),
{
    let t = table(rs);
    lemma_table(rs);
    law_drawing_shows_each_reachable_pid_once(rs, g);
    lemma_drawing_lines(rs, g);
    let es = layout_tree(t, g);
    let drawn = drawn_pids(t, g);
    let n = t.dom().len();
    let roots = roots_of(t);
    vstd::set_lib::lemma_len_subset(root_set(t), t.dom());
    lemma_ascending_finite(root_set(t));
    assert forall|j: int| 0 <= j < roots.len() implies is_root(t, #[trigger] roots[j]) by {
        assert(roots.to_set().contains(roots[j]));
    }
    lemma_roots_heads(t, g, roots, 0, n);
    let ls = std_lines(render_tree(t, g));
    assert forall|i: int, p: u32| 0 <= i < ls.len() implies #[trigger] ends_with(ls[i], pid_tag(p)) == (p
        == drawn[i]) by {
        assert(ls[i] == line_text(t, es[i]));
        lemma_tag_unique(es[i].1 + t[drawn[i]].command, drawn[i], p);
    }
    assert forall|i: int| 0 <= i < ls.len() implies #[trigger] ends_with(ls[i], pid_tag(drawn[i])) by {
        assert(ends_with(ls[i], pid_tag(drawn[i])) == (drawn[i] == drawn[i]));
    }
    assert forall|p: u32|
        (exists|i: int| 0 <= i < ls.len() && #[trigger] ends_with(ls[i], pid_tag(p))) <==> (t.contains_key(p)
            && !cycle_set(t).contains(p)) by {
        if exists|i: int| 0 <= i < ls.len() && #[trigger] ends_with(ls[i], pid_tag(p)) {
            let i = choose|i: int| 0 <= i < ls.len() && #[trigger] ends_with(ls[i], pid_tag(p));
            assert(drawn.to_set().contains(drawn[i]));
        }
        if t.contains_key(p) && !cycle_set(t).contains(p) {
            assert(t.dom().difference(cycle_set(t)).contains(p));
            assert(drawn.to_set().contains(p));
            let i = choose|i: int| 0 <= i < drawn.len() && drawn[i] == p;
            assert(ends_with(ls[i], pid_tag(p)));
        }
    }
    assert forall|p: u32, i: int, j: int|
        0 <= i < ls.len() && 0 <= j < ls.len() && #[trigger] ends_with(ls[i], pid_tag(p)) && #[trigger] ends_with(ls[j], pid_tag(p)) implies i == j by {
        assert(drawn[i] == drawn[j]);
    }
    assert forall|p: u32|
        (#[trigger] self_parented_set(t).contains(p) || missing_parent_set(t).contains(p)) implies exists|i: int|
        0 <= i < ls.len() && ls[i] == t[p].command + pid_tag(p) by {
        assert(is_root(t, p));
        let q = seq![p];
        assert(is_descent(t, q));
        lemma_descent_within(t, q);
        assert(root_set(t).contains(p));
        assert(roots.to_set().contains(p));
        let j = choose|j: int| 0 <= j < roots.len() && roots[j] == p;
        lemma_roots_complete(t, g, roots, 0, n, q, j);
        let m = choose|m: int| 0 <= m < es.len() && #[trigger] es[m].0 == q;
        assert(es[m].1 == Seq::<char>::empty());
        assert(drawn[m] == p);
        assert(ls[m] == line_text(t, es[m]));
        assert(Seq::<char>::empty() + t[p].command == t[p].command);
    }

}

/// The pid at the end of `path` (two or more pids long) is the largest
/// child of the pid before it, so it is drawn last among its siblings.
pub open spec fn last_sibling(t: Map<u32, RecordView>, path: Seq<u32>) -> bool {
    forall|c: u32| #[trigger] is_child_of(t, c, path[path.len() - 2]) ==> c <= path.last()
}

/// The text that the lines below the node at the end of `path` start with:
/// nothing below a root; below any other node, the text that its parent
/// sets for its own line, then the blank piece when it is the last of its
/// siblings and the vertical piece otherwise.
pub open spec fn indent_below(t: Map<u32, RecordView>, g: Glyphs, path: Seq<u32>) -> Seq<char>
    decreases path.len(),
{
    if path.len() <= 1 {
        Seq::<char>::empty()
    } else {
        indent_below(t, g, path.drop_last()) + if last_sibling(t, path) {
            g.blank
        } else {
            g.vertical
        }
    }
}

/// The connector text on the line of the node at the end of the descent
/// `path`: none for a root; for any other node, the text its parent sets,
/// then the last-branch piece when it is the last of its siblings and the
/// branch piece otherwise.
pub open spec fn tree_head(t: Map<u32, RecordView>, g: Glyphs, path: Seq<u32>) -> Seq<char> {
    if path.len() <= 1 {
        Seq::<char>::empty()
    } else {
        indent_below(t, g, path.drop_last()) + if last_sibling(t, path) {
            g.last_branch
        } else {
            g.branch
        }
    }
}

proof fn lemma_node_tree_heads(
    t: Map<u32, RecordView>,
    g: Glyphs,
    path: Seq<u32>,
    prefix: Seq<char>,
    is_last: bool,
    is_root: bool,
    depth: nat,
)
    requires
        t.dom().finite(),
        path.len() > 0,
        is_root ==> path.len() == 1,
        !is_root ==> path.len() >= 2 && prefix == indent_below(t, g, path.drop_last()) && is_last
            == last_sibling(t, path),
    ensures
        forall|k: int|
            0 <= k < layout_node(t, g, path, prefix, is_last, is_root, depth).len() ==> {
                let e = #[trigger] layout_node(t, g, path, prefix, is_last, is_root, depth)[k];
                e.1 == tree_head(t, g, e.0)
            },
    decreases depth, 0nat,
{
    let l = layout_node(t, g, path, prefix, is_last, is_root, depth);
    if depth > 0 && t.contains_key(path.last()) {
        let p = path.last();
        let cp = crate::render::child_prefix(g, prefix, is_last, is_root);
        let kids = children_of(t, p);
        assert(cp == indent_below(t, g, path));
        lemma_kids_tree_heads(t, g, path, kids, 0, cp, (depth - 1) as nat);
        let rest = layout_kids(t, g, path, kids, 0, cp, (depth - 1) as nat);
        assert forall|k: int| 0 <= k < l.len() implies {
            let e = #[trigger] l[k];
            e.1 == tree_head(t, g, e.0)
        } by {
            if k == 0 {
                assert(l[0] == (path, crate::render::line_head(g, prefix, is_last, is_root)));
            } else {
                assert(l[k] == rest[k - 1]);
            }
        }
    }
}

proof fn lemma_kids_tree_heads(
    t: Map<u32, RecordView>,
    g: Glyphs,
    path: Seq<u32>,
    kids: Seq<u32>,
    i: nat,
    prefix: Seq<char>,
    depth: nat,
)
    requires
        t.dom().finite(),
        path.len() > 0,
        kids == children_of(t, path.last()),
        prefix == indent_below(t, g, path),
    ensures
        forall|k: int|
            0 <= k < layout_kids(t, g, path, kids, i, prefix, depth).len() ==> {
                let e = #[trigger] layout_kids(t, g, path, kids, i, prefix, depth)[k];
                e.1 == tree_head(t, g, e.0)
            },
    decreases depth, kids.len() + 1 - i,
{
    if i < kids.len() {
        let child = path.push(kids[i as int]);
        let last = i + 1 == kids.len();
        lemma_kids(t, path.last());
        assert(child.drop_last() == path);
        assert(child[child.len() - 2] == path.last());
        assert(child.last() == kids[i as int]);
        assert(last == last_sibling(t, child)) by {
            if last {
                assert forall|c: u32| #[trigger] is_child_of(t, c, child[child.len() - 2]) implies c
                    <= child.last() by {
                    assert(child_set(t, path.last()).contains(c));
                    assert(kids.to_set().contains(c));
                    assert(kids.contains(c));
                    let j = choose|j: int| 0 <= j < kids.len() && kids[j] == c;
                    if j < i {
                        assert(kids[j] < kids[i as int]);
                    }
                }
            } else {
                let c = kids[i + 1int];
                assert(is_child_of(t, c, child[child.len() - 2]));
                assert(kids[i as int] < c);
            }
        }
        lemma_node_tree_heads(t, g, child, prefix, last, false, depth);
        lemma_kids_tree_heads(t, g, path, kids, i + 1, prefix, depth);
        let first = layout_node(t, g, child, prefix, last, false, depth);
        let rest = layout_kids(t, g, path, kids, i + 1, prefix, depth);
        let all = layout_kids(t, g, path, kids, i, prefix, depth);
        assert(all == first + rest);
        assert forall|k: int| 0 <= k < all.len() implies {
            let e = #[trigger] all[k];
            e.1 == tree_head(t, g, e.0)
        } by {
            if k < first.len() {
                assert(all[k] == first[k]);
            } else {
                assert(all[k] == rest[k - first.len()]);
            }
        }
    }
}

proof fn lemma_roots_tree_heads(t: Map<u32, RecordView>, g: Glyphs, roots: Seq<u32>, i: nat, depth: nat)
    requires
        t.dom().finite(),
    ensures
        forall|k: int|
            0 <= k < layout_roots(t, g, roots, i, depth).len() ==> {
                let e = #[trigger] layout_roots(t, g, roots, i, depth)[k];
                e.1 == tree_head(t, g, e.0)
            },
    decreases roots.len() - i,
{
    if i < roots.len() {
        let single = seq![roots[i as int]];
        let last = i + 1 == roots.len();
        lemma_node_tree_heads(t, g, single, Seq::<char>::empty(), last, true, depth);
        lemma_roots_tree_heads(t, g, roots, i + 1, depth);
        let first = layout_node(t, g, single, Seq::<char>::empty(), last, true, depth);
        let rest = layout_roots(t, g, roots, i + 1, depth);
        let all = layout_roots(t, g, roots, i, depth);
        assert(all == first + rest);
        assert forall|k: int| 0 <= k < all.len() implies {
            let e = #[trigger] all[k];
            e.1 == tree_head(t, g, e.0)
        } by {
            if k < first.len() {
                assert(all[k] == first[k]);
            } else {
                assert(all[k] == rest[k - first.len()]);
            }
        }
    }
}

/// `line` is the line drawn for some descent `d` from a root: the
/// connector text `tree_head(t, g, d)`, then the command and ` (pid)` of
/// the pid that `d` ends at.
pub open spec fn drawn_for_descent(t: Map<u32, RecordView>, g: Glyphs, line: Seq<char>) -> bool {
    exists|d: Seq<u32>|
        #[trigger] is_descent(t, d) && line == tree_head(t, g, d) + t[d.last()].command + pid_tag(d.last())
}

/// Each line of `format`'s and `format_ascii`'s text (as `str::lines`
/// splits it), where no command holds a newline, is drawn for a descent
/// `d` from a root and reads `tree_head(t, g, d)`, then the command and
/// ` (pid)` of the pid that `d` ends at: a root's line has no connector,
/// every other pid's line has one piece per level above it and then a
/// branch connector, however deep it stands.
pub proof fn law_line_layout(rs: Seq<RecordView>, g: Glyphs)
    requires
        no_newline(g.branch) && no_newline(g.last_branch) && no_newline(g.vertical) && no_newline(g.blank),
        forall|q: u32| #[trigger] table(rs).contains_key(q) ==> no_newline(table(rs)[q].command),
    ensures
        forall|i: int|
            0 <= i < std_lines(render_tree(table(rs), g)).len() ==> drawn_for_descent(
                table(rs),
                g,
                #[trigger] std_lines(render_tree(table(rs), g))[i],
            ),
{
    let t = table(rs);
    lemma_table(rs);
    lemma_drawing_lines(rs, g);
    let es = layout_tree(t, g);
    lemma_roots_tree_heads(t, g, roots_of(t), 0, t.dom().len());
    let ls = std_lines(render_tree(t, g));
    assert forall|i: int| 0 <= i < ls.len() implies drawn_for_descent(t, g, #[trigger] ls[i]) by {
        let d = es[i].0;
        assert(is_descent(t, d));
        assert(ls[i] == line_text(t, es[i]));
        assert(es[i].1 == tree_head(t, g, d));
    }
}

/// With connector pieces four characters wide, as both glyph sets have
/// them, the connector text of a pid `k` levels below its root is `4 * k`
/// characters wide, and its children are indented four characters more.
pub proof fn law_head_width(t: Map<u32, RecordView>, g: Glyphs, d: Seq<u32>)
    requires
        g.branch.len() == 4 && g.last_branch.len() == 4 && g.vertical.len() == 4 && g.blank.len() == 4,
        d.len() > 0,
    ensures
        tree_head(t, g, d).len() == 4 * (d.len() - 1),
        indent_below(t, g, d).len() == 4 * (d.len() - 1),
    decreases d.len(),
{
    if d.len() > 1 {
        law_head_width(t, g, d.drop_last());
    }
}

/// `a` comes before `b` in the order the drawing lists descents: `a` is a
/// proper prefix of `b` (a node comes before the nodes below it), or at the
/// first place where the two differ `a` has the smaller pid.
pub open spec fn precedes(a: Seq<u32>, b: Seq<u32>) -> bool {
    ||| (a.len() < b.len() && b.subrange(0, a.len() as int) == a)
    ||| exists|k: int|
        #![trigger a[k], b[k]]
        0 <= k < a.len() && k < b.len() && a.subrange(0, k) == b.subrange(0, k) && a[k] < b[k]
}

/// The lines of `es` are drawn for descents in `precedes` order.
pub open spec fn sorted_paths(es: Seq<(Seq<u32>, Seq<char>)>) -> bool {
    forall|x: int, y: int| #![trigger es[x], es[y]] 0 <= x < y < es.len() ==> precedes(es[x].0, es[y].0)
}

proof fn lemma_sorted_concat(x: Seq<(Seq<u32>, Seq<char>)>, y: Seq<(Seq<u32>, Seq<char>)>)
    requires
        sorted_paths(x),
        sorted_paths(y),
        forall|a: int, b: int| #![trigger x[a], y[b]] 0 <= a < x.len() && 0 <= b < y.len() ==> precedes(x[a].0, y[b].0),
    ensures
        sorted_paths(x + y),
{
    let z = x + y;
    assert forall|a: int, b: int| #![trigger z[a], z[b]] 0 <= a < b < z.len() implies precedes(z[a].0, z[b].0) by {
        if b < x.len() {
            assert(z[a] == x[a] && z[b] == x[b]);
        } else if a >= x.len() {
            assert(z[a] == y[a - x.len()] && z[b] == y[b - x.len()]);
        } else {
            assert(z[a] == x[a] && z[b] == y[b - x.len()]);
        }
    }
}

proof fn lemma_node_sorted(
    t: Map<u32, RecordView>,
    g: Glyphs,
    path: Seq<u32>,
    prefix: Seq<char>,
    is_last: bool,
    is_root: bool,
    depth: nat,
)
    requires
        t.dom().finite(),
        path.len() > 0,
    ensures
        sorted_paths(layout_node(t, g, path, prefix, is_last, is_root, depth)),
    decreases depth, 0nat,
{
    if depth > 0 && t.contains_key(path.last()) {
        let p = path.last();
        let cp = crate::render::child_prefix(g, prefix, is_last, is_root);
        let kids = children_of(t, p);
        lemma_kids(t, p);
        lemma_kids_sorted(t, g, path, kids, 0, cp, (depth - 1) as nat);
        lemma_kids_shape(t, g, path, kids, 0, cp, (depth - 1) as nat);
        let head = seq![(path, crate::render::line_head(g, prefix, is_last, is_root))];
        let rest = layout_kids(t, g, path, kids, 0, cp, (depth - 1) as nat);
        assert forall|a: int, b: int| #![trigger head[a], rest[b]] 0 <= a < head.len() && 0 <= b < rest.len()
            implies precedes(head[a].0, rest[b].0) by {
            let q = rest[b].0;
            assert(extends(t, path, q));
            assert(head[a].0 == path);
        }
        lemma_sorted_concat(head, rest);
        assert(layout_node(t, g, path, prefix, is_last, is_root, depth) == head + rest);
    }
}

proof fn lemma_kids_sorted(
    t: Map<u32, RecordView>,
    g: Glyphs,
    path: Seq<u32>,
    kids: Seq<u32>,
    i: nat,
    prefix: Seq<char>,
    depth: nat,
)
    requires
        t.dom().finite(),
        path.len() > 0,
        increasing(kids),
        forall|j: int| 0 <= j < kids.len() ==> is_child_of(t, #[trigger] kids[j], path.last()),
    ensures
        sorted_paths(layout_kids(t, g, path, kids, i, prefix, depth)),
    decreases depth, kids.len() + 1 - i,
{
    if i < kids.len() {
        let child = path.push(kids[i as int]);
        let last = i + 1 == kids.len();
        lemma_node_sorted(t, g, child, prefix, last, false, depth);
        lemma_node_shape(t, g, child, prefix, last, false, depth);
        lemma_kids_sorted(t, g, path, kids, i + 1, prefix, depth);
        lemma_kids_shape(t, g, path, kids, i + 1, prefix, depth);
        let first = layout_node(t, g, child, prefix, last, false, depth);
        let rest = layout_kids(t, g, path, kids, i + 1, prefix, depth);
        assert forall|a: int, b: int| #![trigger first[a], rest[b]] 0 <= a < first.len() && 0 <= b < rest.len()
            implies precedes(first[a].0, rest[b].0) by {
            let x = first[a].0;
            let y = rest[b].0;
            assert(is_child_of(t, kids[i as int], path.last()));
            lemma_extends_step(t, path, kids[i as int], x);
            let j = choose|j: int| i + 1 <= j < kids.len() && y[path.len() as int] == kids[j];
            let k = path.len() as int;
            assert(kids[i as int] < kids[j]);
            assert(x.subrange(0, k) == y.subrange(0, k));
            assert(x[k] < y[k]);
        }
        lemma_sorted_concat(first, rest);
        assert(layout_kids(t, g, path, kids, i, prefix, depth) == first + rest);
    }
}

proof fn lemma_roots_sorted(t: Map<u32, RecordView>, g: Glyphs, roots: Seq<u32>, i: nat, depth: nat)
    requires
        t.dom().finite(),
        increasing(roots),
        forall|j: int| 0 <= j < roots.len() ==> is_root(t, #[trigger] roots[j]),
    ensures
        sorted_paths(layout_roots(t, g, roots, i, depth)),
    decreases roots.len() - i,
{
    if i < roots.len() {
        let single = seq![roots[i as int]];
        let last = i + 1 == roots.len();
        let empty = Seq::<char>::empty();
        lemma_node_sorted(t, g, single, empty, last, true, depth);
        lemma_node_shape(t, g, single, empty, last, true, depth);
        lemma_roots_sorted(t, g, roots, i + 1, depth);
        lemma_roots_shape(t, g, roots, i + 1, depth);
        let first = layout_node(t, g, single, empty, last, true, depth);
        let rest = layout_roots(t, g, roots, i + 1, depth);
        assert forall|a: int, b: int| #![trigger first[a], rest[b]] 0 <= a < first.len() && 0 <= b < rest.len()
            implies precedes(first[a].0, rest[b].0) by {
            let x = first[a].0;
            let y = rest[b].0;
            assert(extends(t, single, x));
            assert(x[0] == x.subrange(0, 1)[0]);
            let j = choose|j: int| i + 1 <= j < roots.len() && y[0] == roots[j];
            assert(roots[i as int] < roots[j]);
            assert(is_descent(t, y));
            assert(x.subrange(0, 0) =~= y.subrange(0, 0));
            assert(x[0] < y[0]);
        }
        lemma_sorted_concat(first, rest);
        assert(layout_roots(t, g, roots, i, depth) == first + rest);
    }
}

/// The drawing is sorted by pid at every level, whatever order the input
/// had: roots in increasing pid order, each followed by the nodes below
/// it, and below every node its children's subtrees in increasing pid
/// order. That is, the descents from a root to the drawn pids come in
/// `precedes` order.
pub proof fn law_drawing_sorted_by_pid(rs: Seq<RecordView>, g: Glyphs)
    ensures
        ({
            let t = table(rs);
            let drawn = drawn_pids(t, g);
            forall|i: int, j: int, a: Seq<u32>, b: Seq<u32>|
                #![trigger drawn[i], drawn[j], is_descent(t, a), is_descent(t, b)]
                0 <= i < j < drawn.len() && is_descent(t, a) && a.last() == drawn[i] && is_descent(t, b)
                    && b.last() == drawn[j] ==> precedes(a, b)
        }),
{
    let t = table(rs);
    lemma_table(rs);
    let es = layout_tree(t, g);
    let drawn = drawn_pids(t, g);
    let n = t.dom().len();
    let roots = roots_of(t);
    vstd::set_lib::lemma_len_subset(root_set(t), t.dom());
    lemma_ascending_finite(root_set(t));
    assert forall|j: int| 0 <= j < roots.len() implies is_root(t, #[trigger] roots[j]) by {
        assert(roots.to_set().contains(roots[j]));
    }
    lemma_roots_shape(t, g, roots, 0, n);
    lemma_roots_sorted(t, g, roots, 0, n);
    assert forall|i: int, j: int, a: Seq<u32>, b: Seq<u32>|
        #![trigger drawn[i], drawn[j], is_descent(t, a), is_descent(t, b)]
        0 <= i < j < drawn.len() && is_descent(t, a) && a.last() == drawn[i] && is_descent(t, b) && b.last()
            == drawn[j] implies precedes(a, b) by {
        assert(is_descent(t, es[i].0) && is_descent(t, es[j].0));
        lemma_descent_unique(t, a, es[i].0);
        lemma_descent_unique(t, b, es[j].0);
        assert(precedes(es[i].0, es[j].0));
    }
}

/// The pids that `diagnose` reports as cycles are exactly the pids of the
/// input that no chain of parent links down from a root reaches.
pub proof fn law_cycles_have_no_descent(rs: Seq<RecordView>)
    ensures
        forall|p: u32|
            #[trigger] cycle_set(table(rs)).contains(p) <==> (table(rs).contains_key(p) && !exists|d: Seq<u32>|
                #[trigger] is_descent(table(rs), d) && d.last() == p),
{
    let t = table(rs);
    assert forall|p: u32| #[trigger] cycle_set(t).contains(p) <==> (t.contains_key(p) && !exists|d: Seq<u32>|
        #[trigger] is_descent(t, d) && d.last() == p) by {
        if reaches_root(t, p) {
            let k = choose|k: nat| is_root(t, #[trigger] climb(t, p, k));
            let d = lemma_descent_to(t, p, k);
            assert(is_descent(t, d) && d.last() == p);
        }
        if exists|d: Seq<u32>| #[trigger] is_descent(t, d) && d.last() == p {
            let d = choose|d: Seq<u32>| #[trigger] is_descent(t, d) && d.last() == p;
            lemma_descent_climbs(t, d);
            assert(is_root(t, climb(t, p, (d.len() - 1) as nat)));
        }
    }
}

} // verus!
