//! Problems in the input that a plain tree render would otherwise hide.

use vstd::prelude::*;

use std::collections::HashSet;

use crate::forest::{build, child_set, is_child_of, is_root, root_set, table, Built};
use crate::order::{ascending, lemma_ascending_of, sort_distinct};
use crate::records::{record_views, Record, RecordView};

verus! {

broadcast use vstd::std_specs::hash::group_hash_axioms;

/// The pid reached from `p` by following ppids `k` times (a pid that no
/// record has is left where it is).
pub open spec fn climb(t: Map<u32, RecordView>, p: u32, k: nat) -> u32
    decreases k,
{
    if k == 0 {
        p
    } else {
        let up = if t.contains_key(p) {
            t[p].ppid
        } else {
            p
        };
        climb(t, up, (k - 1) as nat)
    }
}

/// Following ppids from `p` leads to a root: `p` is drawn by `format`.
pub open spec fn reaches_root(t: Map<u32, RecordView>, p: u32) -> bool {
    exists|k: nat| is_root(t, #[trigger] climb(t, p, k))
}

/// Pids whose ppid is their own pid.
pub open spec fn self_parented_set(t: Map<u32, RecordView>) -> Set<u32> {
    t.dom().filter(|p: u32| t[p].ppid == p)
}

/// Pids whose ppid is another pid that no record has. A ppid of 0 is how
/// real init processes name their (absent) parent, so it is no problem.
pub open spec fn missing_parent_set(t: Map<u32, RecordView>) -> Set<u32> {
    t.dom().filter(|p: u32| t[p].ppid != p && t[p].ppid != 0 && !t.contains_key(t[p].ppid))
}

/// Pids from which following ppids never reaches a root: members of a ppid
/// cycle and everything that hangs below one.
pub open spec fn cycle_set(t: Map<u32, RecordView>) -> Set<u32> {
    t.dom().filter(|p: u32| !reaches_root(t, p))
}

/// The pairs (pid, ppid) of the pids in `missing_parent_set`, by pid.
pub open spec fn missing_parent_pairs(t: Map<u32, RecordView>) -> Seq<(u32, u32)> {
    ascending(missing_parent_set(t)).map_values(|p: u32| (p, t[p].ppid))
}

/// Problems found in the input that a plain tree render would otherwise
/// hide: pids that name themselves as their own parent, pids whose ppid
/// (other than 0, the parent of real init processes) doesn't match
/// anything else in the input, and ppid cycles (pid A's
/// ancestry loops back through pid A without ever reaching a root). All
/// three are treated as roots or dropped silently by `format`, so this
/// exists to let a caller surface them instead.
pub struct Diagnostics {
    pub self_parented: Vec<u32>,
    pub missing_parent: Vec<(u32, u32)>,
    pub cycles: Vec<u32>,
}

impl Diagnostics {
    pub fn is_empty(&self) -> (r: bool)
        ensures
            r == (self.self_parented@.len() == 0 && self.missing_parent@.len() == 0
                && self.cycles@.len() == 0),
    {
        self.self_parented.len() == 0 && self.missing_parent.len() == 0 && self.cycles.len() == 0
    }
}

/// `out` holds, once each, the pids among `pids[..i]` that satisfy `pred`.
pub open spec fn collects(out: Seq<u32>, pids: Seq<u32>, i: int, pred: spec_fn(u32) -> bool) -> bool {
    &&& out.no_duplicates()
    &&& forall|y: u32|
        #[trigger] out.contains(y) <==> exists|j: int| 0 <= j < i && pids[j] == y && pred(y)
}

proof fn lemma_collects_step(out: Seq<u32>, pids: Seq<u32>, i: int, pred: spec_fn(u32) -> bool)
    requires
        collects(out, pids, i, pred),
        pids.no_duplicates(),
        0 <= i < pids.len(),
    ensures
        pred(pids[i]) ==> collects(out.push(pids[i]), pids, i + 1, pred),
        !pred(pids[i]) ==> collects(out, pids, i + 1, pred),
{
    let x = pids[i];
    if pred(x) {
        assert(!out.contains(x)) by {
            if out.contains(x) {
                let j = choose|j: int| 0 <= j < i && pids[j] == x && pred(x);
            }
        }
        let o2 = out.push(x);
        assert forall|y: u32| #[trigger] o2.contains(y) <==> exists|j: int|
            0 <= j < i + 1 && pids[j] == y && pred(y) by {
            if o2.contains(y) {
                let k = choose|k: int| 0 <= k < o2.len() && o2[k] == y;
                if k < out.len() {
                    assert(out[k] == y);
                    assert(out.contains(y));
                } else {
                    assert(pids[i] == y && pred(y));
                }
            }
            if exists|j: int| 0 <= j < i + 1 && pids[j] == y && pred(y) {
                let j = choose|j: int| 0 <= j < i + 1 && pids[j] == y && pred(y);
                if j < i {
                    assert(out.contains(y));
                    let k = choose|k: int| 0 <= k < out.len() && out[k] == y;
                    assert(o2[k] == y);
                } else {
                    assert(o2[out.len() as int] == y);
                }
            }
        }
    } else {
        assert forall|y: u32| #[trigger] out.contains(y) <==> exists|j: int|
            0 <= j < i + 1 && pids[j] == y && pred(y) by {
            if exists|j: int| 0 <= j < i + 1 && pids[j] == y && pred(y) {
                let j = choose|j: int| 0 <= j < i + 1 && pids[j] == y && pred(y);
                assert(j < i);
            }
        }
    }
}

proof fn lemma_collects_done(out: Seq<u32>, pids: Seq<u32>, pred: spec_fn(u32) -> bool)
    requires
        collects(out, pids, pids.len() as int, pred),
    ensures
        forall|y: u32| #[trigger]
            out.to_set().contains(y) <==> (pids.to_set().contains(y) && pred(y)),
{
    assert forall|y: u32| #[trigger]
        out.to_set().contains(y) <==> (pids.to_set().contains(y) && pred(y)) by {
        if out.contains(y) {
            let j = choose|j: int| 0 <= j < pids.len() && pids[j] == y && pred(y);
        }
        if pids.to_set().contains(y) && pred(y) {
            let j = choose|j: int| 0 <= j < pids.len() && pids[j] == y;
        }
    }
}

pub fn diagnose(records: &[Record]) -> (d: Diagnostics)
    ensures
        d.self_parented@ == ascending(self_parented_set(table(record_views(records@)))),
        d.missing_parent@ == missing_parent_pairs(table(record_views(records@))),
        d.cycles@ == ascending(cycle_set(table(record_views(records@)))),
{
    let built = build(records);
    let ghost t = table(record_views(records@));
    let ghost pids = built.unique@.map_values(|r: &Record| r.pid);
    let ghost self_pred = |p: u32| t[p].ppid == p;
    let ghost missing_pred = |p: u32| t[p].ppid != p && t[p].ppid != 0 && !t.contains_key(t[p].ppid);
    let mut self_parented: Vec<u32> = Vec::new();
    let mut missing: Vec<u32> = Vec::new();
    let n = built.unique.len();
    let mut i: usize = 0;
    while i < n
        invariant
            n == built.unique@.len(),
            pids == built.unique@.map_values(|r: &Record| r.pid),
            built.describes(t),
            i <= n,
            self_pred == (|p: u32| t[p].ppid == p),
            missing_pred == (|p: u32| t[p].ppid != p && t[p].ppid != 0 && !t.contains_key(t[p].ppid)),
            collects(self_parented@, pids, i as int, self_pred),
            collects(missing@, pids, i as int, missing_pred),
        decreases n - i,
    {
        let r = built.unique[i];
        proof {
            assert(pids[i as int] == r.pid);
            assert(t.contains_key(r.pid) && t[r.pid] == r@);
            assert(self_pred(r.pid) == (r.ppid == r.pid));
            assert(missing_pred(r.pid) == (r.ppid != r.pid && r.ppid != 0 && !built.pids@.contains(r.ppid)));
            lemma_collects_step(self_parented@, pids, i as int, self_pred);
            lemma_collects_step(missing@, pids, i as int, missing_pred);
        }
        if r.ppid == r.pid {
            self_parented.push(r.pid);
        } else if r.ppid != 0 && !built.pids.contains(&r.ppid) {
            missing.push(r.pid);
        }
        i = i + 1;
    }
    proof {
        lemma_collects_done(self_parented@, pids, self_pred);
        lemma_collects_done(missing@, pids, missing_pred);
    }
    let self_parented = sort_distinct(&self_parented);
    let missing = sort_distinct(&missing);
    proof {
        assert(self_parented@.to_set() =~= self_parented_set(t));
        lemma_ascending_of(self_parented@);
        assert(missing@.to_set() =~= missing_parent_set(t));
        lemma_ascending_of(missing@);
    }
    let mut missing_parent: Vec<(u32, u32)> = Vec::new();
    let m = missing.len();
    let mut i: usize = 0;
    while i < m
        invariant
            m == missing@.len(),
            i <= m,
            built.describes(t),
            missing@ == ascending(missing_parent_set(t)),
            missing@.to_set() == missing_parent_set(t),
            missing_parent@ == missing@.take(i as int).map_values(|p: u32| (p, t[p].ppid)),
        decreases m - i,
    {
        let p = missing[i];
        proof {
            assert(missing@.to_set().contains(p));
        }
        let r: &Record = *built.by_pid.get(&p).unwrap();
        missing_parent.push((p, r.ppid));
        assert(missing@.take(i + 1) == missing@.take(i as int).push(p));
        assert(missing_parent@ =~= missing@.take(i + 1).map_values(|p: u32| (p, t[p].ppid)));
        i = i + 1;
    }
    assert(missing@.take(m as int) == missing@);

    // Any pid not reachable from a root by walking down `children` is
    // stuck in a ppid cycle: `format` never visits it either.
    let reachable = reachable_from_roots(&built, Ghost(t));
    let ghost cycle_pred = |p: u32| !reachable@.contains(p);
    let mut cycles: Vec<u32> = Vec::new();
    let mut i: usize = 0;
    while i < n
        invariant
            n == built.unique@.len(),
            pids == built.unique@.map_values(|r: &Record| r.pid),
            built.describes(t),
            i <= n,
            cycle_pred == (|p: u32| !reachable@.contains(p)),
            collects(cycles@, pids, i as int, cycle_pred),
        decreases n - i,
    {
        let pid = built.unique[i].pid;
        proof {
            assert(pids[i as int] == pid);
            assert(cycle_pred(pid) == !reachable@.contains(pid));
            lemma_collects_step(cycles@, pids, i as int, cycle_pred);
        }
        if !reachable.contains(&pid) {
            cycles.push(pid);
        }
        i = i + 1;
    }
    proof {
        lemma_collects_done(cycles@, pids, cycle_pred);
    }
    let cycles = sort_distinct(&cycles);
    proof {
        assert(cycles@.to_set() =~= cycle_set(t));
        lemma_ascending_of(cycles@);
    }
    Diagnostics { self_parented, missing_parent, cycles }
}

/// The pids reached by walking down `children` from the roots: exactly the
/// pids from which following ppids reaches a root.
fn reachable_from_roots(built: &Built, Ghost(t): Ghost<Map<u32, RecordView>>) -> (r: HashSet<u32>)
    requires
        built.describes(t),
    ensures
        forall|p: u32| t.contains_key(p) ==> (r@.contains(p) <==> reaches_root(t, p)),
{
    let mut reachable: HashSet<u32> = HashSet::new();
    let mut stack: Vec<u32> = built.roots.clone();
    proof {
        assert forall|x: u32| #[trigger] stack@.contains(x) implies t.contains_key(x) && reaches_root(t, x) by {
            assert(built.roots@.to_set().contains(x));
            assert(is_root(t, climb(t, x, 0)));
        }
        assert forall|x: u32| is_root(t, x) implies #[trigger] stack@.contains(x) by {
            assert(root_set(t).contains(x));
            assert(built.roots@.to_set().contains(x));
        }
    }
    loop
        invariant
            built.describes(t),
            reachable@.subset_of(t.dom()),
            reachable@.finite(),
            forall|x: u32| #[trigger] stack@.contains(x) ==> t.contains_key(x) && reaches_root(t, x),
            forall|x: u32| #[trigger] reachable@.contains(x) ==> reaches_root(t, x),
            forall|x: u32| is_root(t, x) ==> #[trigger] reachable@.contains(x) || stack@.contains(x),
            forall|v: u32, c: u32|
                #[trigger] reachable@.contains(v) && #[trigger] is_child_of(t, c, v)
                    ==> reachable@.contains(c) || stack@.contains(c),
        ensures
            stack@.len() == 0,
        decreases t.dom().len() - reachable@.len(), stack@.len(),
    {
        let ghost old_stack = stack@;
        let ghost old_reach = reachable@;
        let top = match stack.pop() {
            Some(p) => p,
            None => break,
        };
        assert(old_stack.last() == top);
        assert(old_stack == stack@.push(top));
        assert forall|x: u32| #[trigger] old_stack.contains(x) implies stack@.contains(x) || x == top by {
            let k = choose|k: int| 0 <= k < old_stack.len() && old_stack[k] == x;
            if k < stack@.len() {
                assert(stack@[k] == x);
            }
        }
        assert forall|x: u32| #[trigger] stack@.contains(x) implies old_stack.contains(x) by {
            let k = choose|k: int| 0 <= k < stack@.len() && stack@[k] == x;
            assert(old_stack[k] == x);
        }
        assert(old_stack.contains(top));
        if reachable.insert(top) {
            proof {
                vstd::set_lib::lemma_len_subset(old_reach, t.dom());
                assert(old_reach.len() < t.dom().len()) by {
                    if old_reach.len() == t.dom().len() {
                        vstd::set_lib::lemma_subset_equality(old_reach, t.dom());
                    }
                }
            }
            match built.children.get(&top) {
                Some(kids) => {
                    let ghost base = stack@;
                    let n = kids.len();
                    let mut j: usize = 0;
                    while j < n
                        invariant
                            n == kids@.len(),
                            j <= n,
                            built.describes(t),
                            kids@.to_set() == child_set(t, top),
                            stack@ == base + kids@.take(j as int),
                        decreases n - j,
                    {
                        stack.push(kids[j]);
                        assert(kids@.take(j + 1) == kids@.take(j as int).push(kids@[j as int]));
                        j = j + 1;
                    }
                    proof {
                        assert(kids@.take(n as int) == kids@);
                        assert(stack@ == base + kids@);
                        assert forall|x: u32| #[trigger] stack@.contains(x) implies base.contains(x)
                            || kids@.to_set().contains(x) by {
                            let k = choose|k: int| 0 <= k < stack@.len() && stack@[k] == x;
                            if k < base.len() {
                                assert(base[k] == x);
                            } else {
                                assert(kids@[k - base.len()] == x);
                            }
                        }
                        assert forall|x: u32| #[trigger] base.contains(x) implies stack@.contains(x) by {
                            let k = choose|k: int| 0 <= k < base.len() && base[k] == x;
                            assert(stack@[k] == x);
                        }
                        assert forall|x: u32| kids@.to_set().contains(x) implies #[trigger] stack@.contains(x) by {
                            let k = choose|k: int| 0 <= k < kids@.len() && kids@[k] == x;
                            assert(stack@[base.len() + k] == x);
                        }
                        let kt = choose|k: nat| is_root(t, #[trigger] climb(t, top, k));
                        assert forall|x: u32| #[trigger] stack@.contains(x) implies t.contains_key(x) && reaches_root(t, x) by {
                            if !base.contains(x) {
                                assert(child_set(t, top).contains(x));
                                assert(is_child_of(t, x, top));
                                assert(climb(t, x, kt + 1) == climb(t, top, kt));
                            }
                        }
                    }
                },
                None => {
                    assert(child_set(t, top) == Set::<u32>::empty());
                    assert forall|c: u32| !is_child_of(t, c, top) by {
                        if is_child_of(t, c, top) {
                            assert(child_set(t, top).contains(c));
                        }
                    }
                },
            }
            proof {
                assert forall|v: u32, c: u32|
                    #[trigger] reachable@.contains(v) && #[trigger] is_child_of(t, c, v)
                        implies reachable@.contains(c) || stack@.contains(c) by {
                    if v == top {
                        if built.children@.contains_key(top) {
                            assert(child_set(t, top).contains(c));
                        }
                    } else {
                        assert(old_reach.contains(v));
                    }
                }
            }
        }
    }
    proof {
        assert forall|p: u32| t.contains_key(p) implies (reachable@.contains(p) <==> reaches_root(t, p)) by {
            if reaches_root(t, p) {
                let k = choose|k: nat| is_root(t, #[trigger] climb(t, p, k));
                lemma_climb_reached(t, reachable@, p, k);
            }
        }
    }
    reachable
}

/// In a set of pids that holds every root and the children of each of its
/// members, every pid from which `k` ppid steps reach a root is a member.
proof fn lemma_climb_reached(t: Map<u32, RecordView>, vis: Set<u32>, p: u32, k: nat)
    requires
        t.contains_key(p),
        is_root(t, climb(t, p, k)),
        forall|x: u32| is_root(t, x) ==> #[trigger] vis.contains(x),
        forall|v: u32, c: u32| #[trigger] vis.contains(v) && #[trigger] is_child_of(t, c, v) ==> vis.contains(c),
    ensures
        vis.contains(p),
    decreases k,
{
    if !is_root(t, p) {
        if k == 0 {
        } else {
            let up = t[p].ppid;
            assert(climb(t, p, k) == climb(t, up, (k - 1) as nat));
            lemma_climb_reached(t, vis, up, (k - 1) as nat);
            assert(is_child_of(t, p, up));
        }
    }
}

} // verus!
