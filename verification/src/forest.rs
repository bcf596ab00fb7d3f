//! The parent/child structure of a set of records: which record stands for
//! each pid, which pids are roots, and the children of each pid.

use vstd::prelude::*;

use std::collections::{HashMap, HashSet};

use crate::order::{ascending, increasing, lemma_ascending_of, sort_distinct};
use crate::records::{record_views, Record, RecordView};

verus! {

broadcast use vstd::std_specs::hash::group_hash_axioms;

/// The record that stands for each pid: the first one given with it (later
/// records with the same pid are ignored).
pub open spec fn table(rs: Seq<RecordView>) -> Map<u32, RecordView>
    decreases rs.len(),
{
    if rs.len() == 0 {
        Map::empty()
    } else {
        let t = table(rs.drop_last());
        let r = rs.last();
        if t.contains_key(r.pid) {
            t
        } else {
            t.insert(r.pid, r)
        }
    }
}

/// The records that stand for their pids, in input order: each record whose
/// pid no earlier record has.
pub open spec fn first_records(rs: Seq<RecordView>) -> Seq<RecordView>
    decreases rs.len(),
{
    if rs.len() == 0 {
        Seq::empty()
    } else {
        let pre = first_records(rs.drop_last());
        if table(rs.drop_last()).contains_key(rs.last().pid) {
            pre
        } else {
            pre.push(rs.last())
        }
    }
}

/// A record is a root when its parent is missing from the input: its ppid
/// is its own pid, or no record has that pid (which covers ppid 0).
pub open spec fn is_root(t: Map<u32, RecordView>, p: u32) -> bool {
    &&& t.contains_key(p)
    &&& (t[p].ppid == p || !t.contains_key(t[p].ppid))
}

/// `c` hangs below `p`: it is no root and its ppid is `p`.
pub open spec fn is_child_of(t: Map<u32, RecordView>, c: u32, p: u32) -> bool {
    &&& t.contains_key(c)
    &&& !is_root(t, c)
    &&& t[c].ppid == p
}

pub open spec fn root_set(t: Map<u32, RecordView>) -> Set<u32> {
    t.dom().filter(|p: u32| is_root(t, p))
}

pub open spec fn child_set(t: Map<u32, RecordView>, p: u32) -> Set<u32> {
    t.dom().filter(|c: u32| is_child_of(t, c, p))
}

/// The roots, smallest pid first.
pub open spec fn roots_of(t: Map<u32, RecordView>) -> Seq<u32> {
    ascending(root_set(t))
}

/// The children of `p`, smallest pid first.
pub open spec fn children_of(t: Map<u32, RecordView>, p: u32) -> Seq<u32> {
    ascending(child_set(t, p))
}

/// The table holds finitely many pids, each mapped to a record with that
/// pid, and it holds the pid of every record.
pub proof fn lemma_table(rs: Seq<RecordView>)
    ensures
        table(rs).dom().finite(),
        forall|p: u32| #[trigger] table(rs).contains_key(p) ==> table(rs)[p].pid == p,
        forall|i: int| 0 <= i < rs.len() ==> #[trigger] table(rs).contains_key(rs[i].pid),
        forall|p: u32|
            #[trigger] table(rs).contains_key(p) ==> exists|i: int|
                0 <= i < rs.len() && rs[i] == table(rs)[p],
    decreases rs.len(),
{
    if rs.len() > 0 {
        let pre = rs.drop_last();
        lemma_table(pre);
        assert forall|i: int| 0 <= i < rs.len() implies #[trigger] table(rs).contains_key(
            rs[i].pid,
        ) by {
            if i < rs.len() - 1 {
                assert(pre[i] == rs[i]);
            }
        }
        assert forall|p: u32| #[trigger] table(rs).contains_key(p) implies exists|i: int|
            0 <= i < rs.len() && rs[i] == table(rs)[p] by {
            if table(pre).contains_key(p) {
                let i = choose|i: int| 0 <= i < pre.len() && pre[i] == table(pre)[p];
                assert(rs[i] == table(rs)[p]);
            } else {
                assert(rs[rs.len() - 1] == table(rs)[p]);
            }
        }
    }
}

/// Keeping the elements of an increasing sequence that satisfy `pred` gives
/// an increasing sequence of exactly those elements.
pub proof fn lemma_filter_increasing(q: Seq<u32>, pred: spec_fn(u32) -> bool)
    requires
        increasing(q),
    ensures
        increasing(q.filter(pred)),
        forall|x: u32| #[trigger]
            q.filter(pred).to_set().contains(x) <==> (q.to_set().contains(x) && pred(x)),
    decreases q.len(),
{
    reveal(Seq::filter);
    if q.len() > 0 {
        let pre = q.drop_last();
        assert(increasing(pre));
        lemma_filter_increasing(pre, pred);
        let sub = pre.filter(pred);
        let f = q.filter(pred);
        assert forall|x: u32| pre.to_set().contains(x) implies x < q.last() by {
            let i = choose|i: int| 0 <= i < pre.len() && pre[i] == x;
            assert(q[i] == x);
        }
        if pred(q.last()) {
            assert(f == sub.push(q.last()));
            assert forall|a: int, b: int| 0 <= a < b < f.len() implies f[a] < f[b] by {
                if b == f.len() - 1 {
                    assert(sub.to_set().contains(sub[a]));
                }
            }
        }
        assert forall|x: u32| #[trigger]
            f.to_set().contains(x) <==> (q.to_set().contains(x) && pred(x)) by {
            if f.to_set().contains(x) {
                let i = choose|i: int| 0 <= i < f.len() && f[i] == x;
                if i < sub.len() {
                    assert(sub[i] == x);
                    assert(sub.to_set().contains(x));
                    let k = choose|k: int| 0 <= k < pre.len() && pre[k] == x;
                    assert(q[k] == x);
                } else {
                    assert(q[q.len() - 1] == x);
                }
            }
            if q.to_set().contains(x) && pred(x) {
                let k = choose|k: int| 0 <= k < q.len() && q[k] == x;
                if k < q.len() - 1 {
                    assert(pre[k] == x);
                    assert(pre.to_set().contains(x));
                    let i = choose|i: int| 0 <= i < sub.len() && sub[i] == x;
                    assert(f[i] == x);
                } else {
                    assert(f[f.len() - 1] == x);
                }
            }
        }
    }
}

/// Deduplicated records, parent-to-children map and roots: the records
/// that stand for their pids (in input order), the set of their pids, for
/// each pid with children its children in increasing order, and the roots
/// in increasing order.
pub struct Built<'a> {
    pub unique: Vec<&'a Record>,
    pub pids: HashSet<u32>,
    pub by_pid: HashMap<u32, &'a Record>,
    pub children: HashMap<u32, Vec<u32>>,
    pub roots: Vec<u32>,
}

/// `by_pid` and `children` hold the table `t`: each pid's record, and the
/// children of each pid that has any.
pub open spec fn lookup_tables<'a>(
    by_pid: Map<u32, &'a Record>,
    children: Map<u32, Vec<u32>>,
    t: Map<u32, RecordView>,
) -> bool {
    &&& t.dom().finite()
    &&& forall|p: u32| #[trigger] t.contains_key(p) ==> t[p].pid == p
    &&& by_pid.dom() == t.dom()
    &&& forall|p: u32| #[trigger] by_pid.contains_key(p) ==> by_pid[p]@ == t[p]
    &&& forall|p: u32| #[trigger]
        children.contains_key(p) ==> children[p]@ == children_of(t, p)
            && children[p]@.to_set() == child_set(t, p) && children[p]@.len() > 0
    &&& forall|p: u32| !#[trigger] children.contains_key(p) ==> child_set(t, p)
        == Set::<u32>::empty()
}

impl<'a> Built<'a> {
    /// What `build` guarantees of its result for the table `t`.
    pub open spec fn describes(&self, t: Map<u32, RecordView>) -> bool {
        &&& t.dom().finite()
        &&& forall|p: u32| #[trigger] t.contains_key(p) ==> t[p].pid == p
        &&& forall|i: int|
            0 <= i < self.unique@.len() ==> t.contains_key(#[trigger] self.unique@[i].pid)
                && t[self.unique@[i].pid] == self.unique@[i]@
        &&& self.unique@.map_values(|r: &Record| r.pid).no_duplicates()
        &&& self.unique@.map_values(|r: &Record| r.pid).to_set() == t.dom()
        &&& self.pids@ == t.dom()
        &&& lookup_tables(self.by_pid@, self.children@, t)
        &&& self.roots@ == roots_of(t)
        &&& self.roots@.to_set() == root_set(t)
    }
}

/// Deduplicates by pid (first occurrence wins) and splits records into a
/// parent-to-children map plus the list of roots.
pub fn build<'a>(records: &'a [Record]) -> (b: Built<'a>)
    ensures
        b.describes(table(record_views(records@))),
        b.unique@.map_values(|r: &Record| r@) == first_records(record_views(records@)),
{
    let ghost rv = record_views(records@);
    let mut seen: HashSet<u32> = HashSet::new();
    let mut unique: Vec<&Record> = Vec::new();
    let mut by_pid: HashMap<u32, &Record> = HashMap::new();
    let mut unique_pids: Vec<u32> = Vec::new();
    let n = records.len();
    let mut i: usize = 0;
    while i < n
        invariant
            n == records@.len(),
            rv == record_views(records@),
            i <= n,
            seen@ == table(rv.take(i as int)).dom(),
            by_pid@.dom() == seen@,
            forall|p: u32| #[trigger]
                by_pid@.contains_key(p) ==> by_pid@[p]@ == table(rv.take(i as int))[p],
            unique_pids@ == unique@.map_values(|r: &Record| r.pid),
            unique_pids@.no_duplicates(),
            unique_pids@.to_set() == seen@,
            unique@.map_values(|r: &Record| r@) == first_records(rv.take(i as int)),
            forall|k: int|
                0 <= k < unique@.len() ==> #[trigger] by_pid@.contains_key(unique@[k].pid)
                    && by_pid@[unique@[k].pid]@ == unique@[k]@,
        decreases n - i,
    {
        let r = &records[i];
        proof {
            assert(rv.take(i + 1).drop_last() == rv.take(i as int));
            assert(rv.take(i + 1).last() == r@);
        }
        let ghost old_unique = unique@.map_values(|r: &Record| r@);
        if seen.insert(r.pid) {
            let ghost old_pids = unique_pids@;
            unique.push(r);
            assert(unique@.map_values(|r: &Record| r@) == old_unique.push(r@));
            unique_pids.push(r.pid);
            by_pid.insert(r.pid, r);
            proof {
                assert(unique_pids@ == unique@.map_values(|r: &Record| r.pid));
                assert(unique_pids@ == old_pids.push(r.pid));
                assert(!old_pids.contains(r.pid)) by {
                    if old_pids.contains(r.pid) {
                        assert(old_pids.to_set().contains(r.pid));
                    }
                }
                assert(unique_pids@.to_set() =~= old_pids.to_set().insert(r.pid)) by {
                    assert forall|x: u32| unique_pids@.to_set().contains(x) implies old_pids.to_set().insert(r.pid).contains(x) by {
                        let k = choose|k: int| 0 <= k < unique_pids@.len() && unique_pids@[k] == x;
                        if k < old_pids.len() {
                            assert(old_pids[k] == x);
                        }
                    }
                    assert forall|x: u32| old_pids.to_set().insert(r.pid).contains(x) implies unique_pids@.to_set().contains(x) by {
                        if x == r.pid {
                            assert(unique_pids@[old_pids.len() as int] == x);
                        } else {
                            let k = choose|k: int| 0 <= k < old_pids.len() && old_pids[k] == x;
                            assert(unique_pids@[k] == x);
                        }
                    }
                }
            }
        }
        i = i + 1;
    }
    proof {
        assert(rv.take(n as int) == rv);
    }
    let ghost t = table(rv);
    proof {
        lemma_table(rv);
    }
    let sorted = sort_distinct(&unique_pids);
    let mut roots: Vec<u32> = Vec::new();
    let mut children: HashMap<u32, Vec<u32>> = HashMap::new();
    let m = sorted.len();
    let mut k: usize = 0;
    let ghost root_pred = |x: u32| is_root(t, x);
    while k < m
        invariant
            m == sorted@.len(),
            k <= m,
            increasing(sorted@),
            sorted@.to_set() == t.dom(),
            t == table(rv),
            t.dom().finite(),
            forall|p: u32| #[trigger] t.contains_key(p) ==> t[p].pid == p,
            seen@ == t.dom(),
            by_pid@.dom() == t.dom(),
            forall|p: u32| #[trigger] by_pid@.contains_key(p) ==> by_pid@[p]@ == t[p],
            root_pred == (|x: u32| is_root(t, x)),
            unique_pids@ == unique@.map_values(|r: &Record| r.pid),
            unique_pids@.no_duplicates(),
            unique_pids@.to_set() == seen@,
            unique@.map_values(|r: &Record| r@) == first_records(rv),
            forall|j: int|
                0 <= j < unique@.len() ==> #[trigger] by_pid@.contains_key(unique@[j].pid)
                    && by_pid@[unique@[j].pid]@ == unique@[j]@,
            roots@ == sorted@.take(k as int).filter(root_pred),
            forall|p: u32| #[trigger]
                children@.contains_key(p) ==> children@[p]@ == sorted@.take(k as int).filter(
                    |x: u32| is_child_of(t, x, p),
                ) && children@[p]@.len() > 0,
            forall|p: u32| !#[trigger] children@.contains_key(p) ==> sorted@.take(k as int).filter(
                |x: u32| is_child_of(t, x, p),
            ).len() == 0,
        decreases m - k,
    {
        let c = sorted[k];
        let ghost pre = sorted@.take(k as int);
        let ghost next = sorted@.take(k + 1);
        proof {
            reveal(Seq::filter);
            assert(next.drop_last() == pre);
            assert(next.last() == c);
            assert(sorted@.to_set().contains(c));
        }
        let r: &Record = *by_pid.get(&c).unwrap();
        if r.ppid == r.pid || !seen.contains(&r.ppid) {
            roots.push(c);
            proof {
                assert(is_root(t, c));
                assert forall|p: u32| !is_child_of(t, c, p) by {}
                assert forall|p: u32| #[trigger] children@.contains_key(p) implies children@[p]@
                    == next.filter(|x: u32| is_child_of(t, x, p)) by {
                    assert(!is_child_of(t, c, p));
                }
                assert forall|p: u32| !#[trigger] children@.contains_key(p) implies next.filter(
                    |x: u32| is_child_of(t, x, p),
                ).len() == 0 by {
                    assert(!is_child_of(t, c, p));
                }
            }
        } else {
            let pp = r.ppid;
            let ghost old_children = children@;
            proof {
                assert(is_child_of(t, c, pp));
                assert(!is_root(t, c));
            }
            match children.remove(&pp) {
                Some(mut kids) => {
                    kids.push(c);
                    children.insert(pp, kids);
                },
                None => {
                    let mut kids: Vec<u32> = Vec::new();
                    kids.push(c);
                    children.insert(pp, kids);
                    proof {
                        assert(pre.filter(|x: u32| is_child_of(t, x, pp)).len() == 0);
                    }
                },
            }
            proof {
                assert forall|p: u32| #[trigger] children@.contains_key(p) implies children@[p]@
                    == next.filter(|x: u32| is_child_of(t, x, p)) && children@[p]@.len() > 0 by {
                    if p != pp {
                        assert(!is_child_of(t, c, p));
                        assert(old_children.contains_key(p));
                    }
                }
                assert forall|p: u32| !#[trigger] children@.contains_key(p) implies next.filter(
                    |x: u32| is_child_of(t, x, p),
                ).len() == 0 by {
                    assert(p != pp);
                    assert(!is_child_of(t, c, p));
                    assert(!old_children.contains_key(p));
                }
            }
        }
        k = k + 1;
    }
    proof {
        assert(sorted@.take(m as int) == sorted@);
        lemma_filter_increasing(sorted@, root_pred);
        assert(sorted@.filter(root_pred).to_set() =~= root_set(t));
        lemma_ascending_of(sorted@.filter(root_pred));
        assert forall|p: u32| #[trigger] children@.contains_key(p) implies children@[p]@
            == children_of(t, p) && children@[p]@.to_set() == child_set(t, p)
            && children@[p]@.len() > 0 by {
            let pred = |x: u32| is_child_of(t, x, p);
            lemma_filter_increasing(sorted@, pred);
            assert(sorted@.filter(pred).to_set() =~= child_set(t, p));
            lemma_ascending_of(sorted@.filter(pred));
            assert(children@[p]@.to_set() == child_set(t, p));
        }
        assert forall|p: u32| !#[trigger] children@.contains_key(p) implies child_set(t, p)
            == Set::<u32>::empty() by {
            let pred = |x: u32| is_child_of(t, x, p);
            lemma_filter_increasing(sorted@, pred);
            assert forall|x: u32| !child_set(t, p).contains(x) by {
                if child_set(t, p).contains(x) {
                    assert(sorted@.filter(pred).to_set().contains(x));
                }
            }
            assert(child_set(t, p) =~= Set::<u32>::empty());
        }
        assert(roots@ == roots_of(t));
        assert(roots@.to_set() == root_set(t));
        assert(lookup_tables(by_pid@, children@, t));
        assert forall|j: int| 0 <= j < unique@.len() implies t.contains_key(
            #[trigger] unique@[j].pid,
        ) && t[unique@[j].pid] == unique@[j]@ by {
            assert(by_pid@.contains_key(unique@[j].pid));
        }
        assert(unique@.map_values(|r: &Record| r.pid).to_set() == t.dom());
    }
    Built { unique, pids: seen, by_pid, children, roots }
}

} // verus!
