//! Pids in increasing order: the one sequence that enumerates a set of pids
//! from smallest to largest, and a sort that produces it.

use vstd::prelude::*;

verus! {

/// Every element is smaller than every element after it.
pub open spec fn increasing(q: Seq<u32>) -> bool {
    forall|i: int, j: int| 0 <= i < j < q.len() ==> q[i] < q[j]
}

/// The elements of the finite set `s`, smallest first.
pub open spec fn ascending(s: Set<u32>) -> Seq<u32> {
    choose|q: Seq<u32>| increasing(q) && q.to_set() == s
}

/// Two increasing sequences with the same elements are the same sequence.
pub proof fn lemma_increasing_unique(a: Seq<u32>, b: Seq<u32>)
    requires
        increasing(a),
        increasing(b),
        a.to_set() == b.to_set(),
    ensures
        a == b,
    decreases a.len(),
{
    if a.len() == 0 {
        if b.len() > 0 {
            assert(b.to_set().contains(b[0]));
        }
        assert(a =~= b);
    } else if b.len() == 0 {
        assert(a.to_set().contains(a[0]));
    } else {
        assert(a.to_set().contains(a[0]));
        assert(b.to_set().contains(b[0]));
        let j = choose|j: int| 0 <= j < b.len() && b[j] == a[0];
        let k = choose|k: int| 0 <= k < a.len() && a[k] == b[0];
        assert(a[0] <= a[k]);
        assert(b[0] <= b[j]);
        assert(a[0] == b[0]);
        let a1 = a.drop_first();
        let b1 = b.drop_first();
        assert forall|x: u32| a1.to_set().contains(x) implies b1.to_set().contains(x) by {
            let i = choose|i: int| 0 <= i < a1.len() && a1[i] == x;
            assert(a[i + 1] == x);
            assert(a.to_set().contains(x));
            let m = choose|m: int| 0 <= m < b.len() && b[m] == x;
            assert(m != 0);
            assert(b1[m - 1] == x);
        }
        assert forall|x: u32| b1.to_set().contains(x) implies a1.to_set().contains(x) by {
            let i = choose|i: int| 0 <= i < b1.len() && b1[i] == x;
            assert(b[i + 1] == x);
            assert(b.to_set().contains(x));
            let m = choose|m: int| 0 <= m < a.len() && a[m] == x;
            assert(m != 0);
            assert(a1[m - 1] == x);
        }
        assert(a1.to_set() =~= b1.to_set());
        lemma_increasing_unique(a1, b1);
        assert(a.len() == b.len());
        assert forall|i: int| 0 <= i < a.len() implies a[i] == b[i] by {
            if i > 0 {
                assert(a[i] == a1[i - 1]);
                assert(b[i] == b1[i - 1]);
            }
        }
        assert(a =~= b);
    }
}

/// An increasing sequence is the ascending enumeration of its elements.
pub proof fn lemma_ascending_of(q: Seq<u32>)
    requires
        increasing(q),
    ensures
        ascending(q.to_set()) == q,
{
    let s = q.to_set();
    assert(increasing(q) && q.to_set() == s);
    let a = ascending(s);
    lemma_increasing_unique(a, q);
}

/// A finite nonempty set of pids has a largest element.
proof fn lemma_has_max(s: Set<u32>) -> (m: u32)
    requires
        s.finite(),
        s.len() > 0,
    ensures
        s.contains(m),
        forall|x: u32| #[trigger] s.contains(x) ==> x <= m,
    decreases s.len(),
{
    let x = s.choose();
    assert(s.contains(x));
    let rest = s.remove(x);
    if rest.len() == 0 {
        assert forall|y: u32| #[trigger] s.contains(y) implies y <= x by {
            if y != x {
                assert(rest.contains(y));
            }
        }
        x
    } else {
        let m = lemma_has_max(rest);
        if m < x {
            assert forall|y: u32| #[trigger] s.contains(y) implies y <= x by {
                if y != x {
                    assert(rest.contains(y));
                }
            }
            x
        } else {
            assert forall|y: u32| #[trigger] s.contains(y) implies y <= m by {
                if y != x {
                    assert(rest.contains(y));
                }
            }
            m
        }
    }
}

/// Every finite set of pids has an ascending enumeration.
pub proof fn lemma_ascending_finite(s: Set<u32>)
    requires
        s.finite(),
    ensures
        increasing(ascending(s)),
        ascending(s).to_set() == s,
    decreases s.len(),
{
    if s.len() == 0 {
        assert(Seq::<u32>::empty().to_set() =~= s);
        lemma_ascending_of(Seq::<u32>::empty());
    } else {
        let m = lemma_has_max(s);
        let rest = s.remove(m);
        lemma_ascending_finite(rest);
        let q = ascending(rest).push(m);
        let a = ascending(rest);
        assert forall|i: int, j: int| 0 <= i < j < q.len() implies q[i] < q[j] by {
            if j == q.len() - 1 {
                assert(a.to_set().contains(a[i]));
                assert(rest.contains(a[i]));
            }
        }
        assert forall|x: u32| q.to_set().contains(x) <==> s.contains(x) by {
            if q.to_set().contains(x) {
                let k = choose|k: int| 0 <= k < q.len() && q[k] == x;
                if k < a.len() {
                    assert(a[k] == x);
                    assert(a.to_set().contains(x));
                }
            }
            if s.contains(x) {
                if x == m {
                    assert(q[a.len() as int] == x);
                } else {
                    assert(rest.contains(x));
                    assert(a.to_set().contains(x));
                    let k = choose|k: int| 0 <= k < a.len() && a[k] == x;
                    assert(q[k] == x);
                }
            }
        }
        assert(q.to_set() =~= s);
        lemma_ascending_of(q);
    }
}

/// The pids of `v` (which holds none twice), in increasing order.
pub fn sort_distinct(v: &Vec<u32>) -> (r: Vec<u32>)
    requires
        v@.no_duplicates(),
    ensures
        increasing(r@),
        r@.to_set() == v@.to_set(),
        r@.len() == v@.len(),
{
    let mut r: Vec<u32> = Vec::new();
    let n = v.len();
    let mut i: usize = 0;
    while i < n
        invariant
            n == v@.len(),
            i <= n,
            v@.no_duplicates(),
            increasing(r@),
            r@.to_set() == v@.take(i as int).to_set(),
            r@.len() == i,
        decreases n - i,
    {
        let x = v[i];
        assert(!r@.to_set().contains(x)) by {
            if r@.to_set().contains(x) {
                let k = choose|k: int| 0 <= k < v@.take(i as int).len() && v@.take(i as int)[k] == x;
                assert(v@[k] == v@[i as int]);
            }
        }
        let mut j: usize = 0;
        while j < r.len() && r[j] < x
            invariant
                j <= r@.len(),
                forall|k: int| 0 <= k < j ==> r@[k] < x,
            decreases r@.len() - j,
        {
            j = j + 1;
        }
        let ghost old_r = r@;
        r.insert(j, x);
        proof {
            if j < old_r.len() {
                assert(old_r[j as int] != x) by {
                    assert(old_r.to_set().contains(old_r[j as int]));
                }
            }
            assert(r@ == old_r.subrange(0, j as int).push(x) + old_r.subrange(j as int, old_r.len() as int));
            assert forall|a: int, b: int| 0 <= a < b < r@.len() implies r@[a] < r@[b] by {
                if b < j {
                } else if b == j {
                } else if a < j {
                    assert(r@[b] == old_r[b - 1]);
                    assert(old_r[j as int] <= old_r[b - 1]);
                } else if a == j {
                    assert(r@[b] == old_r[b - 1]);
                    assert(old_r[j as int] <= old_r[b - 1]);
                } else {
                    assert(r@[a] == old_r[a - 1]);
                    assert(r@[b] == old_r[b - 1]);
                }
            }
            let took = v@.take(i + 1);
            assert(took == v@.take(i as int).push(x));
            assert forall|y: u32| r@.to_set().contains(y) <==> took.to_set().contains(y) by {
                if r@.to_set().contains(y) {
                    let k = choose|k: int| 0 <= k < r@.len() && r@[k] == y;
                    if k < j {
                        assert(old_r[k] == y);
                        assert(old_r.to_set().contains(y));
                    } else if k > j {
                        assert(old_r[k - 1] == y);
                        assert(old_r.to_set().contains(y));
                    }
                    if y != x {
                        let m = choose|m: int| 0 <= m < v@.take(i as int).len() && v@.take(i as int)[m] == y;
                        assert(took[m] == y);
                    } else {
                        assert(took[i as int] == y);
                    }
                }
                if took.to_set().contains(y) {
                    let m = choose|m: int| 0 <= m < took.len() && took[m] == y;
                    if m < i {
                        assert(v@.take(i as int)[m] == y);
                        assert(old_r.to_set().contains(y));
                        let k = choose|k: int| 0 <= k < old_r.len() && old_r[k] == y;
                        if k < j {
                            assert(r@[k] == y);
                        } else {
                            assert(r@[k + 1] == y);
                        }
                    } else {
                        assert(r@[j as int] == y);
                    }
                }
            }
            assert(r@.to_set() =~= took.to_set());
        }
        i = i + 1;
    }
    assert(v@.take(n as int) == v@);
    r
}

} // verus!
