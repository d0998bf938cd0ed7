//! Cycles of a permutation that is given as a table of successors.
//!
//! The half-edges of a mesh are permuted by `next` (around a face) and by
//! the counterclockwise step (around a vertex). A boundary cycle and a
//! vertex star are cycles of these permutations; this module holds what the
//! mesh operations need to know about such cycles.

use vstd::prelude::*;
use vstd::set_lib::{lemma_int_range, lemma_len_subset, set_int_range};

verus! {

/// At position `i` both tables stay in range and undo each other.
pub open spec fn perm_at(succ: Seq<int>, pred: Seq<int>, i: int) -> bool {
    &&& 0 <= succ[i] < succ.len()
    &&& 0 <= pred[i] < succ.len()
    &&& pred[succ[i]] == i
    &&& succ[pred[i]] == i
}

/// `succ` is a permutation of its positions, and `pred` is its inverse.
pub open spec fn is_permutation(succ: Seq<int>, pred: Seq<int>) -> bool {
    &&& succ.len() == pred.len()
    &&& forall|i: int| 0 <= i < succ.len() ==> #[trigger] perm_at(succ, pred, i)
}

/// The position reached from `a` by `k` steps of `succ`.
pub open spec fn iterate(succ: Seq<int>, a: int, k: nat) -> int
    decreases k,
{
    if k == 0 {
        a
    } else {
        succ[iterate(succ, a, (k - 1) as nat)]
    }
}

/// Some number of steps of `succ` leads from `a` to `x`.
pub open spec fn reaches(succ: Seq<int>, a: int, x: int) -> bool {
    exists|k: nat| iterate(succ, a, k) == x
}

/// `r` lists distinct positions, each the successor of the one before.
pub open spec fn is_path(succ: Seq<int>, r: Seq<int>) -> bool {
    &&& r.len() >= 1
    &&& r.no_duplicates()
    &&& forall|i: int| 0 <= i < r.len() ==> 0 <= #[trigger] r[i] < succ.len()
    &&& forall|i: int| 0 <= i < r.len() - 1 ==> #[trigger] succ[r[i]] == r[i + 1]
}

/// `r` lists a whole cycle of `succ`, once around.
pub open spec fn is_ring(succ: Seq<int>, r: Seq<int>) -> bool {
    &&& is_path(succ, r)
    &&& succ[r.last()] == r[0]
}

/// The position after `i` on a cycle of length `len`.
pub open spec fn ring_after(i: int, len: int) -> int {
    if i + 1 >= len {
        i + 1 - len
    } else {
        i + 1
    }
}

/// The position `m` steps after `j` on a cycle of length `len`, for at most
/// one turn.
pub open spec fn ring_ahead(j: int, m: int, len: int) -> int {
    if j + m >= len {
        j + m - len
    } else {
        j + m
    }
}

/// A sequence of distinct numbers below `n` has at most `n` entries.
pub proof fn lemma_distinct_bounded(s: Seq<int>, n: int)
    requires
        s.no_duplicates(),
        forall|i: int| 0 <= i < s.len() ==> 0 <= #[trigger] s[i] < n,
        n >= 0,
    ensures
        s.len() <= n,
{
    s.unique_seq_to_set();
    lemma_int_range(0, n);
    assert forall|x: int| s.to_set().contains(x) implies set_int_range(0, n).contains(x) by {
        let i = choose|i: int| 0 <= i < s.len() && s[i] == x;
        assert(0 <= s[i] < n);
    }
    lemma_len_subset(s.to_set(), set_int_range(0, n));
}

/// Every path of a permutation can be continued to a whole cycle.
pub proof fn lemma_ring_grow(succ: Seq<int>, pred: Seq<int>, path: Seq<int>) -> (r: Seq<int>)
    requires
        is_permutation(succ, pred),
        is_path(succ, path),
    ensures
        is_ring(succ, r),
        r[0] == path[0],
        r.len() >= path.len(),
        r.subrange(0, path.len() as int) == path,
    decreases succ.len() - path.len(),
{
    lemma_distinct_bounded(path, succ.len() as int);
    let last = path.last();
    let nx = succ[last];
    assert(perm_at(succ, pred, last));
    if nx == path[0] {
        assert(path.subrange(0, path.len() as int) =~= path);
        path
    } else {
        let longer = path.push(nx);
        if path.contains(nx) {
            let j = choose|j: int| 0 <= j < path.len() && path[j] == nx;
            assert(succ[path[j - 1]] == path[j]);
            assert(perm_at(succ, pred, path[j - 1]));
            assert(path[j - 1] == last);
            assert(false);
        }
        assert(longer.no_duplicates());
        assert forall|i: int| 0 <= i < longer.len() - 1 implies #[trigger] succ[longer[i]]
            == longer[i + 1] by {
            if i < path.len() - 1 {
                assert(succ[path[i]] == path[i + 1]);
            }
        }
        lemma_distinct_bounded(longer, succ.len() as int);
        let r = lemma_ring_grow(succ, pred, longer);
        assert(r.subrange(0, path.len() as int) =~= longer.subrange(0, path.len() as int));
        assert(longer.subrange(0, path.len() as int) =~= path);
        r
    }
}

/// Every position lies on a cycle that starts there.
pub proof fn lemma_ring_exists(succ: Seq<int>, pred: Seq<int>, a: int) -> (r: Seq<int>)
    requires
        is_permutation(succ, pred),
        0 <= a < succ.len(),
    ensures
        is_ring(succ, r),
        r[0] == a,
{
    lemma_ring_grow(succ, pred, seq![a])
}

/// On a cycle the successor of an entry is the entry after it.
pub proof fn lemma_ring_succ(succ: Seq<int>, r: Seq<int>, i: int)
    requires
        is_ring(succ, r),
        0 <= i < r.len(),
    ensures
        succ[r[i]] == r[ring_after(i, r.len() as int)],
{
    if i < r.len() - 1 {
        assert(succ[r[i]] == r[i + 1]);
    }
}

/// On a cycle the predecessor of an entry is the entry before it.
pub proof fn lemma_ring_pred(succ: Seq<int>, pred: Seq<int>, r: Seq<int>, i: int)
    requires
        is_permutation(succ, pred),
        is_ring(succ, r),
        0 <= i < r.len(),
    ensures
        pred[r[i]] == r[if i == 0 {
            r.len() - 1
        } else {
            i - 1
        }],
{
    let h = if i == 0 {
        r.len() - 1
    } else {
        i - 1
    };
    lemma_ring_succ(succ, r, h);
    assert(perm_at(succ, pred, r[h]));
}

/// Walking `m` steps from an entry of a cycle, at most once around, leads
/// to the entry `m` places further on.
pub proof fn lemma_ring_iterate(succ: Seq<int>, r: Seq<int>, j: int, m: nat)
    requires
        is_ring(succ, r),
        0 <= j < r.len(),
        m <= r.len(),
    ensures
        iterate(succ, r[j], m) == r[ring_ahead(j, m as int, r.len() as int)],
    decreases m,
{
    if m > 0 {
        lemma_ring_iterate(succ, r, j, (m - 1) as nat);
        lemma_ring_succ(succ, r, ring_ahead(j, m - 1, r.len() as int));
    }
}

/// Every entry of a cycle is reached from every other.
pub proof fn lemma_ring_reaches(succ: Seq<int>, r: Seq<int>, j: int, i: int)
    requires
        is_ring(succ, r),
        0 <= j < r.len(),
        0 <= i < r.len(),
    ensures
        reaches(succ, r[j], r[i]),
{
    let m: nat = if i >= j {
        (i - j) as nat
    } else {
        (r.len() - j + i) as nat
    };
    lemma_ring_iterate(succ, r, j, m);
}

/// No walk leaves a cycle.
pub proof fn lemma_ring_keeps(succ: Seq<int>, r: Seq<int>, j: int, k: nat)
    requires
        is_ring(succ, r),
        0 <= j < r.len(),
    ensures
        r.contains(iterate(succ, r[j], k)),
    decreases k,
{
    if k > 0 {
        lemma_ring_keeps(succ, r, j, (k - 1) as nat);
        let y = iterate(succ, r[j], (k - 1) as nat);
        let i = choose|i: int| 0 <= i < r.len() && r[i] == y;
        lemma_ring_succ(succ, r, i);
    }
}

/// A cycle holds exactly the positions that are reached from any one of its
/// entries.
pub proof fn lemma_ring_is_orbit(succ: Seq<int>, r: Seq<int>, j: int)
    requires
        is_ring(succ, r),
        0 <= j < r.len(),
    ensures
        forall|x: int|
            #![trigger reaches(succ, r[j], x)]
            #![trigger r.contains(x)]
            reaches(succ, r[j], x) <==> r.contains(x),
{
    assert forall|x: int|
            #![trigger reaches(succ, r[j], x)]
            #![trigger r.contains(x)]
            reaches(succ, r[j], x) <==> r.contains(x) by {
        if reaches(succ, r[j], x) {
            let k = choose|k: nat| iterate(succ, r[j], k) == x;
            lemma_ring_keeps(succ, r, j, k);
        }
        if r.contains(x) {
            let i = choose|i: int| 0 <= i < r.len() && r[i] == x;
            lemma_ring_reaches(succ, r, j, i);
        }
    }
}

/// Two cycles that share a position hold the same positions.
pub proof fn lemma_rings_meet(succ: Seq<int>, r1: Seq<int>, r2: Seq<int>, x: int)
    requires
        is_ring(succ, r1),
        is_ring(succ, r2),
        r1.contains(x),
        r2.contains(x),
    ensures
        forall|y: int| r1.contains(y) <==> r2.contains(y),
{
    let i1 = choose|i: int| 0 <= i < r1.len() && r1[i] == x;
    let i2 = choose|i: int| 0 <= i < r2.len() && r2[i] == x;
    lemma_ring_is_orbit(succ, r1, i1);
    lemma_ring_is_orbit(succ, r2, i2);
}

/// A walk of a permutation stays in range.
pub proof fn lemma_iterate_in_range(succ: Seq<int>, pred: Seq<int>, a: int, k: nat)
    requires
        is_permutation(succ, pred),
        0 <= a < succ.len(),
    ensures
        0 <= iterate(succ, a, k) < succ.len(),
    decreases k,
{
    if k > 0 {
        lemma_iterate_in_range(succ, pred, a, (k - 1) as nat);
        assert(perm_at(succ, pred, iterate(succ, a, (k - 1) as nat)));
    }
}

/// A walk of `k + 1` steps is one step followed by a walk of `k` steps.
pub proof fn lemma_iterate_shift(succ: Seq<int>, a: int, k: nat)
    ensures
        iterate(succ, a, k + 1) == iterate(succ, succ[a], k),
    decreases k,
{
    if k > 0 {
        lemma_iterate_shift(succ, a, (k - 1) as nat);
        assert(iterate(succ, a, k + 1) == succ[iterate(succ, a, k)]);
    } else {
        assert(iterate(succ, a, 1) == succ[iterate(succ, a, 0)]);
    }
}

/// Walking back along the inverse undoes a walk.
pub proof fn lemma_iterate_undo(succ: Seq<int>, pred: Seq<int>, a: int, k: nat)
    requires
        is_permutation(succ, pred),
        0 <= a < succ.len(),
    ensures
        iterate(pred, iterate(succ, a, k), k) == a,
    decreases k,
{
    if k > 0 {
        let z = iterate(succ, a, (k - 1) as nat);
        lemma_iterate_in_range(succ, pred, a, (k - 1) as nat);
        assert(perm_at(succ, pred, z));
        lemma_iterate_shift(pred, succ[z], (k - 1) as nat);
        lemma_iterate_undo(succ, pred, a, (k - 1) as nat);
    }
}

/// What is reached from `a` along a permutation is reached from `a` along
/// its inverse too.
pub proof fn lemma_reaches_back(succ: Seq<int>, pred: Seq<int>, a: int, x: int)
    requires
        is_permutation(succ, pred),
        0 <= a < succ.len(),
        reaches(succ, a, x),
    ensures
        reaches(pred, a, x),
{
    let r = lemma_ring_exists(succ, pred, a);
    lemma_ring_is_orbit(succ, r, 0);
    assert(reaches(succ, r[0], x));
    assert(r.contains(x));
    let i = choose|i: int| 0 <= i < r.len() && r[i] == x;
    lemma_ring_reaches(succ, r, i, 0);
    let m = choose|m: nat| iterate(succ, x, m) == a;
    lemma_iterate_undo(succ, pred, x, m);
    assert(iterate(pred, a, m) == x);
}

/// The inverse of a permutation is a permutation.
pub proof fn lemma_inverse_is_permutation(succ: Seq<int>, pred: Seq<int>)
    requires
        is_permutation(succ, pred),
    ensures
        is_permutation(pred, succ),
{
    assert forall|i: int| 0 <= i < pred.len() implies #[trigger] perm_at(pred, succ, i) by {
        assert(perm_at(succ, pred, i));
    }
}


/// A cycle of one table is a cycle of every table that takes the same
/// steps from its entries.
pub proof fn lemma_ring_same_steps(succ: Seq<int>, other: Seq<int>, r: Seq<int>)
    requires
        is_ring(succ, r),
        other.len() >= succ.len(),
        forall|j: int| 0 <= j < r.len() ==> other[#[trigger] r[j]] == succ[r[j]],
    ensures
        is_ring(other, r),
{
    assert forall|j: int| 0 <= j < r.len() - 1 implies #[trigger] other[r[j]] == r[j + 1] by {
        assert(succ[r[j]] == r[j + 1]);
        assert(0 <= r[j] < succ.len());
    }
    assert(0 <= r[r.len() - 1] < succ.len());
}

/// Where a new position `x` is put between the entry at `j` of a cycle and
/// its successor, the cycle with `x` behind that entry is a cycle of the
/// new table.
pub proof fn lemma_ring_insert(succ: Seq<int>, other: Seq<int>, r: Seq<int>, j: int, x: int) -> (q:
    Seq<int>)
    requires
        is_ring(succ, r),
        0 <= j < r.len(),
        other.len() >= succ.len(),
        0 <= x < other.len(),
        !r.contains(x),
        other[r[j]] == x,
        other[x] == succ[r[j]],
        forall|i: int| 0 <= i < r.len() && i != j ==> other[#[trigger] r[i]] == succ[r[i]],
    ensures
        is_ring(other, q),
        q == r.subrange(0, j + 1).push(x) + r.subrange(j + 1, r.len() as int),
        forall|y: int| q.contains(y) <==> r.contains(y) || y == x,
{
    let q = r.subrange(0, j + 1).push(x) + r.subrange(j + 1, r.len() as int);
    assert(q.len() == r.len() + 1);
    assert forall|i: int| 0 <= i < q.len() implies #[trigger] q[i] == (if i <= j {
        r[i]
    } else if i == j + 1 {
        x
    } else {
        r[i - 1]
    }) by {}
    assert forall|i: int| 0 <= i < q.len() implies 0 <= #[trigger] q[i] < other.len() by {
        if i <= j {
            assert(0 <= r[i] < succ.len());
        } else if i > j + 1 {
            assert(0 <= r[i - 1] < succ.len());
        }
    }
    assert forall|a: int, b: int| 0 <= a < q.len() && 0 <= b < q.len() && a != b implies q[a]
        != q[b] by {
        let ia = if a <= j {
            a
        } else {
            a - 1
        };
        let ib = if b <= j {
            b
        } else {
            b - 1
        };
        if a != j + 1 {
            assert(r.contains(r[ia]));
        }
        if b != j + 1 {
            assert(r.contains(r[ib]));
        }
    }
    lemma_ring_succ(succ, r, j);
    assert forall|i: int| 0 <= i < q.len() - 1 implies #[trigger] other[q[i]] == q[i + 1] by {
        if i < j {
            assert(succ[r[i]] == r[i + 1]);
            assert(other[r[i]] == succ[r[i]]);
        } else if i == j {
        } else if i == j + 1 {
        } else {
            assert(succ[r[i - 1]] == r[i]);
            assert(other[r[i - 1]] == succ[r[i - 1]]);
        }
    }
    assert(other[q.last()] == q[0]) by {
        if j == r.len() - 1 {
        } else {
            assert(other[r[r.len() - 1]] == succ[r[r.len() - 1]]);
        }
    }
    assert forall|y: int| q.contains(y) <==> r.contains(y) || y == x by {
        if q.contains(y) {
            let i = choose|i: int| 0 <= i < q.len() && q[i] == y;
            if i <= j {
                assert(r.contains(r[i]));
            } else if i > j + 1 {
                assert(r.contains(r[i - 1]));
            }
        }
        if r.contains(y) {
            let i = choose|i: int| 0 <= i < r.len() && r[i] == y;
            if i <= j {
                assert(q[i] == y);
            } else {
                assert(q[i + 1] == y);
            }
        }
        if y == x {
            assert(q[j + 1] == x);
        }
    }
    q
}


/// `k` steps of `succ` lead from `a` to `b`, and no fewer do.
pub open spec fn is_least_steps(succ: Seq<int>, a: int, b: int, k: nat) -> bool {
    &&& iterate(succ, a, k) == b
    &&& forall|j: nat| j < k ==> #[trigger] iterate(succ, a, j) != b
}

/// The least number of steps of `succ` that lead from `a` to `b`.
pub open spec fn steps_to(succ: Seq<int>, a: int, b: int) -> nat {
    choose|k: nat| is_least_steps(succ, a, b, k)
}

/// The positions on the way from `a` to `b` along `succ`, both included.
pub open spec fn stretch(succ: Seq<int>, a: int, b: int) -> Seq<int> {
    Seq::new(steps_to(succ, a, b) + 1, |i: int| iterate(succ, a, i as nat))
}

/// Where some number of steps leads from `a` to `b`, a least number does.
pub proof fn lemma_least_steps_exist(succ: Seq<int>, a: int, b: int, k: nat) -> (m: nat)
    requires
        iterate(succ, a, k) == b,
    ensures
        m <= k,
        is_least_steps(succ, a, b, m),
    decreases k,
{
    if exists|j: nat| j < k && iterate(succ, a, j) == b {
        let j = choose|j: nat| j < k && iterate(succ, a, j) == b;
        lemma_least_steps_exist(succ, a, b, j)
    } else {
        k
    }
}

/// `steps_to` is the least number of steps, and the only one.
pub proof fn lemma_steps_to(succ: Seq<int>, a: int, b: int, k: nat)
    requires
        is_least_steps(succ, a, b, k),
    ensures
        steps_to(succ, a, b) == k,
{
    let m = steps_to(succ, a, b);
    assert(is_least_steps(succ, a, b, m));
    if m < k {
        assert(iterate(succ, a, m) != b);
    }
    if k < m {
        assert(iterate(succ, a, k) != b);
    }
}

/// The way from a position to itself is that position alone.
pub proof fn lemma_stretch_single(succ: Seq<int>, a: int)
    ensures
        stretch(succ, a, a) == seq![a],
{
    assert(is_least_steps(succ, a, a, 0));
    lemma_steps_to(succ, a, a, 0);
    assert(stretch(succ, a, a) =~= seq![a]);
}

/// The way from `a` to another position `b` begins with `a` and goes on
/// with the way from the successor of `a`.
pub proof fn lemma_stretch_front(succ: Seq<int>, a: int, b: int)
    requires
        reaches(succ, a, b),
        a != b,
    ensures
        reaches(succ, succ[a], b),
        stretch(succ, a, b).len() >= 2,
        stretch(succ, a, b)[0] == a,
        stretch(succ, a, b).drop_first() == stretch(succ, succ[a], b),
{
    let k0 = choose|k: nat| iterate(succ, a, k) == b;
    let k = lemma_least_steps_exist(succ, a, b, k0);
    lemma_steps_to(succ, a, b, k);
    assert(k >= 1);
    let k1 = (k - 1) as nat;
    lemma_iterate_shift(succ, a, k1);
    assert forall|j: nat| j < k1 implies #[trigger] iterate(succ, succ[a], j) != b by {
        lemma_iterate_shift(succ, a, j);
        assert(iterate(succ, a, j + 1) != b);
    }
    assert(is_least_steps(succ, succ[a], b, k1));
    lemma_steps_to(succ, succ[a], b, k1);
    let s = stretch(succ, a, b);
    let t = stretch(succ, succ[a], b);
    assert forall|i: int| 0 <= i < t.len() implies t[i] == s[i + 1] by {
        lemma_iterate_shift(succ, a, i as nat);
    }
    assert(s.drop_first() =~= t);
}

/// The way from `a` to another position `b` ends with `b` and before that
/// is the way from `a` to the predecessor of `b`.
pub proof fn lemma_stretch_back(succ: Seq<int>, pred: Seq<int>, a: int, b: int)
    requires
        is_permutation(succ, pred),
        0 <= a < succ.len(),
        reaches(succ, a, b),
        a != b,
    ensures
        reaches(succ, a, pred[b]),
        stretch(succ, a, b).len() >= 2,
        stretch(succ, a, b).last() == b,
        stretch(succ, a, b).drop_last() == stretch(succ, a, pred[b]),
{
    let k0 = choose|k: nat| iterate(succ, a, k) == b;
    let k = lemma_least_steps_exist(succ, a, b, k0);
    lemma_steps_to(succ, a, b, k);
    assert(k >= 1);
    let k1 = (k - 1) as nat;
    let z = iterate(succ, a, k1);
    lemma_iterate_in_range(succ, pred, a, k1);
    lemma_iterate_in_range(succ, pred, a, k);
    assert(perm_at(succ, pred, z));
    assert(perm_at(succ, pred, b));
    assert(z == pred[b]);
    assert forall|j: nat| j < k1 implies #[trigger] iterate(succ, a, j) != pred[b] by {
        if iterate(succ, a, j) == pred[b] {
            assert(iterate(succ, a, j + 1) == succ[iterate(succ, a, j)]);
            assert(iterate(succ, a, j + 1) != b);
        }
    }
    assert(is_least_steps(succ, a, pred[b], k1));
    lemma_steps_to(succ, a, pred[b], k1);
    assert(stretch(succ, a, b).drop_last() =~= stretch(succ, a, pred[b]));
}

/// The way from the first entry of a cycle to another entry is the cycle up
/// to that entry.
pub proof fn lemma_ring_prefix_is_stretch(succ: Seq<int>, r: Seq<int>, i: int)
    requires
        is_ring(succ, r),
        0 <= i < r.len(),
    ensures
        stretch(succ, r[0], r[i]) == r.subrange(0, i + 1),
{
    let a = r[0];
    lemma_ring_iterate(succ, r, 0, i as nat);
    assert forall|j: nat| j < i implies #[trigger] iterate(succ, a, j) != r[i] by {
        lemma_ring_iterate(succ, r, 0, j);
    }
    assert(is_least_steps(succ, a, r[i], i as nat));
    lemma_steps_to(succ, a, r[i], i as nat);
    let s = stretch(succ, a, r[i]);
    assert forall|j: int| 0 <= j <= i implies s[j] == r[j] by {
        lemma_ring_iterate(succ, r, 0, j as nat);
    }
    assert(s =~= r.subrange(0, i + 1));
}

/// The way from a position to its predecessor is the whole cycle through
/// the position, once around.
pub proof fn lemma_stretch_is_ring(succ: Seq<int>, pred: Seq<int>, a: int)
    requires
        is_permutation(succ, pred),
        0 <= a < succ.len(),
    ensures
        reaches(succ, a, pred[a]),
        is_ring(succ, stretch(succ, a, pred[a])),
        stretch(succ, a, pred[a])[0] == a,
{
    let r = lemma_ring_exists(succ, pred, a);
    lemma_ring_pred(succ, pred, r, 0);
    let k = (r.len() - 1) as nat;
    lemma_ring_iterate(succ, r, 0, k);
    assert forall|j: nat| j < k implies #[trigger] iterate(succ, a, j) != pred[a] by {
        lemma_ring_iterate(succ, r, 0, j);
    }
    assert(is_least_steps(succ, a, pred[a], k));
    lemma_steps_to(succ, a, pred[a], k);
    let s = stretch(succ, a, pred[a]);
    assert forall|i: int| 0 <= i < s.len() implies s[i] == r[i] by {
        lemma_ring_iterate(succ, r, 0, i as nat);
    }
    assert(s =~= r);
}

} // verus!
