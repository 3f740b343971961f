//! Johnson's rule is optimal on two machines.
//!
//! On two machines the completion time of position `p` on the second
//! machine is the longest path through the first `p + 1` jobs: the first
//! machine's times up to some position `u`, then the second machine's times
//! from `u` on. Johnson's order is shown no worse than any other order by
//! induction: the first job it picks has the smallest time of all, and
//! moving that job to the front (or back) of any order does not lengthen it.

use vstd::prelude::*;
use crate::timing::{
    lemma_perm_contains_all, lemma_prefix_sum_take, lemma_sum_of_distinct, lemma_sum_where_ext, max2, no_dups,
    prefix_sum,
};
use crate::johnsons::{
    goes_front, johnson_outcome, johnson_pairs, min2, picked_before, split_at, two_machine_pairs,
};
use crate::matrix::{machines, row_ok, time, valid_matrix};
use crate::timing::{end_time, is_perm, jobs_in_range, makespan_of};
use crate::common::AlgResult;

verus! {

pub open spec fn fa(ab: Seq<(i32, i32)>) -> spec_fn(usize) -> int {
    |j: usize| ab[j as int].0 as int
}

pub open spec fn fb(ab: Seq<(i32, i32)>) -> spec_fn(usize) -> int {
    |j: usize| ab[j as int].1 as int
}

/// First-machine time of the first `i` jobs of `s`.
pub open spec fn sa(ab: Seq<(i32, i32)>, s: Seq<usize>, i: int) -> int {
    prefix_sum(s, i, fa(ab))
}

/// Second-machine time of the first `i` jobs of `s`.
pub open spec fn sb(ab: Seq<(i32, i32)>, s: Seq<usize>, i: int) -> int {
    prefix_sum(s, i, fb(ab))
}

/// Completion time of position `p` of `s` on the second machine.
pub open spec fn second_end(ab: Seq<(i32, i32)>, s: Seq<usize>, p: int) -> int
    decreases p + 1,
{
    if p < 0 {
        0
    } else {
        max2(sa(ab, s, p + 1), second_end(ab, s, p - 1)) + fb(ab)(s[p])
    }
}

/// Makespan of `s` on two machines.
pub open spec fn cmax(ab: Seq<(i32, i32)>, s: Seq<usize>) -> int {
    second_end(ab, s, s.len() - 1)
}

/// Length of the path that leaves the first machine at position `u` and
/// ends at position `p` on the second.
pub open spec fn path(ab: Seq<(i32, i32)>, s: Seq<usize>, u: int, p: int) -> int {
    sa(ab, s, u + 1) + sb(ab, s, p + 1) - sb(ab, s, u)
}

/// Times are non-negative and `s` names jobs of `ab`.
pub open spec fn pairs_ok(ab: Seq<(i32, i32)>, s: Seq<usize>) -> bool {
    &&& forall|j: int| 0 <= j < ab.len() ==> (#[trigger] ab[j]).0 >= 0 && ab[j].1 >= 0
    &&& forall|i: int| 0 <= i < s.len() ==> (#[trigger] s[i] as int) < ab.len()
}

proof fn lemma_prefix_nonneg(ab: Seq<(i32, i32)>, s: Seq<usize>, i: int)
    requires
        pairs_ok(ab, s),
        0 <= i <= s.len(),
    ensures
        sa(ab, s, i) >= 0,
        sb(ab, s, i) >= 0,
    decreases i,
{
    if i > 0 {
        lemma_prefix_nonneg(ab, s, i - 1);
        assert(ab[s[i - 1] as int].0 >= 0);
    }
}

/// Every path is at most the completion time.
proof fn lemma_path_le(ab: Seq<(i32, i32)>, s: Seq<usize>, u: int, p: int)
    requires
        pairs_ok(ab, s),
        0 <= u <= p < s.len(),
    ensures
        path(ab, s, u, p) <= second_end(ab, s, p),
    decreases p,
{
    if u < p {
        lemma_path_le(ab, s, u, p - 1);
    }
}

/// Some path reaches the completion time.
proof fn lemma_path_attained(ab: Seq<(i32, i32)>, s: Seq<usize>, p: int) -> (u: int)
    requires
        pairs_ok(ab, s),
        0 <= p < s.len(),
    ensures
        0 <= u <= p,
        path(ab, s, u, p) == second_end(ab, s, p),
    decreases p,
{
    assert(sb(ab, s, p + 1) == sb(ab, s, p) + fb(ab)(s[p]));
    if p == 0 {
        lemma_prefix_nonneg(ab, s, 1);
        assert(second_end(ab, s, -1) == 0);
        assert(sb(ab, s, 0) == 0);
        0
    } else if sa(ab, s, p + 1) >= second_end(ab, s, p - 1) {
        p
    } else {
        let u = lemma_path_attained(ab, s, p - 1);
        assert(path(ab, s, u, p) == path(ab, s, u, p - 1) + fb(ab)(s[p]));
        u
    }
}

proof fn lemma_prefix_remove(s: Seq<usize>, k: int, i: int, f: spec_fn(usize) -> int)
    requires
        0 <= k < s.len(),
        0 <= i <= s.len() - 1,
    ensures
        prefix_sum(s.remove(k), i, f) == if i <= k {
            prefix_sum(s, i, f)
        } else {
            prefix_sum(s, i + 1, f) - f(s[k])
        },
    decreases i,
{
    if i > 0 {
        lemma_prefix_remove(s, k, i - 1, f);
        if i - 1 < k {
            assert(s.remove(k)[i - 1] == s[i - 1]);
        } else {
            assert(s.remove(k)[i - 1] == s[i as int]);
            assert(prefix_sum(s, i + 1, f) == prefix_sum(s, i, f) + f(s[i as int]));
        }
    }
}

proof fn lemma_prefix_cons(x: usize, s: Seq<usize>, i: int, f: spec_fn(usize) -> int)
    requires
        1 <= i <= s.len() + 1,
    ensures
        prefix_sum(seq![x] + s, i, f) == f(x) + prefix_sum(s, i - 1, f),
    decreases i,
{
    if i > 1 {
        lemma_prefix_cons(x, s, i - 1, f);
        assert((seq![x] + s)[i - 1] == s[i - 2]);
    } else {
        assert((seq![x] + s)[0] == x);
        assert(prefix_sum(seq![x] + s, 0, f) == 0);
        assert(prefix_sum(s, 0, f) == 0);
    }
}

proof fn lemma_prefix_push(s: Seq<usize>, x: usize, i: int, f: spec_fn(usize) -> int)
    requires
        0 <= i <= s.len(),
    ensures
        prefix_sum(s.push(x), i, f) == prefix_sum(s, i, f),
        prefix_sum(s.push(x), s.len() as int + 1, f) == prefix_sum(s, s.len() as int, f) + f(x),
    decreases i,
{
    if i > 0 {
        lemma_prefix_push(s, x, i - 1, f);
    }
    lemma_prefix_push_all(s, x, s.len() as int, f);
}

proof fn lemma_prefix_push_all(s: Seq<usize>, x: usize, i: int, f: spec_fn(usize) -> int)
    requires
        0 <= i <= s.len(),
    ensures
        prefix_sum(s.push(x), i, f) == prefix_sum(s, i, f),
    decreases i,
{
    if i > 0 {
        lemma_prefix_push_all(s, x, i - 1, f);
    }
}

/// Two sequences of the same distinct jobs have the same total.
proof fn lemma_same_jobs_sum(n: int, s1: Seq<usize>, s2: Seq<usize>, f: spec_fn(usize) -> int)
    requires
        0 <= n <= usize::MAX + 1,
        no_dups(s1),
        no_dups(s2),
        s1.len() == s2.len(),
        forall|i: int| 0 <= i < s1.len() ==> (s1[i] as int) < n,
        forall|i: int| 0 <= i < s2.len() ==> (s2[i] as int) < n,
        forall|j: usize| #[trigger] s1.contains(j) == s2.contains(j),
    ensures
        prefix_sum(s1, s1.len() as int, f) == prefix_sum(s2, s2.len() as int, f),
{
    lemma_prefix_sum_take(s1, s1.len() as int, f);
    lemma_prefix_sum_take(s2, s2.len() as int, f);
    assert(s1.take(s1.len() as int) =~= s1);
    assert(s2.take(s2.len() as int) =~= s2);
    lemma_sum_of_distinct(s1, n, f);
    lemma_sum_of_distinct(s2, n, f);
    lemma_sum_where_ext(n, f, f, |j: usize| s1.contains(j), |j: usize| s2.contains(j));
    lemma_sum_where_ext(n, f, f, |j: usize| s2.contains(j), |j: usize| s1.contains(j));
}

/// Moving a job whose first-machine time is the smallest of all, and not
/// above its own second-machine time, to the front does not lengthen an
/// order.
proof fn lemma_move_front(ab: Seq<(i32, i32)>, q: Seq<usize>, k: int)
    requires
        pairs_ok(ab, q),
        0 <= k < q.len(),
        forall|i: int| 0 <= i < q.len() ==> fa(ab)(q[k]) <= #[trigger] fa(ab)(q[i]),
        fa(ab)(q[k]) <= fb(ab)(q[k]),
    ensures
        cmax(ab, seq![q[k]] + q.remove(k)) <= cmax(ab, q),
{
    let n = q.len() as int;
    let x = q[k];
    let qr = q.remove(k);
    let r = seq![x] + qr;
    assert(pairs_ok(ab, r)) by {
        assert forall|i: int| 0 <= i < r.len() implies (#[trigger] r[i] as int) < ab.len() by {
            if i > 0 {
                assert(r[i] == qr[i - 1]);
                if i - 1 < k {
                    assert(qr[i - 1] == q[i - 1]);
                } else {
                    assert(qr[i - 1] == q[i]);
                }
            }
        }
    }
    let u = lemma_path_attained(ab, r, n - 1);
    lemma_prefix_cons(x, qr, n, fb(ab));
    lemma_prefix_remove(q, k, n - 1, fb(ab));
    if u == 0 {
        lemma_prefix_cons(x, qr, 1, fa(ab));
        assert(sb(ab, r, 0) == 0);
        assert(sa(ab, qr, 0) == 0);
        assert(sa(ab, q, 0) == 0);
        assert(sa(ab, q, 1) == fa(ab)(q[0]));
        assert(sb(ab, q, 0) == 0);
        lemma_path_le(ab, q, 0, n - 1);
    } else {
        let w = u - 1;
        lemma_prefix_cons(x, qr, w + 2, fa(ab));
        lemma_prefix_cons(x, qr, w + 1, fb(ab));
        lemma_prefix_remove(q, k, w + 1, fa(ab));
        lemma_prefix_remove(q, k, w, fb(ab));
        if w + 1 <= k {
            lemma_path_le(ab, q, w, n - 1);
        } else {
            assert(sb(ab, q, k + 1) == sb(ab, q, k) + fb(ab)(q[k]));
            lemma_path_le(ab, q, w + 1, n - 1);
        }
    }
}

/// Moving a job whose second-machine time is the smallest of all, and not
/// above its own first-machine time, to the back does not lengthen an
/// order.
proof fn lemma_move_back(ab: Seq<(i32, i32)>, q: Seq<usize>, k: int)
    requires
        pairs_ok(ab, q),
        0 <= k < q.len(),
        forall|i: int| 0 <= i < q.len() ==> fb(ab)(q[k]) <= #[trigger] fb(ab)(q[i]),
        fb(ab)(q[k]) <= fa(ab)(q[k]),
    ensures
        cmax(ab, q.remove(k).push(q[k])) <= cmax(ab, q),
{
    let n = q.len() as int;
    let x = q[k];
    let qr = q.remove(k);
    let r = qr.push(x);
    assert(pairs_ok(ab, r)) by {
        assert forall|i: int| 0 <= i < r.len() implies (#[trigger] r[i] as int) < ab.len() by {
            if i < n - 1 {
                assert(r[i] == qr[i]);
                if i < k {
                    assert(qr[i] == q[i]);
                } else {
                    assert(qr[i] == q[i + 1]);
                }
            }
        }
    }
    let u = lemma_path_attained(ab, r, n - 1);
    lemma_prefix_push(qr, x, n - 1, fa(ab));
    lemma_prefix_push(qr, x, n - 1, fb(ab));
    lemma_prefix_remove(q, k, n - 1, fa(ab));
    lemma_prefix_remove(q, k, n - 1, fb(ab));
    if u == n - 1 {
        assert(sb(ab, q, n) == sb(ab, q, n - 1) + fb(ab)(q[n - 1]));
        lemma_path_le(ab, q, n - 1, n - 1);
    } else {
        lemma_prefix_push(qr, x, u + 1, fa(ab));
        lemma_prefix_push(qr, x, u, fb(ab));
        lemma_prefix_remove(q, k, u + 1, fa(ab));
        lemma_prefix_remove(q, k, u, fb(ab));
        if u + 1 <= k {
            lemma_path_le(ab, q, u, n - 1);
        } else {
            assert(sb(ab, q, k + 1) == sb(ab, q, k) + fb(ab)(q[k]));
            lemma_path_le(ab, q, u + 1, n - 1);
        }
    }
}

/// Putting the same job in front of two orders of the same jobs keeps their
/// makespans in order.
proof fn lemma_prepend_mono(ab: Seq<(i32, i32)>, x: usize, s1: Seq<usize>, s2: Seq<usize>)
    requires
        pairs_ok(ab, s1),
        pairs_ok(ab, s2),
        (x as int) < ab.len(),
        s1.len() == s2.len(),
        sb(ab, s1, s1.len() as int) == sb(ab, s2, s2.len() as int),
        cmax(ab, s1) <= cmax(ab, s2),
    ensures
        cmax(ab, seq![x] + s1) <= cmax(ab, seq![x] + s2),
{
    let l = s1.len() as int;
    let r1 = seq![x] + s1;
    let r2 = seq![x] + s2;
    assert(pairs_ok(ab, r1)) by {
        assert forall|i: int| 0 <= i < r1.len() implies (#[trigger] r1[i] as int) < ab.len() by {
            if i > 0 {
                assert(r1[i] == s1[i - 1]);
            }
        }
    }
    assert(pairs_ok(ab, r2)) by {
        assert forall|i: int| 0 <= i < r2.len() implies (#[trigger] r2[i] as int) < ab.len() by {
            if i > 0 {
                assert(r2[i] == s2[i - 1]);
            }
        }
    }
    let u = lemma_path_attained(ab, r1, l);
    lemma_prefix_cons(x, s1, l + 1, fb(ab));
    lemma_prefix_cons(x, s2, l + 1, fb(ab));
    lemma_prefix_cons(x, s1, 1, fa(ab));
    lemma_prefix_cons(x, s2, 1, fa(ab));
    if u == 0 {
        assert(sb(ab, r1, 0) == 0 && sb(ab, r2, 0) == 0);
        assert(sa(ab, s1, 0) == 0 && sa(ab, s2, 0) == 0);
        lemma_path_le(ab, r2, 0, l);
    } else {
        let w = u - 1;
        lemma_prefix_cons(x, s1, w + 2, fa(ab));
        lemma_prefix_cons(x, s1, w + 1, fb(ab));
        lemma_path_le(ab, s1, w, l - 1);
        let v = lemma_path_attained(ab, s2, l - 1);
        lemma_prefix_cons(x, s2, v + 2, fa(ab));
        lemma_prefix_cons(x, s2, v + 1, fb(ab));
        lemma_path_le(ab, r2, v + 1, l);
    }
}

/// Putting the same job behind two orders of the same jobs keeps their
/// makespans in order.
proof fn lemma_append_mono(ab: Seq<(i32, i32)>, s1: Seq<usize>, s2: Seq<usize>, x: usize)
    requires
        pairs_ok(ab, s1),
        pairs_ok(ab, s2),
        (x as int) < ab.len(),
        s1.len() == s2.len(),
        sa(ab, s1, s1.len() as int) == sa(ab, s2, s2.len() as int),
        cmax(ab, s1) <= cmax(ab, s2),
    ensures
        cmax(ab, s1.push(x)) <= cmax(ab, s2.push(x)),
{
    let l = s1.len() as int;
    let r1 = s1.push(x);
    let r2 = s2.push(x);
    assert(pairs_ok(ab, r1)) by {
        assert forall|i: int| 0 <= i < r1.len() implies (#[trigger] r1[i] as int) < ab.len() by {
            if i < l {
                assert(r1[i] == s1[i]);
            }
        }
    }
    assert(pairs_ok(ab, r2)) by {
        assert forall|i: int| 0 <= i < r2.len() implies (#[trigger] r2[i] as int) < ab.len() by {
            if i < l {
                assert(r2[i] == s2[i]);
            }
        }
    }
    let u = lemma_path_attained(ab, r1, l);
    lemma_prefix_push(s1, x, l, fa(ab));
    lemma_prefix_push(s2, x, l, fa(ab));
    lemma_prefix_push(s1, x, l, fb(ab));
    lemma_prefix_push(s2, x, l, fb(ab));
    if u == l {
        lemma_path_le(ab, r2, l, l);
    } else {
        lemma_prefix_push(s1, x, u + 1, fa(ab));
        lemma_prefix_push(s1, x, u, fb(ab));
        lemma_path_le(ab, s1, u, l - 1);
        let v = lemma_path_attained(ab, s2, l - 1);
        lemma_prefix_push(s2, x, v + 1, fa(ab));
        lemma_prefix_push(s2, x, v, fb(ab));
        lemma_path_le(ab, r2, v, l);
    }
}

proof fn lemma_remove_contains(q: Seq<usize>, k: int, j: usize)
    requires
        no_dups(q),
        0 <= k < q.len(),
    ensures
        q.remove(k).contains(j) == (q.contains(j) && j != q[k]),
{
    let r = q.remove(k);
    if r.contains(j) {
        let c = choose|c: int| 0 <= c < r.len() && r[c] == j;
        if c < k {
            assert(q[c] == j);
        } else {
            assert(q[c + 1] == j);
        }
    }
    if q.contains(j) && j != q[k] {
        let c = choose|c: int| 0 <= c < q.len() && q[c] == j;
        if c < k {
            assert(r[c] == j);
        } else {
            assert(r[c - 1] == j);
        }
    }
}

proof fn lemma_remove_ok(ab: Seq<(i32, i32)>, q: Seq<usize>, k: int)
    requires
        pairs_ok(ab, q),
        no_dups(q),
        0 <= k < q.len(),
    ensures
        pairs_ok(ab, q.remove(k)),
        no_dups(q.remove(k)),
{
    let r = q.remove(k);
    assert forall|i: int| 0 <= i < r.len() implies (#[trigger] r[i] as int) < ab.len() by {
        if i < k {
            assert(r[i] == q[i]);
        } else {
            assert(r[i] == q[i + 1]);
        }
    }
    assert forall|a: int, b: int| 0 <= a < r.len() && 0 <= b < r.len() && a != b implies r[a] != r[b] by {
        let a2 = if a < k { a } else { a + 1 };
        let b2 = if b < k { b } else { b + 1 };
        assert(r[a] == q[a2] && r[b] == q[b2]);
    }
}

/// An order that follows Johnson's rule is no longer than any other order
/// of the same jobs.
proof fn lemma_johnson_no_worse(ab: Seq<(i32, i32)>, jo: Seq<usize>, q: Seq<usize>, f: int)
    requires
        ab.len() <= usize::MAX,
        pairs_ok(ab, jo),
        pairs_ok(ab, q),
        no_dups(jo),
        no_dups(q),
        jo.len() == q.len(),
        forall|j: usize| #[trigger] jo.contains(j) == q.contains(j),
        split_at(ab, jo, f),
    ensures
        cmax(ab, jo) <= cmax(ab, q),
    decreases jo.len(),
{
    let n = jo.len() as int;
    if n == 0 {
        assert(cmax(ab, jo) == 0 && cmax(ab, q) == 0);
        return;
    }
    let front = f > 0 && (f == n || picked_before(ab, jo[0], jo[n - 1]));
    let x = if front { jo[0] } else { jo[n - 1] };
    let xi = if front { 0 } else { n - 1 };
    assert forall|i: int| 0 <= i < n && i != xi implies picked_before(ab, x, #[trigger] jo[i]) by {
        if front {
            if i >= f {
                if i < n - 1 {
                    assert(picked_before(ab, jo[n - 1], jo[i]));
                }
                assert(picked_before(ab, jo[0], jo[n - 1]));
            }
        } else {
            if i < f {
                assert(jo[0] != jo[n - 1]);
                assert(picked_before(ab, jo[n - 1], jo[0]));
                if i > 0 {
                    assert(picked_before(ab, jo[0], jo[i]));
                }
            }
        }
    }
    assert(jo.contains(x));
    assert(q.contains(x));
    let k = choose|k: int| 0 <= k < q.len() && q[k] == x;
    assert forall|i: int| 0 <= i < n implies min2(ab[x as int].0 as int, ab[x as int].1 as int) <= min2(
        ab[(#[trigger] q[i]) as int].0 as int,
        ab[q[i] as int].1 as int,
    ) by {
        assert(jo.contains(q[i]));
        let c = choose|c: int| 0 <= c < n && jo[c] == q[i];
        if c != xi {
            assert(picked_before(ab, x, jo[c]));
        }
    }
    let q1 = q.remove(k);
    lemma_remove_ok(ab, q, k);
    if front {
        assert(goes_front(ab, jo[0]));
        assert forall|i: int| 0 <= i < q.len() implies fa(ab)(q[k]) <= #[trigger] fa(ab)(q[i]) by {
            assert(min2(ab[x as int].0 as int, ab[x as int].1 as int) <= min2(ab[q[i] as int].0 as int, ab[q[i] as int].1 as int));
        }
        lemma_move_front(ab, q, k);
        let j1 = jo.subrange(1, n);
        assert(jo =~= seq![x] + j1);
        assert(split_at(ab, j1, f - 1)) by {
            assert forall|i: int| 0 <= i < f - 1 implies goes_front(ab, #[trigger] j1[i]) by {
                assert(j1[i] == jo[i + 1]);
            }
            assert forall|i: int| f - 1 <= i < j1.len() implies !goes_front(ab, #[trigger] j1[i]) by {
                assert(j1[i] == jo[i + 1]);
            }
            assert forall|i: int, i2: int| 0 <= i < i2 < f - 1 implies picked_before(ab, #[trigger] j1[i], #[trigger] j1[i2]) by {
                assert(j1[i] == jo[i + 1] && j1[i2] == jo[i2 + 1]);
            }
            assert forall|i: int, i2: int| f - 1 <= i < i2 < j1.len() implies picked_before(ab, #[trigger] j1[i2], #[trigger] j1[i]) by {
                assert(j1[i] == jo[i + 1] && j1[i2] == jo[i2 + 1]);
            }
        }
        assert(j1 =~= jo.remove(0));
        lemma_remove_ok(ab, jo, 0);
        assert forall|j: usize| #[trigger] j1.contains(j) == q1.contains(j) by {
            lemma_remove_contains(jo, 0, j);
            lemma_remove_contains(q, k, j);
        }
        lemma_johnson_no_worse(ab, j1, q1, f - 1);
        lemma_same_jobs_sum(ab.len() as int, j1, q1, fb(ab));
        lemma_prepend_mono(ab, x, j1, q1);
    } else {
        assert(!goes_front(ab, jo[n - 1]));
        assert forall|i: int| 0 <= i < q.len() implies fb(ab)(q[k]) <= #[trigger] fb(ab)(q[i]) by {
            assert(min2(ab[x as int].0 as int, ab[x as int].1 as int) <= min2(ab[q[i] as int].0 as int, ab[q[i] as int].1 as int));
        }
        lemma_move_back(ab, q, k);
        let j1 = jo.drop_last();
        assert(jo =~= j1.push(x));
        assert(split_at(ab, j1, f)) by {
            assert forall|i: int| 0 <= i < f implies goes_front(ab, #[trigger] j1[i]) by {
                assert(j1[i] == jo[i]);
            }
            assert forall|i: int| f <= i < j1.len() implies !goes_front(ab, #[trigger] j1[i]) by {
                assert(j1[i] == jo[i]);
            }
            assert forall|i: int, i2: int| 0 <= i < i2 < f implies picked_before(ab, #[trigger] j1[i], #[trigger] j1[i2]) by {
                assert(j1[i] == jo[i] && j1[i2] == jo[i2]);
            }
            assert forall|i: int, i2: int| f <= i < i2 < j1.len() implies picked_before(ab, #[trigger] j1[i2], #[trigger] j1[i]) by {
                assert(j1[i] == jo[i] && j1[i2] == jo[i2]);
            }
        }
        assert(j1 =~= jo.remove(n - 1));
        lemma_remove_ok(ab, jo, n - 1);
        assert forall|j: usize| #[trigger] j1.contains(j) == q1.contains(j) by {
            lemma_remove_contains(jo, n - 1, j);
            lemma_remove_contains(q, k, j);
        }
        lemma_johnson_no_worse(ab, j1, q1, f);
        lemma_same_jobs_sum(ab.len() as int, j1, q1, fa(ab));
        lemma_append_mono(ab, j1, q1, x);
    }
}

/// On a two-machine matrix, the timing recurrence gives the two-machine
/// completion times of the time pairs.
proof fn lemma_two_machine_times(m: Seq<Vec<i32>>, s: Seq<usize>, p: int)
    requires
        valid_matrix(m, 2),
        machines(m) == 2,
        jobs_in_range(m, s),
        -1 <= p < s.len(),
    ensures
        end_time(m, s, p, 0) == sa(two_machine_pairs(m), s, p + 1),
        end_time(m, s, p, 1) == second_end(two_machine_pairs(m), s, p),
    decreases p + 1,
{
    let ab = two_machine_pairs(m);
    if p >= 0 {
        lemma_two_machine_times(m, s, p - 1);
        lemma_pairs_ok(m, s);
        lemma_prefix_nonneg(ab, s, p);
        assert(row_ok(m, s[p] as int));
        assert(ab[s[p] as int] == (m[s[p] as int]@[0], m[s[p] as int]@[1]));
        assert(end_time(m, s, p, -1) == 0);
    } else {
        assert(sa(ab, s, 0) == 0);
    }
}

proof fn lemma_pairs_ok(m: Seq<Vec<i32>>, s: Seq<usize>)
    requires
        valid_matrix(m, 2),
        machines(m) == 2,
        jobs_in_range(m, s),
    ensures
        pairs_ok(two_machine_pairs(m), s),
{
    let ab = two_machine_pairs(m);
    assert forall|j: int| 0 <= j < ab.len() implies (#[trigger] ab[j]).0 >= 0 && ab[j].1 >= 0 by {
        assert(row_ok(m, j));
    }
}

/// On two machines Johnson's rule is optimal: no permutation of the jobs
/// has a smaller makespan than its order.
pub proof fn lemma_johnson_optimal(m: Seq<Vec<i32>>, r: AlgResult, p: Seq<usize>)
    requires
        valid_matrix(m, 2),
        machines(m) == 2,
        johnson_outcome(m, r),
        is_perm(p, m.len() as int),
    ensures
        r.makespan <= makespan_of(m, p),
{
    let ab = two_machine_pairs(m);
    let s = r.sequence@;
    let n = m.len() as int;
    assert(johnson_pairs(m) == ab);
    let f = choose|f: int| #[trigger] split_at(ab, s, f);
    lemma_perm_contains_all(s, n);
    lemma_perm_contains_all(p, n);
    assert forall|j: usize| #[trigger] s.contains(j) == p.contains(j) by {
        if s.contains(j) {
            let c = choose|c: int| 0 <= c < s.len() && s[c] == j;
        }
        if p.contains(j) {
            let c = choose|c: int| 0 <= c < p.len() && p[c] == j;
        }
    }
    lemma_pairs_ok(m, s);
    lemma_pairs_ok(m, p);
    lemma_johnson_no_worse(ab, s, p, f);
    lemma_two_machine_times(m, s, n - 1);
    lemma_two_machine_times(m, p, n - 1);
}

} // verus!
