//! The machine-load lower bound of a partial sequence, and why no
//! completion of the sequence can beat it.

use vstd::prelude::*;
use crate::matrix::{machines, row_ok, time, total_time, valid_matrix};
use crate::timing::{
    busy_to, column, completion, end_time, is_perm, jobs_in_range, lemma_end_bounded,
    lemma_end_is_start_plus_time, lemma_end_same_prefix, lemma_prefix_sum_take, lemma_sum_of_distinct,
    lemma_sum_where_ext, lemma_sum_where_split, lemma_sum_where_sub, makespan_of, max2, no_dups, row_total,
    sum_where,
};
use crate::properties::{lemma_busy_is_prefix_sum, lemma_column_total};

verus! {

/// `p` starts with `prefix`.
pub open spec fn extends(p: Seq<usize>, prefix: Seq<usize>) -> bool {
    prefix.len() <= p.len() && p.subrange(0, prefix.len() as int) == prefix
}

/// Total time on machine `k` of the jobs not in `s`.
pub open spec fn remaining_load(m: Seq<Vec<i32>>, s: Seq<usize>, k: int) -> int {
    sum_where(m.len() as int, column(m, k), |j: usize| !s.contains(j))
}

/// Largest, over the first `kk` machines, of the completion time of `s` on
/// the machine plus the machine's remaining load (zero for no machine).
pub open spec fn bound_to(m: Seq<Vec<i32>>, s: Seq<usize>, kk: int) -> int
    decreases kk,
{
    if kk <= 0 {
        0
    } else {
        max2(bound_to(m, s, kk - 1), completion(m, s, kk - 1) + remaining_load(m, s, kk - 1))
    }
}

/// Lower bound of a partial sequence: its makespan once every job is
/// placed, otherwise the largest machine bound.
pub open spec fn lower_bound_of(m: Seq<Vec<i32>>, s: Seq<usize>) -> int {
    if s.len() == m.len() {
        completion(m, s, machines(m) - 1)
    } else {
        bound_to(m, s, machines(m))
    }
}

/// A partial sequence: distinct jobs of the matrix.
pub open spec fn partial_ok(m: Seq<Vec<i32>>, s: Seq<usize>) -> bool {
    &&& valid_matrix(m, 1)
    &&& s.len() <= m.len()
    &&& jobs_in_range(m, s)
    &&& no_dups(s)
}

/// End times along one machine grow by at least each job's time.
proof fn lemma_end_chain(m: Seq<Vec<i32>>, p: Seq<usize>, a: int, b: int, k: int)
    requires
        -1 <= a <= b < p.len(),
        0 <= k,
    ensures
        end_time(m, p, b, k) >= end_time(m, p, a, k) + busy_to(m, p, b + 1, k) - busy_to(m, p, a + 1, k),
    decreases b - a,
{
    if a < b {
        lemma_end_chain(m, p, a, b - 1, k);
        lemma_end_is_start_plus_time(m, p, b, k);
    }
}

/// Completion times never decrease from one machine to the next.
proof fn lemma_end_machine_mono(m: Seq<Vec<i32>>, p: Seq<usize>, i: int, k: int, kk: int)
    requires
        valid_matrix(m, 1),
        jobs_in_range(m, p),
        0 <= i < p.len(),
        0 <= k <= kk < machines(m),
    ensures
        end_time(m, p, i, k) <= end_time(m, p, i, kk),
    decreases kk - k,
{
    if k < kk {
        lemma_end_machine_mono(m, p, i, k, kk - 1);
        lemma_end_is_start_plus_time(m, p, i, kk);
        assert(row_ok(m, p[i] as int));
    }
}

/// The bound of one machine is met by every completion of the sequence.
proof fn lemma_machine_bound(m: Seq<Vec<i32>>, s: Seq<usize>, p: Seq<usize>, k: int)
    requires
        partial_ok(m, s),
        is_perm(p, m.len() as int),
        extends(p, s),
        0 <= k < machines(m),
    ensures
        completion(m, s, k) + remaining_load(m, s, k) <= makespan_of(m, p),
{
    let n = m.len() as int;
    let l = s.len() as int;
    lemma_end_chain(m, p, l - 1, n - 1, k);
    if l > 0 {
        assert forall|c: int| 0 <= c <= l - 1 implies p[c] == s[c] by {
            assert(p.subrange(0, l)[c] == s[c]);
        }
        lemma_end_same_prefix(m, p, s, l - 1, k);
    }
    lemma_column_total(m, p, k);
    lemma_busy_is_prefix_sum(m, p, l, k);
    lemma_busy_is_prefix_sum(m, s, l, k);
    crate::timing::lemma_prefix_sum_same(p, s, l, column(m, k));
    lemma_prefix_sum_take(s, l, column(m, k));
    assert(s.take(l) =~= s);
    lemma_sum_of_distinct(s, n, column(m, k));
    let inside = |j: usize| s.contains(j);
    lemma_sum_where_split(n, column(m, k), inside);
    lemma_sum_where_ext(n, column(m, k), column(m, k), |j: usize| !inside(j), |j: usize| !s.contains(j));
    lemma_sum_where_ext(n, column(m, k), column(m, k), |j: usize| !s.contains(j), |j: usize| !inside(j));
    lemma_end_machine_mono(m, p, n - 1, k, machines(m) - 1);
    assert(completion(m, s, k) == end_time(m, p, l - 1, k));
}

/// The lower bound of a partial sequence is at most the makespan of every
/// permutation that starts with it.
pub proof fn lemma_lower_bound_valid(m: Seq<Vec<i32>>, s: Seq<usize>, p: Seq<usize>)
    requires
        partial_ok(m, s),
        is_perm(p, m.len() as int),
        extends(p, s),
    ensures
        lower_bound_of(m, s) <= makespan_of(m, p),
{
    if s.len() == m.len() {
        assert(p =~= p.subrange(0, s.len() as int));
    } else {
        lemma_bound_to_valid(m, s, p, machines(m));
    }
}

proof fn lemma_bound_to_valid(m: Seq<Vec<i32>>, s: Seq<usize>, p: Seq<usize>, kk: int)
    requires
        partial_ok(m, s),
        is_perm(p, m.len() as int),
        extends(p, s),
        0 <= kk <= machines(m),
    ensures
        bound_to(m, s, kk) <= makespan_of(m, p),
    decreases kk,
{
    if kk > 0 {
        lemma_bound_to_valid(m, s, p, kk - 1);
        lemma_machine_bound(m, s, p, kk - 1);
    } else {
        lemma_end_bounded(m, p, p.len() - 1, machines(m) - 1);
    }
}

/// The remaining load of a machine is between zero and the matrix total.
pub proof fn lemma_remaining_load_bounded(m: Seq<Vec<i32>>, s: Seq<usize>, k: int, j: int)
    requires
        valid_matrix(m, 1),
        0 <= k < machines(m),
        0 <= j <= m.len(),
    ensures
        0 <= sum_where(j, column(m, k), |c: usize| !s.contains(c)) <= total_time(m),
{
    let n = m.len() as int;
    lemma_column_nonneg(m, k);
    lemma_sum_where_prefix(j, n, column(m, k), |c: usize| !s.contains(c));
    lemma_sum_where_sub(n, column(m, k), |c: usize| !s.contains(c), |c: usize| true);
    assert forall|c: usize| (c as int) < n && true implies #[trigger] column(m, k)(c) <= row_total(m)(c) by {
        assert(row_ok(m, c as int));
        crate::matrix::lemma_row_sum_nonneg(m, c as int, machines(m));
    }
    lemma_sum_where_ext(n, column(m, k), row_total(m), |c: usize| true, |c: usize| true);
    crate::timing::lemma_total_as_sum_where(m, n);
}

proof fn lemma_column_nonneg(m: Seq<Vec<i32>>, k: int)
    requires
        valid_matrix(m, 1),
        0 <= k < machines(m),
    ensures
        forall|c: usize| (c as int) < m.len() ==> #[trigger] column(m, k)(c) >= 0,
{
    assert forall|c: usize| (c as int) < m.len() implies #[trigger] column(m, k)(c) >= 0 by {
        assert(row_ok(m, c as int));
    }
}

/// Sums over fewer jobs are smaller, for non-negative terms.
pub proof fn lemma_sum_where_prefix(j: int, n: int, f: spec_fn(usize) -> int, keep: spec_fn(usize) -> bool)
    requires
        0 <= j <= n <= usize::MAX + 1,
        forall|c: usize| (c as int) < n ==> #[trigger] f(c) >= 0,
    ensures
        0 <= sum_where(j, f, keep) <= sum_where(n, f, keep),
    decreases n,
{
    if n > j {
        lemma_sum_where_prefix(j, n - 1, f, keep);
    } else if j > 0 {
        lemma_sum_where_prefix(j - 1, j - 1, f, keep);
    }
}

} // verus!
