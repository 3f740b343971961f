//! The timing recurrence of a permutation flow shop, as spec functions, and
//! the facts about it that the algorithms rely on.

use vstd::prelude::*;
use crate::matrix::{
    lemma_row_sum_nonneg, machines, row_ok, row_sum, row_sum_to, time, total_time, total_to, valid_matrix,
};

verus! {

/// `s` is a permutation of the jobs `0..n`.
pub open spec fn is_perm(s: Seq<usize>, n: int) -> bool {
    &&& s.len() == n
    &&& forall|i: int| 0 <= i < s.len() ==> s[i] < n
    &&& no_dups(s)
}

/// No job occurs twice in `s`.
pub open spec fn no_dups(s: Seq<usize>) -> bool {
    forall|i: int, j: int| 0 <= i < s.len() && 0 <= j < s.len() && i != j ==> s[i] != s[j]
}

pub open spec fn max2(a: int, b: int) -> int {
    if a >= b { a } else { b }
}

/// Completion time of the job at position `p` of `s` on machine `k`; zero
/// for a position or machine before the first.
pub open spec fn end_time(m: Seq<Vec<i32>>, s: Seq<usize>, p: int, k: int) -> int
    decreases p + 1, k + 1,
{
    if p < 0 || k < 0 {
        0
    } else {
        max2(end_time(m, s, p, k - 1), end_time(m, s, p - 1, k)) + time(m, s[p] as int, k)
    }
}

/// Start time of the job at position `p` on machine `k`: once it has left
/// machine `k - 1` and machine `k` has finished the previous job.
pub open spec fn start_time(m: Seq<Vec<i32>>, s: Seq<usize>, p: int, k: int) -> int {
    max2(end_time(m, s, p, k - 1), end_time(m, s, p - 1, k))
}

/// Completion time of the last job of `s` on the last machine.
pub open spec fn makespan_of(m: Seq<Vec<i32>>, s: Seq<usize>) -> int {
    end_time(m, s, s.len() - 1, machines(m) - 1)
}

/// Completion time of the last job of `s` on machine `k` (zero for an
/// empty `s`).
pub open spec fn completion(m: Seq<Vec<i32>>, s: Seq<usize>, k: int) -> int {
    end_time(m, s, s.len() - 1, k)
}

/// Idle time of machine `k` over the first `i` positions: the start of the
/// first job, then every positive gap between a job's start and the
/// previous job's end.
pub open spec fn idle_to(m: Seq<Vec<i32>>, s: Seq<usize>, i: int, k: int) -> int
    decreases i,
{
    if i <= 0 {
        0
    } else if i == 1 {
        start_time(m, s, 0, k)
    } else {
        idle_to(m, s, i - 1, k) + max2(0, start_time(m, s, i - 1, k) - end_time(m, s, i - 2, k))
    }
}

/// Idle time of machine `k` over the whole sequence.
pub open spec fn idle_of(m: Seq<Vec<i32>>, s: Seq<usize>, k: int) -> int {
    idle_to(m, s, s.len() as int, k)
}

/// Processing time on machine `k` of the jobs at the first `i` positions.
pub open spec fn busy_to(m: Seq<Vec<i32>>, s: Seq<usize>, i: int, k: int) -> int
    decreases i,
{
    if i <= 0 {
        0
    } else {
        busy_to(m, s, i - 1, k) + time(m, s[i - 1] as int, k)
    }
}

/// Row `p` of a computed schedule holds the start and end times of position
/// `p` on every machine.
pub open spec fn row_matches(row: Seq<(i32, i32)>, m: Seq<Vec<i32>>, s: Seq<usize>, p: int) -> bool {
    &&& row.len() == machines(m)
    &&& forall|k: int|
        0 <= k < row.len() ==> row[k].0 as int == start_time(m, s, p, k) && row[k].1 as int
            == end_time(m, s, p, k)
}

/// A computed schedule holds one matching row per position of `s`.
pub open spec fn schedule_matches(sched: Seq<Vec<(i32, i32)>>, m: Seq<Vec<i32>>, s: Seq<usize>) -> bool {
    &&& sched.len() == s.len()
    &&& forall|p: int| 0 <= p < sched.len() ==> row_matches(#[trigger] sched[p]@, m, s, p)
}

/// Idle times per machine, as computed for the whole sequence.
pub open spec fn idle_matches(idle: Seq<i32>, m: Seq<Vec<i32>>, s: Seq<usize>) -> bool {
    &&& idle.len() == machines(m)
    &&& forall|k: int| 0 <= k < idle.len() ==> idle[k] as int == idle_of(m, s, k)
}

// ---------------------------------------------------------------------------
// Sums over jobs

/// Sum of `f` over the entries of `s`.
pub open spec fn sum_of(s: Seq<usize>, f: spec_fn(usize) -> int) -> int
    decreases s.len(),
{
    if s.len() == 0 {
        0
    } else {
        sum_of(s.drop_last(), f) + f(s.last())
    }
}

/// Sum of `f` over the jobs `j < n` with `keep(j)`.
pub open spec fn sum_where(n: int, f: spec_fn(usize) -> int, keep: spec_fn(usize) -> bool) -> int
    decreases n,
{
    if n <= 0 {
        0
    } else {
        sum_where(n - 1, f, keep) + if keep((n - 1) as usize) {
            f((n - 1) as usize)
        } else {
            0
        }
    }
}

pub proof fn lemma_sum_where_add(
    n: int,
    f: spec_fn(usize) -> int,
    k1: spec_fn(usize) -> bool,
    k2: spec_fn(usize) -> bool,
    x: usize,
)
    requires
        0 <= n <= usize::MAX + 1,
        forall|j: usize| (j as int) < n ==> #[trigger] k2(j) == (k1(j) || j == x),
        !k1(x),
    ensures
        sum_where(n, f, k2) == sum_where(n, f, k1) + if (x as int) < n { f(x) } else { 0 },
    decreases n,
{
    if n > 0 {
        lemma_sum_where_add(n - 1, f, k1, k2, x);
    }
}

pub proof fn lemma_sum_where_ext(
    n: int,
    f: spec_fn(usize) -> int,
    g: spec_fn(usize) -> int,
    k1: spec_fn(usize) -> bool,
    k2: spec_fn(usize) -> bool,
)
    requires
        0 <= n <= usize::MAX + 1,
        forall|j: usize| (j as int) < n ==> #[trigger] k1(j) == k2(j),
        forall|j: usize| (j as int) < n && k1(j) ==> #[trigger] f(j) <= g(j),
    ensures
        sum_where(n, f, k1) <= sum_where(n, g, k2),
    decreases n,
{
    if n > 0 {
        lemma_sum_where_ext(n - 1, f, g, k1, k2);
    }
}

pub proof fn lemma_sum_where_sub(n: int, f: spec_fn(usize) -> int, k1: spec_fn(usize) -> bool, k2: spec_fn(usize) -> bool)
    requires
        0 <= n <= usize::MAX + 1,
        forall|j: usize| (j as int) < n && #[trigger] k1(j) ==> k2(j),
        forall|j: usize| (j as int) < n ==> #[trigger] f(j) >= 0,
    ensures
        0 <= sum_where(n, f, k1) <= sum_where(n, f, k2),
    decreases n,
{
    if n > 0 {
        lemma_sum_where_sub(n - 1, f, k1, k2);
    }
}

pub proof fn lemma_sum_where_split(n: int, f: spec_fn(usize) -> int, k: spec_fn(usize) -> bool)
    requires
        0 <= n <= usize::MAX + 1,
    ensures
        sum_where(n, f, k) + sum_where(n, f, |j: usize| !k(j)) == sum_where(n, f, |j: usize| true),
    decreases n,
{
    if n > 0 {
        lemma_sum_where_split(n - 1, f, k);
    }
}

/// Summing over the entries of a sequence without repeats is summing over
/// the jobs it contains.
pub proof fn lemma_sum_of_distinct(s: Seq<usize>, n: int, f: spec_fn(usize) -> int)
    requires
        0 <= n <= usize::MAX + 1,
        no_dups(s),
        forall|i: int| 0 <= i < s.len() ==> (s[i] as int) < n,
    ensures
        sum_of(s, f) == sum_where(n, f, |j: usize| s.contains(j)),
    decreases s.len(),
{
    if s.len() > 0 {
        let t = s.drop_last();
        let x = s.last();
        assert(no_dups(t));
        lemma_sum_of_distinct(t, n, f);
        assert forall|j: usize| (j as int) < n implies s.contains(j) == (t.contains(j) || j == x) by {
            if s.contains(j) {
                let i = choose|i: int| 0 <= i < s.len() && s[i] == j;
                if i < s.len() - 1 {
                    assert(t[i] == j);
                }
            }
            if t.contains(j) {
                let i = choose|i: int| 0 <= i < t.len() && t[i] == j;
                assert(s[i] == j);
            }
            if j == x {
                assert(s[s.len() - 1] == j);
            }
        }
        assert(!t.contains(x)) by {
            if t.contains(x) {
                let i = choose|i: int| 0 <= i < t.len() && t[i] == x;
                assert(s[i] == s[s.len() - 1]);
            }
        }
        lemma_sum_where_add(n, f, |j: usize| t.contains(j), |j: usize| s.contains(j), x);
    } else {
        lemma_sum_where_none(n, f, |j: usize| s.contains(j));
    }
}

pub proof fn lemma_sum_where_none(n: int, f: spec_fn(usize) -> int, k: spec_fn(usize) -> bool)
    requires
        0 <= n <= usize::MAX + 1,
        forall|j: usize| (j as int) < n ==> !#[trigger] k(j),
    ensures
        sum_where(n, f, k) == 0,
    decreases n,
{
    if n > 0 {
        lemma_sum_where_none(n - 1, f, k);
    }
}

/// A sequence of `n` distinct jobs below `n` holds every job below `n`.
pub proof fn lemma_perm_contains_all(s: Seq<usize>, n: int)
    requires
        0 <= n <= usize::MAX + 1,
        is_perm(s, n),
    ensures
        forall|j: usize| (j as int) < n ==> s.contains(j),
{
    let one = |j: usize| 1int;
    lemma_sum_of_ones(s, one);
    lemma_sum_of_distinct(s, n, one);
    assert forall|j: usize| (j as int) < n implies s.contains(j) by {
        if !s.contains(j) {
            let k2 = |i: usize| s.contains(i) || i == j;
            lemma_sum_where_add(n, one, |i: usize| s.contains(i), k2, j);
            lemma_sum_where_sub(n, one, k2, |i: usize| true);
            lemma_sum_where_ones(n, one);
        }
    }
}

/// A sequence of distinct jobs below `n` holds at most `n` jobs.
pub proof fn lemma_distinct_len(s: Seq<usize>, n: int)
    requires
        0 <= n <= usize::MAX + 1,
        no_dups(s),
        forall|i: int| 0 <= i < s.len() ==> (s[i] as int) < n,
    ensures
        s.len() <= n,
{
    let one = |j: usize| 1int;
    lemma_sum_of_ones(s, one);
    lemma_sum_of_distinct(s, n, one);
    lemma_sum_where_sub(n, one, |j: usize| s.contains(j), |j: usize| true);
    lemma_sum_where_ones(n, one);
}

proof fn lemma_sum_of_ones(s: Seq<usize>, one: spec_fn(usize) -> int)
    requires
        forall|j: usize| #[trigger] one(j) == 1,
    ensures
        sum_of(s, one) == s.len(),
    decreases s.len(),
{
    if s.len() > 0 {
        lemma_sum_of_ones(s.drop_last(), one);
    }
}

proof fn lemma_sum_where_ones(n: int, one: spec_fn(usize) -> int)
    requires
        0 <= n,
        forall|j: usize| #[trigger] one(j) == 1,
    ensures
        sum_where(n, one, |j: usize| true) == n,
    decreases n,
{
    if n > 0 {
        lemma_sum_where_ones(n - 1, one);
    }
}

// ---------------------------------------------------------------------------
// Prefix sums along a sequence

/// Sum of `f` over the first `i` entries of `s`.
pub open spec fn prefix_sum(s: Seq<usize>, i: int, f: spec_fn(usize) -> int) -> int
    decreases i,
{
    if i <= 0 {
        0
    } else {
        prefix_sum(s, i - 1, f) + f(s[i - 1])
    }
}

/// Processing time of job `j` on machine `k`, as a function of the job.
pub open spec fn column(m: Seq<Vec<i32>>, k: int) -> spec_fn(usize) -> int {
    |j: usize| time(m, j as int, k)
}

/// Sum of the first `k` times of job `j`, as a function of the job.
pub open spec fn row_part(m: Seq<Vec<i32>>, k: int) -> spec_fn(usize) -> int {
    |j: usize| row_sum_to(m, j as int, k)
}

/// Sum of all times of job `j`, as a function of the job.
pub open spec fn row_total(m: Seq<Vec<i32>>) -> spec_fn(usize) -> int {
    |j: usize| row_sum(m, j as int)
}

/// Every entry of `s` names a row of `m`.
pub open spec fn jobs_in_range(m: Seq<Vec<i32>>, s: Seq<usize>) -> bool {
    forall|i: int| 0 <= i < s.len() ==> (s[i] as int) < m.len()
}

pub proof fn lemma_prefix_sum_take(s: Seq<usize>, i: int, f: spec_fn(usize) -> int)
    requires
        0 <= i <= s.len(),
    ensures
        prefix_sum(s, i, f) == sum_of(s.take(i), f),
    decreases i,
{
    if i > 0 {
        lemma_prefix_sum_take(s, i - 1, f);
        assert(s.take(i).drop_last() =~= s.take(i - 1));
    } else {
        assert(s.take(i).len() == 0);
    }
}

pub proof fn lemma_prefix_sum_same(s: Seq<usize>, t: Seq<usize>, i: int, f: spec_fn(usize) -> int)
    requires
        0 <= i <= s.len(),
        i <= t.len(),
        forall|c: int| 0 <= c < i ==> s[c] == t[c],
    ensures
        prefix_sum(s, i, f) == prefix_sum(t, i, f),
    decreases i,
{
    if i > 0 {
        lemma_prefix_sum_same(s, t, i - 1, f);
    }
}

pub proof fn lemma_prefix_sum_mono(s: Seq<usize>, a: int, b: int, f: spec_fn(usize) -> int, g: spec_fn(usize) -> int)
    requires
        0 <= a <= b <= s.len(),
        forall|c: int| 0 <= c < b ==> 0 <= #[trigger] f(s[c]) <= g(s[c]),
    ensures
        0 <= prefix_sum(s, a, f) <= prefix_sum(s, b, g),
    decreases b,
{
    if b > 0 {
        assert(0 <= f(s[b - 1]) <= g(s[b - 1]));
        if a == b {
            lemma_prefix_sum_mono(s, a - 1, b - 1, f, g);
        } else {
            lemma_prefix_sum_mono(s, a, b - 1, f, g);
        }
    }
}

/// The sum of all times equals the sum of the row sums over every job.
pub proof fn lemma_total_as_sum_where(m: Seq<Vec<i32>>, n: int)
    requires
        0 <= n <= m.len(),
        m.len() <= usize::MAX,
    ensures
        total_to(m, n) == sum_where(n, row_total(m), |j: usize| true),
    decreases n,
{
    if n > 0 {
        lemma_total_as_sum_where(m, n - 1);
    }
}

/// The times on machine `k` of the first `i` positions, plus the row sums up
/// to `k`, make the row sums up to `k + 1`.
pub proof fn lemma_row_part_step(m: Seq<Vec<i32>>, s: Seq<usize>, i: int, k: int)
    requires
        0 <= i <= s.len(),
        0 <= k,
    ensures
        prefix_sum(s, i, row_part(m, k + 1)) == prefix_sum(s, i, row_part(m, k)) + busy_to(m, s, i, k),
    decreases i,
{
    if i > 0 {
        lemma_row_part_step(m, s, i - 1, k);
    }
}

pub proof fn lemma_busy_nonneg(m: Seq<Vec<i32>>, s: Seq<usize>, i: int, k: int)
    requires
        valid_matrix(m, 1),
        jobs_in_range(m, s),
        0 <= i <= s.len(),
        0 <= k < machines(m),
    ensures
        busy_to(m, s, i, k) >= 0,
    decreases i,
{
    if i > 0 {
        lemma_busy_nonneg(m, s, i - 1, k);
        assert(row_ok(m, s[i - 1] as int));
    }
}

proof fn lemma_row_part_nonneg(m: Seq<Vec<i32>>, s: Seq<usize>, b: int, k: int)
    requires
        valid_matrix(m, 1),
        jobs_in_range(m, s),
        0 <= b <= s.len(),
        0 <= k <= machines(m),
    ensures
        forall|c: int| 0 <= c < b ==> 0 <= #[trigger] row_part(m, k)(s[c]) <= row_total(m)(s[c]),
{
    assert forall|c: int| 0 <= c < b implies 0 <= #[trigger] row_part(m, k)(s[c]) <= row_total(m)(s[c]) by {
        let j = s[c] as int;
        assert(row_ok(m, j));
        lemma_row_sum_nonneg(m, j, k);
        lemma_row_sum_mono(m, j, k, machines(m));
    }
}

proof fn lemma_row_sum_mono(m: Seq<Vec<i32>>, j: int, a: int, b: int)
    requires
        0 <= j < m.len(),
        0 <= a <= b <= m[j]@.len(),
        forall|c: int| 0 <= c < m[j]@.len() ==> m[j]@[c] >= 0,
    ensures
        row_sum_to(m, j, a) <= row_sum_to(m, j, b),
    decreases b,
{
    if b > a {
        lemma_row_sum_mono(m, j, a, b - 1);
    }
}

/// Every end time lies between zero and the load of the jobs placed so far.
pub proof fn lemma_end_le_load(m: Seq<Vec<i32>>, s: Seq<usize>, p: int, k: int)
    requires
        valid_matrix(m, 1),
        jobs_in_range(m, s),
        -1 <= p < s.len(),
        -1 <= k < machines(m),
    ensures
        0 <= end_time(m, s, p, k) <= prefix_sum(s, p + 1, row_part(m, k + 1)),
    decreases p + 1, k + 1,
{
    if p >= 0 && k >= 0 {
        lemma_end_le_load(m, s, p, k - 1);
        lemma_end_le_load(m, s, p - 1, k);
        let j = s[p] as int;
        assert(row_ok(m, j));
        lemma_row_sum_nonneg(m, j, k + 1);
        lemma_row_part_step(m, s, p, k);
        lemma_busy_nonneg(m, s, p, k);
        lemma_row_part_nonneg(m, s, p, k);
        lemma_prefix_sum_mono(s, p, p, row_part(m, k), row_total(m));
    } else if p >= 0 {
        lemma_row_part_nonneg(m, s, p + 1, 0);
        lemma_prefix_sum_mono(s, p + 1, p + 1, row_part(m, 0), row_total(m));
    }
}

/// No time of a schedule of distinct jobs exceeds the matrix total.
pub proof fn lemma_end_bounded(m: Seq<Vec<i32>>, s: Seq<usize>, p: int, k: int)
    requires
        valid_matrix(m, 1),
        jobs_in_range(m, s),
        no_dups(s),
        -1 <= p < s.len(),
        -1 <= k < machines(m),
    ensures
        0 <= end_time(m, s, p, k) <= total_time(m),
        0 <= start_time(m, s, p, k) <= total_time(m),
{
    lemma_end_le_load(m, s, p, k);
    lemma_load_le_total(m, s, p + 1, k + 1);
    if k >= 0 {
        lemma_end_le_load(m, s, p, k - 1);
        lemma_load_le_total(m, s, p + 1, k);
    }
    if p >= 0 {
        lemma_end_le_load(m, s, p - 1, k);
        lemma_load_le_total(m, s, p, k + 1);
    }
}

proof fn lemma_load_le_total(m: Seq<Vec<i32>>, s: Seq<usize>, i: int, k: int)
    requires
        valid_matrix(m, 1),
        jobs_in_range(m, s),
        no_dups(s),
        0 <= i <= s.len(),
        0 <= k <= machines(m),
    ensures
        prefix_sum(s, i, row_part(m, k)) <= total_time(m),
{
    let n = m.len() as int;
    lemma_row_part_nonneg(m, s, s.len() as int, k);
    lemma_prefix_sum_mono(s, i, s.len() as int, row_part(m, k), row_total(m));
    lemma_prefix_sum_take(s, s.len() as int, row_total(m));
    assert(s.take(s.len() as int) =~= s);
    lemma_sum_of_distinct(s, n, row_total(m));
    assert forall|j: usize| (j as int) < n implies #[trigger] row_total(m)(j) >= 0 by {
        assert(row_ok(m, j as int));
        lemma_row_sum_nonneg(m, j as int, machines(m));
    }
    lemma_sum_where_sub(n, row_total(m), |j: usize| s.contains(j), |j: usize| true);
    lemma_total_as_sum_where(m, n);
}

/// An end time is its start time plus the job's time on that machine.
pub proof fn lemma_end_is_start_plus_time(m: Seq<Vec<i32>>, s: Seq<usize>, p: int, k: int)
    requires
        0 <= p,
        0 <= k,
    ensures
        end_time(m, s, p, k) == start_time(m, s, p, k) + time(m, s[p] as int, k),
        start_time(m, s, p, k) >= end_time(m, s, p, k - 1),
        start_time(m, s, p, k) >= end_time(m, s, p - 1, k),
{
}

/// Idle time plus busy time of machine `k` over the first `i` positions is
/// the completion time of position `i - 1` on that machine.
pub proof fn lemma_flow(m: Seq<Vec<i32>>, s: Seq<usize>, i: int, k: int)
    requires
        valid_matrix(m, 1),
        jobs_in_range(m, s),
        1 <= i <= s.len(),
        0 <= k < machines(m),
    ensures
        idle_to(m, s, i, k) + busy_to(m, s, i, k) == end_time(m, s, i - 1, k),
        idle_to(m, s, i, k) >= 0,
    decreases i,
{
    lemma_end_is_start_plus_time(m, s, i - 1, k);
    if i == 1 {
        lemma_end_le_load(m, s, 0, k - 1);
        assert(busy_to(m, s, 0, k) == 0);
        assert(busy_to(m, s, 1, k) == time(m, s[0] as int, k));
    } else {
        lemma_flow(m, s, i - 1, k);
        assert(busy_to(m, s, i, k) == busy_to(m, s, i - 1, k) + time(m, s[i - 1] as int, k));
    }
}

/// Times up to position `p` depend only on the jobs up to position `p`.
pub proof fn lemma_end_same_prefix(m: Seq<Vec<i32>>, s: Seq<usize>, t: Seq<usize>, p: int, k: int)
    requires
        p < s.len(),
        p < t.len(),
        forall|c: int| 0 <= c <= p ==> s[c] == t[c],
    ensures
        end_time(m, s, p, k) == end_time(m, t, p, k),
    decreases p + 1, k + 1,
{
    if p >= 0 && k >= 0 {
        lemma_end_same_prefix(m, s, t, p, k - 1);
        lemma_end_same_prefix(m, s, t, p - 1, k);
    }
}

/// A row of times matches the same row for any sequence sharing the prefix.
pub proof fn lemma_row_same_prefix(m: Seq<Vec<i32>>, s: Seq<usize>, t: Seq<usize>, p: int)
    requires
        p < s.len(),
        p < t.len(),
        forall|c: int| 0 <= c <= p ==> s[c] == t[c],
    ensures
        forall|row: Seq<(i32, i32)>| row_matches(row, m, s, p) <==> #[trigger] row_matches(row, m, t, p),
        forall|k: int| end_time(m, s, p, k) == #[trigger] end_time(m, t, p, k),
        forall|k: int| start_time(m, s, p, k) == #[trigger] start_time(m, t, p, k),
{
    assert forall|k: int| end_time(m, s, p, k) == #[trigger] end_time(m, t, p, k) by {
        lemma_end_same_prefix(m, s, t, p, k);
    }
    assert forall|k: int| start_time(m, s, p, k) == #[trigger] start_time(m, t, p, k) by {
        lemma_end_same_prefix(m, s, t, p, k - 1);
        lemma_end_same_prefix(m, s, t, p - 1, k);
    }
    assert forall|row: Seq<(i32, i32)>| row_matches(row, m, s, p) <==> #[trigger] row_matches(row, m, t, p) by {
        if row_matches(row, m, s, p) {
            assert forall|k: int| 0 <= k < row.len() implies row[k].0 as int == start_time(m, t, p, k) && row[k].1 as int
                == end_time(m, t, p, k) by {
                assert(start_time(m, s, p, k) == start_time(m, t, p, k));
                assert(end_time(m, s, p, k) == end_time(m, t, p, k));
            }
        }
        if row_matches(row, m, t, p) {
            assert forall|k: int| 0 <= k < row.len() implies row[k].0 as int == start_time(m, s, p, k) && row[k].1 as int
                == end_time(m, s, p, k) by {
                assert(start_time(m, s, p, k) == start_time(m, t, p, k));
                assert(end_time(m, s, p, k) == end_time(m, t, p, k));
            }
        }
    }
}

} // verus!
