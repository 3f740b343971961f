//! Facts that hold of every schedule the library computes.

use vstd::prelude::*;
use crate::matrix::{machines, row_ok, row_sum, row_sum_to, time, valid_matrix};
use crate::common::{AlgResult, result_for};
use crate::sorting::{lemma_order_unique, lemma_sorted_unique};
use crate::johnson_gen::ordered_outcome;
use crate::johnsons::{goes_front, johnson_order, johnson_outcome, johnson_pairs, picked_before, split_at};
use crate::petrov_sokolicyn::{candidates, petrov_outcome};
use crate::brute_force::{exhaustive_outcome, lex_less, lex_less_at};
use crate::branch_and_bound::{BranchAndBoundStats, optimal_result, search_result};
use crate::timing::{
    busy_to, column, end_time, is_perm, makespan_of, lemma_end_is_start_plus_time, lemma_flow,
    lemma_perm_contains_all, lemma_prefix_sum_take, lemma_sum_of_distinct, lemma_sum_where_ext, prefix_sum,
    row_matches, start_time, sum_where,
};

verus! {

/// The makespan of a result is the end time at its last position on its
/// last machine, and at every position the start and end times never
/// decrease from one machine to the next.
pub proof fn lemma_makespan_and_machine_order(m: Seq<Vec<i32>>, r: AlgResult)
    requires
        valid_matrix(m, 1),
        is_perm(r.sequence@, m.len() as int),
        result_for(r, m, r.sequence@),
    ensures
        r.makespan == r.schedule@[m.len() - 1]@[machines(m) - 1].1,
        forall|p: int, k: int|
            0 <= p < m.len() && 0 <= k < machines(m) - 1 ==> {
                &&& r.schedule@[p]@[k].0 <= #[trigger] r.schedule@[p]@[k + 1].0
                &&& r.schedule@[p]@[k].1 <= r.schedule@[p]@[k + 1].1
            },
{
    let s = r.sequence@;
    assert(row_matches(r.schedule@[m.len() - 1]@, m, s, m.len() - 1));
    assert forall|p: int, k: int|
        0 <= p < m.len() && 0 <= k < machines(m) - 1 implies {
            &&& r.schedule@[p]@[k].0 <= #[trigger] r.schedule@[p]@[k + 1].0
            &&& r.schedule@[p]@[k].1 <= r.schedule@[p]@[k + 1].1
        } by {
        let row = r.schedule@[p]@;
        assert(row_matches(row, m, s, p));
        assert(row_ok(m, s[p] as int));
        lemma_end_is_start_plus_time(m, s, p, k);
        lemma_end_is_start_plus_time(m, s, p, k + 1);
        assert(row[k].0 as int == start_time(m, s, p, k));
        assert(row[k + 1].0 as int == start_time(m, s, p, k + 1));
        assert(row[k].1 as int == end_time(m, s, p, k));
        assert(row[k + 1].1 as int == end_time(m, s, p, k + 1));
        assert(time(m, s[p] as int, k) >= 0);
        assert(time(m, s[p] as int, k + 1) >= 0);
    }
}

/// Every idle time is non-negative, and on each machine the processing
/// times of all jobs plus the idle time make that machine's completion
/// time; on the last machine, the makespan.
pub proof fn lemma_flow_conservation(m: Seq<Vec<i32>>, r: AlgResult)
    requires
        valid_matrix(m, 1),
        is_perm(r.sequence@, m.len() as int),
        result_for(r, m, r.sequence@),
    ensures
        forall|k: int| 0 <= k < machines(m) ==> #[trigger] r.idle_times@[k] >= 0,
        forall|k: int|
            0 <= k < machines(m) ==> sum_where(m.len() as int, column(m, k), |j: usize| true)
                + r.idle_times@[k] == #[trigger] r.schedule@[m.len() - 1]@[k].1,
        sum_where(m.len() as int, column(m, machines(m) - 1), |j: usize| true)
            + r.idle_times@[machines(m) - 1] == r.makespan,
{
    let s = r.sequence@;
    let n = m.len() as int;
    assert(row_matches(r.schedule@[n - 1]@, m, s, n - 1));
    assert forall|k: int| 0 <= k < machines(m) implies {
        &&& #[trigger] r.idle_times@[k] >= 0
        &&& sum_where(n, column(m, k), |j: usize| true) + r.idle_times@[k] == r.schedule@[n - 1]@[k].1
    } by {
        lemma_flow(m, s, n, k);
        lemma_column_total(m, s, k);
    }
}

/// On a permutation, the busy time of machine `k` is the sum of the whole
/// column `k`.
pub proof fn lemma_column_total(m: Seq<Vec<i32>>, s: Seq<usize>, k: int)
    requires
        valid_matrix(m, 1),
        is_perm(s, m.len() as int),
        0 <= k < machines(m),
    ensures
        busy_to(m, s, s.len() as int, k) == sum_where(m.len() as int, column(m, k), |j: usize| true),
{
    let n = m.len() as int;
    lemma_busy_is_prefix_sum(m, s, n, k);
    lemma_prefix_sum_take(s, n, column(m, k));
    assert(s.take(n) =~= s);
    lemma_sum_of_distinct(s, n, column(m, k));
    lemma_perm_contains_all(s, n);
    lemma_sum_where_ext(n, column(m, k), column(m, k), |j: usize| s.contains(j), |j: usize| true);
    lemma_sum_where_ext(n, column(m, k), column(m, k), |j: usize| true, |j: usize| s.contains(j));
}

pub proof fn lemma_busy_is_prefix_sum(m: Seq<Vec<i32>>, s: Seq<usize>, i: int, k: int)
    requires
        0 <= i <= s.len(),
    ensures
        busy_to(m, s, i, k) == prefix_sum(s, i, column(m, k)),
    decreases i,
{
    if i > 0 {
        lemma_busy_is_prefix_sum(m, s, i - 1, k);
    }
}

/// With a single job, the makespan is the sum of that job's times, and each
/// machine is idle only until the job reaches it.
pub proof fn lemma_single_job(m: Seq<Vec<i32>>, r: AlgResult)
    requires
        valid_matrix(m, 1),
        m.len() == 1,
        is_perm(r.sequence@, 1),
        result_for(r, m, r.sequence@),
    ensures
        r.makespan == row_sum(m, 0),
        forall|k: int|
            0 <= k < machines(m) ==> #[trigger] r.idle_times@[k] == r.schedule@[0]@[k].0 && r.idle_times@[k]
                == row_sum_to(m, 0, k),
{
    let s = r.sequence@;
    lemma_perm_contains_all(s, 1);
    assert(s.contains(0usize));
    assert(s[0] == 0);
    assert(row_matches(r.schedule@[0]@, m, s, 0));
    assert forall|k: int| 0 <= k < machines(m) implies #[trigger] r.idle_times@[k] == r.schedule@[0]@[k].0
        && r.idle_times@[k] == row_sum_to(m, 0, k) by {
        lemma_single_row(m, s, k - 1);
    }
    lemma_single_row(m, s, machines(m) - 1);
}

proof fn lemma_single_row(m: Seq<Vec<i32>>, s: Seq<usize>, k: int)
    requires
        valid_matrix(m, 1),
        s.len() == 1,
        s[0] == 0,
        -1 <= k < machines(m),
    ensures
        end_time(m, s, 0, k) == row_sum_to(m, 0, k + 1),
        start_time(m, s, 0, k + 1) == row_sum_to(m, 0, k + 1),
    decreases k + 1,
{
    if k >= 0 {
        lemma_single_row(m, s, k - 1);
        assert(row_ok(m, 0));
        crate::matrix::lemma_row_sum_nonneg(m, 0, k + 1);
    }
}

/// A job's total time is at most the matrix total.
pub proof fn lemma_row_sum_le_total(m: Seq<Vec<i32>>, j: int)
    requires
        valid_matrix(m, 1),
        0 <= j < m.len(),
    ensures
        0 <= row_sum(m, j) <= crate::matrix::total_time(m),
{
    crate::matrix::lemma_total_monotone(m, j + 1, m.len() as int);
    crate::matrix::lemma_total_monotone(m, j, j);
    assert(row_ok(m, j));
    crate::matrix::lemma_row_sum_nonneg(m, j, m[j]@.len() as int);
}

/// Partial sums of a row lie between zero and the row's total.
pub proof fn lemma_row_sum_prefix_le(m: Seq<Vec<i32>>, j: int, k: int)
    requires
        valid_matrix(m, 1),
        0 <= j < m.len(),
        0 <= k <= m[j]@.len(),
    ensures
        0 <= row_sum_to(m, j, k) <= row_sum(m, j),
    decreases m[j]@.len() - k,
{
    assert(row_ok(m, j));
    crate::matrix::lemma_row_sum_nonneg(m, j, k);
    if k < m[j]@.len() {
        lemma_row_sum_prefix_le(m, j, k + 1);
        crate::matrix::lemma_row_sum_nonneg(m, j, k + 1);
    }
}

/// Two results for the same sequence on the same matrix agree on every
/// timing field.
pub proof fn lemma_result_determined(m: Seq<Vec<i32>>, r1: AlgResult, r2: AlgResult)
    requires
        valid_matrix(m, 1),
        r1.sequence@ == r2.sequence@,
        result_for(r1, m, r1.sequence@),
        result_for(r2, m, r2.sequence@),
    ensures
        r1.makespan == r2.makespan,
        r1.idle_times@ == r2.idle_times@,
        r1.schedule@.len() == r2.schedule@.len(),
        forall|p: int| 0 <= p < r1.schedule@.len() ==> #[trigger] r1.schedule@[p]@ == r2.schedule@[p]@,
{
    let s = r1.sequence@;
    assert(r1.idle_times@ =~= r2.idle_times@);
    assert forall|p: int| 0 <= p < r1.schedule@.len() implies #[trigger] r1.schedule@[p]@ == r2.schedule@[p]@ by {
        let x = r1.schedule@[p]@;
        let y = r2.schedule@[p]@;
        assert(row_matches(x, m, s, p));
        assert(row_matches(y, m, s, p));
        assert forall|k: int| 0 <= k < x.len() implies x[k] == y[k] by {
            assert(x[k].0 as int == start_time(m, s, p, k) && x[k].1 as int == end_time(m, s, p, k));
            assert(y[k].0 as int == start_time(m, s, p, k) && y[k].1 as int == end_time(m, s, p, k));
        }
        assert(x =~= y);
    }
}

/// Running a sorting heuristic twice on the same matrix gives the same
/// sequence, the same timing and the same baseline.
pub proof fn lemma_ordered_deterministic(
    m: Seq<Vec<i32>>,
    keys: Seq<i128>,
    r1: AlgResult,
    b1: i32,
    r2: AlgResult,
    b2: i32,
)
    requires
        valid_matrix(m, 1),
        keys.len() == m.len(),
        ordered_outcome(m, keys, r1, b1),
        ordered_outcome(m, keys, r2, b2),
    ensures
        r1.sequence@ == r2.sequence@,
        r1.makespan == r2.makespan,
        r1.idle_times@ == r2.idle_times@,
        forall|p: int| 0 <= p < r1.schedule@.len() ==> #[trigger] r1.schedule@[p]@ == r2.schedule@[p]@,
        b1 == b2,
{
    lemma_sorted_unique(keys, r1.sequence@, r2.sequence@);
    lemma_result_determined(m, r1, r2);
}

/// Johnson's order is the order of an asymmetric relation: front jobs
/// first, by pick order, then back jobs by reverse pick order.
pub open spec fn johnson_before(ab: Seq<(i32, i32)>, x: usize, y: usize) -> bool {
    if goes_front(ab, x) {
        !goes_front(ab, y) || picked_before(ab, x, y)
    } else {
        !goes_front(ab, y) && picked_before(ab, y, x)
    }
}

/// Johnson's rule determines its order: two sequences that both follow it
/// on the same pairs are the same.
pub proof fn lemma_johnson_deterministic(ab: Seq<(i32, i32)>, s1: Seq<usize>, s2: Seq<usize>)
    requires
        ab.len() <= usize::MAX,
        johnson_order(ab, s1),
        johnson_order(ab, s2),
    ensures
        s1 == s2,
{
    let lt = |x: usize, y: usize| johnson_before(ab, x, y);
    lemma_johnson_sorted(ab, s1);
    lemma_johnson_sorted(ab, s2);
    lemma_order_unique(lt, s1, s2, ab.len() as int);
}

proof fn lemma_johnson_sorted(ab: Seq<(i32, i32)>, s: Seq<usize>)
    requires
        johnson_order(ab, s),
    ensures
        forall|a: int, b: int| 0 <= a < b < s.len() ==> johnson_before(ab, #[trigger] s[a], #[trigger] s[b]),
{
    let f = choose|f: int| #[trigger] split_at(ab, s, f);
    assert forall|a: int, b: int| 0 <= a < b < s.len() implies johnson_before(ab, #[trigger] s[a], #[trigger] s[b]) by {
        if b < f {
            assert(goes_front(ab, s[a]) && goes_front(ab, s[b]));
        } else if a >= f {
            assert(!goes_front(ab, s[a]) && !goes_front(ab, s[b]));
        } else {
            assert(goes_front(ab, s[a]) && !goes_front(ab, s[b]));
        }
    }
}

/// Running Johnson's rule twice on the same matrix gives the same result.
pub proof fn lemma_johnson_result_deterministic(m: Seq<Vec<i32>>, r1: AlgResult, r2: AlgResult)
    requires
        valid_matrix(m, 2),
        johnson_outcome(m, r1),
        johnson_outcome(m, r2),
    ensures
        r1.sequence@ == r2.sequence@,
        r1.makespan == r2.makespan,
        r1.idle_times@ == r2.idle_times@,
        forall|p: int| 0 <= p < r1.schedule@.len() ==> #[trigger] r1.schedule@[p]@ == r2.schedule@[p]@,
{
    lemma_johnson_deterministic(johnson_pairs(m), r1.sequence@, r2.sequence@);
    lemma_result_determined(m, r1, r2);
}

/// Running the three-candidate heuristic twice on the same matrix gives the
/// same result.
pub proof fn lemma_petrov_deterministic(m: Seq<Vec<i32>>, r1: AlgResult, r2: AlgResult)
    requires
        valid_matrix(m, 2),
        petrov_outcome(m, r1),
        petrov_outcome(m, r2),
    ensures
        r1.sequence@ == r2.sequence@,
        r1.makespan == r2.makespan,
        r1.idle_times@ == r2.idle_times@,
        forall|p: int| 0 <= p < r1.schedule@.len() ==> #[trigger] r1.schedule@[p]@ == r2.schedule@[p]@,
{
    let (c1, c2, c3) = choose|c1: Seq<usize>, c2: Seq<usize>, c3: Seq<usize>| #[trigger] candidates(m, c1, c2, c3);
    lemma_result_determined(m, r1, r2);
}

/// Running exhaustive search twice on the same matrix gives the same
/// result.
pub proof fn lemma_exhaustive_deterministic(m: Seq<Vec<i32>>, r1: AlgResult, b1: i32, r2: AlgResult, b2: i32)
    requires
        valid_matrix(m, 1),
        exhaustive_outcome(m, r1, b1),
        exhaustive_outcome(m, r2, b2),
    ensures
        r1.sequence@ == r2.sequence@,
        r1.makespan == r2.makespan,
        r1.idle_times@ == r2.idle_times@,
        forall|p: int| 0 <= p < r1.schedule@.len() ==> #[trigger] r1.schedule@[p]@ == r2.schedule@[p]@,
        b1 == b2,
{
    let s1 = r1.sequence@;
    let s2 = r2.sequence@;
    assert(r1.makespan <= makespan_of(m, s2));
    assert(r2.makespan <= makespan_of(m, s1));
    if s1 != s2 {
        assert(!(s1 =~= s2));
        let a = choose|a: int| 0 <= a < s1.len() && s1[a] != s2[a];
        crate::sorting::lemma_first_difference(s1, s2, a);
        let k = choose|k: int| 0 <= k <= a && s1[k] != s2[k] && forall|c: int| 0 <= c < k ==> s1[c] == s2[c];
        if s1[k] < s2[k] {
            assert(lex_less_at(s1, s2, k));
            assert(lex_less(s1, s2));
        } else {
            assert(lex_less_at(s2, s1, k));
            assert(lex_less(s2, s1));
        }
    }
    lemma_result_determined(m, r1, r2);
}

/// Two optimal results on the same matrix have the same makespan: in
/// particular branch and bound and exhaustive search agree.
pub proof fn lemma_optimal_makespans_agree(m: Seq<Vec<i32>>, r1: AlgResult, r2: AlgResult)
    requires
        is_perm(r1.sequence@, m.len() as int),
        is_perm(r2.sequence@, m.len() as int),
        result_for(r1, m, r1.sequence@),
        result_for(r2, m, r2.sequence@),
        forall|p: Seq<usize>| #[trigger] is_perm(p, m.len() as int) ==> r1.makespan <= makespan_of(m, p),
        forall|p: Seq<usize>| #[trigger] is_perm(p, m.len() as int) ==> r2.makespan <= makespan_of(m, p),
    ensures
        r1.makespan == r2.makespan,
{
    assert(r1.makespan <= makespan_of(m, r2.sequence@));
    assert(r2.makespan <= makespan_of(m, r1.sequence@));
}

/// Branch and bound and exhaustive search find the same makespan on every
/// matrix that both accept.
pub proof fn lemma_search_agrees_with_exhaustive(m: Seq<Vec<i32>>, r1: AlgResult, r2: AlgResult, b2: i32)
    requires
        optimal_result(m, r1),
        exhaustive_outcome(m, r2, b2),
    ensures
        r1.makespan == r2.makespan,
{
    lemma_optimal_makespans_agree(m, r1, r2);
}

/// Two successful searches on the same matrix return the same sequence,
/// timing and counters; only the measured time may differ.
pub proof fn lemma_search_deterministic(
    m: Seq<Vec<i32>>,
    r1: AlgResult,
    s1: BranchAndBoundStats,
    r2: AlgResult,
    s2: BranchAndBoundStats,
)
    requires
        search_result(m, r1, s1),
        search_result(m, r2, s2),
    ensures
        r1.sequence@ == r2.sequence@,
        r1.makespan == r2.makespan,
        r1.idle_times@ == r2.idle_times@,
        forall|p: int| 0 <= p < r1.schedule@.len() ==> #[trigger] r1.schedule@[p]@ == r2.schedule@[p]@,
        r1.method_name@ == r2.method_name@,
        s1.nodes_explored == s2.nodes_explored,
        s1.nodes_pruned == s2.nodes_pruned,
        s1.best_found_at_node == s2.best_found_at_node,
        s1.total_permutations == s2.total_permutations,
{
    lemma_result_determined(m, r1, r2);
}

/// A matrix with a row whose length differs from the first row's is never
/// valid, whatever machine count an algorithm asks for; every entry point
/// therefore refuses it.
pub proof fn lemma_ragged_is_invalid(m: Seq<Vec<i32>>, min_machines: int, i: int)
    requires
        0 <= i < m.len(),
        m[i]@.len() != m[0]@.len(),
    ensures
        !valid_matrix(m, min_machines),
{
    assert(!row_ok(m, i));
}

} // verus!
