//! Single-key sorting heuristics: each orders the jobs by one statistic of
//! their processing times and schedules them in that order.

use vstd::prelude::*;
use crate::matrix::{
    ScheduleError, machines, row_ok, row_sum, time, valid_matrix, validate_matrix, validation_error,
};
use crate::common::{AlgResult, identity, result_and_baseline, result_for};
use crate::timing::{is_perm, makespan_of};
use crate::sorting::{sort_indices_by_key, sorted_by_key};

verus! {

/// What a sorting heuristic returns for valid input: a permutation ordered
/// by `keys`, its timing, and the makespan of the jobs in index order.
pub open spec fn ordered_outcome(m: Seq<Vec<i32>>, keys: Seq<i128>, res: AlgResult, baseline: i32) -> bool {
    &&& is_perm(res.sequence@, m.len() as int)
    &&& sorted_by_key(keys, res.sequence@)
    &&& result_for(res, m, res.sequence@)
    &&& baseline as int == makespan_of(m, identity(m.len() as int))
}

/// Key of the first-machine rule: the time on the first machine.
pub open spec fn first_machine_keys(m: Seq<Vec<i32>>) -> Seq<i128> {
    Seq::new(m.len(), |j: int| time(m, j, 0) as i128)
}

/// Key of the last-machine rule: the time on the last machine, negated so
/// that longer times come first.
pub open spec fn last_machine_keys(m: Seq<Vec<i32>>) -> Seq<i128> {
    Seq::new(m.len(), |j: int| (-time(m, j, machines(m) - 1)) as i128)
}

/// Index of the last maximal entry among the first `len` entries of `row`.
pub open spec fn last_max_index(row: Seq<i32>, len: int) -> int
    decreases len,
{
    if len <= 1 {
        0
    } else {
        let b = last_max_index(row, len - 1);
        if row[len - 1] >= row[b] {
            len - 1
        } else {
            b
        }
    }
}

/// Key of the bottleneck rule: the machine where the job takes longest (the
/// last such machine), negated so that later machines come first.
pub open spec fn bottleneck_keys(m: Seq<Vec<i32>>) -> Seq<i128> {
    Seq::new(m.len(), |j: int| (-last_max_index(m[j]@, machines(m))) as i128)
}

/// Key of the total-time rule: the job's total time, negated so that longer
/// jobs come first.
pub open spec fn total_time_keys(m: Seq<Vec<i32>>) -> Seq<i128> {
    Seq::new(m.len(), |j: int| (-row_sum(m, j)) as i128)
}

/// Schedules `keys` order on a valid matrix.
fn ordered(matrix: &Vec<Vec<i32>>, keys: &Vec<i128>, name: &str) -> (r: (AlgResult, i32))
    requires
        valid_matrix(matrix@, 1),
        keys@.len() == matrix@.len(),
    ensures
        ordered_outcome(matrix@, keys@, r.0, r.1),
        r.0.method_name@ == name@,
{
    let sequence = sort_indices_by_key(keys);
    result_and_baseline(matrix, sequence, name)
}

/// Orders the jobs by ascending time on the first machine.
pub fn johnson_gen1(matrix: &Vec<Vec<i32>>) -> (r: Result<(AlgResult, i32), ScheduleError>)
    ensures
        r is Ok <==> valid_matrix(matrix@, 1),
        r matches Err(e) ==> validation_error(matrix@, 1, e),
        r matches Ok((res, baseline)) ==> ordered_outcome(matrix@, first_machine_keys(matrix@), res, baseline),
        r matches Ok((res, baseline)) ==> res.method_name@ == "Джонсон мин. время на 1-м станке (финальный)"@,
{
    validate_matrix(matrix, 1)?;
    let ghost m = matrix@;
    let mut keys: Vec<i128> = Vec::new();
    let mut j: usize = 0;
    while j < matrix.len()
        invariant
            0 <= j <= matrix.len(),
            m == matrix@,
            valid_matrix(m, 1),
            keys@ =~= first_machine_keys(m).take(j as int),
        decreases matrix.len() - j,
    {
        assert(row_ok(m, j as int));
        keys.push(matrix[j][0] as i128);
        j = j + 1;
    }
    assert(keys@ =~= first_machine_keys(m));
    Ok(ordered(matrix, &keys, "Джонсон мин. время на 1-м станке (финальный)"))
}

/// Orders the jobs by descending time on the last machine.
pub fn johnson_gen2(matrix: &Vec<Vec<i32>>) -> (r: Result<(AlgResult, i32), ScheduleError>)
    ensures
        r is Ok <==> valid_matrix(matrix@, 1),
        r matches Err(e) ==> validation_error(matrix@, 1, e),
        r matches Ok((res, baseline)) ==> ordered_outcome(matrix@, last_machine_keys(matrix@), res, baseline),
        r matches Ok((res, baseline)) ==> res.method_name@ == "Джонсон макс. время на последнем станке (финальный)"@,
{
    validate_matrix(matrix, 1)?;
    let ghost m = matrix@;
    let last = matrix[0].len() - 1;
    let mut keys: Vec<i128> = Vec::new();
    let mut j: usize = 0;
    while j < matrix.len()
        invariant
            0 <= j <= matrix.len(),
            m == matrix@,
            valid_matrix(m, 1),
            last == machines(m) - 1,
            keys@ =~= last_machine_keys(m).take(j as int),
        decreases matrix.len() - j,
    {
        assert(row_ok(m, j as int));
        keys.push(-(matrix[j][last] as i128));
        j = j + 1;
    }
    assert(keys@ =~= last_machine_keys(m));
    Ok(ordered(matrix, &keys, "Джонсон макс. время на последнем станке (финальный)"))
}

/// Index of the last maximal entry of a non-empty row.
fn bottleneck_machine(row: &Vec<i32>) -> (r: usize)
    requires
        row@.len() >= 1,
    ensures
        r as int == last_max_index(row@, row@.len() as int),
{
    let mut best: usize = 0;
    let mut k: usize = 1;
    while k < row.len()
        invariant
            1 <= k <= row@.len(),
            best as int == last_max_index(row@, k as int),
            best < k,
        decreases row@.len() - k,
    {
        if row[k] >= row[best] {
            best = k;
        }
        k = k + 1;
    }
    best
}

/// Orders the jobs by descending bottleneck machine: the machine on which
/// the job takes longest, the last one among equals.
pub fn johnson_gen3(matrix: &Vec<Vec<i32>>) -> (r: Result<(AlgResult, i32), ScheduleError>)
    ensures
        r is Ok <==> valid_matrix(matrix@, 1),
        r matches Err(e) ==> validation_error(matrix@, 1, e),
        r matches Ok((res, baseline)) ==> ordered_outcome(matrix@, bottleneck_keys(matrix@), res, baseline),
        r matches Ok((res, baseline)) ==> res.method_name@ == "Джонсон приоритет «узкого места» (финальный)"@,
{
    validate_matrix(matrix, 1)?;
    let ghost m = matrix@;
    let mut keys: Vec<i128> = Vec::new();
    let mut j: usize = 0;
    while j < matrix.len()
        invariant
            0 <= j <= matrix.len(),
            m == matrix@,
            valid_matrix(m, 1),
            keys@ =~= bottleneck_keys(m).take(j as int),
        decreases matrix.len() - j,
    {
        assert(row_ok(m, j as int));
        let b = bottleneck_machine(&matrix[j]);
        keys.push(-(b as i128));
        j = j + 1;
    }
    assert(keys@ =~= bottleneck_keys(m));
    Ok(ordered(matrix, &keys, "Джонсон приоритет «узкого места» (финальный)"))
}

/// Orders the jobs by descending total processing time.
pub fn johnson_gen4(matrix: &Vec<Vec<i32>>) -> (r: Result<(AlgResult, i32), ScheduleError>)
    ensures
        r is Ok <==> valid_matrix(matrix@, 1),
        r matches Err(e) ==> validation_error(matrix@, 1, e),
        r matches Ok((res, baseline)) ==> ordered_outcome(matrix@, total_time_keys(matrix@), res, baseline),
        r matches Ok((res, baseline)) ==> res.method_name@ == "Джонсон макс. суммарное время (финальный)"@,
{
    validate_matrix(matrix, 1)?;
    let ghost m = matrix@;
    let mut keys: Vec<i128> = Vec::new();
    let mut j: usize = 0;
    while j < matrix.len()
        invariant
            0 <= j <= matrix.len(),
            m == matrix@,
            valid_matrix(m, 1),
            keys@ =~= total_time_keys(m).take(j as int),
        decreases matrix.len() - j,
    {
        let total = job_total(matrix, j);
        keys.push(-(total as i128));
        j = j + 1;
    }
    assert(keys@ =~= total_time_keys(m));
    Ok(ordered(matrix, &keys, "Джонсон макс. суммарное время (финальный)"))
}

/// Sum of the times of job `j`.
pub fn job_total(matrix: &Vec<Vec<i32>>, j: usize) -> (r: i32)
    requires
        valid_matrix(matrix@, 1),
        j < matrix@.len(),
    ensures
        r as int == row_sum(matrix@, j as int),
{
    let ghost m = matrix@;
    proof {
        crate::properties::lemma_row_sum_le_total(m, j as int);
    }
    assert(row_ok(m, j as int));
    let row = &matrix[j];
    let mut acc: i32 = 0;
    let mut k: usize = 0;
    while k < row.len()
        invariant
            0 <= k <= row@.len(),
            row@ == m[j as int]@,
            j < m.len(),
            row_ok(m, j as int),
            acc as int == crate::matrix::row_sum_to(m, j as int, k as int),
            row_sum(m, j as int) <= i32::MAX,
            valid_matrix(m, 1),
        decreases row@.len() - k,
    {
        proof {
            crate::properties::lemma_row_sum_prefix_le(m, j as int, k as int + 1);
            crate::matrix::lemma_row_sum_nonneg(m, j as int, k as int);
        }
        acc = acc + row[k];
        k = k + 1;
    }
    acc
}

} // verus!
