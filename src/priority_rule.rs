//! The priority-index rule for two machines.

use vstd::prelude::*;
use crate::matrix::{ScheduleError, machines, row_ok, time, valid_matrix, validate_matrix, validation_error};
use crate::common::{AlgResult, result_and_baseline};
use crate::johnson_gen::ordered_outcome;
use crate::sorting::sort_indices_by_key;

verus! {

/// Largest time among the first `n` jobs on a two-machine matrix (zero for
/// no job).
pub open spec fn pair_max(m: Seq<Vec<i32>>, n: int) -> int
    decreases n,
{
    if n <= 0 {
        0
    } else {
        let rest = pair_max(m, n - 1);
        let a = time(m, n - 1, 0);
        let b = time(m, n - 1, 1);
        let here = if a >= b { a } else { b };
        if here >= rest {
            here
        } else {
            rest
        }
    }
}

/// Signed priority of job `j`: positive when the job is faster on the first
/// machine, negative otherwise, scaled by how far its shorter time lies below
/// the largest time of the matrix.
pub open spec fn priority_of(m: Seq<Vec<i32>>, j: int) -> int {
    let a = time(m, j, 0);
    let b = time(m, j, 1);
    let gap = pair_max(m, m.len() as int) - if a <= b { a } else { b };
    if a < b {
        gap
    } else {
        -gap
    }
}

/// Sort keys of the rule: descending priority.
pub open spec fn priority_keys(m: Seq<Vec<i32>>) -> Seq<i128> {
    Seq::new(m.len(), |j: int| (-priority_of(m, j)) as i128)
}

/// What the rule reports for a matrix it refuses.
pub open spec fn priority_error(m: Seq<Vec<i32>>, e: ScheduleError) -> bool {
    if m.len() == 0 {
        e == ScheduleError::EmptyMatrix
    } else if machines(m) != 2 {
        e == (ScheduleError::WrongMachineCount { required: 2, found: machines(m) as usize })
    } else {
        validation_error(m, 2, e)
    }
}

/// Orders the jobs of a two-machine matrix by descending signed priority.
pub fn priority_rule(matrix: &Vec<Vec<i32>>) -> (r: Result<(AlgResult, i32), ScheduleError>)
    ensures
        r is Ok <==> valid_matrix(matrix@, 2) && machines(matrix@) == 2,
        r matches Err(e) ==> priority_error(matrix@, e),
        r matches Ok((res, baseline)) ==> ordered_outcome(matrix@, priority_keys(matrix@), res, baseline),
        r matches Ok((res, baseline)) ==> res.method_name@ == "Метод приоритетов (финальный)"@,
{
    if matrix.len() == 0 {
        return Err(ScheduleError::EmptyMatrix);
    }
    if matrix[0].len() != 2 {
        return Err(ScheduleError::WrongMachineCount { required: 2, found: matrix[0].len() });
    }
    validate_matrix(matrix, 2)?;
    let ghost m = matrix@;
    let mut max_val: i32 = 0;
    let mut j: usize = 0;
    while j < matrix.len()
        invariant
            0 <= j <= matrix.len(),
            m == matrix@,
            valid_matrix(m, 2),
            machines(m) == 2,
            max_val as int == pair_max(m, j as int),
            0 <= max_val,
        decreases matrix.len() - j,
    {
        assert(row_ok(m, j as int));
        let a = matrix[j][0];
        let b = matrix[j][1];
        let here = if a >= b { a } else { b };
        if here >= max_val {
            max_val = here;
        }
        j = j + 1;
    }
    let mut keys: Vec<i128> = Vec::new();
    let mut j: usize = 0;
    while j < matrix.len()
        invariant
            0 <= j <= matrix.len(),
            m == matrix@,
            valid_matrix(m, 2),
            machines(m) == 2,
            max_val as int == pair_max(m, m.len() as int),
            keys@ =~= priority_keys(m).take(j as int),
        decreases matrix.len() - j,
    {
        assert(row_ok(m, j as int));
        proof {
            lemma_pair_max_bounds(m, m.len() as int, j as int);
        }
        let a = matrix[j][0] as i128;
        let b = matrix[j][1] as i128;
        let gap = max_val as i128 - if a <= b { a } else { b };
        let p = if a < b { gap } else { -gap };
        keys.push(-p);
        j = j + 1;
    }
    assert(keys@ =~= priority_keys(m));
    let sequence = sort_indices_by_key(&keys);
    Ok(result_and_baseline(matrix, sequence, "Метод приоритетов (финальный)"))
}

proof fn lemma_pair_max_bounds(m: Seq<Vec<i32>>, n: int, j: int)
    requires
        valid_matrix(m, 2),
        machines(m) == 2,
        0 <= j < n <= m.len(),
    ensures
        time(m, j, 0) <= pair_max(m, n),
        time(m, j, 1) <= pair_max(m, n),
        pair_max(m, n) <= i32::MAX,
    decreases n,
{
    if j < n - 1 {
        lemma_pair_max_bounds(m, n - 1, j);
    } else if n > 1 {
        lemma_pair_max_bounds(m, n - 1, 0);
    }
}

} // verus!
