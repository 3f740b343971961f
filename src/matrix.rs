//! The processing-time matrix: its well-formedness and its validation.

use vstd::prelude::*;

verus! {

/// Why a computation was refused or did not produce a result.
#[derive(Debug, Clone, PartialEq, Eq)]
pub enum ScheduleError {
    /// The matrix has no rows.
    EmptyMatrix,
    /// The first row has fewer machines than the algorithm needs.
    TooFewMachines { required: usize, found: usize },
    /// The algorithm needs exactly this many machines.
    WrongMachineCount { required: usize, found: usize },
    /// A row whose length differs from the first row's.
    RaggedRow { row: usize, len: usize, expected: usize },
    /// A negative processing time.
    NegativeTime { job: usize, machine: usize },
    /// The sum of all processing times does not fit in an `i32`.
    TimesTooLarge,
    /// More jobs than the algorithm accepts.
    TooManyJobs { limit: usize, found: usize },
    /// The job sequence is empty.
    EmptySequence,
    /// The job sequence is not a permutation of the jobs.
    InvalidSequence,
    /// The node budget was exhausted before the search ended.
    NodeLimitExceeded { explored: usize, limit: usize },
    /// The time budget was exhausted before the search ended.
    TimeLimitExceeded { limit_ms: u64, explored: usize },
    /// The search ended without evaluating a complete sequence.
    NoSolution,
}

/// Processing time of job `j` on machine `k`.
pub open spec fn time(m: Seq<Vec<i32>>, j: int, k: int) -> int {
    m[j]@[k] as int
}

/// Number of machines, read from the first row.
pub open spec fn machines(m: Seq<Vec<i32>>) -> int {
    m[0]@.len() as int
}

/// Row `i` has the first row's length and no negative entry.
pub open spec fn row_ok(m: Seq<Vec<i32>>, i: int) -> bool {
    &&& m[i]@.len() == m[0]@.len()
    &&& forall|k: int| 0 <= k < m[i]@.len() ==> m[i]@[k] >= 0
}

/// The rows before `n` are all well formed.
pub open spec fn rows_ok(m: Seq<Vec<i32>>, n: int) -> bool {
    forall|i: int| 0 <= i < n ==> row_ok(m, i)
}

/// Sum of the first `k` entries of row `j`.
pub open spec fn row_sum_to(m: Seq<Vec<i32>>, j: int, k: int) -> int
    decreases k,
{
    if k <= 0 {
        0
    } else {
        row_sum_to(m, j, k - 1) + time(m, j, k - 1)
    }
}

/// Sum of all entries of row `j`.
pub open spec fn row_sum(m: Seq<Vec<i32>>, j: int) -> int {
    row_sum_to(m, j, m[j]@.len() as int)
}

/// Sum of the row sums of the first `n` rows.
pub open spec fn total_to(m: Seq<Vec<i32>>, n: int) -> int
    decreases n,
{
    if n <= 0 {
        0
    } else {
        total_to(m, n - 1) + row_sum(m, n - 1)
    }
}

/// Sum of every processing time of the matrix.
pub open spec fn total_time(m: Seq<Vec<i32>>) -> int {
    total_to(m, m.len() as int)
}

/// A matrix on which every algorithm can run: at least one job, at least
/// `min_machines` machines, rectangular, no negative time, and a total
/// that fits in an `i32`.
pub open spec fn valid_matrix(m: Seq<Vec<i32>>, min_machines: int) -> bool {
    &&& 1 <= m.len() <= usize::MAX
    &&& machines(m) >= min_machines
    &&& machines(m) >= 1
    &&& rows_ok(m, m.len() as int)
    &&& total_time(m) <= i32::MAX
}

/// What validation reports of a matrix, checking in this order: no rows,
/// too few machines, then row by row a wrong length or a negative time,
/// then a total too large for an `i32`.
pub open spec fn validation_error(m: Seq<Vec<i32>>, min_machines: int, e: ScheduleError) -> bool {
    match e {
        ScheduleError::EmptyMatrix => m.len() == 0,
        ScheduleError::TooFewMachines { required, found } => {
            &&& m.len() >= 1
            &&& required == min_machines
            &&& found == machines(m)
            &&& found < required
        },
        ScheduleError::RaggedRow { row, len, expected } => {
            &&& m.len() >= 1
            &&& machines(m) >= min_machines
            &&& row < m.len()
            &&& rows_ok(m, row as int)
            &&& len == m[row as int]@.len()
            &&& expected == machines(m)
            &&& len != expected
        },
        ScheduleError::NegativeTime { job, machine } => {
            &&& m.len() >= 1
            &&& machines(m) >= min_machines
            &&& job < m.len()
            &&& rows_ok(m, job as int)
            &&& m[job as int]@.len() == machines(m)
            &&& machine < machines(m)
            &&& m[job as int]@[machine as int] < 0
            &&& forall|k: int| 0 <= k < machine ==> m[job as int]@[k] >= 0
        },
        ScheduleError::TimesTooLarge => {
            &&& m.len() >= 1
            &&& machines(m) >= min_machines
            &&& rows_ok(m, m.len() as int)
            &&& total_time(m) > i32::MAX
        },
        _ => false,
    }
}

pub proof fn lemma_row_sum_nonneg(m: Seq<Vec<i32>>, j: int, k: int)
    requires
        0 <= j < m.len(),
        0 <= k <= m[j]@.len(),
        forall|c: int| 0 <= c < m[j]@.len() ==> m[j]@[c] >= 0,
    ensures
        row_sum_to(m, j, k) >= 0,
        forall|c: int| 0 <= c < k ==> time(m, j, c) <= row_sum_to(m, j, k),
    decreases k,
{
    if k > 0 {
        lemma_row_sum_nonneg(m, j, k - 1);
    }
}

pub proof fn lemma_total_monotone(m: Seq<Vec<i32>>, a: int, b: int)
    requires
        0 <= a <= b <= m.len(),
        rows_ok(m, m.len() as int),
    ensures
        0 <= total_to(m, a) <= total_to(m, b),
    decreases b,
{
    if b > 0 {
        if a == b {
            lemma_total_monotone(m, a - 1, b - 1);
        } else {
            lemma_total_monotone(m, a, b - 1);
        }
        assert(row_ok(m, b - 1));
        lemma_row_sum_nonneg(m, b - 1, m[b - 1]@.len() as int);
    }
}

/// Checks that `matrix` is a valid input for an algorithm that needs at
/// least `min_machines` machines.
pub fn validate_matrix(matrix: &Vec<Vec<i32>>, min_machines: usize) -> (r: Result<(), ScheduleError>)
    requires
        min_machines >= 1,
    ensures
        r is Ok <==> valid_matrix(matrix@, min_machines as int),
        r matches Err(e) ==> validation_error(matrix@, min_machines as int, e),
{
    if matrix.len() == 0 {
        return Err(ScheduleError::EmptyMatrix);
    }
    let num_machines = matrix[0].len();
    if num_machines < min_machines {
        return Err(ScheduleError::TooFewMachines { required: min_machines, found: num_machines });
    }
    let mut i: usize = 0;
    while i < matrix.len()
        invariant
            0 <= i <= matrix.len(),
            num_machines == machines(matrix@),
            num_machines >= min_machines >= 1,
            rows_ok(matrix@, i as int),
        decreases matrix.len() - i,
    {
        let row = &matrix[i];
        if row.len() != num_machines {
            assert(!row_ok(matrix@, i as int));
            return Err(ScheduleError::RaggedRow { row: i, len: row.len(), expected: num_machines });
        }
        let mut k: usize = 0;
        while k < num_machines
            invariant
                0 <= k <= num_machines,
                i < matrix.len(),
                row@ == matrix@[i as int]@,
                row@.len() == num_machines,
                num_machines == machines(matrix@),
                num_machines >= min_machines,
                rows_ok(matrix@, i as int),
                forall|c: int| 0 <= c < k ==> row@[c] >= 0,
            decreases num_machines - k,
        {
            if row[k] < 0 {
                assert(!row_ok(matrix@, i as int));
                return Err(ScheduleError::NegativeTime { job: i, machine: k });
            }
            k = k + 1;
        }
        i = i + 1;
    }
    let mut total: i64 = 0;
    let mut j: usize = 0;
    while j < matrix.len()
        invariant
            0 <= j <= matrix.len(),
            rows_ok(matrix@, matrix.len() as int),
            num_machines == machines(matrix@),
            num_machines >= min_machines >= 1,
            total == total_to(matrix@, j as int),
            total <= i32::MAX,
        decreases matrix.len() - j,
    {
        let row = &matrix[j];
        assert(row_ok(matrix@, j as int));
        proof {
            lemma_total_monotone(matrix@, j as int, j as int);
        }
        let mut k: usize = 0;
        let mut acc: i64 = total;
        while k < num_machines
            invariant
                0 <= k <= num_machines,
                j < matrix.len(),
                row@ == matrix@[j as int]@,
                row@.len() == num_machines,
                num_machines == machines(matrix@),
                num_machines >= min_machines,
                rows_ok(matrix@, matrix.len() as int),
                row_ok(matrix@, j as int),
                total == total_to(matrix@, j as int),
                acc == total + row_sum_to(matrix@, j as int, k as int),
                acc <= i32::MAX,
                total >= 0,
            decreases num_machines - k,
        {
            proof {
                lemma_row_sum_nonneg(matrix@, j as int, k as int);
            }
            acc = acc + row[k] as i64;
            if acc > i32::MAX as i64 {
                proof {
                    lemma_row_sum_nonneg(matrix@, j as int, num_machines as int);
                    lemma_row_sum_above(matrix@, j as int, k as int + 1, num_machines as int);
                    lemma_total_monotone(matrix@, j as int + 1, matrix.len() as int);
                }
                return Err(ScheduleError::TimesTooLarge);
            }
            k = k + 1;
        }
        total = acc;
        j = j + 1;
    }
    Ok(())
}

proof fn lemma_row_sum_above(m: Seq<Vec<i32>>, j: int, a: int, b: int)
    requires
        0 <= j < m.len(),
        0 <= a <= b <= m[j]@.len(),
        forall|c: int| 0 <= c < m[j]@.len() ==> m[j]@[c] >= 0,
    ensures
        row_sum_to(m, j, a) <= row_sum_to(m, j, b),
    decreases b,
{
    if b > a {
        lemma_row_sum_above(m, j, a, b - 1);
    }
}

} // verus!
