//! The shared schedule builder: from a job sequence to start and end times,
//! makespan and idle times.

use vstd::prelude::*;
use crate::matrix::{ScheduleError, machines, valid_matrix, validate_matrix, validation_error, time};
use crate::timing::{
    end_time, idle_matches, is_perm, jobs_in_range, lemma_end_bounded, lemma_flow, makespan_of,
    no_dups, row_matches, schedule_matches, start_time, idle_of,
};

verus! {

/// The outcome of one algorithm: a job sequence and its timing.
#[derive(Debug, Clone)]
pub struct AlgResult {
    pub sequence: Vec<usize>,
    pub schedule: Vec<Vec<(i32, i32)>>,
    pub makespan: i32,
    pub idle_times: Vec<i32>,
    pub method_name: String,
}

/// `r` holds the sequence `s` with the schedule, makespan and idle times
/// that the timing recurrence gives it on `m`.
pub open spec fn result_for(r: AlgResult, m: Seq<Vec<i32>>, s: Seq<usize>) -> bool {
    &&& r.sequence@ == s
    &&& schedule_matches(r.schedule@, m, s)
    &&& r.makespan as int == makespan_of(m, s)
    &&& idle_matches(r.idle_times@, m, s)
}

/// What `build_schedule` reports for a matrix and a sequence it refuses.
pub open spec fn build_error(m: Seq<Vec<i32>>, s: Seq<usize>, e: ScheduleError) -> bool {
    if !valid_matrix(m, 1) {
        validation_error(m, 1, e)
    } else if s.len() == 0 {
        e == ScheduleError::EmptySequence
    } else {
        e == ScheduleError::InvalidSequence
    }
}

/// Whether `sequence` is a permutation of `0..n`.
pub fn is_permutation(sequence: &Vec<usize>, n: usize) -> (r: bool)
    ensures
        r == is_perm(sequence@, n as int),
{
    if sequence.len() != n {
        return false;
    }
    let mut seen: Vec<bool> = vec![false; n];
    let mut i: usize = 0;
    while i < n
        invariant
            0 <= i <= n,
            sequence@.len() == n,
            seen@.len() == n,
            forall|c: int| 0 <= c < i ==> sequence@[c] < n,
            forall|j: int| 0 <= j < n ==> (#[trigger] seen@[j] <==> exists|c: int| 0 <= c < i && sequence@[c] == j),
            forall|a: int, b: int| 0 <= a < i && 0 <= b < i && a != b ==> sequence@[a] != sequence@[b],
        decreases n - i,
    {
        let job = sequence[i];
        if job >= n {
            return false;
        }
        if seen[job] {
            proof {
                let c = choose|c: int| 0 <= c < i && sequence@[c] == job;
                assert(sequence@[c] == sequence@[i as int]);
            }
            return false;
        }
        seen.set(job, true);
        i = i + 1;
    }
    true
}

/// The start and end times of the job at the last position of `s` on every
/// machine, given the times of the position before it (`has_prev` tells
/// whether there is one).
pub(crate) fn timing_row(matrix: &Vec<Vec<i32>>, prev: &Vec<(i32, i32)>, has_prev: bool, job: usize, Ghost(s): Ghost<Seq<usize>>) -> (row: Vec<(i32, i32)>)
    requires
        valid_matrix(matrix@, 1),
        jobs_in_range(matrix@, s),
        no_dups(s),
        s.len() >= 1,
        s.last() == job,
        has_prev == (s.len() >= 2),
        has_prev ==> row_matches(prev@, matrix@, s, s.len() - 2),
    ensures
        row_matches(row@, matrix@, s, s.len() - 1),
{
    let ghost m = matrix@;
    let ghost p = s.len() - 1;
    let num_machines = matrix[0].len();
    assert(crate::matrix::row_ok(m, job as int));
    let times = &matrix[job];
    let mut row: Vec<(i32, i32)> = Vec::new();
    let mut k: usize = 0;
    while k < num_machines
        invariant
            0 <= k <= num_machines,
            num_machines == machines(m),
            m == matrix@,
            valid_matrix(m, 1),
            jobs_in_range(m, s),
            no_dups(s),
            p == s.len() - 1,
            p >= 0,
            s.last() == job,
            times@ == m[job as int]@,
            times@.len() == num_machines,
            has_prev == (s.len() >= 2),
            has_prev ==> row_matches(prev@, m, s, s.len() - 2),
            row@.len() == k,
            forall|c: int|
                0 <= c < k ==> (#[trigger] row@[c]).0 as int == start_time(m, s, p, c) && row@[c].1 as int
                    == end_time(m, s, p, c),
        decreases num_machines - k,
    {
        let left: i32 = if k == 0 { 0 } else { row[k - 1].1 };
        let up: i32 = if has_prev { prev[k].1 } else { 0 };
        let start: i32 = if left >= up { left } else { up };
        proof {
            lemma_end_bounded(m, s, p, k as int);
            crate::timing::lemma_end_is_start_plus_time(m, s, p, k as int);
            if has_prev {
                assert(prev@[k as int].1 as int == end_time(m, s, p - 1, k as int));
            }
        }
        assert(left as int == end_time(m, s, p, k - 1));
        assert(up as int == end_time(m, s, p - 1, k as int));
        let end: i32 = start + times[k];
        row.push((start, end));
        k = k + 1;
    }
    row
}

/// Start and end times of every position of `sequence` on every machine,
/// the makespan, and the idle time of every machine.
pub fn build_schedule(matrix: &Vec<Vec<i32>>, sequence: &Vec<usize>) -> (r: Result<
    (Vec<Vec<(i32, i32)>>, i32, Vec<i32>),
    ScheduleError,
>)
    ensures
        r is Ok <==> valid_matrix(matrix@, 1) && is_perm(sequence@, matrix@.len() as int),
        r matches Err(e) ==> build_error(matrix@, sequence@, e),
        r matches Ok((sched, mk, idle)) ==> {
            &&& schedule_matches(sched@, matrix@, sequence@)
            &&& mk as int == makespan_of(matrix@, sequence@)
            &&& idle_matches(idle@, matrix@, sequence@)
        },
{
    match validate_matrix(matrix, 1) {
        Ok(()) => {},
        Err(e) => {
            return Err(e);
        },
    }
    if sequence.len() == 0 {
        return Err(ScheduleError::EmptySequence);
    }
    if !is_permutation(sequence, matrix.len()) {
        return Err(ScheduleError::InvalidSequence);
    }
    let (schedule, makespan, idle_times) = timing_of(matrix, sequence);
    Ok((schedule, makespan, idle_times))
}

pub(crate) fn timing_of(matrix: &Vec<Vec<i32>>, sequence: &Vec<usize>) -> (r: (Vec<Vec<(i32, i32)>>, i32, Vec<i32>))
    requires
        valid_matrix(matrix@, 1),
        is_perm(sequence@, matrix@.len() as int),
    ensures
        schedule_matches(r.0@, matrix@, sequence@),
        r.1 as int == makespan_of(matrix@, sequence@),
        idle_matches(r.2@, matrix@, sequence@),
{
    let ghost m = matrix@;
    let ghost s = sequence@;
    let num_jobs = sequence.len();
    let num_machines = matrix[0].len();
    let mut schedule: Vec<Vec<(i32, i32)>> = Vec::new();
    let mut p: usize = 0;
    while p < num_jobs
        invariant
            0 <= p <= num_jobs,
            num_jobs == s.len(),
            m == matrix@,
            s == sequence@,
            valid_matrix(m, 1),
            is_perm(s, m.len() as int),
            schedule@.len() == p,
            forall|q: int| 0 <= q < p ==> row_matches(#[trigger] schedule@[q]@, m, s, q),
        decreases num_jobs - p,
    {
        let ghost t = s.take(p + 1);
        assert(t.last() == s[p as int]);
        assert(no_dups(t)) by {
            assert forall|a: int, b: int| 0 <= a < t.len() && 0 <= b < t.len() && a != b implies t[a] != t[b] by {
                assert(t[a] == s[a] && t[b] == s[b]);
            }
        }
        proof {
            crate::timing::lemma_row_same_prefix(m, s, t, p as int - 1);
            crate::timing::lemma_row_same_prefix(m, s, t, p as int);
        }
        let row = if p == 0 {
            let empty: Vec<(i32, i32)> = Vec::new();
            timing_row(matrix, &empty, false, sequence[p], Ghost(t))
        } else {
            timing_row(matrix, &schedule[p - 1], true, sequence[p], Ghost(t))
        };
        schedule.push(row);
        p = p + 1;
    }
    assert(schedule_matches(schedule@, m, s));
    let makespan = schedule[num_jobs - 1][num_machines - 1].1;
    let idle_times = idle_times_of(matrix, &schedule, Ghost(s));
    assert(row_matches(schedule@[num_jobs - 1]@, m, s, num_jobs - 1));
    (schedule, makespan, idle_times)
}


/// Idle time of every machine, read off a schedule that matches `s`.
pub(crate) fn idle_times_of(matrix: &Vec<Vec<i32>>, schedule: &Vec<Vec<(i32, i32)>>, Ghost(s): Ghost<Seq<usize>>) -> (idle_times: Vec<i32>)
    requires
        valid_matrix(matrix@, 1),
        is_perm(s, matrix@.len() as int),
        schedule_matches(schedule@, matrix@, s),
    ensures
        idle_matches(idle_times@, matrix@, s),
{
    let ghost m = matrix@;
    let num_jobs = schedule.len();
    let num_machines = matrix[0].len();
    let mut idle_times: Vec<i32> = Vec::new();
    let mut k: usize = 0;
    while k < num_machines
        invariant
            0 <= k <= num_machines,
            num_machines == machines(m),
            num_jobs == s.len(),
            num_jobs >= 1,
            m == matrix@,
            valid_matrix(m, 1),
            is_perm(s, m.len() as int),
            schedule_matches(schedule@, m, s),
            idle_times@.len() == k,
            forall|c: int| 0 <= c < k ==> #[trigger] idle_times@[c] as int == idle_of(m, s, c),
        decreases num_machines - k,
    {
        assert(row_matches(schedule@[0]@, m, s, 0));
        let mut total_idle: i32 = schedule[0][k].0;
        let mut q: usize = 1;
        while q < num_jobs
            invariant
                1 <= q <= num_jobs,
                0 <= k < num_machines,
                num_machines == machines(m),
                num_jobs == s.len(),
                m == matrix@,
                    valid_matrix(m, 1),
                is_perm(s, m.len() as int),
                schedule_matches(schedule@, m, s),
                total_idle as int == crate::timing::idle_to(m, s, q as int, k as int),
            decreases num_jobs - q,
        {
            assert(row_matches(schedule@[q as int]@, m, s, q as int));
            assert(row_matches(schedule@[q - 1]@, m, s, q - 1));
            proof {
                lemma_flow(m, s, q as int + 1, k as int);
                lemma_end_bounded(m, s, q as int, k as int);
                lemma_end_bounded(m, s, q as int - 1, k as int);
                crate::timing::lemma_end_is_start_plus_time(m, s, q as int, k as int);
                crate::timing::lemma_busy_nonneg(m, s, q as int + 1, k as int);
            }
            let gap: i32 = schedule[q][k].0 - schedule[q - 1][k].1;
            if gap > 0 {
                total_idle = total_idle + gap;
            }
            q = q + 1;
        }
        idle_times.push(total_idle);
        k = k + 1;
    }
    idle_times
}

/// The result of running `sequence` on `matrix`, under the name `name`.
pub fn create_result(matrix: &Vec<Vec<i32>>, sequence: Vec<usize>, name: &str) -> (r: Result<AlgResult, ScheduleError>)
    ensures
        r is Ok <==> valid_matrix(matrix@, 1) && is_perm(sequence@, matrix@.len() as int),
        r matches Err(e) ==> build_error(matrix@, sequence@, e),
        r matches Ok(res) ==> result_for(res, matrix@, sequence@) && res.method_name@ == name@,
{
    match build_schedule(matrix, &sequence) {
        Ok((schedule, makespan, idle_times)) => Ok(
            AlgResult { sequence, schedule, makespan, idle_times, method_name: name.to_string() },
        ),
        Err(e) => Err(e),
    }
}

/// The jobs in index order.
pub open spec fn identity(n: int) -> Seq<usize> {
    Seq::new(n as nat, |i: int| i as usize)
}

/// The sequence `0, 1, ..., n - 1`.
pub fn identity_sequence(n: usize) -> (r: Vec<usize>)
    ensures
        r@ == identity(n as int),
        is_perm(r@, n as int),
{
    let mut r: Vec<usize> = Vec::new();
    let mut i: usize = 0;
    while i < n
        invariant
            0 <= i <= n,
            r@ == identity(i as int),
        decreases n - i,
    {
        r.push(i);
        i = i + 1;
        assert(r@ =~= identity(i as int));
    }
    r
}

/// The result of `sequence` under `name`, and the makespan of the jobs in
/// index order, for a matrix and sequence already checked.
pub fn result_and_baseline(matrix: &Vec<Vec<i32>>, sequence: Vec<usize>, name: &str) -> (r: (AlgResult, i32))
    requires
        valid_matrix(matrix@, 1),
        is_perm(sequence@, matrix@.len() as int),
    ensures
        result_for(r.0, matrix@, sequence@),
        r.0.method_name@ == name@,
        r.1 as int == makespan_of(matrix@, identity(matrix@.len() as int)),
{
    let baseline = identity_sequence(matrix.len());
    let (_, baseline_makespan, _) = timing_of(matrix, &baseline);
    let (schedule, makespan, idle_times) = timing_of(matrix, &sequence);
    (AlgResult { sequence, schedule, makespan, idle_times, method_name: name.to_string() }, baseline_makespan)
}

/// A copy of a job sequence.
pub fn copy_sequence(v: &Vec<usize>) -> (r: Vec<usize>)
    ensures
        r@ == v@,
{
    let mut r: Vec<usize> = Vec::new();
    let mut i: usize = 0;
    while i < v.len()
        invariant
            0 <= i <= v@.len(),
            r@ =~= v@.take(i as int),
        decreases v@.len() - i,
    {
        r.push(v[i]);
        i = i + 1;
    }
    assert(r@ =~= v@);
    r
}

/// The jobs in index order form a permutation.
pub proof fn lemma_identity_perm(n: int)
    requires
        0 <= n <= usize::MAX + 1,
    ensures
        is_perm(identity(n), n),
{
}

} // verus!
