//! The three-candidate heuristic: three orderings built from partial sums of
//! each job's times, of which the one with the smallest makespan is kept.

use vstd::prelude::*;
use crate::matrix::{
    ScheduleError, machines, row_ok, row_sum, time, valid_matrix, validate_matrix, validation_error,
};
use crate::common::{AlgResult, result_for, timing_of};
use crate::johnson_gen::job_total;
use crate::timing::{is_perm, makespan_of};
use crate::sorting::{lemma_sorted_unique, sort_indices_by_key, sorted_by_key};
use crate::report::{
    dec, job_label, job_list, ljust, push_decimal, push_job_label, push_job_list, push_ljust, push_repeat,
    push_schedule_section, repeat, schedule_section, decimal,
};

verus! {

/// Sum of job `j`'s times on every machine but the first.
pub open spec fn sum_without_first(m: Seq<Vec<i32>>, j: int) -> int {
    row_sum(m, j) - time(m, j, 0)
}

/// Sum of job `j`'s times on every machine but the last.
pub open spec fn sum_without_last(m: Seq<Vec<i32>>, j: int) -> int {
    row_sum(m, j) - time(m, j, machines(m) - 1)
}

/// First candidate: descending sum without the first machine.
pub open spec fn s1_keys(m: Seq<Vec<i32>>) -> Seq<i128> {
    Seq::new(m.len(), |j: int| (-sum_without_first(m, j)) as i128)
}

/// Second candidate: ascending sum without the last machine.
pub open spec fn s2_keys(m: Seq<Vec<i32>>) -> Seq<i128> {
    Seq::new(m.len(), |j: int| sum_without_last(m, j) as i128)
}

/// Third candidate: descending difference of the two sums.
pub open spec fn d_keys(m: Seq<Vec<i32>>) -> Seq<i128> {
    Seq::new(m.len(), |j: int| (-(sum_without_first(m, j) - sum_without_last(m, j))) as i128)
}

/// The three candidate orders, each a permutation sorted by its keys.
pub open spec fn candidates(m: Seq<Vec<i32>>, c1: Seq<usize>, c2: Seq<usize>, c3: Seq<usize>) -> bool {
    &&& is_perm(c1, m.len() as int) && sorted_by_key(s1_keys(m), c1)
    &&& is_perm(c2, m.len() as int) && sorted_by_key(s2_keys(m), c2)
    &&& is_perm(c3, m.len() as int) && sorted_by_key(d_keys(m), c3)
}

/// The candidate with the smallest makespan, the earlier one among equals.
pub open spec fn pick(m: Seq<Vec<i32>>, c1: Seq<usize>, c2: Seq<usize>, c3: Seq<usize>) -> Seq<usize> {
    let k1 = makespan_of(m, c1);
    let k2 = makespan_of(m, c2);
    let k3 = makespan_of(m, c3);
    if k1 <= k2 && k1 <= k3 {
        c1
    } else if k2 <= k3 {
        c2
    } else {
        c3
    }
}

/// The outcome of the heuristic: the picked candidate and its timing.
pub open spec fn petrov_outcome(m: Seq<Vec<i32>>, res: AlgResult) -> bool {
    &&& is_perm(res.sequence@, m.len() as int)
    &&& result_for(res, m, res.sequence@)
    &&& exists|c1: Seq<usize>, c2: Seq<usize>, c3: Seq<usize>| #[trigger] candidates(m, c1, c2, c3)
    &&& forall|c1: Seq<usize>, c2: Seq<usize>, c3: Seq<usize>|
        #[trigger] candidates(m, c1, c2, c3) ==> res.sequence@ == pick(m, c1, c2, c3)
}

/// Runs the three-candidate heuristic on a matrix with at least two
/// machines.
pub fn algorithm(matrix: &Vec<Vec<i32>>) -> (r: Result<AlgResult, ScheduleError>)
    ensures
        r is Ok <==> valid_matrix(matrix@, 2),
        r matches Err(e) ==> validation_error(matrix@, 2, e),
        r matches Ok(res) ==> petrov_outcome(matrix@, res),
        r matches Ok(res) ==> res.method_name@ == "Petrov_Sokolicyn"@,
{
    validate_matrix(matrix, 2)?;
    let ghost m = matrix@;
    let (k1, k2, kd) = candidate_keys(matrix);
    let seq_s1 = sort_indices_by_key(&k1);
    let seq_s2 = sort_indices_by_key(&k2);
    let seq_d = sort_indices_by_key(&kd);
    let (schedule_s1, makespan_s1, idle_s1) = timing_of(matrix, &seq_s1);
    let (schedule_s2, makespan_s2, idle_s2) = timing_of(matrix, &seq_s2);
    let (schedule_d, makespan_d, idle_d) = timing_of(matrix, &seq_d);
    proof {
        assert forall|c1: Seq<usize>, c2: Seq<usize>, c3: Seq<usize>| candidates(m, c1, c2, c3) implies c1 == seq_s1@
            && c2 == seq_s2@ && c3 == seq_d@ by {
            lemma_sorted_unique(s1_keys(m), c1, seq_s1@);
            lemma_sorted_unique(s2_keys(m), c2, seq_s2@);
            lemma_sorted_unique(d_keys(m), c3, seq_d@);
        }
        assert(candidates(m, seq_s1@, seq_s2@, seq_d@));
    }
    let (sequence, schedule, makespan, idle_times) = if makespan_s1 <= makespan_s2 && makespan_s1 <= makespan_d {
        (seq_s1, schedule_s1, makespan_s1, idle_s1)
    } else if makespan_s2 <= makespan_d {
        (seq_s2, schedule_s2, makespan_s2, idle_s2)
    } else {
        (seq_d, schedule_d, makespan_d, idle_d)
    };
    Ok(AlgResult { sequence, schedule, makespan, idle_times, method_name: "Petrov_Sokolicyn".to_string() })
}

/// The times of a job's row, separated by commas.
pub open spec fn joined_times(row: Seq<i32>, k: int) -> Seq<char>
    decreases k,
{
    if k <= 0 {
        Seq::empty()
    } else if k == 1 {
        dec(row[0] as int)
    } else {
        joined_times(row, k - 1) + ","@ + dec(row[k - 1] as int)
    }
}

/// The metric lines of the first `j` jobs: name, times, both partial sums
/// and their difference.
pub open spec fn metric_lines(m: Seq<Vec<i32>>, j: int) -> Seq<char>
    decreases j,
{
    if j <= 0 {
        Seq::empty()
    } else {
        metric_lines(m, j - 1) + metric_line(m, j - 1)
    }
}

/// The metric line of job `i`.
pub open spec fn metric_line(m: Seq<Vec<i32>>, i: int) -> Seq<char> {
    let s1 = sum_without_first(m, i);
    let s2 = sum_without_last(m, i);
    ljust(job_label(i), 10) + " | "@ + ljust(joined_times(m[i]@, machines(m)), 13) + " | "@ + ljust(dec(s1), 6) + " | "@
        + ljust(dec(s2), 8) + " | "@ + ljust(dec(s1 - s2), 8) + "\n"@
}

/// Appends the metric line of job `j`.
fn push_metric_line(out: &mut String, matrix: &Vec<Vec<i32>>, j: usize)
    requires
        valid_matrix(matrix@, 2),
        j < matrix@.len(),
    ensures
        final(out)@ == old(out)@ + metric_line(matrix@, j as int),
{
    let ghost m = matrix@;
    let num_machines = matrix[0].len();
    assert(row_ok(m, j as int));
    let row = &matrix[j];
    let total = job_total(matrix, j) as i128;
    let s1 = total - row[0] as i128;
    let s2 = total - row[num_machines - 1] as i128;
    let mut name = String::new();
    push_job_label(&mut name, j);
    push_ljust(out, name.as_str(), 10);
    out.append(" | ");
    let mut times = String::new();
    let mut c: usize = 0;
    while c < num_machines
        invariant
            0 <= c <= num_machines,
            row@.len() == num_machines,
            times@ == joined_times(row@, c as int),
        decreases num_machines - c,
    {
        if c > 0 {
            times.append(",");
        }
        push_decimal(&mut times, row[c] as i128);
        c = c + 1;
        assert(times@ =~= joined_times(row@, c as int));
    }
    push_ljust(out, times.as_str(), 13);
    out.append(" | ");
    push_ljust(out, decimal(s1).as_str(), 6);
    out.append(" | ");
    push_ljust(out, decimal(s2).as_str(), 8);
    out.append(" | ");
    push_ljust(out, decimal(s1 - s2).as_str(), 8);
    out.append("\n");
    assert(final(out)@ =~= old(out)@ + metric_line(m, j as int));
}

/// The sort keys of the three candidates.
fn candidate_keys(matrix: &Vec<Vec<i32>>) -> (r: (Vec<i128>, Vec<i128>, Vec<i128>))
    requires
        valid_matrix(matrix@, 2),
    ensures
        r.0@ == s1_keys(matrix@),
        r.1@ == s2_keys(matrix@),
        r.2@ == d_keys(matrix@),
{
    let ghost m = matrix@;
    let num_machines = matrix[0].len();
    let mut k1: Vec<i128> = Vec::new();
    let mut k2: Vec<i128> = Vec::new();
    let mut kd: Vec<i128> = Vec::new();
    let mut j: usize = 0;
    while j < matrix.len()
        invariant
            0 <= j <= matrix.len(),
            m == matrix@,
            valid_matrix(m, 2),
            num_machines == machines(m),
            k1@ =~= s1_keys(m).take(j as int),
            k2@ =~= s2_keys(m).take(j as int),
            kd@ =~= d_keys(m).take(j as int),
        decreases matrix.len() - j,
    {
        assert(row_ok(m, j as int));
        let total = job_total(matrix, j) as i128;
        let s1 = total - matrix[j][0] as i128;
        let s2 = total - matrix[j][num_machines - 1] as i128;
        k1.push(-s1);
        k2.push(s2);
        kd.push(-(s1 - s2));
        j = j + 1;
    }
    assert(k1@ =~= s1_keys(m));
    assert(k2@ =~= s2_keys(m));
    assert(kd@ =~= d_keys(m));
    (k1, k2, kd)
}

/// The text of a three-candidate report: the job metrics, the candidates
/// with their makespans, the chosen sequence and its schedule.
pub open spec fn petrov_report(m: Seq<Vec<i32>>, r: AlgResult, c1: Seq<usize>, c2: Seq<usize>, c3: Seq<usize>) -> Seq<char> {
    metrics_section(m) + candidates_section(m, c1, c2, c3) + chosen_section(m, r)
}

/// The table of job metrics.
pub open spec fn metrics_section(m: Seq<Vec<i32>>) -> Seq<char> {
    "Метрики для каждой работы:\n"@ + ljust("Работа"@, 6) + " | "@ + ljust("Времена"@, 7) + " | "@ + ljust("S1"@, 6)
        + " | "@ + ljust("S2"@, 6) + " | "@ + ljust("D=S1-S2"@, 8) + "\n"@ + repeat("-"@, 60) + "\n"@
        + metric_lines(m, m.len() as int) + "\n"@
}

/// One line per candidate, with its makespan.
pub open spec fn candidates_section(m: Seq<Vec<i32>>, c1: Seq<usize>, c2: Seq<usize>, c3: Seq<usize>) -> Seq<char> {
    "Кандидатные последовательности:\n"@ + "  1) По убыванию S1: "@ + job_list(c1, c1.len() as int) + " → makespan = "@
        + dec(makespan_of(m, c1)) + "\n"@ + "  2) По возрастанию S2: "@ + job_list(c2, c2.len() as int)
        + " → makespan = "@ + dec(makespan_of(m, c2)) + "\n"@ + "  3) По убыванию D: "@ + job_list(c3, c3.len() as int)
        + " → makespan = "@ + dec(makespan_of(m, c3)) + "\n"@ + "\n"@
}

/// The chosen sequence and its schedule.
pub open spec fn chosen_section(m: Seq<Vec<i32>>, r: AlgResult) -> Seq<char> {
    "Выбрана последовательность с минимальным makespan = "@ + dec(r.makespan as int) + "\n\n"@
        + "Последовательность:\n"@ + "  "@ + job_list(r.sequence@, r.sequence@.len() as int) + "\n"@ + "\n"@
        + schedule_section(machines(m), r)
}

/// Appends one candidate line: its title, its jobs and its makespan.
fn push_candidate(out: &mut String, title: &str, sequence: &Vec<usize>, makespan: i32)
    ensures
        final(out)@ == old(out)@ + title@ + job_list(sequence@, sequence@.len() as int) + " → makespan = "@ + dec(
            makespan as int,
        ) + "\n"@,
{
    out.append(title);
    push_job_list(out, sequence);
    out.append(" → makespan = ");
    push_decimal(out, makespan as i128);
    out.append("\n");
    assert(final(out)@ =~= old(out)@ + title@ + job_list(sequence@, sequence@.len() as int) + " → makespan = "@ + dec(
        makespan as int,
    ) + "\n"@);
}

#[verifier::rlimit(40)]
fn push_metrics_section(out: &mut String, matrix: &Vec<Vec<i32>>)
    requires
        valid_matrix(matrix@, 2),
    ensures
        final(out)@ == old(out)@ + metrics_section(matrix@),
{
    let ghost m = matrix@;
    out.append("Метрики для каждой работы:\n");
    push_ljust(out, "Работа", 6);
    out.append(" | ");
    push_ljust(out, "Времена", 7);
    out.append(" | ");
    push_ljust(out, "S1", 6);
    out.append(" | ");
    push_ljust(out, "S2", 6);
    out.append(" | ");
    push_ljust(out, "D=S1-S2", 8);
    out.append("\n");
    push_repeat(out, "-", 60);
    out.append("\n");
    let ghost head = out@;
    let mut j: usize = 0;
    while j < matrix.len()
        invariant
            0 <= j <= matrix.len(),
            m == matrix@,
            valid_matrix(m, 2),
            out@ == head + metric_lines(m, j as int),
        decreases matrix.len() - j,
    {
        push_metric_line(out, matrix, j);
        j = j + 1;
        assert(out@ =~= head + metric_lines(m, j as int));
    }
    out.append("\n");
    assert(final(out)@ =~= old(out)@ + metrics_section(m));
}

fn push_candidates_section(out: &mut String, matrix: &Vec<Vec<i32>>, c1: &Vec<usize>, c2: &Vec<usize>, c3: &Vec<usize>)
    requires
        valid_matrix(matrix@, 2),
        is_perm(c1@, matrix@.len() as int),
        is_perm(c2@, matrix@.len() as int),
        is_perm(c3@, matrix@.len() as int),
    ensures
        final(out)@ == old(out)@ + candidates_section(matrix@, c1@, c2@, c3@),
{
    let (_, makespan_1, _) = timing_of(matrix, c1);
    let (_, makespan_2, _) = timing_of(matrix, c2);
    let (_, makespan_3, _) = timing_of(matrix, c3);
    out.append("Кандидатные последовательности:\n");
    push_candidate(out, "  1) По убыванию S1: ", c1, makespan_1);
    push_candidate(out, "  2) По возрастанию S2: ", c2, makespan_2);
    push_candidate(out, "  3) По убыванию D: ", c3, makespan_3);
    out.append("\n");
    assert(final(out)@ =~= old(out)@ + candidates_section(matrix@, c1@, c2@, c3@));
}

fn push_chosen_section(out: &mut String, result: &AlgResult, matrix: &Vec<Vec<i32>>)
    requires
        valid_matrix(matrix@, 2),
        result_for(*result, matrix@, result.sequence@),
    ensures
        final(out)@ == old(out)@ + chosen_section(matrix@, *result),
{
    out.append("Выбрана последовательность с минимальным makespan = ");
    push_decimal(out, result.makespan as i128);
    out.append("\n\n");
    out.append("Последовательность:\n");
    out.append("  ");
    push_job_list(out, &result.sequence);
    out.append("\n");
    out.append("\n");
    push_schedule_section(out, result, matrix);
    assert(final(out)@ =~= old(out)@ + chosen_section(matrix@, *result));
}

/// Renders a result of the three-candidate heuristic as text.
pub fn format_result(result: &AlgResult, matrix: &Vec<Vec<i32>>) -> (r: String)
    requires
        valid_matrix(matrix@, 2),
        result_for(*result, matrix@, result.sequence@),
    ensures
        forall|c1: Seq<usize>, c2: Seq<usize>, c3: Seq<usize>|
            #[trigger] candidates(matrix@, c1, c2, c3) ==> r@ == petrov_report(matrix@, *result, c1, c2, c3),
{
    let ghost m = matrix@;
    let mut output = String::new();
    push_metrics_section(&mut output, matrix);
    let (k1, k2, kd) = candidate_keys(matrix);
    let seq_s1 = sort_indices_by_key(&k1);
    let seq_s2 = sort_indices_by_key(&k2);
    let seq_d = sort_indices_by_key(&kd);
    push_candidates_section(&mut output, matrix, &seq_s1, &seq_s2, &seq_d);
    push_chosen_section(&mut output, result, matrix);
    assert(output@ =~= petrov_report(m, *result, seq_s1@, seq_s2@, seq_d@));
    proof {
        assert forall|c1: Seq<usize>, c2: Seq<usize>, c3: Seq<usize>| #[trigger] candidates(m, c1, c2, c3) implies output@
            == petrov_report(m, *result, c1, c2, c3) by {
            lemma_sorted_unique(s1_keys(m), c1, seq_s1@);
            lemma_sorted_unique(s2_keys(m), c2, seq_s2@);
            lemma_sorted_unique(d_keys(m), c3, seq_d@);
        }
    }
    output
}

} // verus!
