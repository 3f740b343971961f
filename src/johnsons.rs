//! Johnson's rule: exact for two machines, and a heuristic for more through
//! two pseudo-machines.

use vstd::prelude::*;
pub use crate::common::build_schedule;
use crate::matrix::{
    ScheduleError, machines, row_ok, row_sum, row_sum_to, time, valid_matrix, validate_matrix,
    validation_error,
};
use crate::common::{AlgResult, result_for, timing_of};
use crate::timing::{is_perm, row_matches};
use crate::report::{
    dec, grid_rows, idle_lines, job_list, machine_heads, push_decimal, push_grid_rows, push_idle_lines,
    push_job_list, push_machine_heads, push_repeat, repeat,
};

verus! {

pub open spec fn min2(a: int, b: int) -> int {
    if a <= b { a } else { b }
}

/// The pair `(a, b)` of a job: its two (pseudo-)machine times.
pub open spec fn pair_min(p: (usize, i32, i32)) -> int {
    min2(p.1 as int, p.2 as int)
}

/// Index and machine of the smallest time in `jobs`: the first entry
/// holding it, and its first machine when both of the entry's times are
/// equal.
pub fn find_min_job(jobs: &Vec<(usize, i32, i32)>) -> (r: (usize, usize))
    requires
        jobs@.len() > 0,
    ensures
        r.0 < jobs@.len(),
        forall|t: int| 0 <= t < jobs@.len() ==> pair_min(jobs@[r.0 as int]) <= #[trigger] pair_min(jobs@[t]),
        forall|t: int| 0 <= t < r.0 ==> pair_min(jobs@[r.0 as int]) < #[trigger] pair_min(jobs@[t]),
        r.1 == if jobs@[r.0 as int].1 <= jobs@[r.0 as int].2 { 0usize } else { 1usize },
{
    let mut min_value: i32 = i32::MAX;
    let mut min_idx: usize = 0;
    let mut min_machine: usize = 0;
    let mut i: usize = 0;
    while i < jobs.len()
        invariant
            0 <= i <= jobs@.len(),
            min_idx < jobs@.len(),
            min_idx <= i,
            i > 0 ==> min_idx < i,
            forall|t: int| 0 <= t < i ==> min_value <= #[trigger] pair_min(jobs@[t]),
            min_value == i32::MAX ==> min_idx == 0 && min_machine == 0,
            min_value < i32::MAX ==> {
                &&& min_value == pair_min(jobs@[min_idx as int])
                &&& min_machine == if jobs@[min_idx as int].1 <= jobs@[min_idx as int].2 { 0usize } else { 1usize }
                &&& forall|t: int| 0 <= t < min_idx ==> min_value < #[trigger] pair_min(jobs@[t])
            },
        decreases jobs@.len() - i,
    {
        let (_, m1, m2) = jobs[i];
        if m1 < min_value {
            min_value = m1;
            min_idx = i;
            min_machine = 0;
        }
        if m2 < min_value {
            min_value = m2;
            min_idx = i;
            min_machine = 1;
        }
        i = i + 1;
    }
    (min_idx, min_machine)
}

/// Job `x` is picked before job `y`: a smaller shorter time, or an equal one
/// and a smaller index.
pub open spec fn picked_before(ab: Seq<(i32, i32)>, x: usize, y: usize) -> bool {
    let vx = min2(ab[x as int].0 as int, ab[x as int].1 as int);
    let vy = min2(ab[y as int].0 as int, ab[y as int].1 as int);
    vx < vy || (vx == vy && x < y)
}

/// Job `j` goes to the front: its first time is not longer than its second.
pub open spec fn goes_front(ab: Seq<(i32, i32)>, j: usize) -> bool {
    ab[j as int].0 <= ab[j as int].1
}

/// The order of Johnson's rule for the time pairs `ab`: the jobs faster on
/// the first machine, in pick order, then the others, in reverse pick
/// order.
pub open spec fn johnson_order(ab: Seq<(i32, i32)>, s: Seq<usize>) -> bool {
    &&& is_perm(s, ab.len() as int)
    &&& exists|f: int| #[trigger] split_at(ab, s, f)
}

/// The first `f` jobs of `s` go to the front in pick order; the rest go to
/// the back in reverse pick order.
pub open spec fn split_at(ab: Seq<(i32, i32)>, s: Seq<usize>, f: int) -> bool {
    &&& 0 <= f <= s.len()
    &&& forall|i: int| 0 <= i < f ==> goes_front(ab, #[trigger] s[i])
    &&& forall|i: int| f <= i < s.len() ==> !goes_front(ab, #[trigger] s[i])
    &&& forall|i: int, i2: int| 0 <= i < i2 < f ==> picked_before(ab, #[trigger] s[i], #[trigger] s[i2])
    &&& forall|i: int, i2: int| f <= i < i2 < s.len() ==> picked_before(ab, #[trigger] s[i2], #[trigger] s[i])
}

/// Job indices of the entries of `jobs`.
pub open spec fn indices(jobs: Seq<(usize, i32, i32)>) -> Seq<usize> {
    jobs.map_values(|p: (usize, i32, i32)| p.0)
}

/// Runs Johnson's rule on the time pairs `ab`: repeatedly takes the job
/// with the smallest remaining time, placing it at the front if that time
/// is on the first machine and at the back otherwise.
fn johnson_rule(ab: &Vec<(i32, i32)>) -> (sequence: Vec<usize>)
    ensures
        johnson_order(ab@, sequence@),
{
    let n = ab.len();
    let ghost pairs = ab@;
    let mut jobs: Vec<(usize, i32, i32)> = Vec::new();
    let mut j: usize = 0;
    while j < n
        invariant
            0 <= j <= n,
            n == pairs.len(),
            pairs == ab@,
            jobs@.len() == j,
            forall|t: int| 0 <= t < j ==> #[trigger] jobs@[t] == (t as usize, pairs[t].0, pairs[t].1),
        decreases n - j,
    {
        jobs.push((j, ab[j].0, ab[j].1));
        j = j + 1;
    }
    let mut front: Vec<usize> = Vec::new();
    let mut back: Vec<usize> = Vec::new();
    proof {
        assert(indices(jobs@) + front@ + back@ =~= indices(jobs@));
        assert(is_perm(indices(jobs@), n as int));
    }
    while jobs.len() > 0
        invariant
            n == pairs.len(),
            forall|t: int| 0 <= t < jobs@.len() ==> (#[trigger] jobs@[t]).0 < n && jobs@[t].1 == pairs[jobs@[t].0 as int].0
                && jobs@[t].2 == pairs[jobs@[t].0 as int].1,
            forall|a: int, b: int| 0 <= a < b < jobs@.len() ==> (#[trigger] jobs@[a]).0 < (#[trigger] jobs@[b]).0,
            is_perm(indices(jobs@) + front@ + back@, n as int),
            forall|i: int| 0 <= i < front@.len() ==> goes_front(pairs, #[trigger] front@[i]),
            forall|i: int| 0 <= i < back@.len() ==> !goes_front(pairs, #[trigger] back@[i]),
            forall|i: int, i2: int| 0 <= i < i2 < front@.len() ==> picked_before(pairs, #[trigger] front@[i], #[trigger] front@[i2]),
            forall|i: int, i2: int| 0 <= i < i2 < back@.len() ==> picked_before(pairs, #[trigger] back@[i], #[trigger] back@[i2]),
            forall|i: int, t: int| 0 <= i < front@.len() && 0 <= t < jobs@.len() ==> picked_before(pairs, #[trigger] front@[i], (#[trigger] jobs@[t]).0),
            forall|i: int, t: int| 0 <= i < back@.len() && 0 <= t < jobs@.len() ==> picked_before(pairs, #[trigger] back@[i], (#[trigger] jobs@[t]).0),
        decreases jobs@.len(),
    {
        let ghost j0 = jobs@;
        let ghost f0 = front@;
        let ghost b0 = back@;
        let (min_idx, min_machine) = find_min_job(&jobs);
        let (job_idx, _, _) = jobs.remove(min_idx);
        assert(jobs@ == j0.remove(min_idx as int));
        proof {
            assert forall|t: int| 0 <= t < j0.len() && t != min_idx implies picked_before(pairs, job_idx, (#[trigger] j0[t]).0) by {
                if t < min_idx {
                    assert(pair_min(j0[min_idx as int]) < pair_min(j0[t]));
                } else {
                    assert(pair_min(j0[min_idx as int]) <= pair_min(j0[t]));
                }
            }
            assert forall|t: int| 0 <= t < jobs@.len() implies #[trigger] jobs@[t] == if t < min_idx { j0[t] } else { j0[t + 1] } by {
            }
        }
        if min_machine == 0 {
            front.push(job_idx);
        } else {
            back.push(job_idx);
        }
        proof {
            let before = indices(j0) + f0 + b0;
            let after = indices(jobs@) + front@ + back@;
            lemma_move_keeps_perm(before, after, n as int, min_idx as int, j0.len() as int, f0.len() as int, min_machine == 0);
        }
    }
    let mut sequence: Vec<usize> = Vec::new();
    let mut i: usize = 0;
    while i < front.len()
        invariant
            0 <= i <= front@.len(),
            sequence@ =~= front@.take(i as int),
        decreases front@.len() - i,
    {
        sequence.push(front[i]);
        i = i + 1;
    }
    let mut t: usize = back.len();
    while t > 0
        invariant
            0 <= t <= back@.len(),
            sequence@.len() == front@.len() + back@.len() - t,
            forall|c: int| 0 <= c < front@.len() ==> sequence@[c] == front@[c],
            forall|c: int| front@.len() <= c < sequence@.len() ==> sequence@[c] == back@[back@.len() - 1 - (c - front@.len())],
        decreases t,
    {
        t = t - 1;
        sequence.push(back[t]);
    }
    proof {
        let s = sequence@;
        let fl = front@.len() as int;
        let bl = back@.len() as int;
        let all = indices(jobs@) + front@ + back@;
        assert(indices(jobs@) =~= Seq::<usize>::empty());
        assert(all =~= front@ + back@);
        assert forall|i: int| 0 <= i < s.len() implies s[i] == if i < fl { all[i] } else { all[fl + bl - 1 - (i - fl)] } by {
        }
        assert forall|a: int, b: int| 0 <= a < s.len() && 0 <= b < s.len() && a != b implies s[a] != s[b] by {
            let a2 = if a < fl { a } else { fl + bl - 1 - (a - fl) };
            let b2 = if b < fl { b } else { fl + bl - 1 - (b - fl) };
            assert(all[a2] != all[b2]);
        }
        assert(forall|i: int| 0 <= i < s.len() ==> s[i] < n);
        assert forall|i: int, i2: int| fl <= i < i2 < s.len() implies picked_before(pairs, #[trigger] s[i2], #[trigger] s[i]) by {
            assert(picked_before(pairs, back@[bl - 1 - (i2 - fl)], back@[bl - 1 - (i - fl)]));
        }
        assert forall|i: int| fl <= i < s.len() implies !goes_front(pairs, #[trigger] s[i]) by {
            assert(!goes_front(pairs, back@[bl - 1 - (i - fl)]));
        }
        assert(split_at(pairs, s, fl));
    }
    sequence
}

/// Moving the chosen entry out of the remaining jobs to the end of the front
/// or the back keeps the three lists a permutation.
proof fn lemma_move_keeps_perm(before: Seq<usize>, after: Seq<usize>, n: int, i: int, jl: int, fl: int, to_front: bool)
    requires
        is_perm(before, n),
        0 <= i < jl,
        0 <= fl,
        jl + fl <= before.len(),
        after.len() == before.len(),
        forall|c: int| 0 <= c < i ==> after[c] == before[c],
        forall|c: int| i <= c < jl - 1 ==> after[c] == before[c + 1],
        to_front ==> after[jl - 1 + fl] == before[i],
        to_front ==> forall|c: int| jl - 1 <= c < jl - 1 + fl ==> after[c] == before[c + 1],
        to_front ==> forall|c: int| jl + fl <= c < before.len() ==> after[c] == before[c],
        !to_front ==> after[before.len() - 1] == before[i],
        !to_front ==> forall|c: int| jl - 1 <= c < before.len() - 1 ==> after[c] == before[c + 1],
    ensures
        is_perm(after, n),
{
    let src = |c: int| if to_front {
        if c < i { c } else if c < jl - 1 + fl { c + 1 } else if c == jl - 1 + fl { i } else { c }
    } else {
        if c < i { c } else if c < before.len() - 1 { c + 1 } else { i }
    };
    assert forall|c: int| 0 <= c < after.len() implies after[c] == before[src(c)] && 0 <= src(c) < before.len() by {
    }
    assert forall|a: int, b: int| 0 <= a < after.len() && 0 <= b < after.len() && a != b implies after[a] != after[b] by {
        assert(src(a) != src(b));
        assert(before[src(a)] != before[src(b)]);
    }
}

/// Johnson's order for a two-machine matrix.
pub fn johnson_two_machines(matrix: &Vec<Vec<i32>>) -> (sequence: Vec<usize>)
    requires
        valid_matrix(matrix@, 2),
        machines(matrix@) == 2,
    ensures
        johnson_order(two_machine_pairs(matrix@), sequence@),
{
    let ghost m = matrix@;
    let mut ab: Vec<(i32, i32)> = Vec::new();
    let mut j: usize = 0;
    while j < matrix.len()
        invariant
            0 <= j <= matrix.len(),
            m == matrix@,
            valid_matrix(m, 2),
            ab@ =~= two_machine_pairs(m).take(j as int),
        decreases matrix.len() - j,
    {
        assert(row_ok(m, j as int));
        ab.push((matrix[j][0], matrix[j][1]));
        j = j + 1;
    }
    assert(ab@ =~= two_machine_pairs(m));
    johnson_rule(&ab)
}

/// The times of each job on the two machines.
pub open spec fn two_machine_pairs(m: Seq<Vec<i32>>) -> Seq<(i32, i32)> {
    Seq::new(m.len(), |j: int| (m[j]@[0], m[j]@[1]))
}

/// Size of each pseudo-machine group: half the machines, rounded up.
pub open spec fn group_size(m: Seq<Vec<i32>>) -> int {
    (machines(m) + 1) / 2
}

/// For each job, its total time on the first group of machines and on the
/// last group.
pub open spec fn pseudo_pairs(m: Seq<Vec<i32>>) -> Seq<(i32, i32)> {
    Seq::new(
        m.len(),
        |j: int|
            (
                row_sum_to(m, j, group_size(m)) as i32,
                (row_sum(m, j) - row_sum_to(m, j, machines(m) - group_size(m))) as i32,
            ),
    )
}

/// Johnson's order over two pseudo-machines: the first half of the machines
/// (rounded up) and the last half.
pub fn johnson_heuristic_multi_machine(matrix: &Vec<Vec<i32>>) -> (sequence: Vec<usize>)
    requires
        valid_matrix(matrix@, 2),
    ensures
        johnson_order(pseudo_pairs(matrix@), sequence@),
{
    let ghost m = matrix@;
    let num_machines = matrix[0].len();
    let k = num_machines / 2 + num_machines % 2;
    let mut ab: Vec<(i32, i32)> = Vec::new();
    let mut j: usize = 0;
    while j < matrix.len()
        invariant
            0 <= j <= matrix.len(),
            m == matrix@,
            valid_matrix(m, 2),
            num_machines == machines(m),
            k == group_size(m),
            ab@ =~= pseudo_pairs(m).take(j as int),
        decreases matrix.len() - j,
    {
        assert(row_ok(m, j as int));
        let row = &matrix[j];
        let mut a: i32 = 0;
        let mut b: i32 = 0;
        let mut c: usize = 0;
        while c < num_machines
            invariant
                0 <= c <= num_machines,
                m == matrix@,
                valid_matrix(m, 2),
                j < m.len(),
                num_machines == machines(m),
                k == group_size(m),
                row@ == m[j as int]@,
                row@.len() == num_machines,
                a as int == row_sum_to(m, j as int, if c < k { c as int } else { k as int }),
                b as int == row_sum_to(m, j as int, c as int) - row_sum_to(m, j as int, if c < num_machines - k { c as int } else { num_machines - k }),
            decreases num_machines - c,
        {
            proof {
                crate::properties::lemma_row_sum_prefix_le(m, j as int, c as int + 1);
                crate::properties::lemma_row_sum_prefix_le(m, j as int, c as int);
                crate::properties::lemma_row_sum_prefix_le(m, j as int, (num_machines - k) as int);
                crate::properties::lemma_row_sum_le_total(m, j as int);
                if c >= num_machines - k {
                    lemma_row_sum_split(m, j as int, (num_machines - k) as int, c as int + 1);
                }
            }
            if c < k {
                a = a + row[c];
            }
            if c >= num_machines - k {
                b = b + row[c];
            }
            c = c + 1;
        }
        ab.push((a, b));
        j = j + 1;
    }
    assert(ab@ =~= pseudo_pairs(m));
    johnson_rule(&ab)
}

proof fn lemma_row_sum_split(m: Seq<Vec<i32>>, j: int, a: int, b: int)
    requires
        valid_matrix(m, 1),
        0 <= j < m.len(),
        0 <= a <= b <= machines(m),
    ensures
        0 <= row_sum_to(m, j, b) - row_sum_to(m, j, a) <= row_sum(m, j),
{
    assert(row_ok(m, j));
    crate::properties::lemma_row_sum_prefix_le(m, j, a);
    crate::properties::lemma_row_sum_prefix_le(m, j, b);
    assert(row_ok(m, j));
    lemma_row_sum_mono2(m, j, a, b);
}

proof fn lemma_row_sum_mono2(m: Seq<Vec<i32>>, j: int, a: int, b: int)
    requires
        0 <= j < m.len(),
        0 <= a <= b <= m[j]@.len(),
        forall|c: int| 0 <= c < m[j]@.len() ==> m[j]@[c] >= 0,
    ensures
        row_sum_to(m, j, a) <= row_sum_to(m, j, b),
    decreases b,
{
    if b > a {
        lemma_row_sum_mono2(m, j, a, b - 1);
    }
}

/// The pairs Johnson's rule works on: the two machines' times, or the two
/// pseudo-machines' times when there are more machines.
pub open spec fn johnson_pairs(m: Seq<Vec<i32>>) -> Seq<(i32, i32)> {
    if machines(m) == 2 {
        two_machine_pairs(m)
    } else {
        pseudo_pairs(m)
    }
}

/// The outcome of Johnson's rule: its order and the order's timing.
pub open spec fn johnson_outcome(m: Seq<Vec<i32>>, res: AlgResult) -> bool {
    &&& johnson_order(johnson_pairs(m), res.sequence@)
    &&& result_for(res, m, res.sequence@)
}

/// Johnson's rule on a matrix with at least two machines.
pub fn algorithm(matrix: &Vec<Vec<i32>>) -> (r: Result<AlgResult, ScheduleError>)
    ensures
        r is Ok <==> valid_matrix(matrix@, 2),
        r matches Err(e) ==> validation_error(matrix@, 2, e),
        r matches Ok(res) ==> johnson_outcome(matrix@, res),
        r matches Ok(res) ==> res.method_name@ == "Алгоритм Джонсона"@,
{
    validate_matrix(matrix, 2)?;
    let sequence = if matrix[0].len() == 2 {
        johnson_two_machines(matrix)
    } else {
        johnson_heuristic_multi_machine(matrix)
    };
    let (schedule, makespan, idle_times) = timing_of(matrix, &sequence);
    Ok(AlgResult { sequence, schedule, makespan, idle_times, method_name: "Алгоритм Джонсона".to_string() })
}

/// The text of a Johnson report: the sequence, the start and end times of
/// every job on every machine, the makespan and the idle times.
pub open spec fn johnson_report(m: Seq<Vec<i32>>, r: AlgResult) -> Seq<char> {
    let k = machines(m);
    let n = r.sequence@.len() as int;
    (if k == 2 {
        "Оптимальная последовательность:\n"@
    } else {
        "Последовательность:\n"@
    }) + "  "@ + job_list(r.sequence@, n) + "\n"@ + "\nРасписание (вход → выход):\n"@ + "Работа| "@
        + machine_heads("   M"@, "  | "@, k) + "\n"@ + repeat("-------+"@, k) + "-\n"@
        + grid_rows(r.sequence@, r.schedule@, n, k, "   J"@, "    | "@)
        + "\nДлительность производственного цикла: "@ + dec(r.makespan as int) + "\n"@ + "Простои станков:\n"@
        + idle_lines(r.idle_times@, r.idle_times@.len() as int, "M"@)
}

/// Renders a result of Johnson's rule as text.
pub fn format_result(result: &AlgResult, matrix: &Vec<Vec<i32>>) -> (r: String)
    requires
        valid_matrix(matrix@, 1),
        result_for(*result, matrix@, result.sequence@),
    ensures
        r@ == johnson_report(matrix@, *result),
{
    let ghost m = matrix@;
    let num_machines = matrix[0].len();
    proof {
        assert forall|i: int| 0 <= i < result.sequence@.len() implies #[trigger] result.schedule@[i]@.len() >= num_machines by {
            assert(row_matches(result.schedule@[i]@, m, result.sequence@, i));
        }
    }
    let mut output = String::new();
    if num_machines == 2 {
        output.append("Оптимальная последовательность:\n");
    } else {
        output.append("Последовательность:\n");
    }
    output.append("  ");
    push_job_list(&mut output, &result.sequence);
    output.append("\n");
    output.append("\nРасписание (вход → выход):\n");
    output.append("Работа| ");
    push_machine_heads(&mut output, "   M", "  | ", num_machines);
    output.append("\n");
    push_repeat(&mut output, "-------+", num_machines);
    output.append("-\n");
    push_grid_rows(&mut output, &result.sequence, &result.schedule, num_machines, "   J", "    | ");
    output.append("\nДлительность производственного цикла: ");
    push_decimal(&mut output, result.makespan as i128);
    output.append("\n");
    output.append("Простои станков:\n");
    push_idle_lines(&mut output, &result.idle_times, "M");
    assert(output@ =~= johnson_report(m, *result));
    output
}

} // verus!
