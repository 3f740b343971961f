//! Text building blocks for the reports: decimal numbers, padding and job
//! lists.

use vstd::prelude::*;
use crate::common::{AlgResult, result_for};
use crate::matrix::{ScheduleError, machines, valid_matrix};
use crate::timing::row_matches;

verus! {

pub open spec fn digit_char(d: int) -> char {
    if d == 0 { '0' } else if d == 1 { '1' } else if d == 2 { '2' } else if d == 3 { '3' } else if d == 4 { '4' }
    else if d == 5 { '5' } else if d == 6 { '6' } else if d == 7 { '7' } else if d == 8 { '8' } else { '9' }
}

/// Decimal digits of a non-negative number, without leading zeros.
pub open spec fn digits(n: nat) -> Seq<char>
    decreases n,
{
    if n < 10 {
        seq![digit_char(n as int)]
    } else {
        digits(n / 10) + seq![digit_char((n % 10) as int)]
    }
}

/// Decimal text of an integer, with a minus sign when negative.
pub open spec fn dec(n: int) -> Seq<char> {
    if n < 0 {
        seq!['-'] + digits((-n) as nat)
    } else {
        digits(n as nat)
    }
}

pub open spec fn spaces(k: int) -> Seq<char>
    decreases k,
{
    if k <= 0 {
        Seq::empty()
    } else {
        spaces(k - 1) + seq![' ']
    }
}

/// `t` right-aligned in a field of `w` characters.
pub open spec fn rjust(t: Seq<char>, w: int) -> Seq<char> {
    spaces(w - t.len()) + t
}

/// `t` left-aligned in a field of `w` characters.
pub open spec fn ljust(t: Seq<char>, w: int) -> Seq<char> {
    t + spaces(w - t.len())
}

/// `t` repeated `k` times.
pub open spec fn repeat(t: Seq<char>, k: int) -> Seq<char>
    decreases k,
{
    if k <= 0 {
        Seq::empty()
    } else {
        repeat(t, k - 1) + t
    }
}

/// Label of job `j`: `J` and its number counted from one.
pub open spec fn job_label(j: int) -> Seq<char> {
    "J"@ + dec(j + 1)
}

/// Labels of the first `i` jobs of `s`, separated by arrows.
pub open spec fn job_list(s: Seq<usize>, i: int) -> Seq<char>
    decreases i,
{
    if i <= 0 {
        Seq::empty()
    } else if i == 1 {
        job_label(s[0] as int)
    } else {
        job_list(s, i - 1) + " → "@ + job_label(s[i - 1] as int)
    }
}

fn digit_str(d: u128) -> (r: &'static str)
    requires
        d < 10,
    ensures
        r@ == seq![digit_char(d as int)],
{
    proof {
        reveal_strlit("0");
        reveal_strlit("1");
        reveal_strlit("2");
        reveal_strlit("3");
        reveal_strlit("4");
        reveal_strlit("5");
        reveal_strlit("6");
        reveal_strlit("7");
        reveal_strlit("8");
        reveal_strlit("9");
    }
    let r = if d == 0 { "0" } else if d == 1 { "1" } else if d == 2 { "2" } else if d == 3 { "3" } else if d == 4 {
        "4"
    } else if d == 5 { "5" } else if d == 6 { "6" } else if d == 7 { "7" } else if d == 8 { "8" } else { "9" };
    assert(r@ =~= seq![digit_char(d as int)]);
    r
}

/// Appends the digits of `n`.
fn push_digits(out: &mut String, n: u128)
    ensures
        final(out)@ == old(out)@ + digits(n as nat),
    decreases n,
{
    if n >= 10 {
        push_digits(out, n / 10);
    }
    out.append(digit_str(n % 10));
    assert(final(out)@ =~= old(out)@ + digits(n as nat));
}

/// Appends the decimal text of `n`.
pub fn push_decimal(out: &mut String, n: i128)
    ensures
        final(out)@ == old(out)@ + dec(n as int),
{
    if n < 0 {
        proof {
            reveal_strlit("-");
        }
        out.append("-");
        let magnitude: u128 = if n == i128::MIN { 170141183460469231731687303715884105728u128 } else { (-n) as u128 };
        push_digits(out, magnitude);
        assert(final(out)@ =~= old(out)@ + dec(n as int));
    } else {
        push_digits(out, n as u128);
    }
}

/// The decimal text of `n`.
pub fn decimal(n: i128) -> (r: String)
    ensures
        r@ == dec(n as int),
{
    let mut r = String::new();
    push_decimal(&mut r, n);
    assert(r@ =~= dec(n as int));
    r
}

/// Appends `k` spaces.
pub fn push_spaces(out: &mut String, k: usize)
    ensures
        final(out)@ == old(out)@ + spaces(k as int),
{
    proof {
        reveal_strlit(" ");
    }
    let mut i: usize = 0;
    while i < k
        invariant
            0 <= i <= k,
            out@ == old(out)@ + spaces(i as int),
            " "@ == seq![' '],
        decreases k - i,
    {
        out.append(" ");
        i = i + 1;
        assert(out@ =~= old(out)@ + spaces(i as int));
    }
}

/// Appends `text` right-aligned in a field of `width` characters.
pub fn push_rjust(out: &mut String, text: &String, width: usize)
    ensures
        final(out)@ == old(out)@ + rjust(text@, width as int),
{
    let len = text.as_str().unicode_len();
    if len < width {
        push_spaces(out, width - len);
    } else {
        assert(spaces(width - text@.len()) =~= Seq::<char>::empty());
    }
    out.append(text.as_str());
    assert(final(out)@ =~= old(out)@ + rjust(text@, width as int));
}

/// Appends `text` left-aligned in a field of `width` characters.
pub fn push_ljust(out: &mut String, text: &str, width: usize)
    ensures
        final(out)@ == old(out)@ + ljust(text@, width as int),
{
    let len = text.unicode_len();
    out.append(text);
    if len < width {
        push_spaces(out, width - len);
    } else {
        assert(spaces(width - text@.len()) =~= Seq::<char>::empty());
    }
    assert(final(out)@ =~= old(out)@ + ljust(text@, width as int));
}

/// Appends `text` `k` times.
pub fn push_repeat(out: &mut String, text: &str, k: usize)
    ensures
        final(out)@ == old(out)@ + repeat(text@, k as int),
{
    let mut i: usize = 0;
    while i < k
        invariant
            0 <= i <= k,
            out@ == old(out)@ + repeat(text@, i as int),
        decreases k - i,
    {
        out.append(text);
        i = i + 1;
        assert(out@ =~= old(out)@ + repeat(text@, i as int));
    }
}

/// Appends the label of job `j`.
pub fn push_job_label(out: &mut String, j: usize)
    ensures
        final(out)@ == old(out)@ + job_label(j as int),
{
    out.append("J");
    push_decimal(out, j as i128 + 1);
    assert(final(out)@ =~= old(out)@ + job_label(j as int));
}

/// Appends the labels of the jobs of `s`, separated by arrows.
pub fn push_job_list(out: &mut String, s: &Vec<usize>)
    ensures
        final(out)@ == old(out)@ + job_list(s@, s@.len() as int),
{
    let mut i: usize = 0;
    while i < s.len()
        invariant
            0 <= i <= s@.len(),
            out@ == old(out)@ + job_list(s@, i as int),
        decreases s@.len() - i,
    {
        if i > 0 {
            out.append(" → ");
        }
        push_job_label(out, s[i]);
        i = i + 1;
        assert(out@ =~= old(out)@ + job_list(s@, i as int));
    }
}

/// Appends the decimal text of an unsigned `n`.
pub fn push_unsigned(out: &mut String, n: u128)
    ensures
        final(out)@ == old(out)@ + dec(n as int),
{
    push_digits(out, n);
}

/// The decimal text of an unsigned `n`.
pub fn unsigned_text(n: u128) -> (r: String)
    ensures
        r@ == dec(n as int),
{
    let mut r = String::new();
    push_digits(&mut r, n);
    assert(r@ =~= dec(n as int));
    r
}

/// Column headers for the first `k` machines: `lead`, the machine number
/// counted from one, `sep`.
pub open spec fn machine_heads(lead: Seq<char>, sep: Seq<char>, k: int) -> Seq<char>
    decreases k,
{
    if k <= 0 {
        Seq::empty()
    } else {
        machine_heads(lead, sep, k - 1) + lead + dec(k) + sep
    }
}

pub fn push_machine_heads(out: &mut String, lead: &str, sep: &str, k: usize)
    ensures
        final(out)@ == old(out)@ + machine_heads(lead@, sep@, k as int),
{
    let mut c: usize = 0;
    while c < k
        invariant
            0 <= c <= k,
            out@ == old(out)@ + machine_heads(lead@, sep@, c as int),
        decreases k - c,
    {
        out.append(lead);
        push_decimal(out, c as i128 + 1);
        out.append(sep);
        c = c + 1;
        assert(out@ =~= old(out)@ + machine_heads(lead@, sep@, c as int));
    }
}

/// The first `k` cells of a schedule row: ` start→end |`, each time in a
/// field of two.
pub open spec fn row_cells(row: Seq<(i32, i32)>, k: int) -> Seq<char>
    decreases k,
{
    if k <= 0 {
        Seq::empty()
    } else {
        row_cells(row, k - 1) + " "@ + rjust(dec(row[k - 1].0 as int), 2) + "→"@ + rjust(dec(row[k - 1].1 as int), 2)
            + " |"@
    }
}

/// The first `i` lines of the schedule grid: `lead`, the job number, `sep`,
/// then one cell per machine.
pub open spec fn grid_rows(s: Seq<usize>, sched: Seq<Vec<(i32, i32)>>, i: int, k: int, lead: Seq<char>, sep: Seq<char>) -> Seq<char>
    decreases i,
{
    if i <= 0 {
        Seq::empty()
    } else {
        grid_rows(s, sched, i - 1, k, lead, sep) + lead + dec(s[i - 1] as int + 1) + sep + row_cells(sched[i - 1]@, k)
            + "\n"@
    }
}

pub fn push_grid_rows(out: &mut String, s: &Vec<usize>, sched: &Vec<Vec<(i32, i32)>>, k: usize, lead: &str, sep: &str)
    requires
        sched@.len() >= s@.len(),
        forall|i: int| 0 <= i < s@.len() ==> #[trigger] sched@[i]@.len() >= k,
    ensures
        final(out)@ == old(out)@ + grid_rows(s@, sched@, s@.len() as int, k as int, lead@, sep@),
{
    let mut i: usize = 0;
    while i < s.len()
        invariant
            0 <= i <= s@.len(),
            sched@.len() >= s@.len(),
            forall|c: int| 0 <= c < s@.len() ==> #[trigger] sched@[c]@.len() >= k,
            out@ == old(out)@ + grid_rows(s@, sched@, i as int, k as int, lead@, sep@),
        decreases s@.len() - i,
    {
        let ghost before = out@;
        out.append(lead);
        push_decimal(out, s[i] as i128 + 1);
        out.append(sep);
        let row = &sched[i];
        let ghost mid = out@;
        let mut c: usize = 0;
        while c < k
            invariant
                0 <= c <= k,
                row@.len() >= k,
                out@ == mid + row_cells(row@, c as int),
            decreases k - c,
        {
            out.append(" ");
            push_rjust(out, &decimal(row[c].0 as i128), 2);
            out.append("→");
            push_rjust(out, &decimal(row[c].1 as i128), 2);
            out.append(" |");
            c = c + 1;
            assert(out@ =~= mid + row_cells(row@, c as int));
        }
        out.append("\n");
        i = i + 1;
        assert(out@ =~= old(out)@ + grid_rows(s@, sched@, i as int, k as int, lead@, sep@));
    }
}

/// Lines for the first `k` idle times: `lead`, the machine number, `: `,
/// the idle time.
pub open spec fn idle_lines(idle: Seq<i32>, k: int, lead: Seq<char>) -> Seq<char>
    decreases k,
{
    if k <= 0 {
        Seq::empty()
    } else {
        idle_lines(idle, k - 1, lead) + lead + dec(k) + ": "@ + dec(idle[k - 1] as int) + "\n"@
    }
}

pub fn push_idle_lines(out: &mut String, idle: &Vec<i32>, lead: &str)
    ensures
        final(out)@ == old(out)@ + idle_lines(idle@, idle@.len() as int, lead@),
{
    let mut c: usize = 0;
    while c < idle.len()
        invariant
            0 <= c <= idle@.len(),
            out@ == old(out)@ + idle_lines(idle@, c as int, lead@),
        decreases idle@.len() - c,
    {
        out.append(lead);
        push_decimal(out, c as i128 + 1);
        out.append(": ");
        push_decimal(out, idle[c] as i128);
        out.append("\n");
        c = c + 1;
        assert(out@ =~= old(out)@ + idle_lines(idle@, c as int, lead@));
    }
}

/// The schedule part of the solver reports: the grid of start and end
/// times, the makespan and the idle times.
pub open spec fn schedule_section(k: int, r: AlgResult) -> Seq<char> {
    "Расписание (вход → выход):\n"@ + "Работа | "@ + machine_heads("M"@, " | "@, k) + "\n"@ + repeat("-------+"@, k)
        + "-\n"@ + grid_rows(r.sequence@, r.schedule@, r.sequence@.len() as int, k, "  J"@, "   | "@)
        + "\nДлительность производственного цикла: "@ + dec(r.makespan as int) + "\n"@ + "Простои станков:\n"@
        + idle_lines(r.idle_times@, r.idle_times@.len() as int, "  M"@)
}

/// Appends the schedule part of a solver report.
pub fn push_schedule_section(out: &mut String, result: &AlgResult, matrix: &Vec<Vec<i32>>)
    requires
        valid_matrix(matrix@, 1),
        result_for(*result, matrix@, result.sequence@),
    ensures
        final(out)@ == old(out)@ + schedule_section(machines(matrix@), *result),
{
    let ghost m = matrix@;
    let num_machines = matrix[0].len();
    proof {
        assert forall|i: int| 0 <= i < result.sequence@.len() implies #[trigger] result.schedule@[i]@.len() >= num_machines by {
            assert(row_matches(result.schedule@[i]@, m, result.sequence@, i));
        }
    }
    out.append("Расписание (вход → выход):\n");
    out.append("Работа | ");
    push_machine_heads(out, "M", " | ", num_machines);
    out.append("\n");
    push_repeat(out, "-------+", num_machines);
    out.append("-\n");
    push_grid_rows(out, &result.sequence, &result.schedule, num_machines, "  J", "   | ");
    out.append("\nДлительность производственного цикла: ");
    push_decimal(out, result.makespan as i128);
    out.append("\n");
    out.append("Простои станков:\n");
    push_idle_lines(out, &result.idle_times, "  M");
    assert(final(out)@ =~= old(out)@ + schedule_section(machines(m), *result));
}

/// The message shown for an error.
pub open spec fn error_text(e: ScheduleError) -> Seq<char> {
    match e {
        ScheduleError::EmptyMatrix => "Матрица пуста"@,
        ScheduleError::TooFewMachines { required, found } => "Требуется минимум "@ + dec(required as int)
            + " станка, найдено "@ + dec(found as int),
        ScheduleError::WrongMachineCount { required, found } => "Нужно ровно "@ + dec(required as int)
            + " станка, найдено "@ + dec(found as int),
        ScheduleError::RaggedRow { row, len, expected } => "Неравномерная матрица: строка "@ + dec(row as int)
            + " имеет "@ + dec(len as int) + " элементов, ожидалось "@ + dec(expected as int),
        ScheduleError::NegativeTime { job, machine } => "Отрицательное время обработки в работе "@ + dec(job as int)
            + " на станке "@ + dec(machine as int),
        ScheduleError::TimesTooLarge => "Сумма времён обработки слишком велика"@,
        ScheduleError::TooManyJobs { limit, found } => "Слишком много задач: "@ + dec(found as int) + " > "@ + dec(
            limit as int,
        ),
        ScheduleError::EmptySequence => "Последовательность работ пуста"@,
        ScheduleError::InvalidSequence => "Последовательность не является перестановкой работ"@,
        ScheduleError::NodeLimitExceeded { explored, limit } => "Превышено ограничение на количество узлов: "@ + dec(
            explored as int,
        ) + " > "@ + dec(limit as int),
        ScheduleError::TimeLimitExceeded { limit_ms, explored } => "Превышено ограничение по времени: > "@ + dec(
            limit_ms as int,
        ) + " мс (исследовано "@ + dec(explored as int) + " узлов)"@,
        ScheduleError::NoSolution => "Не удалось найти решение"@,
    }
}

impl ScheduleError {
    /// The message shown to a user.
    pub fn message(&self) -> (r: String)
        ensures
            r@ == error_text(*self),
    {
        let mut out = String::new();
        match self {
            ScheduleError::EmptyMatrix => {
                out.append("Матрица пуста");
            },
            ScheduleError::TooFewMachines { required, found } => {
                out.append("Требуется минимум ");
                push_unsigned(&mut out, *required as u128);
                out.append(" станка, найдено ");
                push_unsigned(&mut out, *found as u128);
            },
            ScheduleError::WrongMachineCount { required, found } => {
                out.append("Нужно ровно ");
                push_unsigned(&mut out, *required as u128);
                out.append(" станка, найдено ");
                push_unsigned(&mut out, *found as u128);
            },
            ScheduleError::RaggedRow { row, len, expected } => {
                out.append("Неравномерная матрица: строка ");
                push_unsigned(&mut out, *row as u128);
                out.append(" имеет ");
                push_unsigned(&mut out, *len as u128);
                out.append(" элементов, ожидалось ");
                push_unsigned(&mut out, *expected as u128);
            },
            ScheduleError::NegativeTime { job, machine } => {
                out.append("Отрицательное время обработки в работе ");
                push_unsigned(&mut out, *job as u128);
                out.append(" на станке ");
                push_unsigned(&mut out, *machine as u128);
            },
            ScheduleError::TimesTooLarge => {
                out.append("Сумма времён обработки слишком велика");
            },
            ScheduleError::TooManyJobs { limit, found } => {
                out.append("Слишком много задач: ");
                push_unsigned(&mut out, *found as u128);
                out.append(" > ");
                push_unsigned(&mut out, *limit as u128);
            },
            ScheduleError::EmptySequence => {
                out.append("Последовательность работ пуста");
            },
            ScheduleError::InvalidSequence => {
                out.append("Последовательность не является перестановкой работ");
            },
            ScheduleError::NodeLimitExceeded { explored, limit } => {
                out.append("Превышено ограничение на количество узлов: ");
                push_unsigned(&mut out, *explored as u128);
                out.append(" > ");
                push_unsigned(&mut out, *limit as u128);
            },
            ScheduleError::TimeLimitExceeded { limit_ms, explored } => {
                out.append("Превышено ограничение по времени: > ");
                push_unsigned(&mut out, *limit_ms as u128);
                out.append(" мс (исследовано ");
                push_unsigned(&mut out, *explored as u128);
                out.append(" узлов)");
            },
            ScheduleError::NoSolution => {
                out.append("Не удалось найти решение");
            },
        }
        assert(out@ =~= error_text(*self));
        out
    }
}

} // verus!
