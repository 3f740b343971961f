//! Best-first branch and bound over partial job sequences.

use vstd::prelude::*;
use crate::matrix::{
    ScheduleError, machines, row_ok, total_time, valid_matrix, validate_matrix, validation_error,
};
use crate::common::{AlgResult, identity, idle_times_of, lemma_identity_perm, result_for, timing_row};
use crate::report::{
    dec, job_list, push_job_list, push_rjust, push_schedule_section, push_unsigned, rjust, schedule_section,
    unsigned_text,
};
use crate::timing::{
    column, completion, is_perm, lemma_end_bounded, lemma_row_same_prefix, makespan_of, no_dups, row_matches,
    schedule_matches, sum_where,
};
use crate::bounds::{bound_to, extends, lemma_remaining_load_bounded, lower_bound_of, partial_ok};

verus! {

/// A node of the search: a prefix of a job sequence with its timing.
struct PartialSchedule {
    sequence: Vec<usize>,
    remaining: Vec<bool>,
    schedule: Vec<Vec<(i32, i32)>>,
    lower_bound: i64,
    current_makespan: i32,
}

impl PartialSchedule {
    /// The node holds a partial sequence of `m`, the flags of the jobs not
    /// in it, and its timing.
    spec fn wf(&self, m: Seq<Vec<i32>>) -> bool {
        &&& partial_ok(m, self.sequence@)
        &&& self.remaining@.len() == m.len()
        &&& forall|j: int| 0 <= j < m.len() ==> #[trigger] self.remaining@[j] == !self.sequence@.contains(j as usize)
        &&& schedule_matches(self.schedule@, m, self.sequence@)
        &&& self.current_makespan as int == completion(m, self.sequence@, machines(m) - 1)
    }

    /// A well-formed node whose bound field holds its lower bound.
    spec fn ready(&self, m: Seq<Vec<i32>>) -> bool {
        &&& self.wf(m)
        &&& self.lower_bound as int == lower_bound_of(m, self.sequence@)
    }

    /// The root: no job placed yet.
    fn new(num_jobs: usize, Ghost(m): Ghost<Seq<Vec<i32>>>) -> (r: PartialSchedule)
        requires
            valid_matrix(m, 1),
            num_jobs == m.len(),
        ensures
            r.wf(m),
            r.sequence@.len() == 0,
            r.schedule@.len() == 0,
            r.lower_bound == 0,
            r.current_makespan == 0,
    {
        let r = PartialSchedule {
            sequence: Vec::new(),
            remaining: vec![true; num_jobs],
            schedule: Vec::new(),
            lower_bound: 0,
            current_makespan: 0,
        };
        assert forall|j: int| 0 <= j < m.len() implies #[trigger] r.remaining@[j] == !r.sequence@.contains(j as usize) by {
        }
        r
    }

    /// A copy of this node.
    fn duplicate(&self) -> (r: PartialSchedule)
        ensures
            r.sequence@ == self.sequence@,
            r.remaining@ == self.remaining@,
            r.schedule@.len() == self.schedule@.len(),
            forall|p: int| 0 <= p < r.schedule@.len() ==> #[trigger] r.schedule@[p]@ == self.schedule@[p]@,
            r.lower_bound == self.lower_bound,
            r.current_makespan == self.current_makespan,
    {
        let sequence = crate::common::copy_sequence(&self.sequence);
        let mut remaining: Vec<bool> = Vec::new();
        let mut j: usize = 0;
        while j < self.remaining.len()
            invariant
                0 <= j <= self.remaining@.len(),
                remaining@ =~= self.remaining@.take(j as int),
            decreases self.remaining@.len() - j,
        {
            remaining.push(self.remaining[j]);
            j = j + 1;
        }
        assert(remaining@ =~= self.remaining@);
        let mut schedule: Vec<Vec<(i32, i32)>> = Vec::new();
        let mut p: usize = 0;
        while p < self.schedule.len()
            invariant
                0 <= p <= self.schedule@.len(),
                schedule@.len() == p,
                forall|q: int| 0 <= q < p ==> #[trigger] schedule@[q]@ == self.schedule@[q]@,
            decreases self.schedule@.len() - p,
        {
            let src = &self.schedule[p];
            let mut row: Vec<(i32, i32)> = Vec::new();
            let mut k: usize = 0;
            while k < src.len()
                invariant
                    0 <= k <= src@.len(),
                    row@ =~= src@.take(k as int),
                decreases src@.len() - k,
            {
                row.push(src[k]);
                k = k + 1;
            }
            assert(row@ =~= src@);
            schedule.push(row);
            p = p + 1;
        }
        PartialSchedule {
            sequence,
            remaining,
            schedule,
            lower_bound: self.lower_bound,
            current_makespan: self.current_makespan,
        }
    }

    /// Appends `job` to the sequence and its times to the schedule.
    fn add_job(&mut self, job: usize, matrix: &Vec<Vec<i32>>)
        requires
            old(self).wf(matrix@),
            job < matrix@.len(),
            old(self).remaining@[job as int],
        ensures
            final(self).wf(matrix@),
            final(self).sequence@ == old(self).sequence@.push(job),
            final(self).lower_bound == old(self).lower_bound,
    {
        let ghost m = matrix@;
        let ghost s0 = self.sequence@;
        let num_machines = matrix[0].len();
        let seq_idx = self.sequence.len();
        self.sequence.push(job);
        self.remaining.set(job, false);
        let ghost s = self.sequence@;
        assert(s.last() == job);
        assert(no_dups(s)) by {
            assert forall|a: int, b: int| 0 <= a < s.len() && 0 <= b < s.len() && a != b implies s[a] != s[b] by {
                if a < s0.len() && b < s0.len() {
                    assert(s[a] == s0[a] && s[b] == s0[b]);
                } else if a < s0.len() {
                    assert(s0.contains(s[a]));
                } else if b < s0.len() {
                    assert(s0.contains(s[b]));
                }
            }
        }
        assert forall|j: int| 0 <= j < m.len() implies #[trigger] self.remaining@[j] == !s.contains(j as usize) by {
            if s.contains(j as usize) && j != job as int {
                let c = choose|c: int| 0 <= c < s.len() && s[c] == j as usize;
                assert(s0[c] == j as usize);
            }
            if s0.contains(j as usize) {
                let c = choose|c: int| 0 <= c < s0.len() && s0[c] == j as usize;
                assert(s[c] == j as usize);
            }
            if j == job as int {
                assert(s[s.len() - 1] == job);
            }
        }
        proof {
            if seq_idx > 0 {
                lemma_row_same_prefix(m, s0, s, seq_idx - 1);
                assert(row_matches(self.schedule@[seq_idx - 1]@, m, s0, seq_idx - 1));
            }
            lemma_row_same_prefix(m, s0, s, -1);
        }
        let row = if seq_idx > 0 {
            timing_row(matrix, &self.schedule[seq_idx - 1], true, job, Ghost(s))
        } else {
            let empty: Vec<(i32, i32)> = Vec::new();
            timing_row(matrix, &empty, false, job, Ghost(s))
        };
        self.current_makespan = row[num_machines - 1].1;
        let ghost old_sched = self.schedule@;
        self.schedule.push(row);
        assert forall|p: int| 0 <= p < self.schedule@.len() implies row_matches(#[trigger] self.schedule@[p]@, m, s, p) by {
            if p < seq_idx {
                assert(row_matches(old_sched[p]@, m, s0, p));
                lemma_row_same_prefix(m, s0, s, p);
            }
        }
        assert(row_matches(self.schedule@[seq_idx as int]@, m, s, seq_idx as int));
        proof {
            crate::timing::lemma_distinct_len(s, m.len() as int);
        }
    }

    /// The jobs not yet placed, in index order.
    fn remaining_jobs(&self, num_jobs: usize) -> (r: Vec<usize>)
        requires
            self.remaining@.len() == num_jobs,
            forall|j: int| 0 <= j < num_jobs ==> #[trigger] self.remaining@[j] == !self.sequence@.contains(j as usize),
        ensures
            r@ == jobs_not_in(self.sequence@, num_jobs as int),
            forall|t: int| 0 <= t < r@.len() ==> (r@[t] as int) < num_jobs && self.remaining@[r@[t] as int],
            forall|a: int, b: int| 0 <= a < b < r@.len() ==> r@[a] < r@[b],
            forall|j: int| 0 <= j < num_jobs && self.remaining@[j] ==> r@.contains(j as usize),
    {
        let mut r: Vec<usize> = Vec::new();
        let mut j: usize = 0;
        while j < num_jobs
            invariant
                0 <= j <= num_jobs,
                self.remaining@.len() == num_jobs,
                forall|t: int| 0 <= t < r@.len() ==> (r@[t] as int) < j && self.remaining@[r@[t] as int],
                forall|a: int, b: int| 0 <= a < b < r@.len() ==> r@[a] < r@[b],
                forall|c: int| 0 <= c < j && self.remaining@[c] ==> r@.contains(c as usize),
                forall|c: int| 0 <= c < num_jobs ==> #[trigger] self.remaining@[c] == !self.sequence@.contains(c as usize),
                r@ == jobs_not_in(self.sequence@, j as int),
            decreases num_jobs - j,
        {
            assert(self.remaining@[j as int] == !self.sequence@.contains(j as usize));
            if self.remaining[j] {
                let ghost r0 = r@;
                r.push(j);
                assert forall|c: int| 0 <= c < j + 1 && self.remaining@[c] implies r@.contains(c as usize) by {
                    if c < j {
                        let t = choose|t: int| 0 <= t < r0.len() && r0[t] == c as usize;
                        assert(r@[t] == c as usize);
                    } else {
                        assert(r@[r0.len() as int] == j);
                    }
                }
            }
            j = j + 1;
        }
        r
    }

    /// The lower bound of this node.
    fn calculate_lower_bound(&self, matrix: &Vec<Vec<i32>>, num_jobs: usize) -> (r: i64)
        requires
            self.wf(matrix@),
            num_jobs == matrix@.len(),
        ensures
            r as int == lower_bound_of(matrix@, self.sequence@),
    {
        let ghost m = matrix@;
        let ghost s = self.sequence@;
        if self.sequence.len() == num_jobs {
            return self.current_makespan as i64;
        }
        let num_machines = matrix[0].len();
        proof {
            crate::matrix::lemma_total_monotone(m, 0, m.len() as int);
        }
        let mut max_lb: i64 = 0;
        let mut k: usize = 0;
        while k < num_machines
            invariant
                0 <= k <= num_machines,
                num_machines == machines(m),
                num_jobs == m.len(),
                m == matrix@,
                s == self.sequence@,
                self.wf(m),
                max_lb as int == bound_to(m, s, k as int),
                0 <= max_lb <= 2 * total_time(m),
            decreases num_machines - k,
        {
            let current_completion: i32 = if self.schedule.len() > 0 {
                self.schedule[self.schedule.len() - 1][k].1
            } else {
                0
            };
            proof {
                lemma_end_bounded(m, s, s.len() - 1, k as int);
                if s.len() > 0 {
                    assert(row_matches(self.schedule@[s.len() - 1]@, m, s, s.len() - 1));
                }
            }
            assert(current_completion as int == completion(m, s, k as int));
            let mut sum_remaining: i64 = 0;
            let mut j: usize = 0;
            while j < num_jobs
                invariant
                    0 <= j <= num_jobs,
                    0 <= k < num_machines,
                    num_machines == machines(m),
                    num_jobs == m.len(),
                    m == matrix@,
                    s == self.sequence@,
                    self.wf(m),
                    sum_remaining as int == sum_where(j as int, column(m, k as int), |c: usize| !s.contains(c)),
                decreases num_jobs - j,
            {
                proof {
                    lemma_remaining_load_bounded(m, s, k as int, j as int + 1);
                }
                if self.remaining[j] {
                    assert(row_ok(m, j as int));
                    sum_remaining = sum_remaining + matrix[j][k] as i64;
                }
                j = j + 1;
            }
            proof {
                lemma_remaining_load_bounded(m, s, k as int, num_jobs as int);
            }
            let lb_for_machine = current_completion as i64 + sum_remaining;
            if lb_for_machine > max_lb {
                max_lb = lb_for_machine;
            }
            k = k + 1;
        }
        max_lb
    }

    /// Whether every job has been placed.
    fn is_complete(&self, num_jobs: usize) -> (r: bool)
        ensures
            r == (self.sequence@.len() == num_jobs),
    {
        self.sequence.len() == num_jobs
    }
}

// ---------------------------------------------------------------------------
// The clock

/// The clock's instant, `std::time::Instant`, carried as an opaque value.
#[verifier::external_type_specification]
#[verifier::external_body]
pub struct ExInstant(std::time::Instant);

/// Relies on `Instant::now`: the current instant. Nothing is known of it.
pub assume_specification[ std::time::Instant::now ]() -> std::time::Instant;

/// Relies on `Instant::elapsed`: the time since `start`. Nothing is known of
/// it.
pub assume_specification[ std::time::Instant::elapsed ](start: &std::time::Instant) -> core::time::Duration;

/// Relies on `Duration::as_millis`: the whole milliseconds of `d`.
pub assume_specification[ core::time::Duration::as_millis ](d: &core::time::Duration) -> u128;

/// Whole milliseconds since `start`.
fn millis_since(start: &std::time::Instant) -> u128 {
    start.elapsed().as_millis()
}

// ---------------------------------------------------------------------------
// Search

/// Largest job count searched without a node or time limit.
pub const MAX_UNLIMITED_JOBS: usize = 15;

/// Statistics of one search.
#[derive(Debug, Clone)]
pub struct BranchAndBoundStats {
    pub nodes_explored: usize,
    pub nodes_pruned: usize,
    pub best_found_at_node: usize,
    pub total_permutations: u128,
    pub time_ms: u64,
}

impl BranchAndBoundStats {
    /// Whether fewer nodes were explored than there are permutations: the
    /// search pruned, and its result is the proven optimum.
    pub fn is_provably_optimal(&self) -> (r: bool)
        ensures
            r == (self.nodes_explored < self.total_permutations),
    {
        (self.nodes_explored as u128) < self.total_permutations
    }
}

pub open spec fn factorial(n: nat) -> nat
    decreases n,
{
    if n == 0 {
        1
    } else {
        n * factorial((n - 1) as nat)
    }
}

/// `n!`, or `u128::MAX` where it does not fit.
pub fn total_permutations(n: usize) -> (r: u128)
    ensures
        r as nat == if factorial(n as nat) <= u128::MAX { factorial(n as nat) } else { u128::MAX as nat },
{
    let mut acc: u128 = 1;
    let mut i: usize = 0;
    while i < n
        invariant
            0 <= i <= n,
            acc as nat == if factorial(i as nat) <= u128::MAX { factorial(i as nat) } else { u128::MAX as nat },
        decreases n - i,
    {
        let ghost f = factorial(i as nat);
        let ghost g = factorial((i + 1) as nat);
        let k: u128 = (i + 1) as u128;
        proof {
            lemma_factorial_pos(i as nat);
            assert(g == k * f);
            assert(acc <= f);
        }
        if acc > u128::MAX / k {
            proof {
                assert(acc * k > u128::MAX) by (nonlinear_arith)
                    requires acc > u128::MAX / k, k >= 1;
                assert(k * f >= acc * k) by (nonlinear_arith)
                    requires f >= acc, k >= 1;
            }
            acc = u128::MAX;
        } else {
            proof {
                assert(acc * k <= u128::MAX) by (nonlinear_arith)
                    requires acc <= u128::MAX / k, k >= 1;
                if f > u128::MAX {
                    assert(acc == u128::MAX);
                    assert(k == 1) by (nonlinear_arith)
                        requires acc * k <= u128::MAX, acc == u128::MAX, k >= 1;
                    assert(g == f);
                } else {
                    assert(acc == f);
                    assert(acc * k == g) by (nonlinear_arith)
                        requires g == k * f, acc == f;
                }
            }
            acc = acc * k;
        }
        i = i + 1;
    }
    acc
}

proof fn lemma_factorial_pos(n: nat)
    ensures
        factorial(n) >= 1,
    decreases n,
{
    if n > 0 {
        lemma_factorial_pos((n - 1) as nat);
        assert(n * factorial((n - 1) as nat) >= 1) by (nonlinear_arith)
            requires n >= 1, factorial((n - 1) as nat) >= 1;
    }
}

/// Size of a full search tree below a node with `r` jobs left to place.
pub open spec fn subtree_size(r: nat) -> nat
    decreases r,
{
    if r == 0 {
        1
    } else {
        1 + r * subtree_size((r - 1) as nat)
    }
}

spec fn weight(n: int, x: PartialSchedule) -> nat {
    subtree_size((n - x.sequence@.len()) as nat)
}

/// Nodes that the queue can still produce: a measure that every step of
/// the search lowers.
spec fn potential(n: int, q: Seq<PartialSchedule>) -> nat
    decreases q.len(),
{
    if q.len() == 0 {
        0
    } else {
        potential(n, q.drop_last()) + weight(n, q.last())
    }
}

proof fn lemma_potential_remove(n: int, q: Seq<PartialSchedule>, i: int)
    requires
        0 <= i < q.len(),
    ensures
        potential(n, q) == potential(n, q.remove(i)) + weight(n, q[i]),
    decreases q.len(),
{
    if i < q.len() - 1 {
        lemma_potential_remove(n, q.drop_last(), i);
        assert(q.remove(i).drop_last() =~= q.drop_last().remove(i));
        assert(q.remove(i).last() == q.last());
    } else {
        assert(q.remove(i) =~= q.drop_last());
    }
}

proof fn lemma_potential_push(n: int, q: Seq<PartialSchedule>, x: PartialSchedule)
    ensures
        potential(n, q.push(x)) == potential(n, q) + weight(n, x),
{
    assert(q.push(x).drop_last() =~= q);
}


// ---------------------------------------------------------------------------
// The search as a sequence of states

/// What the search holds between two steps: the queue of prefixes with
/// their lower bounds, in queue order; the best makespan found (`i64::MAX`
/// before any) and its sequence; `explored`, the nodes taken from the
/// queue; `pruned`, the nodes taken and dropped because their bound reached
/// the best makespan, plus the children never queued for the same reason;
/// and `found_at`, the value of `explored` when the best sequence was found.
/// Counters stop at `usize::MAX`.
pub struct SearchState {
    pub queue: Seq<(Seq<usize>, int)>,
    pub best: int,
    pub best_seq: Seq<usize>,
    pub explored: int,
    pub pruned: int,
    pub found_at: int,
}

/// A counter one higher, staying at `usize::MAX` once there.
pub open spec fn sat_inc(c: int) -> int {
    if c < usize::MAX {
        c + 1
    } else {
        c
    }
}

/// Index of the first queue entry with the smallest lower bound: ties go to
/// the entry queued earliest.
pub open spec fn first_min(q: Seq<(Seq<usize>, int)>) -> int
    decreases q.len(),
{
    if q.len() <= 1 {
        0
    } else {
        let i = first_min(q.drop_last());
        if q.last().1 < q[i].1 {
            q.len() - 1
        } else {
            i
        }
    }
}

/// The jobs below `n` that are not in `x`, in index order.
pub open spec fn jobs_not_in(x: Seq<usize>, n: int) -> Seq<usize>
    decreases n,
{
    if n <= 0 {
        Seq::empty()
    } else if x.contains((n - 1) as usize) {
        jobs_not_in(x, n - 1)
    } else {
        jobs_not_in(x, n - 1).push((n - 1) as usize)
    }
}

/// Children of `x` for the jobs `rem[t..]`, in that order: a child whose
/// bound is below `best` is queued, any other is counted as pruned.
pub open spec fn expand(
    m: Seq<Vec<i32>>,
    x: Seq<usize>,
    rem: Seq<usize>,
    t: int,
    q: Seq<(Seq<usize>, int)>,
    best: int,
    pruned: int,
) -> (Seq<(Seq<usize>, int)>, int)
    decreases rem.len() - t,
{
    if t < 0 || t >= rem.len() {
        (q, pruned)
    } else {
        let c = x.push(rem[t]);
        let lb = lower_bound_of(m, c);
        if lb < best {
            expand(m, x, rem, t + 1, q.push((c, lb)), best, pruned)
        } else {
            expand(m, x, rem, t + 1, q, best, sat_inc(pruned))
        }
    }
}

/// One step of the search: take the first entry with the smallest bound;
/// prune it if its bound reaches the best makespan; keep a complete sequence
/// that improves on the best; otherwise expand it.
pub open spec fn step(m: Seq<Vec<i32>>, s: SearchState) -> SearchState {
    let i = first_min(s.queue);
    let node = s.queue[i];
    let rest = s.queue.remove(i);
    let e = sat_inc(s.explored);
    if node.1 >= s.best {
        SearchState {
            queue: rest,
            best: s.best,
            best_seq: s.best_seq,
            explored: e,
            pruned: sat_inc(s.pruned),
            found_at: s.found_at,
        }
    } else if node.0.len() == m.len() {
        let mk = completion(m, node.0, machines(m) - 1);
        if mk < s.best {
            SearchState { queue: rest, best: mk, best_seq: node.0, explored: e, pruned: s.pruned, found_at: e }
        } else {
            SearchState {
                queue: rest,
                best: s.best,
                best_seq: s.best_seq,
                explored: e,
                pruned: s.pruned,
                found_at: s.found_at,
            }
        }
    } else {
        let (q2, p2) = expand(m, node.0, jobs_not_in(node.0, m.len() as int), 0, rest, s.best, s.pruned);
        SearchState { queue: q2, best: s.best, best_seq: s.best_seq, explored: e, pruned: p2, found_at: s.found_at }
    }
}

/// At most `fuel` steps from `s`, stopping when the queue is empty.
pub open spec fn run(m: Seq<Vec<i32>>, s: SearchState, fuel: nat) -> SearchState
    decreases fuel,
{
    if fuel == 0 || s.queue.len() == 0 {
        s
    } else {
        run(m, step(m, s), (fuel - 1) as nat)
    }
}

/// The root alone in the queue, nothing found, nothing counted.
pub open spec fn initial_state(m: Seq<Vec<i32>>) -> SearchState {
    SearchState {
        queue: seq![(Seq::<usize>::empty(), lower_bound_of(m, Seq::<usize>::empty()))],
        best: i64::MAX as int,
        best_seq: Seq::empty(),
        explored: 0,
        pruned: 0,
        found_at: 0,
    }
}

/// The state in which the search without limits ends. The full search tree
/// has `subtree_size(n)` nodes, so that many steps always suffice.
pub open spec fn search_outcome(m: Seq<Vec<i32>>) -> SearchState {
    run(m, initial_state(m), subtree_size(m.len() as nat))
}

/// Nodes that the search without limits explores.
pub open spec fn search_nodes(m: Seq<Vec<i32>>) -> int {
    search_outcome(m).explored
}

proof fn lemma_run_explored_grows(m: Seq<Vec<i32>>, s: SearchState, fuel: nat)
    ensures
        run(m, s, fuel).explored >= s.explored,
    decreases fuel,
{
    if fuel > 0 && s.queue.len() > 0 {
        lemma_run_explored_grows(m, step(m, s), (fuel - 1) as nat);
    }
}

spec fn model_queue(q: Seq<PartialSchedule>) -> Seq<(Seq<usize>, int)> {
    q.map_values(|x: PartialSchedule| (x.sequence@, x.lower_bound as int))
}

spec fn model(
    q: Seq<PartialSchedule>,
    best: i64,
    best_seq: Seq<usize>,
    explored: usize,
    pruned: usize,
    found_at: usize,
) -> SearchState {
    SearchState {
        queue: model_queue(q),
        best: best as int,
        best_seq,
        explored: explored as int,
        pruned: pruned as int,
        found_at: found_at as int,
    }
}

/// Index of the first node with the smallest lower bound.
fn select_min(queue: &Vec<PartialSchedule>) -> (r: usize)
    requires
        queue@.len() > 0,
    ensures
        r < queue@.len(),
        forall|t: int| 0 <= t < queue@.len() ==> queue@[r as int].lower_bound <= #[trigger] queue@[t].lower_bound,
        forall|t: int| 0 <= t < r ==> queue@[r as int].lower_bound < #[trigger] queue@[t].lower_bound,
        r as int == first_min(model_queue(queue@)),
{
    let ghost mq = model_queue(queue@);
    let mut best: usize = 0;
    let mut t: usize = 1;
    assert(mq.take(1).len() == 1);
    while t < queue.len()
        invariant
            1 <= t <= queue@.len(),
            mq == model_queue(queue@),
            best as int == first_min(mq.take(t as int)),
            best < t,
            forall|c: int| 0 <= c < t ==> queue@[best as int].lower_bound <= #[trigger] queue@[c].lower_bound,
            forall|c: int| 0 <= c < best ==> queue@[best as int].lower_bound < #[trigger] queue@[c].lower_bound,
        decreases queue@.len() - t,
    {
        assert(mq.take(t + 1).drop_last() =~= mq.take(t as int));
        if queue[t].lower_bound < queue[best].lower_bound {
            best = t;
        }
        t = t + 1;
    }
    assert(mq.take(t as int) =~= mq);
    best
}

/// A result with a permutation of minimal makespan.
pub open spec fn optimal_result(m: Seq<Vec<i32>>, res: AlgResult) -> bool {
    &&& is_perm(res.sequence@, m.len() as int)
    &&& result_for(res, m, res.sequence@)
    &&& forall|p: Seq<usize>| #[trigger] is_perm(p, m.len() as int) ==> res.makespan <= makespan_of(m, p)
}

/// What the solver may report as a failure.
pub open spec fn search_error(m: Seq<Vec<i32>>, time_limit_ms: u64, node_limit: usize, e: ScheduleError) -> bool {
    if !valid_matrix(m, 2) {
        validation_error(m, 2, e)
    } else if m.len() > MAX_UNLIMITED_JOBS && node_limit == 0 && time_limit_ms == 0 {
        e == (ScheduleError::TooManyJobs { limit: MAX_UNLIMITED_JOBS, found: m.len() as usize })
    } else {
        match e {
            ScheduleError::NodeLimitExceeded { explored, limit } => node_limit > 0 && limit == node_limit
                && explored == node_limit + 1 && node_limit < search_nodes(m),
            ScheduleError::TimeLimitExceeded { limit_ms, explored: _ } => time_limit_ms > 0 && limit_ms
                == time_limit_ms,
            _ => false,
        }
    }
}

/// What a successful search returns: the sequence and counters of
/// `search_outcome`, an optimal result, and the number of permutations.
pub open spec fn search_result(m: Seq<Vec<i32>>, res: AlgResult, stats: BranchAndBoundStats) -> bool {
    &&& res.sequence@ == search_outcome(m).best_seq
    &&& stats.nodes_explored == search_outcome(m).explored
    &&& stats.nodes_pruned == search_outcome(m).pruned
    &&& stats.best_found_at_node == search_outcome(m).found_at
    &&& valid_matrix(m, 2)
    &&& optimal_result(m, res)
    &&& res.method_name@ == "Branch and Bound"@
    &&& stats.total_permutations as nat == if factorial(m.len() as nat) <= u128::MAX {
        factorial(m.len() as nat)
    } else {
        u128::MAX as nat
    }
    &&& 1 <= stats.best_found_at_node <= stats.nodes_explored
}

/// Finds a job order of minimal makespan by best-first branch and bound:
/// the node with the smallest lower bound (the earliest queued among
/// equals) is expanded first, its children are queued in job order, and
/// nodes whose bound reaches the best makespan found so far are pruned. A
/// limit of 0 means no limit; when a limit is exceeded the search fails.
/// Without a time limit the run is the one that `search_outcome` describes:
/// it fails exactly when a node limit is set below `search_nodes`, and
/// otherwise returns that outcome's sequence and counters.
pub fn algorithm(matrix: &Vec<Vec<i32>>, time_limit_ms: u64, node_limit: usize) -> (r: Result<
    (AlgResult, BranchAndBoundStats),
    ScheduleError,
>)
    ensures
        r matches Err(e) ==> search_error(matrix@, time_limit_ms, node_limit, e),
        valid_matrix(matrix@, 2) && node_limit == 0 && time_limit_ms == 0 && matrix@.len() <= MAX_UNLIMITED_JOBS
            ==> r is Ok,
        valid_matrix(matrix@, 2) && matrix@.len() > MAX_UNLIMITED_JOBS && node_limit == 0 && time_limit_ms == 0
            ==> (r matches Err(e) && e == (ScheduleError::TooManyJobs {
            limit: MAX_UNLIMITED_JOBS,
            found: matrix@.len() as usize,
        })),
        time_limit_ms == 0 && valid_matrix(matrix@, 2) && !(matrix@.len() > MAX_UNLIMITED_JOBS && node_limit == 0)
            ==> if node_limit == 0 || node_limit >= search_nodes(matrix@) {
            r is Ok
        } else {
            r matches Err(e) && e == (ScheduleError::NodeLimitExceeded {
                explored: (node_limit + 1) as usize,
                limit: node_limit,
            })
        },
        r matches Ok((res, stats)) ==> valid_matrix(matrix@, 2) && search_result(matrix@, res, stats),
{
    validate_matrix(matrix, 2)?;
    let ghost m = matrix@;
    let num_jobs = matrix.len();
    let num_machines = matrix[0].len();
    if num_jobs > MAX_UNLIMITED_JOBS && node_limit == 0 && time_limit_ms == 0 {
        return Err(ScheduleError::TooManyJobs { limit: MAX_UNLIMITED_JOBS, found: num_jobs });
    }
    let start_time = std::time::Instant::now();
    let ghost n = num_jobs as int;
    let mut queue: Vec<PartialSchedule> = Vec::new();
    let mut initial = PartialSchedule::new(num_jobs, Ghost(m));
    initial.lower_bound = initial.calculate_lower_bound(matrix, num_jobs);
    queue.push(initial);
    let mut best_makespan: i64 = i64::MAX;
    let mut best_sequence: Vec<usize> = Vec::new();
    let mut best_schedule: Vec<Vec<(i32, i32)>> = Vec::new();
    let mut nodes_explored: usize = 0;
    let mut nodes_pruned: usize = 0;
    let mut best_found_at_node: usize = 0;
    let ghost mut fuel: nat = subtree_size(n as nat);
    proof {
        assert forall|p: Seq<usize>| #[trigger] is_perm(p, n) implies makespan_of(m, p) >= best_makespan || exists|t: int|
            0 <= t < queue@.len() && extends(p, queue@[t].sequence@) by {
            assert(p.subrange(0, 0) =~= queue@[0].sequence@);
        }
        assert(queue@[0].sequence@ =~= Seq::<usize>::empty());
        assert(model_queue(queue@)[0] == initial_state(m).queue[0]);
        assert(model_queue(queue@) =~= initial_state(m).queue);
        assert(model(queue@, best_makespan, best_sequence@, nodes_explored, nodes_pruned, best_found_at_node)
            == initial_state(m));
        lemma_potential_push(n, Seq::<PartialSchedule>::empty(), queue@[0]);
        assert(Seq::<PartialSchedule>::empty().push(queue@[0]) =~= queue@);
    }
    while queue.len() > 0
        invariant
            m == matrix@,
            valid_matrix(m, 2),
            n == num_jobs,
            num_jobs == m.len(),
            num_machines == machines(m),
            forall|t: int| 0 <= t < queue@.len() ==> #[trigger] queue@[t].ready(m),
            forall|p: Seq<usize>| #[trigger] is_perm(p, n) ==> makespan_of(m, p) >= best_makespan || exists|t: int|
                0 <= t < queue@.len() && extends(p, queue@[t].sequence@),
            best_makespan < i64::MAX ==> {
                &&& is_perm(best_sequence@, n)
                &&& best_makespan == makespan_of(m, best_sequence@)
                &&& schedule_matches(best_schedule@, m, best_sequence@)
                &&& 1 <= best_found_at_node <= nodes_explored
            },
            best_makespan == i64::MAX ==> best_sequence@.len() == 0,
            node_limit > 0 ==> nodes_explored <= node_limit,
            search_outcome(m) == run(
                m,
                model(queue@, best_makespan, best_sequence@, nodes_explored, nodes_pruned, best_found_at_node),
                fuel,
            ),
            potential(n, queue@) <= fuel,
        decreases potential(n, queue@),
    {
        let ghost q0 = queue@;
        let ghost s0 = model(queue@, best_makespan, best_sequence@, nodes_explored, nodes_pruned, best_found_at_node);
        let idx = select_min(&queue);
        let partial = queue.remove(idx);
        proof {
            assert(model_queue(queue@) =~= model_queue(q0).remove(idx as int));
            assert(model_queue(q0)[idx as int] == (partial.sequence@, partial.lower_bound as int));
            lemma_potential_remove(n, q0, idx as int);
            lemma_subtree_pos((n - partial.sequence@.len()) as nat);
            assert forall|p: Seq<usize>| #[trigger] is_perm(p, n) implies makespan_of(m, p) >= best_makespan || (exists|t: int|
                0 <= t < queue@.len() && extends(p, queue@[t].sequence@)) || extends(p, partial.sequence@) by {
                if makespan_of(m, p) < best_makespan {
                    let t = choose|t: int| 0 <= t < q0.len() && extends(p, q0[t].sequence@);
                    if t < idx {
                        assert(queue@[t] == q0[t]);
                    } else if t > idx {
                        assert(queue@[t - 1] == q0[t]);
                    }
                }
            }
            assert forall|t: int| 0 <= t < queue@.len() implies #[trigger] queue@[t].ready(m) by {
                if t < idx {
                    assert(queue@[t] == q0[t]);
                } else {
                    assert(queue@[t] == q0[t + 1]);
                }
            }
            assert(q0[idx as int].ready(m));
        }
        let ghost q1 = queue@;
        let ghost p0 = nodes_pruned;
        proof {
            assert(fuel > 0);
            assert(run(m, s0, fuel) == run(m, step(m, s0), (fuel - 1) as nat));
        }
        nodes_explored = nodes_explored.saturating_add(1);
        assert(step(m, s0).explored == nodes_explored);
        if node_limit > 0 && nodes_explored > node_limit {
            proof {
                lemma_run_explored_grows(m, step(m, s0), (fuel - 1) as nat);
            }
            return Err(ScheduleError::NodeLimitExceeded { explored: nodes_explored, limit: node_limit });
        }
        if time_limit_ms > 0 && millis_since(&start_time) > time_limit_ms as u128 {
            return Err(ScheduleError::TimeLimitExceeded { limit_ms: time_limit_ms, explored: nodes_explored });
        }
        if partial.lower_bound >= best_makespan {
            nodes_pruned = nodes_pruned.saturating_add(1);
            proof {
                assert forall|p: Seq<usize>| #[trigger] is_perm(p, n) && extends(p, partial.sequence@) implies makespan_of(m, p)
                    >= best_makespan by {
                    crate::bounds::lemma_lower_bound_valid(m, partial.sequence@, p);
                }
            }
        } else if partial.is_complete(num_jobs) {
            proof {
                assert forall|p: Seq<usize>| #[trigger] is_perm(p, n) && extends(p, partial.sequence@) implies p
                    == partial.sequence@ by {
                    assert(p =~= p.subrange(0, n));
                }
            }
            if (partial.current_makespan as i64) < best_makespan {
                best_makespan = partial.current_makespan as i64;
                best_sequence = partial.sequence;
                best_schedule = partial.schedule;
                best_found_at_node = nodes_explored;
            }
        } else {
            let ghost x = partial.sequence@;
            let ghost l = x.len() as int;
            let remaining = partial.remaining_jobs(num_jobs);
            proof {
                lemma_remaining_count(m, x, remaining@, partial.remaining@);
            }
            let ghost rem = remaining@;
            let ghost child_weight = subtree_size((n - l - 1) as nat);
            let mut t: usize = 0;
            while t < remaining.len()
                invariant
                    m == matrix@,
                    valid_matrix(m, 2),
                    n == num_jobs,
                    num_jobs == m.len(),
                    partial.ready(m),
                    x == partial.sequence@,
                    l == x.len(),
                    l < n,
                    partial.lower_bound < best_makespan,
                    child_weight == subtree_size((n - l - 1) as nat),
                    0 <= t <= remaining@.len(),
                    remaining@.len() <= n - l,
                    forall|c: int| 0 <= c < remaining@.len() ==> (remaining@[c] as int) < n && partial.remaining@[remaining@[c] as int],
                    forall|j: int| 0 <= j < n && partial.remaining@[j] ==> remaining@.contains(j as usize),
                    forall|c: int| 0 <= c < queue@.len() ==> #[trigger] queue@[c].ready(m),
                    forall|p: Seq<usize>| #[trigger] is_perm(p, n) ==> makespan_of(m, p) >= best_makespan || (exists|c: int|
                        0 <= c < queue@.len() && extends(p, queue@[c].sequence@)) || (extends(p, x) && forall|u: int|
                        0 <= u < t ==> remaining@[u] != p[l]),
                    potential(n, queue@) <= potential(n, q1) + t * child_weight,
                    rem == remaining@,
                    expand(m, x, rem, 0, model_queue(q1), best_makespan as int, p0 as int) == expand(
                        m,
                        x,
                        rem,
                        t as int,
                        model_queue(queue@),
                        best_makespan as int,
                        nodes_pruned as int,
                    ),
                decreases remaining@.len() - t,
            {
                let job_idx = remaining[t];
                let mut child = partial.duplicate();
                proof {
                    lemma_duplicate_wf(m, &partial, &child);
                }
                child.add_job(job_idx, matrix);
                child.lower_bound = child.calculate_lower_bound(matrix, num_jobs);
                let ghost cx = child.sequence@;
                proof {
                    assert forall|p: Seq<usize>| #[trigger] is_perm(p, n) && extends(p, x) && p[l] == job_idx implies extends(p, cx) by {
                        assert forall|c: int| 0 <= c < cx.len() implies p.subrange(0, cx.len() as int)[c] == cx[c] by {
                            if c < l {
                                assert(p.subrange(0, l)[c] == x[c]);
                            }
                        }
                        assert(p.subrange(0, cx.len() as int) =~= cx);
                    }
                }
                assert(cx == x.push(rem[t as int]));
                if child.lower_bound < best_makespan {
                    let ghost qa = queue@;
                    queue.push(child);
                    proof {
                        assert(model_queue(queue@) =~= model_queue(qa).push((cx, lower_bound_of(m, cx))));
                        lemma_potential_push(n, qa, queue@.last());
                        assert(queue@[qa.len() as int].sequence@ == cx);
                        assert forall|p: Seq<usize>| #[trigger] is_perm(p, n) implies makespan_of(m, p) >= best_makespan || (exists|c: int|
                            0 <= c < queue@.len() && extends(p, queue@[c].sequence@)) || (extends(p, x) && forall|u: int|
                            0 <= u < t + 1 ==> remaining@[u] != p[l]) by {
                            if makespan_of(m, p) < best_makespan {
                                if exists|c: int| 0 <= c < qa.len() && extends(p, qa[c].sequence@) {
                                    let c = choose|c: int| 0 <= c < qa.len() && extends(p, qa[c].sequence@);
                                    assert(queue@[c] == qa[c]);
                                } else if extends(p, x) && p[l] == job_idx {
                                    assert(extends(p, queue@[qa.len() as int].sequence@));
                                }
                            }
                        }
                        assert(t * child_weight + child_weight == (t + 1) * child_weight) by (nonlinear_arith);
                    }
                } else {
                    nodes_pruned = nodes_pruned.saturating_add(1);
                    proof {
                        assert forall|p: Seq<usize>| #[trigger] is_perm(p, n) implies makespan_of(m, p) >= best_makespan || (exists|c: int|
                            0 <= c < queue@.len() && extends(p, queue@[c].sequence@)) || (extends(p, x) && forall|u: int|
                            0 <= u < t + 1 ==> remaining@[u] != p[l]) by {
                            if extends(p, x) && p[l] == job_idx {
                                crate::bounds::lemma_lower_bound_valid(m, cx, p);
                            }
                        }
                        assert(t * child_weight <= (t + 1) * child_weight) by (nonlinear_arith);
                    }
                }
                t = t + 1;
            }
            proof {
                assert(rem == jobs_not_in(x, n));
                assert forall|p: Seq<usize>| #[trigger] is_perm(p, n) implies makespan_of(m, p) >= best_makespan || exists|c: int|
                    0 <= c < queue@.len() && extends(p, queue@[c].sequence@) by {
                    if extends(p, x) {
                        lemma_next_job_remaining(m, x, p, partial.remaining@);
                        let u = choose|u: int| 0 <= u < remaining@.len() && remaining@[u] == p[l];
                    }
                }
                let r = (n - l) as nat;
                assert(remaining@.len() * child_weight <= r * child_weight) by (nonlinear_arith)
                    requires remaining@.len() <= r;
                assert(subtree_size(r) == 1 + r * child_weight);
            }
        }
        assert(model(queue@, best_makespan, best_sequence@, nodes_explored, nodes_pruned, best_found_at_node) == step(
            m,
            s0,
        ));
        proof {
            fuel = (fuel - 1) as nat;
        }
    }
    assert(model(queue@, best_makespan, best_sequence@, nodes_explored, nodes_pruned, best_found_at_node)
        == search_outcome(m));
    if best_sequence.len() == 0 {
        proof {
            lemma_identity_perm(n);
            lemma_end_bounded(m, identity(n), n - 1, machines(m) - 1);
            assert(is_perm(identity(n), n));
        }
        return Err(ScheduleError::NoSolution);
    }
    let idle_times = idle_times_of(matrix, &best_schedule, Ghost(best_sequence@));
    proof {
        assert(crate::timing::row_matches(best_schedule@[n - 1]@, m, best_sequence@, n - 1));
        lemma_end_bounded(m, best_sequence@, n - 1, machines(m) - 1);
    }
    let result = AlgResult {
        sequence: best_sequence,
        schedule: best_schedule,
        makespan: best_makespan as i32,
        idle_times,
        method_name: "Branch and Bound".to_string(),
    };
    let elapsed = millis_since(&start_time);
    let time_ms: u64 = if elapsed > u64::MAX as u128 { u64::MAX } else { elapsed as u64 };
    let stats = BranchAndBoundStats {
        nodes_explored,
        nodes_pruned,
        best_found_at_node,
        total_permutations: total_permutations(num_jobs),
        time_ms,
    };
    Ok((result, stats))
}

proof fn lemma_subtree_pos(r: nat)
    ensures
        subtree_size(r) >= 1,
{
}

/// A copy of a well-formed node is well formed.
proof fn lemma_duplicate_wf(m: Seq<Vec<i32>>, a: &PartialSchedule, b: &PartialSchedule)
    requires
        a.wf(m),
        b.sequence@ == a.sequence@,
        b.remaining@ == a.remaining@,
        b.schedule@.len() == a.schedule@.len(),
        forall|p: int| 0 <= p < b.schedule@.len() ==> #[trigger] b.schedule@[p]@ == a.schedule@[p]@,
        b.current_makespan == a.current_makespan,
    ensures
        b.wf(m),
{
    assert forall|p: int| 0 <= p < b.schedule@.len() implies row_matches(#[trigger] b.schedule@[p]@, m, b.sequence@, p) by {
        assert(row_matches(a.schedule@[p]@, m, a.sequence@, p));
    }
}

/// The jobs left to place are at most the jobs not yet placed.
proof fn lemma_remaining_count(m: Seq<Vec<i32>>, x: Seq<usize>, rem: Seq<usize>, flags: Seq<bool>)
    requires
        partial_ok(m, x),
        flags.len() == m.len(),
        forall|j: int| 0 <= j < m.len() ==> #[trigger] flags[j] == !x.contains(j as usize),
        forall|t: int| 0 <= t < rem.len() ==> (rem[t] as int) < m.len() && flags[rem[t] as int],
        forall|a: int, b: int| 0 <= a < b < rem.len() ==> rem[a] < rem[b],
    ensures
        rem.len() <= m.len() - x.len(),
{
    let both = rem + x;
    assert forall|a: int, b: int| 0 <= a < both.len() && 0 <= b < both.len() && a != b implies both[a] != both[b] by {
        if a < rem.len() && b < rem.len() {
            if a > b {
                assert(rem[b] < rem[a]);
            }
        } else if a < rem.len() {
            assert(flags[rem[a] as int]);
            assert(x[b - rem.len()] == both[b]);
            if both[a] == both[b] {
                assert(x.contains(rem[a]));
            }
        } else if b < rem.len() {
            assert(flags[rem[b] as int]);
            assert(x[a - rem.len()] == both[a]);
            if both[a] == both[b] {
                assert(x.contains(rem[b]));
            }
        } else {
            assert(x[a - rem.len()] != x[b - rem.len()]);
        }
    }
    crate::timing::lemma_distinct_len(both, m.len() as int);
}

/// In a permutation that extends `x`, the job after `x` is not in `x`.
proof fn lemma_next_job_remaining(m: Seq<Vec<i32>>, x: Seq<usize>, p: Seq<usize>, flags: Seq<bool>)
    requires
        partial_ok(m, x),
        x.len() < m.len(),
        is_perm(p, m.len() as int),
        extends(p, x),
        flags.len() == m.len(),
        forall|j: int| 0 <= j < m.len() ==> #[trigger] flags[j] == !x.contains(j as usize),
    ensures
        flags[p[x.len() as int] as int],
{
    let l = x.len() as int;
    if x.contains(p[l]) {
        let c = choose|c: int| 0 <= c < l && x[c] == p[l];
        assert(p.subrange(0, l)[c] == x[c]);
    }
}

/// Share of pruned nodes among all nodes counted, in hundredths of a
/// percent, rounded to the nearest (halves up); zero when nothing was
/// counted.
pub open spec fn pruned_hundredths(pruned: int, explored: int) -> int {
    if pruned + explored == 0 {
        0
    } else {
        (pruned * 20000 + (pruned + explored)) / (2 * (pruned + explored))
    }
}

/// A number of hundredths written with two decimals.
pub open spec fn two_decimals(h: int) -> Seq<char> {
    dec(h / 100) + "."@ + if h % 100 < 10 {
        "0"@ + dec(h % 100)
    } else {
        dec(h % 100)
    }
}

/// The text of a branch-and-bound report: search statistics, whether the
/// result is the proven optimum, then the sequence and its schedule.
pub open spec fn search_report(m: Seq<Vec<i32>>, r: AlgResult, st: BranchAndBoundStats) -> Seq<char> {
    "Статистика поиска:\n"@ + "  Исследовано узлов:       "@ + rjust(dec(st.nodes_explored as int), 10) + "\n"@
        + "  Отсечено узлов:          "@ + rjust(dec(st.nodes_pruned as int), 10) + "\n"@
        + "  Лучшее решение найдено:  на узле #"@ + dec(st.best_found_at_node as int) + "\n"@
        + "  Всего перестановок ("@ + dec(m.len() as int) + "!): "@ + rjust(dec(st.total_permutations as int), 10)
        + "\n"@ + "  Эффективность отсечения: "@ + rjust(
        two_decimals(pruned_hundredths(st.nodes_pruned as int, st.nodes_explored as int)),
        9,
    ) + "%\n"@ + "  Время выполнения:        "@ + dec(st.time_ms as int) + " мс\n"@ + "\n"@ + (if st.nodes_explored
        < st.total_permutations {
        "Гарантированно оптимальное решение (все перспективные варианты исследованы)"@
    } else {
        "Решение может быть неоптимальным (достигнуты лимиты поиска)"@
    }) + "\n\n"@ + "Оптимальная последовательность:\n"@ + "  "@ + job_list(r.sequence@, r.sequence@.len() as int)
        + "\n"@ + "\n"@ + schedule_section(machines(m), r)
}

/// The share of pruned nodes, with two decimals.
fn pruned_percent_text(pruned: usize, explored: usize) -> (r: String)
    ensures
        r@ == two_decimals(pruned_hundredths(pruned as int, explored as int)),
{
    let total: u128 = pruned as u128 + explored as u128;
    let h: u128 = if total == 0 { 0 } else { (pruned as u128 * 20000 + total) / (2 * total) };
    let mut r = String::new();
    push_unsigned(&mut r, h / 100);
    r.append(".");
    if h % 100 < 10 {
        r.append("0");
    }
    push_unsigned(&mut r, h % 100);
    assert(r@ =~= two_decimals(pruned_hundredths(pruned as int, explored as int)));
    r
}

/// Renders a branch-and-bound result and its statistics as text.
pub fn format_result(result: &AlgResult, stats: &BranchAndBoundStats, matrix: &Vec<Vec<i32>>) -> (r: String)
    requires
        valid_matrix(matrix@, 1),
        result_for(*result, matrix@, result.sequence@),
    ensures
        r@ == search_report(matrix@, *result, *stats),
{
    let mut output = String::new();
    output.append("Статистика поиска:\n");
    output.append("  Исследовано узлов:       ");
    push_rjust(&mut output, &unsigned_text(stats.nodes_explored as u128), 10);
    output.append("\n");
    output.append("  Отсечено узлов:          ");
    push_rjust(&mut output, &unsigned_text(stats.nodes_pruned as u128), 10);
    output.append("\n");
    output.append("  Лучшее решение найдено:  на узле #");
    push_unsigned(&mut output, stats.best_found_at_node as u128);
    output.append("\n");
    output.append("  Всего перестановок (");
    push_unsigned(&mut output, matrix.len() as u128);
    output.append("!): ");
    push_rjust(&mut output, &unsigned_text(stats.total_permutations), 10);
    output.append("\n");
    output.append("  Эффективность отсечения: ");
    push_rjust(&mut output, &pruned_percent_text(stats.nodes_pruned, stats.nodes_explored), 9);
    output.append("%\n");
    output.append("  Время выполнения:        ");
    push_unsigned(&mut output, stats.time_ms as u128);
    output.append(" мс\n");
    output.append("\n");
    if stats.is_provably_optimal() {
        output.append("Гарантированно оптимальное решение (все перспективные варианты исследованы)");
    } else {
        output.append("Решение может быть неоптимальным (достигнуты лимиты поиска)");
    }
    output.append("\n\n");
    output.append("Оптимальная последовательность:\n");
    output.append("  ");
    push_job_list(&mut output, &result.sequence);
    output.append("\n");
    output.append("\n");
    push_schedule_section(&mut output, result, matrix);
    assert(output@ =~= search_report(matrix@, *result, *stats));
    output
}

} // verus!
