//! Exhaustive search over every job order.

use vstd::prelude::*;
use crate::matrix::{ScheduleError, valid_matrix, validate_matrix, validation_error};
use crate::common::{AlgResult, copy_sequence, identity, result_and_baseline, result_for, timing_of};
use crate::timing::{is_perm, makespan_of, no_dups};
use crate::bounds::extends;

verus! {

/// Largest job count that exhaustive search accepts.
pub const MAX_JOBS: usize = 10;

/// `p` and `q` agree before position `k` and `p` is smaller there.
pub open spec fn lex_less_at(p: Seq<usize>, q: Seq<usize>, k: int) -> bool {
    &&& 0 <= k < p.len()
    &&& k < q.len()
    &&& forall|c: int| 0 <= c < k ==> p[c] == q[c]
    &&& p[k] < q[k]
}

/// `p` comes before `q` in lexicographic order.
pub open spec fn lex_less(p: Seq<usize>, q: Seq<usize>) -> bool {
    exists|k: int| #[trigger] lex_less_at(p, q, k)
}

/// Lexicographic order is asymmetric.
pub proof fn lemma_lex_asymmetric(p: Seq<usize>, q: Seq<usize>)
    ensures
        !(lex_less(p, q) && lex_less(q, p)),
{
    if lex_less(p, q) && lex_less(q, p) {
        let k1 = choose|k: int| #[trigger] lex_less_at(p, q, k);
        let k2 = choose|k: int| #[trigger] lex_less_at(q, p, k);
        if k1 < k2 {
            assert(q[k1] == p[k1]);
        } else if k2 < k1 {
            assert(p[k2] == q[k2]);
        }
    }
}

/// Whether `job` occurs in `cur`.
fn occurs(cur: &Vec<usize>, job: usize) -> (r: bool)
    ensures
        r == cur@.contains(job),
{
    let mut i: usize = 0;
    while i < cur.len()
        invariant
            0 <= i <= cur@.len(),
            forall|c: int| 0 <= c < i ==> cur@[c] != job,
        decreases cur@.len() - i,
    {
        if cur[i] == job {
            return true;
        }
        i = i + 1;
    }
    false
}

/// Appends to `res` every permutation of `0..n` that starts with `cur`, in
/// lexicographic order.
pub fn generate_perms(n: usize, cur: &mut Vec<usize>, res: &mut Vec<Vec<usize>>)
    requires
        old(cur)@.len() <= n,
        no_dups(old(cur)@),
        forall|c: int| 0 <= c < old(cur)@.len() ==> old(cur)@[c] < n,
    ensures
        final(cur)@ == old(cur)@,
        final(res)@.len() >= old(res)@.len(),
        forall|i: int| 0 <= i < old(res)@.len() ==> final(res)@[i] == old(res)@[i],
        forall|i: int|
            old(res)@.len() <= i < final(res)@.len() ==> is_perm(#[trigger] final(res)@[i]@, n as int) && extends(
                final(res)@[i]@,
                old(cur)@,
            ),
        forall|p: Seq<usize>|
            #[trigger] is_perm(p, n as int) && extends(p, old(cur)@) ==> exists|i: int|
                old(res)@.len() <= i < final(res)@.len() && final(res)@[i]@ == p,
        forall|a: int, b: int|
            old(res)@.len() <= a < b < final(res)@.len() ==> lex_less(#[trigger] final(res)@[a]@, #[trigger] final(res)@[b]@),
    decreases n - old(cur)@.len(),
{
    let ghost cur0 = cur@;
    let ghost res0 = res@;
    if cur.len() == n {
        let done = copy_sequence(cur);
        res.push(done);
        assert forall|p: Seq<usize>| #[trigger] is_perm(p, n as int) && extends(p, cur0) implies exists|i: int|
            res0.len() <= i < res@.len() && res@[i]@ == p by {
            assert(p =~= p.subrange(0, n as int));
            assert(res@[res0.len() as int]@ == p);
        }
        assert(extends(cur0, cur0)) by {
            assert(cur0.subrange(0, cur0.len() as int) =~= cur0);
        }
        return;
    }
    let mut i: usize = 0;
    while i < n
        invariant
            0 <= i <= n,
            cur@ == cur0,
            cur0 == old(cur)@,
            cur0.len() < n,
            no_dups(cur0),
            forall|c: int| 0 <= c < cur0.len() ==> cur0[c] < n,
            res@.len() >= res0.len(),
            forall|t: int| 0 <= t < res0.len() ==> res@[t] == res0[t],
            forall|t: int|
                res0.len() <= t < res@.len() ==> is_perm(#[trigger] res@[t]@, n as int) && extends(res@[t]@, cur0),
            forall|p: Seq<usize>|
                #[trigger] is_perm(p, n as int) && extends(p, cur0) && p[cur0.len() as int] < i ==> exists|t: int|
                    res0.len() <= t < res@.len() && res@[t]@ == p,
            forall|t: int| res0.len() <= t < res@.len() ==> (#[trigger] res@[t]@)[cur0.len() as int] < i,
            forall|a: int, b: int|
                res0.len() <= a < b < res@.len() ==> lex_less(#[trigger] res@[a]@, #[trigger] res@[b]@),
        decreases n - i,
    {
        if !occurs(cur, i) {
            let ghost res1 = res@;
            cur.push(i);
            let ghost cur1 = cur@;
            assert(no_dups(cur1)) by {
                assert forall|a: int, b: int| 0 <= a < cur1.len() && 0 <= b < cur1.len() && a != b implies cur1[a]
                    != cur1[b] by {
                    if a < cur0.len() && b < cur0.len() {
                        assert(cur1[a] == cur0[a] && cur1[b] == cur0[b]);
                    } else if a < cur0.len() {
                        assert(cur1[a] == cur0[a]);
                        assert(cur0.contains(cur1[a]));
                    } else if b < cur0.len() {
                        assert(cur1[b] == cur0[b]);
                        assert(cur0.contains(cur1[b]));
                    }
                }
            }
            assert(cur@.len() == cur0.len() + 1);
            generate_perms(n, cur, res);
            cur.pop();
            assert(cur@ =~= cur0);
            assert forall|t: int| res0.len() <= t < res@.len() implies is_perm(#[trigger] res@[t]@, n as int)
                && extends(res@[t]@, cur0) by {
                if t >= res1.len() {
                    let q = res@[t]@;
                    assert(q.subrange(0, cur0.len() as int) =~= q.subrange(0, cur1.len() as int).subrange(
                        0,
                        cur0.len() as int,
                    ));
                    assert(cur1.subrange(0, cur0.len() as int) =~= cur0);
                }
            }
            assert forall|t: int| res0.len() <= t < res@.len() implies (#[trigger] res@[t]@)[cur0.len() as int] < i + 1 by {
                if t >= res1.len() {
                    assert(res@[t]@.subrange(0, cur1.len() as int)[cur0.len() as int] == cur1[cur0.len() as int]);
                }
            }
            assert forall|a: int, b: int|
                res0.len() <= a < b < res@.len() implies lex_less(#[trigger] res@[a]@, #[trigger] res@[b]@) by {
                if a < res1.len() && b >= res1.len() {
                    let x = res@[a]@;
                    let y = res@[b]@;
                    let k = cur0.len() as int;
                    assert(y.subrange(0, cur1.len() as int)[k] == cur1[k]);
                    assert forall|c: int| 0 <= c < k implies x[c] == y[c] by {
                        assert(x.subrange(0, k)[c] == cur0[c]);
                        assert(y.subrange(0, cur1.len() as int)[c] == cur1[c]);
                    }
                    assert(lex_less_at(x, y, k));
                }
            }
            assert forall|p: Seq<usize>|
                #[trigger] is_perm(p, n as int) && extends(p, cur0) && p[cur0.len() as int] < i + 1 implies exists|t: int|
                res0.len() <= t < res@.len() && res@[t]@ == p by {
                if p[cur0.len() as int] == i {
                    assert(p.subrange(0, cur1.len() as int) =~= cur1) by {
                        assert forall|c: int| 0 <= c < cur1.len() implies p.subrange(0, cur1.len() as int)[c] == cur1[c] by {
                            if c < cur0.len() {
                                assert(p.subrange(0, cur0.len() as int)[c] == cur0[c]);
                            }
                        }
                    }
                    assert(extends(p, cur1));
                } else {
                    let t = choose|t: int| res0.len() <= t < res1.len() && res1[t]@ == p;
                    assert(res@[t]@ == p);
                }
            }
        } else {
            assert forall|p: Seq<usize>|
                #[trigger] is_perm(p, n as int) && extends(p, cur0) && p[cur0.len() as int] < i + 1 implies exists|t: int|
                res0.len() <= t < res@.len() && res@[t]@ == p by {
                if p[cur0.len() as int] == i {
                    let c = choose|c: int| 0 <= c < cur0.len() && cur0[c] == i;
                    assert(p.subrange(0, cur0.len() as int)[c] == cur0[c]);
                    assert(p[c] == p[cur0.len() as int]);
                }
            }
        }
        i = i + 1;
    }
    assert forall|p: Seq<usize>| #[trigger] is_perm(p, n as int) && extends(p, cur0) implies exists|t: int|
        res0.len() <= t < res@.len() && res@[t]@ == p by {
        assert(p[cur0.len() as int] < n);
    }
}

/// What exhaustive search reports for a matrix it refuses.
pub open spec fn brute_force_error(m: Seq<Vec<i32>>, e: ScheduleError) -> bool {
    if m.len() > MAX_JOBS {
        e == (ScheduleError::TooManyJobs { limit: MAX_JOBS, found: m.len() as usize })
    } else {
        validation_error(m, 1, e)
    }
}

/// The outcome of exhaustive search: a permutation of minimal makespan,
/// the first such in lexicographic order, its timing, and the makespan of
/// the jobs in index order.
pub open spec fn exhaustive_outcome(m: Seq<Vec<i32>>, res: AlgResult, baseline: i32) -> bool {
    &&& is_perm(res.sequence@, m.len() as int)
    &&& result_for(res, m, res.sequence@)
    &&& forall|p: Seq<usize>| #[trigger] is_perm(p, m.len() as int) ==> res.makespan <= makespan_of(m, p)
    &&& forall|p: Seq<usize>|
        #[trigger] is_perm(p, m.len() as int) && lex_less(p, res.sequence@) ==> res.makespan < makespan_of(m, p)
    &&& baseline as int == makespan_of(m, identity(m.len() as int))
}

/// Tries every job order, in lexicographic order, and keeps the first one
/// with the smallest makespan; also returns the makespan of the jobs in
/// index order.
pub fn brute_force(matrix: &Vec<Vec<i32>>) -> (r: Result<(AlgResult, i32), ScheduleError>)
    ensures
        r is Ok <==> valid_matrix(matrix@, 1) && matrix@.len() <= MAX_JOBS,
        r matches Err(e) ==> brute_force_error(matrix@, e),
        r matches Ok((res, baseline)) ==> exhaustive_outcome(matrix@, res, baseline),
        r matches Ok((res, baseline)) ==> res.method_name@ == "Метод полного перебора (финальный)"@,
{
    let n = matrix.len();
    if n > MAX_JOBS {
        return Err(ScheduleError::TooManyJobs { limit: MAX_JOBS, found: n });
    }
    validate_matrix(matrix, 1)?;
    let ghost m = matrix@;
    let mut perms: Vec<Vec<usize>> = Vec::new();
    let mut start: Vec<usize> = Vec::new();
    generate_perms(n, &mut start, &mut perms);
    let ghost first = crate::common::identity(n as int);
    proof {
        assert(first.subrange(0, 0) =~= Seq::<usize>::empty());
        assert(is_perm(first, n as int));
    }
    let mut best_idx: usize = 0;
    let (_, first_makespan, _) = timing_of(matrix, &perms[0]);
    let mut best_makespan: i32 = first_makespan;
    let mut i: usize = 1;
    while i < perms.len()
        invariant
            1 <= i <= perms@.len(),
            m == matrix@,
            valid_matrix(m, 1),
            n == m.len(),
            0 <= best_idx < perms@.len(),
            forall|t: int| 0 <= t < perms@.len() ==> is_perm(#[trigger] perms@[t]@, n as int),
            best_makespan as int == makespan_of(m, perms@[best_idx as int]@),
            forall|t: int| 0 <= t < i ==> best_makespan <= makespan_of(m, #[trigger] perms@[t]@),
            forall|t: int| 0 <= t < best_idx ==> best_makespan < makespan_of(m, #[trigger] perms@[t]@),
            best_idx < i,
        decreases perms@.len() - i,
    {
        let (_, makespan, _) = timing_of(matrix, &perms[i]);
        if makespan < best_makespan {
            best_makespan = makespan;
            best_idx = i;
        }
        i = i + 1;
    }
    proof {
        assert forall|p: Seq<usize>| #[trigger] is_perm(p, n as int) implies best_makespan <= makespan_of(m, p) by {
            assert(p.subrange(0, 0) =~= Seq::<usize>::empty());
            assert(extends(p, Seq::<usize>::empty()));
            let t = choose|t: int| 0 <= t < perms@.len() && perms@[t]@ == p;
        }
        assert forall|p: Seq<usize>| #[trigger] is_perm(p, n as int) && lex_less(p, perms@[best_idx as int]@) implies best_makespan
            < makespan_of(m, p) by {
            assert(p.subrange(0, 0) =~= Seq::<usize>::empty());
            assert(extends(p, Seq::<usize>::empty()));
            let t = choose|t: int| 0 <= t < perms@.len() && perms@[t]@ == p;
            lemma_lex_asymmetric(p, perms@[best_idx as int]@);
            if t > best_idx {
                assert(lex_less(perms@[best_idx as int]@, perms@[t]@));
            } else if t == best_idx {
                let k = choose|k: int| #[trigger] lex_less_at(p, p, k);
            }
        }
    }
    let best = copy_sequence(&perms[best_idx]);
    Ok(result_and_baseline(matrix, best, "Метод полного перебора (финальный)"))
}

} // verus!
