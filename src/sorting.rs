//! Stable ordering of jobs by an integer key.

use vstd::prelude::*;
use crate::timing::{is_perm, lemma_perm_contains_all, no_dups};

verus! {

/// Job `x` comes before job `y`: a smaller key, or an equal key and a
/// smaller index.
pub open spec fn key_before(keys: Seq<i128>, x: usize, y: usize) -> bool {
    keys[x as int] < keys[y as int] || (keys[x as int] == keys[y as int] && x < y)
}

/// `r` lists jobs by ascending key, equal keys in index order.
pub open spec fn sorted_by_key(keys: Seq<i128>, r: Seq<usize>) -> bool {
    forall|a: int, b: int| 0 <= a < b < r.len() ==> key_before(keys, #[trigger] r[a], #[trigger] r[b])
}

/// The jobs `0..keys.len()` ordered by ascending key; jobs with equal keys
/// keep their index order.
pub fn sort_indices_by_key(keys: &Vec<i128>) -> (r: Vec<usize>)
    ensures
        is_perm(r@, keys@.len() as int),
        sorted_by_key(keys@, r@),
{
    let n = keys.len();
    let mut r: Vec<usize> = Vec::new();
    let mut i: usize = 0;
    while i < n
        invariant
            0 <= i <= n,
            n == keys@.len(),
            r@.len() == i,
            forall|c: int| 0 <= c < r@.len() ==> r@[c] < i,
            no_dups(r@),
            sorted_by_key(keys@, r@),
        decreases n - i,
    {
        let key = keys[i];
        let mut pos: usize = 0;
        while pos < r.len() && keys[r[pos]] <= key
            invariant
                0 <= pos <= r@.len(),
                r@.len() == i,
                i < n,
                n == keys@.len(),
                key == keys@[i as int],
                forall|c: int| 0 <= c < r@.len() ==> r@[c] < i,
                forall|c: int| 0 <= c < pos ==> keys@[r@[c] as int] <= key,
            decreases r@.len() - pos,
        {
            pos = pos + 1;
        }
        let ghost old_r = r@;
        r.insert(pos, i);
        assert(r@ == old_r.insert(pos as int, i));
        assert forall|a: int, b: int| 0 <= a < b < r@.len() implies key_before(keys@, #[trigger] r@[a], #[trigger] r@[b]) by {
            if b < pos {
                assert(key_before(keys@, old_r[a], old_r[b]));
            } else if b == pos {
                assert(keys@[old_r[a] as int] <= key);
            } else if a == pos {
                assert(pos < old_r.len());
                assert(keys@[old_r[pos as int] as int] > key);
                if pos < b - 1 {
                    assert(key_before(keys@, old_r[pos as int], old_r[b - 1]));
                }
            } else if a < pos {
                assert(key_before(keys@, old_r[a], old_r[b - 1]));
            } else {
                assert(key_before(keys@, old_r[a - 1], old_r[b - 1]));
            }
        }
        assert forall|a: int, b: int| 0 <= a < r@.len() && 0 <= b < r@.len() && a != b implies r@[a] != r@[b] by {
            if a != pos as int && b != pos as int {
                let a0 = if a < pos { a } else { a - 1 };
                let b0 = if b < pos { b } else { b - 1 };
                assert(old_r[a0] != old_r[b0]);
            }
        }
        i = i + 1;
    }
    r
}

/// Two permutations both ordered by the same keys are the same sequence.
pub proof fn lemma_sorted_unique(keys: Seq<i128>, r1: Seq<usize>, r2: Seq<usize>)
    requires
        keys.len() <= usize::MAX,
        is_perm(r1, keys.len() as int),
        is_perm(r2, keys.len() as int),
        sorted_by_key(keys, r1),
        sorted_by_key(keys, r2),
    ensures
        r1 == r2,
{
    let lt = |x: usize, y: usize| key_before(keys, x, y);
    lemma_order_unique(lt, r1, r2, keys.len() as int);
}

/// Two permutations ordered by the same asymmetric relation are the same
/// sequence.
pub proof fn lemma_order_unique(lt: spec_fn(usize, usize) -> bool, r1: Seq<usize>, r2: Seq<usize>, n: int)
    requires
        0 <= n <= usize::MAX,
        forall|x: usize, y: usize| #[trigger] lt(x, y) ==> !lt(y, x),
        is_perm(r1, n),
        is_perm(r2, n),
        forall|a: int, b: int| 0 <= a < b < r1.len() ==> lt(#[trigger] r1[a], #[trigger] r1[b]),
        forall|a: int, b: int| 0 <= a < b < r2.len() ==> lt(#[trigger] r2[a], #[trigger] r2[b]),
    ensures
        r1 == r2,
{
    if r1 != r2 {
        assert(!(r1 =~= r2));
        let a = choose|a: int| 0 <= a < n && r1[a] != r2[a];
        lemma_first_difference(r1, r2, a);
        let f = choose|f: int| 0 <= f <= a && r1[f] != r2[f] && forall|c: int| 0 <= c < f ==> r1[c] == r2[c];
        let x = r1[f];
        let y = r2[f];
        lemma_perm_contains_all(r1, n);
        lemma_perm_contains_all(r2, n);
        assert(r2.contains(x));
        assert(r1.contains(y));
        let b = choose|b: int| 0 <= b < n && r2[b] == x;
        let c = choose|c: int| 0 <= c < n && r1[c] == y;
        if b < f {
            assert(r1[b] == x);
        }
        if c < f {
            assert(r2[c] == y);
        }
        assert(b != f);
        assert(c != f);
        assert(lt(r2[f], r2[b]));
        assert(lt(r1[f], r1[c]));
    }
}

pub proof fn lemma_first_difference(r1: Seq<usize>, r2: Seq<usize>, a: int)
    requires
        0 <= a < r1.len(),
        a < r2.len(),
        r1[a] != r2[a],
    ensures
        exists|f: int| 0 <= f <= a && r1[f] != r2[f] && forall|c: int| 0 <= c < f ==> r1[c] == r2[c],
    decreases a,
{
    if exists|c: int| 0 <= c < a && r1[c] != r2[c] {
        let c = choose|c: int| 0 <= c < a && r1[c] != r2[c];
        lemma_first_difference(r1, r2, c);
    } else {
        assert(forall|c: int| 0 <= c < a ==> r1[c] == r2[c]);
    }
}

} // verus!
