//! The distance engine: Hamming distance between two barcodes and the
//! multiset of pairwise distances within a barcode group.

use vstd::prelude::*;

use crate::UmiError;

verus! {

/// Number of positions at which `a` and `b` differ, scanning both from the
/// front. Meaningful when `a` and `b` have equal length; positions past the
/// end of the shorter sequence are not counted.
pub open spec fn spec_hamming(a: Seq<u8>, b: Seq<u8>) -> nat
    decreases a.len(),
{
    if a.len() == 0 || b.len() == 0 {
        0
    } else {
        (if a.first() == b.first() {
            0nat
        } else {
            1nat
        }) + spec_hamming(a.drop_first(), b.drop_first())
    }
}

/// The Hamming distance never exceeds the length of either operand.
pub proof fn lemma_hamming_le_len(a: Seq<u8>, b: Seq<u8>)
    ensures
        spec_hamming(a, b) <= a.len(),
    decreases a.len(),
{
    if a.len() != 0 && b.len() != 0 {
        lemma_hamming_le_len(a.drop_first(), b.drop_first());
    }
}

/// The Hamming distance does not depend on the order of its operands:
/// `distance(a, b) == distance(b, a)`.
pub proof fn lemma_hamming_symmetric(a: Seq<u8>, b: Seq<u8>)
    ensures
        spec_hamming(a, b) == spec_hamming(b, a),
    decreases a.len(),
{
    if a.len() != 0 && b.len() != 0 {
        lemma_hamming_symmetric(a.drop_first(), b.drop_first());
    }
}

/// For equal-length barcodes the Hamming distance is zero exactly when the
/// two barcodes are identical.
pub proof fn lemma_hamming_zero_iff_eq(a: Seq<u8>, b: Seq<u8>)
    requires
        a.len() == b.len(),
    ensures
        spec_hamming(a, b) == 0 <==> a == b,
    decreases a.len(),
{
    if a.len() == 0 {
        assert(a =~= b);
    } else {
        lemma_hamming_zero_iff_eq(a.drop_first(), b.drop_first());
        if spec_hamming(a, b) == 0 {
            assert(a.first() == b.first());
            assert(a.drop_first() == b.drop_first());
            assert forall|i: int| 0 <= i < a.len() implies a[i] == b[i] by {
                if i > 0 {
                    assert(a[i] == a.drop_first()[i - 1]);
                    assert(b[i] == b.drop_first()[i - 1]);
                }
            }
            assert(a =~= b);
        } else {
            if a == b {
                assert(a.first() == b.first());
                assert(a.drop_first() =~= b.drop_first());
            }
        }
    }
}

/// Hamming distance between two byte-string barcodes. Barcodes of unequal
/// length cannot be compared: that is a data-integrity fault, not a skip.
pub fn hamming(a: &Vec<u8>, b: &Vec<u8>) -> (r: Result<usize, UmiError>)
    ensures
        r is Ok <==> a@.len() == b@.len(),
        r matches Ok(d) ==> d == spec_hamming(a@, b@),
        r is Err ==> r == Err::<usize, UmiError>(UmiError::LengthMismatch),
{
    if a.len() != b.len() {
        return Err(UmiError::LengthMismatch);
    }
    let n = a.len();
    let mut count: usize = 0;
    let mut i: usize = 0;
    proof {
        lemma_hamming_le_len(a@, b@);
        assert(a@.skip(0) =~= a@);
        assert(b@.skip(0) =~= b@);
    }
    while i < n
        invariant
            n == a@.len() == b@.len(),
            i <= n,
            count + spec_hamming(a@.skip(i as int), b@.skip(i as int)) == spec_hamming(a@, b@),
            spec_hamming(a@, b@) <= n,
        decreases n - i,
    {
        proof {
            assert(a@.skip(i as int).len() != 0);
            assert(a@.skip(i as int).first() == a@[i as int]);
            assert(b@.skip(i as int).first() == b@[i as int]);
            assert(a@.skip(i as int).drop_first() =~= a@.skip(i + 1));
            assert(b@.skip(i as int).drop_first() =~= b@.skip(i + 1));
        }
        if a[i] != b[i] {
            count = count + 1;
        }
        i = i + 1;
    }
    proof {
        assert(a@.skip(n as int) =~= Seq::<u8>::empty());
    }
    Ok(count)
}

/// The distances as mathematical values.
pub open spec fn nats_of(s: Seq<usize>) -> Seq<nat> {
    s.map_values(|x: usize| x as nat)
}

/// Distances from one barcode to each barcode of `rest`, in order.
pub open spec fn dists_from(first: Seq<u8>, rest: Seq<Seq<u8>>) -> Seq<nat> {
    rest.map_values(|x: Seq<u8>| spec_hamming(first, x))
}

/// All pairwise Hamming distances of a group, one per unordered pair,
/// ordered as the pairs `(i, j)` with `i < j` are visited: first the
/// distances from the first barcode to every later one, then the pairs of
/// the remaining group.
pub open spec fn spec_pairwise(g: Seq<Seq<u8>>) -> Seq<nat>
    decreases g.len(),
{
    if g.len() == 0 {
        Seq::empty()
    } else {
        dists_from(g.first(), g.drop_first()) + spec_pairwise(g.drop_first())
    }
}

/// Every two barcodes of the group have the same length.
pub open spec fn all_same_length(g: Seq<Seq<u8>>) -> bool {
    forall|i: int, j: int|
        0 <= i < g.len() && 0 <= j < g.len() ==> (#[trigger] g[i]).len() == (#[trigger] g[j]).len()
}

/// Number of unordered pairs of a group of `k` elements.
pub open spec fn pair_count(k: int) -> int {
    k * (k - 1) / 2
}

/// A group of `k` barcodes has exactly `k * (k - 1) / 2` pairwise
/// distances; in particular a group of at most one barcode has none.
pub proof fn lemma_pairwise_count(g: Seq<Seq<u8>>)
    ensures
        spec_pairwise(g).len() == pair_count(g.len() as int),
    decreases g.len(),
{
    if g.len() == 0 {
    } else {
        lemma_pairwise_count(g.drop_first());
        let k = g.len() as int;
        assert((k - 1) + (k - 1) * (k - 2) / 2 == k * (k - 1) / 2) by (nonlinear_arith);
    }
}

/// All pairwise Hamming distances within a barcode group, visiting each
/// unordered pair once. A single length mismatch anywhere in the group is
/// surfaced as an error: it signals upstream extraction corruption.
pub fn pairwise_distances(group: &Vec<Vec<u8>>) -> (r: Result<Vec<usize>, UmiError>)
    ensures
        r is Ok <==> all_same_length(group.deep_view()),
        r matches Ok(d) ==> nats_of(d@) == spec_pairwise(group.deep_view()),
        r matches Ok(d) ==> d@.len() == pair_count(group@.len() as int),
        r is Err ==> r == Err::<Vec<usize>, UmiError>(UmiError::LengthMismatch),
{
    let ghost gv = group.deep_view();
    let k = group.len();
    proof {
        assert(gv.len() == group@.len());
        assert(forall|i: int| 0 <= i < gv.len() ==> gv[i] == #[trigger] group@[i]@);
    }
    if k == 0 {
        proof {
            assert(Seq::<usize>::empty().map_values(|x: usize| x as nat) =~= spec_pairwise(gv));
        }
        return Ok(Vec::new());
    }
    let len0 = group[0].len();
    let mut i: usize = 1;
    while i < k
        invariant
            gv == group.deep_view(),
            k == gv.len(),
            gv.len() == group@.len(),
            forall|t: int| 0 <= t < gv.len() ==> gv[t] == #[trigger] group@[t]@,
            1 <= i <= k,
            len0 == gv[0].len(),
            forall|t: int| 0 <= t < i ==> (#[trigger] gv[t]).len() == len0,
        decreases k - i,
    {
        if group[i].len() != len0 {
            proof {
                assert((gv[0]).len() == len0);
                assert((gv[i as int]).len() != len0);
            }
            return Err(UmiError::LengthMismatch);
        }
        i = i + 1;
    }
    let mut dists: Vec<usize> = Vec::new();
    let mut a: usize = 0;
    proof {
        assert(gv.skip(0) =~= gv);
        assert(Seq::<usize>::empty().map_values(|x: usize| x as nat) =~= Seq::<nat>::empty());
        lemma_pairwise_count(gv);
    }
    while a < k
        invariant
            gv == group.deep_view(),
            k == gv.len(),
            gv.len() == group@.len(),
            forall|t: int| 0 <= t < gv.len() ==> gv[t] == #[trigger] group@[t]@,
            forall|t: int| 0 <= t < gv.len() ==> (#[trigger] gv[t]).len() == len0,
            a <= k,
            dists@.map_values(|x: usize| x as nat) + spec_pairwise(gv.skip(a as int))
                == spec_pairwise(gv),
        decreases k - a,
    {
        let mut b: usize = a + 1;
        proof {
            assert(gv.skip(a as int).first() == gv[a as int]);
            assert(gv.skip(a as int).drop_first() =~= gv.skip(a + 1));
            assert(dists_from(gv[a as int], gv.skip(a + 1)).take(0) =~= Seq::<nat>::empty());
            assert(dists@.map_values(|x: usize| x as nat)
                + dists_from(gv[a as int], gv.skip(a + 1)).take(0)
                + dists_from(gv[a as int], gv.skip(a + 1)).skip(0)
                + spec_pairwise(gv.skip(a + 1)) =~= spec_pairwise(gv));
        }
        while b < k
            invariant
                gv == group.deep_view(),
                k == gv.len(),
                gv.len() == group@.len(),
                forall|t: int| 0 <= t < gv.len() ==> gv[t] == #[trigger] group@[t]@,
                forall|t: int| 0 <= t < gv.len() ==> (#[trigger] gv[t]).len() == len0,
                a < b <= k,
                a < k,
                dists@.map_values(|x: usize| x as nat)
                    + dists_from(gv[a as int], gv.skip(a + 1)).skip(b - a - 1)
                    + spec_pairwise(gv.skip(a + 1)) == spec_pairwise(gv),
            decreases k - b,
        {
            let ghost rest = dists_from(gv[a as int], gv.skip(a + 1));
            let d = match hamming(&group[a], &group[b]) {
                Ok(d) => d,
                Err(_) => {
                    proof {
                        assert(false);
                    }
                    0
                },
            };
            proof {
                lemma_hamming_le_len(gv[a as int], gv[b as int]);
                assert(rest.skip(b - a - 1).first() == rest[b - a - 1]);
                assert(rest[b - a - 1] == spec_hamming(gv[a as int], gv.skip(a + 1)[b - a - 1]));
                assert(gv.skip(a + 1)[b - a - 1] == gv[b as int]);
                assert(rest.skip(b - a - 1).drop_first() =~= rest.skip(b - a));
                assert(dists@.push(d).map_values(|x: usize| x as nat)
                    =~= dists@.map_values(|x: usize| x as nat).push(d as nat));
                assert(dists@.map_values(|x: usize| x as nat).push(d as nat)
                    + rest.skip(b - a) + spec_pairwise(gv.skip(a + 1))
                    =~= dists@.map_values(|x: usize| x as nat)
                    + rest.skip(b - a - 1) + spec_pairwise(gv.skip(a + 1)));
            }
            dists.push(d);
            b = b + 1;
        }
        proof {
            let rest = dists_from(gv[a as int], gv.skip(a + 1));
            assert(rest.len() == k - a - 1);
            assert(rest.skip(k - a - 1) =~= Seq::<nat>::empty());
            assert(dists@.map_values(|x: usize| x as nat) + spec_pairwise(gv.skip(a + 1))
                =~= dists@.map_values(|x: usize| x as nat) + rest.skip(k - a - 1)
                + spec_pairwise(gv.skip(a + 1)));
        }
        a = a + 1;
    }
    proof {
        assert(gv.skip(k as int) =~= Seq::<Seq<u8>>::empty());
        assert(dists@.map_values(|x: usize| x as nat) + spec_pairwise(gv.skip(k as int))
            =~= dists@.map_values(|x: usize| x as nat));
        assert(dists@.len() == dists@.map_values(|x: usize| x as nat).len());
    }
    Ok(dists)
}

} // verus!
