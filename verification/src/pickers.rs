//! The statistic reducers: one (position, barcode group) entry in, one
//! report column out. Barcode mode emits the (subsampled) barcodes
//! themselves, mean mode one exact mean of the group's pairwise
//! distances, distribution mode a 13-bucket distance histogram.

use vstd::prelude::*;

use indexmap::IndexMap;

use crate::distance::{all_same_length, nats_of, pairwise_distances, spec_pairwise};
use crate::report::{count_cell_ok, Cell, CellV, Column, ColumnLabel};
use crate::sample::{spec_subsample, subsample};
use crate::store::{store_entries, store_seq};
use crate::UmiError;

verus! {

/// The histogram bucket a distance falls in: the distance itself up to
/// 11, while 12 collects every larger value, on the assumption that the
/// barcode length bounds the distance spread.
pub open spec fn bucket_of(d: nat) -> int {
    if d >= 12 {
        12
    } else {
        d as int
    }
}

/// How many distances fall in bucket `b`.
pub open spec fn count_bucket(ds: Seq<nat>, b: int) -> nat
    decreases ds.len(),
{
    if ds.len() == 0 {
        0
    } else {
        count_bucket(ds.drop_last(), b) + (if bucket_of(ds.last()) == b {
            1nat
        } else {
            0nat
        })
    }
}

/// No bucket holds more distances than there are.
pub proof fn lemma_count_bucket_le(ds: Seq<nat>, b: int)
    ensures
        count_bucket(ds, b) <= ds.len(),
    decreases ds.len(),
{
    if ds.len() > 0 {
        lemma_count_bucket_le(ds.drop_last(), b);
    }
}

/// One histogram cell: the bucket's count, or the explicit missing
/// marker when the bucket was never observed, so that a later summation
/// can tell "no observation" from "observed zero".
pub open spec fn spec_hist_cell(ds: Seq<nat>, b: int) -> Option<usize> {
    if count_bucket(ds, b) == 0 {
        None
    } else {
        Some(count_bucket(ds, b) as usize)
    }
}

/// Sum of the bucket counts below bucket `b`.
pub open spec fn spec_hist_total(ds: Seq<nat>, b: int) -> nat
    decreases b,
{
    if b <= 0 {
        0
    } else {
        spec_hist_total(ds, b - 1) + count_bucket(ds, b - 1)
    }
}

proof fn lemma_hist_total_empty(b: int)
    requires
        b >= 0,
    ensures
        spec_hist_total(Seq::<nat>::empty(), b) == 0,
    decreases b,
{
    if b > 0 {
        lemma_hist_total_empty(b - 1);
    }
}

proof fn lemma_hist_total_snoc(ds: Seq<nat>, d: nat, b: int)
    ensures
        spec_hist_total(ds.push(d), b) == spec_hist_total(ds, b) + (if 0 <= bucket_of(d) < b {
            1nat
        } else {
            0nat
        }),
    decreases b,
{
    if b > 0 {
        lemma_hist_total_snoc(ds, d, b - 1);
        assert(ds.push(d).drop_last() =~= ds);
        assert(ds.push(d).last() == d);
    }
}

/// The bucket counts of a distance histogram sum to the number of
/// distances: every distance lands in exactly one of the 13 buckets.
pub proof fn lemma_hist_buckets_total(ds: Seq<nat>)
    ensures
        spec_hist_total(ds, 13) == ds.len(),
    decreases ds.len(),
{
    if ds.len() == 0 {
        assert(ds =~= Seq::<nat>::empty());
        lemma_hist_total_empty(13);
    } else {
        lemma_hist_buckets_total(ds.drop_last());
        lemma_hist_total_snoc(ds.drop_last(), ds.last(), 13);
        assert(0 <= bucket_of(ds.last()) < 13);
        assert(ds.drop_last().push(ds.last()) =~= ds);
    }
}

/// Count the distances of a group into the 13-bucket histogram, bucket
/// 12 saturating, unobserved buckets marked missing.
pub fn get_dist(edits: &Vec<usize>) -> (r: Vec<Option<usize>>)
    ensures
        r@.len() == 13,
        forall|b: int| 0 <= b < 13 ==> r@[b] == spec_hist_cell(nats_of(edits@), b),
{
    let ghost dv = nats_of(edits@);
    let mut counts: Vec<usize> = Vec::new();
    let mut b: usize = 0;
    while b < 13
        invariant
            b <= 13,
            counts@.len() == b,
            forall|t: int| 0 <= t < b ==> counts@[t] == 0,
        decreases 13 - b,
    {
        counts.push(0);
        b = b + 1;
    }
    proof {
        assert(dv.take(0) =~= Seq::<nat>::empty());
        assert(forall|t: int| 0 <= t < 13 ==> count_bucket(dv.take(0), t) == 0);
    }
    let n = edits.len();
    let mut i: usize = 0;
    while i < n
        invariant
            dv == nats_of(edits@),
            n == edits@.len(),
            dv.len() == n,
            i <= n,
            counts@.len() == 13,
            forall|t: int| 0 <= t < 13 ==> counts@[t] == count_bucket(dv.take(i as int), t),
        decreases n - i,
    {
        let d = edits[i];
        let bi: usize = if d >= 12 {
            12
        } else {
            d
        };
        proof {
            assert(dv[i as int] == edits@[i as int] as nat);
            assert(dv.take(i + 1) =~= dv.take(i as int).push(dv[i as int]));
            assert(dv.take(i + 1).drop_last() =~= dv.take(i as int));
            assert(forall|t: int| 0 <= t < 13 ==> count_bucket(dv.take(i + 1), t)
                == count_bucket(dv.take(i as int), t) + (if bucket_of(dv[i as int]) == t {
                1nat
            } else {
                0nat
            }));
            lemma_count_bucket_le(dv.take(i + 1), bi as int);
        }
        let c = counts[bi];
        counts.set(bi, c + 1);
        i = i + 1;
    }
    proof {
        assert(dv.take(n as int) =~= dv);
    }
    let mut out: Vec<Option<usize>> = Vec::new();
    let mut b: usize = 0;
    while b < 13
        invariant
            dv == nats_of(edits@),
            counts@.len() == 13,
            forall|t: int| 0 <= t < 13 ==> counts@[t] == count_bucket(dv, t),
            b <= 13,
            out@.len() == b,
            forall|t: int| 0 <= t < b ==> out@[t] == spec_hist_cell(dv, t),
        decreases 13 - b,
    {
        let c = counts[b];
        if c == 0 {
            out.push(None);
        } else {
            out.push(Some(c));
        }
        b = b + 1;
    }
    out
}

/// Sum of a distance sequence.
pub open spec fn spec_sum(ds: Seq<nat>) -> nat
    decreases ds.len(),
{
    if ds.len() == 0 {
        0
    } else {
        spec_sum(ds.drop_last()) + ds.last()
    }
}

proof fn lemma_sum_bound(ds: Seq<nat>)
    requires
        forall|i: int| 0 <= i < ds.len() ==> #[trigger] ds[i] <= usize::MAX,
    ensures
        spec_sum(ds) <= ds.len() * usize::MAX,
    decreases ds.len(),
{
    if ds.len() == 0 {
    } else {
        assert(forall|i: int| 0 <= i < ds.drop_last().len() ==> #[trigger] ds.drop_last()[i]
            <= usize::MAX);
        lemma_sum_bound(ds.drop_last());
        assert(ds.len() * usize::MAX == (ds.len() - 1) * usize::MAX + usize::MAX)
            by (nonlinear_arith);
    }
}

/// The exact arithmetic mean of a distance list, held as the sum and
/// the count; the caller divides when it renders the report.
pub struct MeanValue {
    pub sum: u128,
    pub count: usize,
}

/// Sum and count of a distance list: the mean as an exact ratio.
pub fn get_mean(list: &Vec<usize>) -> (r: MeanValue)
    ensures
        r.sum == spec_sum(nats_of(list@)),
        r.count == list@.len(),
{
    let ghost dv = nats_of(list@);
    proof {
        assert(dv.take(0) =~= Seq::<nat>::empty());
    }
    let n = list.len();
    let mut sum: u128 = 0;
    let mut i: usize = 0;
    while i < n
        invariant
            dv == nats_of(list@),
            n == list@.len(),
            dv.len() == n,
            i <= n,
            sum == spec_sum(dv.take(i as int)),
        decreases n - i,
    {
        proof {
            assert(dv[i as int] == list@[i as int] as nat);
            assert(dv.take(i + 1) =~= dv.take(i as int).push(dv[i as int]));
            assert(dv.take(i + 1).drop_last() =~= dv.take(i as int));
            assert(forall|t: int| 0 <= t < dv.len() ==> #[trigger] dv[t] <= usize::MAX);
            assert(forall|t: int| 0 <= t < i + 1 ==> #[trigger] dv.take(i + 1)[t] <= usize::MAX);
            lemma_sum_bound(dv.take(i + 1));
            assert((i + 1) * usize::MAX <= dv.len() * usize::MAX) by (nonlinear_arith)
                requires
                    0 <= i,
                    i + 1 <= dv.len(),
            ;
            assert(dv.len() * usize::MAX <= u64::MAX * u64::MAX) by (nonlinear_arith)
                requires
                    0 <= dv.len() <= u64::MAX,
                    0 <= usize::MAX <= u64::MAX,
            ;
            assert(u64::MAX * u64::MAX < u128::MAX);
        }
        sum = sum + (list[i] as u128);
        i = i + 1;
    }
    proof {
        assert(dv.take(n as int) =~= dv);
    }
    MeanValue { sum, count: n }
}

/// The cells of a barcode column: each sampled barcode, present.
pub open spec fn umi_cells(sampled: Seq<Seq<u8>>) -> Seq<Option<CellV>> {
    sampled.map_values(|b: Seq<u8>| Some(CellV::Bytes(b)))
}

/// Barcode mode: one column per position, named by the position, holding
/// the position's (subsampled) barcodes themselves, in store order.
pub fn extract_umis(store: IndexMap<i64, Vec<Vec<u8>>>, sample_size: usize, seed: u64) -> (r: Vec<
    Column,
>)
    ensures
        ({
            let st = store_seq(store);
            &&& r@.len() == st.len()
            &&& forall|i: int|
                0 <= i < st.len() ==> (#[trigger] r@[i]).label == ColumnLabel::Position(st[i].0)
            &&& forall|i: int|
                0 <= i < st.len() ==> (#[trigger] r@[i]).cells.deep_view() == umi_cells(
                    spec_subsample(st[i].1, sample_size, seed),
                )
        }),
{
    let ghost st = store_seq(store);
    let mut entries = store_entries(store);
    let mut cols: Vec<Column> = Vec::new();
    proof {
        assert(st.skip(0) =~= st);
    }
    while entries.len() > 0
        invariant
            cols@.len() + entries@.len() == st.len(),
            entries.deep_view() == st.skip(cols@.len() as int),
            forall|i: int|
                0 <= i < cols@.len() ==> (#[trigger] cols@[i]).label == ColumnLabel::Position(
                    st[i].0,
                ),
            forall|i: int|
                0 <= i < cols@.len() ==> (#[trigger] cols@[i]).cells.deep_view() == umi_cells(
                    spec_subsample(st[i].1, sample_size, seed),
                ),
        decreases entries@.len(),
    {
        let ghost i = cols@.len() as int;
        let ghost oldentries = entries@;
        let ghost olddv = entries.deep_view();
        let (key, umis) = entries.remove(0);
        proof {
            assert(olddv[0] == oldentries[0].deep_view());
            assert(olddv[0] == st.skip(i)[0]);
            assert(st.skip(i)[0] == st[i]);
            assert(key == st[i].0);
            assert(umis.deep_view() == st[i].1);
            assert forall|t: int| 0 <= t < entries@.len() implies entries.deep_view()[t] == st.skip(
                i + 1,
            )[t] by {
                assert(entries.deep_view()[t] == entries@[t].deep_view());
                assert(entries@[t] == oldentries[t + 1]);
                assert(olddv[t + 1] == oldentries[t + 1].deep_view());
                assert(olddv[t + 1] == st.skip(i)[t + 1]);
                assert(st.skip(i)[t + 1] == st[i + 1 + t]);
                assert(st.skip(i + 1)[t] == st[i + 1 + t]);
            }
            assert(entries.deep_view() =~= st.skip(i + 1));
        }
        let sampled = subsample(umis, sample_size, seed);
        let ghost sv = spec_subsample(st[i].1, sample_size, seed);
        let mut cells: Vec<Option<Cell>> = Vec::new();
        let mut rest = sampled;
        while rest.len() > 0
            invariant
                sv == spec_subsample(st[i].1, sample_size, seed),
                cells@.len() + rest@.len() == sv.len(),
                rest.deep_view() == sv.skip(cells@.len() as int),
                forall|t: int|
                    0 <= t < cells@.len() ==> (#[trigger] cells@[t]).deep_view() == Some(
                        CellV::Bytes(sv[t]),
                    ),
            decreases rest@.len(),
        {
            let ghost t = cells@.len() as int;
            let ghost oldrest = rest@;
            let ghost oldrestdv = rest.deep_view();
            let b = rest.remove(0);
            proof {
                assert(oldrestdv[0] == oldrest[0].deep_view());
                assert(oldrestdv[0] == sv.skip(t)[0]);
                assert(sv.skip(t)[0] == sv[t]);
                assert(b@ == sv[t]);
                assert forall|u: int| 0 <= u < rest@.len() implies rest.deep_view()[u] == sv.skip(
                    t + 1,
                )[u] by {
                    assert(rest.deep_view()[u] == rest@[u].deep_view());
                    assert(rest@[u] == oldrest[u + 1]);
                    assert(oldrestdv[u + 1] == oldrest[u + 1].deep_view());
                    assert(oldrestdv[u + 1] == sv.skip(t)[u + 1]);
                    assert(sv.skip(t)[u + 1] == sv[t + 1 + u]);
                    assert(sv.skip(t + 1)[u] == sv[t + 1 + u]);
                }
                assert(rest.deep_view() =~= sv.skip(t + 1));
            }
            cells.push(Some(Cell::Bytes(b)));
        }
        proof {
            assert forall|t: int| 0 <= t < sv.len() implies cells.deep_view()[t] == umi_cells(
                sv,
            )[t] by {
                assert(cells.deep_view()[t] == cells@[t].deep_view());
            }
            assert(cells.deep_view() =~= umi_cells(sv));
        }
        cols.push(Column { label: ColumnLabel::Position(key), cells });
    }
    proof {
        assert(st.skip(st.len() as int).len() == 0);
    }
    cols
}

/// The mean column a single entry contributes: none when the sampled
/// group yields no pair (a position with too few barcodes has no data,
/// which is not a zero), else one (position, exact mean) pair.
pub open spec fn spec_mean_one(e: (i64, Seq<Seq<u8>>), sample_size: usize, seed: u64) -> Seq<
    (i64, CellV),
> {
    let ds = spec_pairwise(spec_subsample(e.1, sample_size, seed));
    if ds.len() == 0 {
        Seq::empty()
    } else {
        seq![
            (
                e.0,
                CellV::MeanOf { sum: spec_sum(ds) as u128, count: ds.len() as usize },
            ),
        ]
    }
}

/// The mean columns of all entries, in store order.
pub open spec fn spec_mean_entries(st: Seq<(i64, Seq<Seq<u8>>)>, sample_size: usize, seed: u64) -> Seq<
    (i64, CellV),
>
    decreases st.len(),
{
    if st.len() == 0 {
        Seq::empty()
    } else {
        spec_mean_one(st.first(), sample_size, seed) + spec_mean_entries(
            st.drop_first(),
            sample_size,
            seed,
        )
    }
}

proof fn lemma_mean_entries_snoc(
    st: Seq<(i64, Seq<Seq<u8>>)>,
    e: (i64, Seq<Seq<u8>>),
    sample_size: usize,
    seed: u64,
)
    ensures
        spec_mean_entries(st.push(e), sample_size, seed) == spec_mean_entries(
            st,
            sample_size,
            seed,
        ) + spec_mean_one(e, sample_size, seed),
    decreases st.len(),
{
    if st.len() == 0 {
        assert(st.push(e).drop_first() =~= Seq::<(i64, Seq<Seq<u8>>)>::empty());
        assert(st.push(e).first() == e);
        assert(spec_mean_entries(Seq::<(i64, Seq<Seq<u8>>)>::empty(), sample_size, seed)
            =~= Seq::<(i64, CellV)>::empty());
        assert(spec_mean_one(e, sample_size, seed) + Seq::<(i64, CellV)>::empty() =~= spec_mean_one(
            e,
            sample_size,
            seed,
        ));
        assert(Seq::<(i64, CellV)>::empty() + spec_mean_one(e, sample_size, seed) =~= spec_mean_one(
            e,
            sample_size,
            seed,
        ));
    } else {
        assert(st.push(e).first() == st.first());
        assert(st.push(e).drop_first() =~= st.drop_first().push(e));
        lemma_mean_entries_snoc(st.drop_first(), e, sample_size, seed);
        assert(spec_mean_one(st.first(), sample_size, seed) + (spec_mean_entries(
            st.drop_first(),
            sample_size,
            seed,
        ) + spec_mean_one(e, sample_size, seed)) =~= (spec_mean_one(st.first(), sample_size, seed)
            + spec_mean_entries(st.drop_first(), sample_size, seed)) + spec_mean_one(
            e,
            sample_size,
            seed,
        ));
    }
}

/// Every entry's sampled group has barcodes of one common length, so
/// every pairwise distance is defined.
pub open spec fn all_groups_same_length(
    st: Seq<(i64, Seq<Seq<u8>>)>,
    sample_size: usize,
    seed: u64,
) -> bool {
    forall|i: int|
        0 <= i < st.len() ==> all_same_length(spec_subsample((#[trigger] st[i]).1, sample_size, seed))
}

/// Mean mode: one single-cell column per position whose (subsampled)
/// group yields at least one pair, named by the position, holding the
/// exact mean of the group's pairwise Hamming distances. A group with
/// barcodes of unequal length fails the whole run.
pub fn extract_means(store: IndexMap<i64, Vec<Vec<u8>>>, sample_size: usize, seed: u64) -> (r:
    Result<Vec<Column>, UmiError>)
    ensures
        ({
            let st = store_seq(store);
            &&& (r is Ok <==> all_groups_same_length(st, sample_size, seed))
            &&& (r matches Ok(cols) ==> {
                let es = spec_mean_entries(st, sample_size, seed);
                &&& cols@.len() == es.len()
                &&& forall|i: int|
                    0 <= i < es.len() ==> (#[trigger] cols@[i]).label == ColumnLabel::Position(
                        es[i].0,
                    )
                &&& forall|i: int|
                    0 <= i < es.len() ==> (#[trigger] cols@[i]).cells.deep_view() == seq![
                        Some(es[i].1),
                    ]
            })
            &&& (r is Err ==> r == Err::<Vec<Column>, UmiError>(UmiError::LengthMismatch))
        }),
{
    let ghost st = store_seq(store);
    let mut entries = store_entries(store);
    let mut cols: Vec<Column> = Vec::new();
    let ghost done: int = 0;
    proof {
        assert(st.skip(0) =~= st);
        assert(st.take(0) =~= Seq::<(i64, Seq<Seq<u8>>)>::empty());
    }
    while entries.len() > 0
        invariant
            st == store_seq(store),
            0 <= done <= st.len(),
            done + entries@.len() == st.len(),
            entries.deep_view() == st.skip(done),
            forall|t: int|
                0 <= t < done ==> all_same_length(
                    spec_subsample((#[trigger] st[t]).1, sample_size, seed),
                ),
            ({
                let es = spec_mean_entries(st.take(done), sample_size, seed);
                &&& cols@.len() == es.len()
                &&& forall|i: int|
                    0 <= i < es.len() ==> (#[trigger] cols@[i]).label == ColumnLabel::Position(
                        es[i].0,
                    )
                &&& forall|i: int|
                    0 <= i < es.len() ==> (#[trigger] cols@[i]).cells.deep_view() == seq![
                        Some(es[i].1),
                    ]
            }),
        decreases entries@.len(),
    {
        let ghost i = done;
        let ghost oldentries = entries@;
        let ghost olddv = entries.deep_view();
        let (key, umis) = entries.remove(0);
        proof {
            assert(olddv[0] == oldentries[0].deep_view());
            assert(olddv[0] == st.skip(i)[0]);
            assert(st.skip(i)[0] == st[i]);
            assert(key == st[i].0);
            assert(umis.deep_view() == st[i].1);
            assert forall|t: int| 0 <= t < entries@.len() implies entries.deep_view()[t] == st.skip(
                i + 1,
            )[t] by {
                assert(entries.deep_view()[t] == entries@[t].deep_view());
                assert(entries@[t] == oldentries[t + 1]);
                assert(olddv[t + 1] == oldentries[t + 1].deep_view());
                assert(olddv[t + 1] == st.skip(i)[t + 1]);
                assert(st.skip(i)[t + 1] == st[i + 1 + t]);
                assert(st.skip(i + 1)[t] == st[i + 1 + t]);
            }
            assert(entries.deep_view() =~= st.skip(i + 1));
            assert(st.take(i + 1) =~= st.take(i).push(st[i]));
            lemma_mean_entries_snoc(st.take(i), st[i], sample_size, seed);
        }
        let sampled = subsample(umis, sample_size, seed);
        let dists = match pairwise_distances(&sampled) {
            Ok(d) => d,
            Err(_) => {
                proof {
                    assert(!all_same_length(spec_subsample(st[i].1, sample_size, seed)));
                }
                return Err(UmiError::LengthMismatch);
            },
        };
        let ghost ds = spec_pairwise(spec_subsample(st[i].1, sample_size, seed));
        proof {
            assert(nats_of(dists@) == ds);
            assert(dists@.len() == ds.len());
        }
        if dists.len() > 0 {
            let m = get_mean(&dists);
            let mut cells: Vec<Option<Cell>> = Vec::new();
            cells.push(Some(Cell::MeanOf { sum: m.sum, count: m.count }));
            let ghost es_old = spec_mean_entries(st.take(i), sample_size, seed);
            cols.push(Column { label: ColumnLabel::Position(key), cells });
            proof {
                let es = spec_mean_entries(st.take(i + 1), sample_size, seed);
                assert(spec_mean_one(st[i], sample_size, seed) == seq![
                    (
                        st[i].0,
                        CellV::MeanOf { sum: spec_sum(ds) as u128, count: ds.len() as usize },
                    ),
                ]);
                assert(es =~= es_old + spec_mean_one(st[i], sample_size, seed));
                assert(es.len() == es_old.len() + 1);
                assert(es[es.len() - 1] == spec_mean_one(st[i], sample_size, seed)[0]);
                assert(cols@[cols@.len() - 1].cells.deep_view() =~= seq![
                    Some(es[es.len() - 1].1),
                ]);
                assert forall|t: int| 0 <= t < es.len() - 1 implies es[t] == es_old[t] by {}
            }
        } else {
            proof {
                assert(spec_mean_one(st[i], sample_size, seed) =~= Seq::<(i64, CellV)>::empty());
                assert(spec_mean_entries(st.take(i + 1), sample_size, seed) =~= spec_mean_entries(
                    st.take(i),
                    sample_size,
                    seed,
                ));
            }
        }
        proof {
            done = done + 1;
        }
    }
    proof {
        assert(st.skip(done).len() == 0);
        assert(done == st.len());
        assert(st.take(done) =~= st);
    }
    Ok(cols)
}

/// The shared edit-distance bucket index column: the values 0 through 12.
pub open spec fn edit_index_cells() -> Seq<Option<CellV>> {
    Seq::new(13, |b: int| Some(CellV::UInt(b as u128)))
}

/// The cells of one histogram column, as report cells.
pub open spec fn hist_cells_view(cs: Seq<Option<usize>>) -> Seq<Option<CellV>> {
    cs.map_values(
        |c: Option<usize>|
            match c {
                Some(v) => Some(CellV::UInt(v as u128)),
                None => None::<CellV>,
            },
    )
}

/// The histogram column a single entry contributes: none when the
/// sampled group yields no pair, else one (position, 13 bucket cells)
/// pair with unobserved buckets marked missing.
pub open spec fn spec_dist_one(e: (i64, Seq<Seq<u8>>), sample_size: usize, seed: u64) -> Seq<
    (i64, Seq<Option<usize>>),
> {
    let ds = spec_pairwise(spec_subsample(e.1, sample_size, seed));
    if ds.len() == 0 {
        Seq::empty()
    } else {
        seq![(e.0, Seq::new(13, |b: int| spec_hist_cell(ds, b)))]
    }
}

/// The histogram columns of all entries, in store order.
pub open spec fn spec_dist_entries(
    st: Seq<(i64, Seq<Seq<u8>>)>,
    sample_size: usize,
    seed: u64,
) -> Seq<(i64, Seq<Option<usize>>)>
    decreases st.len(),
{
    if st.len() == 0 {
        Seq::empty()
    } else {
        spec_dist_one(st.first(), sample_size, seed) + spec_dist_entries(
            st.drop_first(),
            sample_size,
            seed,
        )
    }
}

proof fn lemma_dist_entries_snoc(
    st: Seq<(i64, Seq<Seq<u8>>)>,
    e: (i64, Seq<Seq<u8>>),
    sample_size: usize,
    seed: u64,
)
    ensures
        spec_dist_entries(st.push(e), sample_size, seed) == spec_dist_entries(
            st,
            sample_size,
            seed,
        ) + spec_dist_one(e, sample_size, seed),
    decreases st.len(),
{
    if st.len() == 0 {
        assert(st.push(e).drop_first() =~= Seq::<(i64, Seq<Seq<u8>>)>::empty());
        assert(st.push(e).first() == e);
        assert(spec_dist_entries(Seq::<(i64, Seq<Seq<u8>>)>::empty(), sample_size, seed)
            =~= Seq::<(i64, Seq<Option<usize>>)>::empty());
        assert(spec_dist_one(e, sample_size, seed) + Seq::<(i64, Seq<Option<usize>>)>::empty()
            =~= spec_dist_one(e, sample_size, seed));
        assert(Seq::<(i64, Seq<Option<usize>>)>::empty() + spec_dist_one(e, sample_size, seed)
            =~= spec_dist_one(e, sample_size, seed));
    } else {
        assert(st.push(e).first() == st.first());
        assert(st.push(e).drop_first() =~= st.drop_first().push(e));
        lemma_dist_entries_snoc(st.drop_first(), e, sample_size, seed);
        assert(spec_dist_one(st.first(), sample_size, seed) + (spec_dist_entries(
            st.drop_first(),
            sample_size,
            seed,
        ) + spec_dist_one(e, sample_size, seed)) =~= (spec_dist_one(st.first(), sample_size, seed)
            + spec_dist_entries(st.drop_first(), sample_size, seed)) + spec_dist_one(
            e,
            sample_size,
            seed,
        ));
    }
}

/// Distribution mode: one shared bucket-index column, then one 13-cell
/// histogram column per position whose (subsampled) group yields at
/// least one pair, named by the position; with no such position the
/// report is empty. A group with barcodes of unequal length fails the
/// whole run.
pub fn extract_dist(store: IndexMap<i64, Vec<Vec<u8>>>, sample_size: usize, seed: u64) -> (r:
    Result<Vec<Column>, UmiError>)
    ensures
        ({
            let st = store_seq(store);
            let des = spec_dist_entries(st, sample_size, seed);
            &&& (r is Ok <==> all_groups_same_length(st, sample_size, seed))
            &&& (r matches Ok(cols) ==> {
                &&& (des.len() == 0 ==> cols@.len() == 0)
                &&& (des.len() > 0 ==> {
                    &&& cols@.len() == des.len() + 1
                    &&& cols@[0].label == ColumnLabel::EditIndex
                    &&& cols@[0].cells.deep_view() == edit_index_cells()
                    &&& forall|i: int|
                        0 <= i < des.len() ==> (#[trigger] cols@[i + 1]).label
                            == ColumnLabel::Position(des[i].0)
                    &&& forall|i: int|
                        0 <= i < des.len() ==> (#[trigger] cols@[i + 1]).cells.deep_view()
                            == hist_cells_view(des[i].1)
                })
                &&& forall|i: int|
                    0 <= i < cols@.len() ==> (#[trigger] cols@[i]).cells@.len() == 13
                &&& forall|i: int, t: int|
                    0 <= i < cols@.len() && 0 <= t < 13 ==> count_cell_ok(
                        #[trigger] cols@[i].cells@[t],
                    )
            })
            &&& (r is Err ==> r == Err::<Vec<Column>, UmiError>(UmiError::LengthMismatch))
        }),
{
    let ghost st = store_seq(store);
    let mut entries = store_entries(store);
    let mut cols: Vec<Column> = Vec::new();
    let ghost done: int = 0;
    proof {
        assert(st.skip(0) =~= st);
        assert(st.take(0) =~= Seq::<(i64, Seq<Seq<u8>>)>::empty());
    }
    while entries.len() > 0
        invariant
            st == store_seq(store),
            0 <= done <= st.len(),
            done + entries@.len() == st.len(),
            entries.deep_view() == st.skip(done),
            forall|t: int|
                0 <= t < done ==> all_same_length(
                    spec_subsample((#[trigger] st[t]).1, sample_size, seed),
                ),
            forall|i: int| 0 <= i < cols@.len() ==> (#[trigger] cols@[i]).cells@.len() == 13,
            forall|i: int, t: int|
                0 <= i < cols@.len() && 0 <= t < 13 ==> count_cell_ok(
                    #[trigger] cols@[i].cells@[t],
                ),
            ({
                let des = spec_dist_entries(st.take(done), sample_size, seed);
                &&& (des.len() == 0 ==> cols@.len() == 0)
                &&& (des.len() > 0 ==> {
                    &&& cols@.len() == des.len() + 1
                    &&& cols@[0].label == ColumnLabel::EditIndex
                    &&& cols@[0].cells.deep_view() == edit_index_cells()
                    &&& forall|i: int|
                        0 <= i < des.len() ==> (#[trigger] cols@[i + 1]).label
                            == ColumnLabel::Position(des[i].0)
                    &&& forall|i: int|
                        0 <= i < des.len() ==> (#[trigger] cols@[i + 1]).cells.deep_view()
                            == hist_cells_view(des[i].1)
                })
            }),
        decreases entries@.len(),
    {
        let ghost i = done;
        let ghost oldentries = entries@;
        let ghost olddv = entries.deep_view();
        let (key, umis) = entries.remove(0);
        proof {
            assert(olddv[0] == oldentries[0].deep_view());
            assert(olddv[0] == st.skip(i)[0]);
            assert(st.skip(i)[0] == st[i]);
            assert(key == st[i].0);
            assert(umis.deep_view() == st[i].1);
            assert forall|t: int| 0 <= t < entries@.len() implies entries.deep_view()[t] == st.skip(
                i + 1,
            )[t] by {
                assert(entries.deep_view()[t] == entries@[t].deep_view());
                assert(entries@[t] == oldentries[t + 1]);
                assert(olddv[t + 1] == oldentries[t + 1].deep_view());
                assert(olddv[t + 1] == st.skip(i)[t + 1]);
                assert(st.skip(i)[t + 1] == st[i + 1 + t]);
                assert(st.skip(i + 1)[t] == st[i + 1 + t]);
            }
            assert(entries.deep_view() =~= st.skip(i + 1));
            assert(st.take(i + 1) =~= st.take(i).push(st[i]));
            lemma_dist_entries_snoc(st.take(i), st[i], sample_size, seed);
        }
        let sampled = subsample(umis, sample_size, seed);
        let dists = match pairwise_distances(&sampled) {
            Ok(d) => d,
            Err(_) => {
                proof {
                    assert(!all_same_length(spec_subsample(st[i].1, sample_size, seed)));
                }
                return Err(UmiError::LengthMismatch);
            },
        };
        let ghost ds = spec_pairwise(spec_subsample(st[i].1, sample_size, seed));
        proof {
            assert(nats_of(dists@) == ds);
            assert(dists@.len() == ds.len());
        }
        let ghost des_old = spec_dist_entries(st.take(i), sample_size, seed);
        if dists.len() > 0 {
            if cols.len() == 0 {
                let mut icells: Vec<Option<Cell>> = Vec::new();
                let mut b: usize = 0;
                while b < 13
                    invariant
                        b <= 13,
                        icells@.len() == b,
                        forall|t: int|
                            0 <= t < b ==> (#[trigger] icells@[t]).deep_view() == Some(
                                CellV::UInt(t as u128),
                            ),
                        forall|t: int| 0 <= t < b ==> count_cell_ok(#[trigger] icells@[t]),
                    decreases 13 - b,
                {
                    icells.push(Some(Cell::UInt(b as u128)));
                    b = b + 1;
                }
                proof {
                    assert forall|t: int| 0 <= t < 13 implies icells.deep_view()[t]
                        == edit_index_cells()[t] by {
                        assert(icells.deep_view()[t] == icells@[t].deep_view());
                    }
                    assert(icells.deep_view() =~= edit_index_cells());
                }
                cols.push(Column { label: ColumnLabel::EditIndex, cells: icells });
            }
            let hist = get_dist(&dists);
            let mut cells: Vec<Option<Cell>> = Vec::new();
            let mut b: usize = 0;
            while b < 13
                invariant
                    ds == spec_pairwise(spec_subsample(st[i].1, sample_size, seed)),
                    hist@.len() == 13,
                    forall|t: int| 0 <= t < 13 ==> hist@[t] == spec_hist_cell(ds, t),
                    b <= 13,
                    cells@.len() == b,
                    forall|t: int|
                        0 <= t < b ==> (#[trigger] cells@[t]).deep_view() == hist_cells_view(
                            Seq::new(13, |u: int| spec_hist_cell(ds, u)),
                        )[t],
                    forall|t: int| 0 <= t < b ==> count_cell_ok(#[trigger] cells@[t]),
                decreases 13 - b,
            {
                match hist[b] {
                    Some(v) => {
                        cells.push(Some(Cell::UInt(v as u128)));
                    },
                    None => {
                        cells.push(None);
                    },
                }
                b = b + 1;
            }
            proof {
                assert forall|t: int| 0 <= t < 13 implies cells.deep_view()[t] == hist_cells_view(
                    Seq::new(13, |u: int| spec_hist_cell(ds, u)),
                )[t] by {
                    assert(cells.deep_view()[t] == cells@[t].deep_view());
                }
                assert(cells.deep_view() =~= hist_cells_view(
                    Seq::new(13, |u: int| spec_hist_cell(ds, u)),
                ));
            }
            let ghost oldcols = cols@;
            cols.push(Column { label: ColumnLabel::Position(key), cells });
            proof {
                let des = spec_dist_entries(st.take(i + 1), sample_size, seed);
                assert(spec_dist_one(st[i], sample_size, seed) == seq![
                    (st[i].0, Seq::new(13, |u: int| spec_hist_cell(ds, u))),
                ]);
                assert(des =~= des_old + spec_dist_one(st[i], sample_size, seed));
                assert(des.len() == des_old.len() + 1);
                assert(des[des.len() - 1] == spec_dist_one(st[i], sample_size, seed)[0]);
                assert forall|t: int| 0 <= t < des.len() - 1 implies des[t] == des_old[t] by {}
                assert(cols@[0].label == ColumnLabel::EditIndex);
            }
        } else {
            proof {
                assert(spec_dist_one(st[i], sample_size, seed) =~= Seq::<
                    (i64, Seq<Option<usize>>),
                >::empty());
                assert(spec_dist_entries(st.take(i + 1), sample_size, seed) =~= des_old);
            }
        }
        proof {
            done = done + 1;
        }
    }
    proof {
        assert(st.skip(done).len() == 0);
        assert(done == st.len());
        assert(st.take(done) =~= st);
    }
    Ok(cols)
}

} // verus!
