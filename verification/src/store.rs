//! The positional store: UMI barcodes keyed by reference position, with
//! per-position insertion order preserved, built by one sequential pass
//! over the input records.

use vstd::prelude::*;

use indexmap::IndexMap;

use crate::records::{get_read_pos, get_umi, spec_after_last_sep, spec_read_pos, ReadRecord};
use crate::UmiError;

verus! {

#[verifier::external_type_specification]
#[verifier::external_body]
#[verifier::reject_recursive_types(K)]
#[verifier::reject_recursive_types(V)]
#[verifier::reject_recursive_types(S)]
pub struct ExIndexMap<K, V, S>(IndexMap<K, V, S>);

/// The entries that the store holds, in insertion order of their keys:
/// each key once, paired with the barcodes appended under it, oldest
/// first.
pub uninterp spec fn store_seq(m: IndexMap<i64, Vec<Vec<u8>>>) -> Seq<(i64, Seq<Seq<u8>>)>;

/// Index of the entry with key `k`, or `-1` when no entry has it.
pub open spec fn find_key(s: Seq<(i64, Seq<Seq<u8>>)>, k: i64) -> int
    decreases s.len(),
{
    if s.len() == 0 {
        -1
    } else if s.first().0 == k {
        0
    } else {
        let r = find_key(s.drop_first(), k);
        if r < 0 {
            -1
        } else {
            r + 1
        }
    }
}

/// What appending one barcode under a key does to the entries: the barcode
/// joins the key's entry in place, or opens a new entry at the end.
pub open spec fn spec_store_push(s: Seq<(i64, Seq<Seq<u8>>)>, k: i64, v: Seq<u8>) -> Seq<
    (i64, Seq<Seq<u8>>),
> {
    let i = find_key(s, k);
    if i >= 0 {
        s.update(i, (k, s[i].1.push(v)))
    } else {
        s.push((k, seq![v]))
    }
}

/// Relies on `indexmap::IndexMap::new`: a new map holds no entries.
#[verifier::external_body]
pub(crate) fn store_new() -> (m: IndexMap<i64, Vec<Vec<u8>>>)
    ensures
        store_seq(m) == Seq::<(i64, Seq<Seq<u8>>)>::empty(),
{
    IndexMap::new()
}

/// Relies on `indexmap::IndexMap::get_mut` and `indexmap::IndexMap::insert`:
/// a present key keeps its place in the order and its list grows at the
/// end; an absent key is inserted last in order.
#[verifier::external_body]
pub(crate) fn store_push(m: &mut IndexMap<i64, Vec<Vec<u8>>>, key: i64, barcode: Vec<u8>)
    ensures
        store_seq(*final(m)) == spec_store_push(store_seq(*old(m)), key, barcode@),
{
    match m.get_mut(&key) {
        Some(list) => list.push(barcode),
        None => {
            m.insert(key, vec![barcode]);
        },
    }
}

/// Relies on `indexmap::IndexMap::contains_key` and
/// `indexmap::IndexMap::insert`: inserting under an absent key opens an
/// empty entry last in order; a present key leaves the map unchanged.
#[verifier::external_body]
pub(crate) fn store_ensure_key(m: &mut IndexMap<i64, Vec<Vec<u8>>>, key: i64)
    ensures
        store_seq(*final(m)) == if find_key(store_seq(*old(m)), key) >= 0 {
            store_seq(*old(m))
        } else {
            store_seq(*old(m)).push((key, Seq::<Seq<u8>>::empty()))
        },
{
    if !m.contains_key(&key) {
        m.insert(key, Vec::new());
    }
}

/// Relies on `indexmap::IndexMap`'s `IntoIterator`: iteration yields the
/// entries in insertion order of their keys.
#[verifier::external_body]
pub(crate) fn store_entries(m: IndexMap<i64, Vec<Vec<u8>>>) -> (r: Vec<(i64, Vec<Vec<u8>>)>)
    ensures
        r.deep_view() == store_seq(m),
{
    m.into_iter().collect()
}

/// How mapped records are keyed while the store is built: by the
/// CIGAR-aware position of each read, or by one shared bucket when the
/// input is not position-sorted and only global statistics are wanted.
pub enum IngestMode {
    Positional,
    Unsorted,
}

/// The fault one record raises during ingestion, if any: an unmapped
/// record raises none and is skipped; a mapped record without a CIGAR has
/// no position under the positional mode; an identifier without the
/// separator has no barcode.
pub open spec fn spec_fault(mode: IngestMode, r: ReadRecord, sep: Seq<u8>) -> Option<UmiError> {
    if !r.mapped {
        None
    } else if mode is Positional && spec_read_pos(r) is None {
        Some(UmiError::MissingCigar)
    } else if spec_after_last_sep(r.name@, sep) is None {
        Some(UmiError::MalformedIdentifier)
    } else {
        None
    }
}

/// The store key a faultless mapped record is filed under.
pub open spec fn spec_key(mode: IngestMode, r: ReadRecord) -> i64 {
    if mode is Positional {
        spec_read_pos(r)->0
    } else {
        0
    }
}

/// Index of the first record that raises a fault; the length when none
/// does.
pub open spec fn first_fault_index(rs: Seq<ReadRecord>, mode: IngestMode, sep: Seq<u8>) -> int
    decreases rs.len(),
{
    if rs.len() == 0 {
        0
    } else if spec_fault(mode, rs.first(), sep) is Some {
        0
    } else {
        1 + first_fault_index(rs.drop_first(), mode, sep)
    }
}

/// The fault of the first faulting record, or `None` when the whole input
/// ingests cleanly.
pub open spec fn spec_first_fault(rs: Seq<ReadRecord>, mode: IngestMode, sep: Seq<u8>) -> Option<
    UmiError,
> {
    let i = first_fault_index(rs, mode, sep);
    if i < rs.len() {
        spec_fault(mode, rs[i], sep)
    } else {
        None
    }
}

/// The entries after folding a faultless record sequence into the store:
/// each mapped record appends its barcode under its key, unmapped records
/// contribute nothing.
pub open spec fn spec_ingest(
    s: Seq<(i64, Seq<Seq<u8>>)>,
    rs: Seq<ReadRecord>,
    mode: IngestMode,
    sep: Seq<u8>,
) -> Seq<(i64, Seq<Seq<u8>>)>
    decreases rs.len(),
{
    if rs.len() == 0 {
        s
    } else {
        let r = rs.first();
        let s2 = if r.mapped {
            spec_store_push(s, spec_key(mode, r), spec_after_last_sep(r.name@, sep)->0)
        } else {
            s
        };
        spec_ingest(s2, rs.drop_first(), mode, sep)
    }
}

/// Number of mapped records in a sequence.
pub open spec fn count_mapped(rs: Seq<ReadRecord>) -> nat
    decreases rs.len(),
{
    if rs.len() == 0 {
        0
    } else {
        (if rs.first().mapped {
            1nat
        } else {
            0nat
        }) + count_mapped(rs.drop_first())
    }
}

proof fn lemma_ingest_snoc(
    s: Seq<(i64, Seq<Seq<u8>>)>,
    rs: Seq<ReadRecord>,
    r: ReadRecord,
    mode: IngestMode,
    sep: Seq<u8>,
)
    ensures
        spec_ingest(s, rs.push(r), mode, sep) == if r.mapped {
            spec_store_push(
                spec_ingest(s, rs, mode, sep),
                spec_key(mode, r),
                spec_after_last_sep(r.name@, sep)->0,
            )
        } else {
            spec_ingest(s, rs, mode, sep)
        },
    decreases rs.len(),
{
    if rs.len() == 0 {
        assert(rs.push(r).drop_first() =~= Seq::<ReadRecord>::empty());
        assert(rs.push(r).first() == r);
        let s2 = if r.mapped {
            spec_store_push(s, spec_key(mode, r), spec_after_last_sep(r.name@, sep)->0)
        } else {
            s
        };
        assert(spec_ingest(s2, Seq::<ReadRecord>::empty(), mode, sep) == s2);
    } else {
        assert(rs.push(r).first() == rs.first());
        assert(rs.push(r).drop_first() =~= rs.drop_first().push(r));
        let s2 = if rs.first().mapped {
            spec_store_push(
                s,
                spec_key(mode, rs.first()),
                spec_after_last_sep(rs.first().name@, sep)->0,
            )
        } else {
            s
        };
        lemma_ingest_snoc(s2, rs.drop_first(), r, mode, sep);
    }
}

proof fn lemma_count_mapped_snoc(rs: Seq<ReadRecord>, r: ReadRecord)
    ensures
        count_mapped(rs.push(r)) == count_mapped(rs) + (if r.mapped {
            1nat
        } else {
            0nat
        }),
    decreases rs.len(),
{
    if rs.len() == 0 {
        assert(rs.push(r).drop_first() =~= Seq::<ReadRecord>::empty());
        assert(rs.push(r).first() == r);
        assert(count_mapped(Seq::<ReadRecord>::empty()) == 0);
    } else {
        assert(rs.push(r).first() == rs.first());
        assert(rs.push(r).drop_first() =~= rs.drop_first().push(r));
        lemma_count_mapped_snoc(rs.drop_first(), r);
    }
}

proof fn lemma_first_fault_at(rs: Seq<ReadRecord>, mode: IngestMode, sep: Seq<u8>, j: int)
    requires
        0 <= j <= rs.len(),
        forall|t: int| 0 <= t < j ==> spec_fault(mode, #[trigger] rs[t], sep) is None,
        j < rs.len() ==> spec_fault(mode, rs[j], sep) is Some,
    ensures
        first_fault_index(rs, mode, sep) == j,
    decreases rs.len(),
{
    if rs.len() == 0 {
    } else if j == 0 {
    } else {
        assert(spec_fault(mode, rs[0], sep) is None);
        assert forall|t: int| 0 <= t < j - 1 implies spec_fault(
            mode,
            #[trigger] rs.drop_first()[t],
            sep,
        ) is None by {
            assert(rs.drop_first()[t] == rs[t + 1]);
        }
        if j - 1 < rs.drop_first().len() {
            assert(rs.drop_first()[j - 1] == rs[j]);
        }
        lemma_first_fault_at(rs.drop_first(), mode, sep, j - 1);
    }
}

/// Total number of barcodes held across all entries of a store.
pub open spec fn total_barcodes(s: Seq<(i64, Seq<Seq<u8>>)>) -> nat
    decreases s.len(),
{
    if s.len() == 0 {
        0
    } else {
        s.first().1.len() + total_barcodes(s.drop_first())
    }
}

proof fn lemma_find_key_in_range(s: Seq<(i64, Seq<Seq<u8>>)>, k: i64)
    ensures
        find_key(s, k) < s.len(),
        find_key(s, k) >= 0 ==> s[find_key(s, k)].0 == k,
    decreases s.len(),
{
    if s.len() > 0 && s.first().0 != k {
        lemma_find_key_in_range(s.drop_first(), k);
        if find_key(s.drop_first(), k) >= 0 {
            assert(s.drop_first()[find_key(s.drop_first(), k)] == s[find_key(s, k)]);
        }
    }
}

proof fn lemma_total_snoc(s: Seq<(i64, Seq<Seq<u8>>)>, e: (i64, Seq<Seq<u8>>))
    ensures
        total_barcodes(s.push(e)) == total_barcodes(s) + e.1.len(),
    decreases s.len(),
{
    if s.len() == 0 {
        assert(s.push(e).drop_first() =~= Seq::<(i64, Seq<Seq<u8>>)>::empty());
        assert(s.push(e).first() == e);
        assert(total_barcodes(Seq::<(i64, Seq<Seq<u8>>)>::empty()) == 0);
    } else {
        assert(s.push(e).first() == s.first());
        assert(s.push(e).drop_first() =~= s.drop_first().push(e));
        lemma_total_snoc(s.drop_first(), e);
    }
}

proof fn lemma_total_update_push(s: Seq<(i64, Seq<Seq<u8>>)>, i: int, k: i64, v: Seq<u8>)
    requires
        0 <= i < s.len(),
    ensures
        total_barcodes(s.update(i, (k, s[i].1.push(v)))) == total_barcodes(s) + 1,
    decreases s.len(),
{
    let u = s.update(i, (k, s[i].1.push(v)));
    if i == 0 {
        assert(u.first() == (k, s[0].1.push(v)));
        assert(u.drop_first() =~= s.drop_first());
    } else {
        assert(u.first() == s.first());
        assert(u.drop_first() =~= s.drop_first().update(i - 1, (k, s.drop_first()[i - 1].1.push(v))));
        lemma_total_update_push(s.drop_first(), i - 1, k, v);
    }
}

/// Appending one barcode grows the store's total by exactly one.
pub proof fn lemma_store_push_total(s: Seq<(i64, Seq<Seq<u8>>)>, k: i64, v: Seq<u8>)
    ensures
        total_barcodes(spec_store_push(s, k, v)) == total_barcodes(s) + 1,
{
    lemma_find_key_in_range(s, k);
    let i = find_key(s, k);
    if i >= 0 {
        lemma_total_update_push(s, i, k, v);
    } else {
        lemma_total_snoc(s, (k, seq![v]));
        assert(seq![v].len() == 1);
    }
}

/// No read is lost and none duplicated: folding a record sequence into a
/// store grows the total barcode count by exactly the number of mapped
/// records.
pub proof fn lemma_ingest_total(
    s: Seq<(i64, Seq<Seq<u8>>)>,
    rs: Seq<ReadRecord>,
    mode: IngestMode,
    sep: Seq<u8>,
)
    ensures
        total_barcodes(spec_ingest(s, rs, mode, sep)) == total_barcodes(s) + count_mapped(rs),
    decreases rs.len(),
{
    if rs.len() == 0 {
    } else {
        let r = rs.first();
        let s2 = if r.mapped {
            spec_store_push(s, spec_key(mode, r), spec_after_last_sep(r.name@, sep)->0)
        } else {
            s
        };
        if r.mapped {
            lemma_store_push_total(s, spec_key(mode, r), spec_after_last_sep(r.name@, sep)->0);
        }
        lemma_ingest_total(s2, rs.drop_first(), mode, sep);
    }
}

fn ingest(
    records: &Vec<ReadRecord>,
    store: &mut IndexMap<i64, Vec<Vec<u8>>>,
    separator: &Vec<u8>,
    num_reads: &mut u64,
    mode: IngestMode,
) -> (r: Result<(), UmiError>)
    requires
        separator@.len() > 0,
        *old(num_reads) + records@.len() <= u64::MAX,
    ensures
        ({
            let done = records@.take(first_fault_index(records@, mode, separator@));
            &&& store_seq(*final(store)) == spec_ingest(
                store_seq(*old(store)),
                done,
                mode,
                separator@,
            )
            &&& *final(num_reads) == *old(num_reads) + count_mapped(done)
            &&& (match spec_first_fault(records@, mode, separator@) {
                None => r is Ok,
                Some(e) => r == Err::<(), UmiError>(e),
            })
        }),
{
    let ghost s0 = store_seq(*old(store));
    let ghost nr0 = *old(num_reads);
    let n = records.len();
    let mut j: usize = 0;
    proof {
        assert(records@.take(0) =~= Seq::<ReadRecord>::empty());
    }
    while j < n
        invariant
            n == records@.len(),
            separator@.len() > 0,
            s0 == store_seq(*old(store)),
            nr0 == *old(num_reads),
            nr0 + records@.len() <= u64::MAX,
            j <= n,
            forall|t: int| 0 <= t < j ==> spec_fault(mode, #[trigger] records@[t], separator@)
                is None,
            store_seq(*store) == spec_ingest(s0, records@.take(j as int), mode, separator@),
            *num_reads == nr0 + count_mapped(records@.take(j as int)),
            count_mapped(records@.take(j as int)) <= j,
        decreases n - j,
    {
        let ghost prefix = records@.take(j as int);
        let ghost rec = records@[j as int];
        proof {
            assert(records@.take(j + 1) =~= prefix.push(rec));
            lemma_ingest_snoc(s0, prefix, rec, mode, separator@);
            lemma_count_mapped_snoc(prefix, rec);
        }
        let read = &records[j];
        if read.mapped {
            let key: i64 = match mode {
                IngestMode::Positional => {
                    match get_read_pos(read) {
                        Some(p) => p,
                        None => {
                            proof {
                                lemma_first_fault_at(records@, mode, separator@, j as int);
                            }
                            return Err(UmiError::MissingCigar);
                        },
                    }
                },
                IngestMode::Unsorted => 0,
            };
            let umi = match get_umi(&read.name, separator) {
                Ok(u) => u,
                Err(_) => {
                    proof {
                        lemma_first_fault_at(records@, mode, separator@, j as int);
                    }
                    return Err(UmiError::MalformedIdentifier);
                },
            };
            store_push(store, key, umi);
            *num_reads = *num_reads + 1;
        }
        j = j + 1;
    }
    proof {
        lemma_first_fault_at(records@, mode, separator@, n as int);
        assert(records@.take(n as int) =~= records@);
    }
    Ok(())
}

/// Build the store from position-sorted alignment records: each mapped
/// record's barcode is appended under its CIGAR-aware position key, and
/// the mapped-read counter grows by one per stored barcode. The fold
/// stops at the first faulting record and surfaces its fault.
pub fn pull_umis_bam(
    records: &Vec<ReadRecord>,
    store: &mut IndexMap<i64, Vec<Vec<u8>>>,
    separator: &Vec<u8>,
    num_reads: &mut u64,
) -> (r: Result<(), UmiError>)
    requires
        separator@.len() > 0,
        *old(num_reads) + records@.len() <= u64::MAX,
    ensures
        ({
            let done = records@.take(
                first_fault_index(records@, IngestMode::Positional, separator@),
            );
            &&& store_seq(*final(store)) == spec_ingest(
                store_seq(*old(store)),
                done,
                IngestMode::Positional,
                separator@,
            )
            &&& *final(num_reads) == *old(num_reads) + count_mapped(done)
            &&& (match spec_first_fault(records@, IngestMode::Positional, separator@) {
                None => r is Ok,
                Some(e) => r == Err::<(), UmiError>(e),
            })
        }),
{
    ingest(records, store, separator, num_reads, IngestMode::Positional)
}

/// Build the store from records whose order carries no positional
/// meaning: every mapped record's barcode lands in the single shared
/// bucket `0`, trading positional resolution for global statistics.
pub fn pull_umis_unsorted_bam(
    records: &Vec<ReadRecord>,
    store: &mut IndexMap<i64, Vec<Vec<u8>>>,
    separator: &Vec<u8>,
    num_reads: &mut u64,
) -> (r: Result<(), UmiError>)
    requires
        separator@.len() > 0,
        *old(num_reads) + records@.len() <= u64::MAX,
    ensures
        ({
            let done = records@.take(first_fault_index(records@, IngestMode::Unsorted, separator@));
            &&& store_seq(*final(store)) == spec_ingest(
                store_seq(*old(store)),
                done,
                IngestMode::Unsorted,
                separator@,
            )
            &&& *final(num_reads) == *old(num_reads) + count_mapped(done)
            &&& (match spec_first_fault(records@, IngestMode::Unsorted, separator@) {
                None => r is Ok,
                Some(e) => r == Err::<(), UmiError>(e),
            })
        }),
{
    ingest(records, store, separator, num_reads, IngestMode::Unsorted)
}

/// The entries after opening the text bucket and appending every
/// non-empty line as a barcode under it.
pub open spec fn spec_txt_ingest(s: Seq<(i64, Seq<Seq<u8>>)>, lines: Seq<Seq<u8>>) -> Seq<
    (i64, Seq<Seq<u8>>),
>
    decreases lines.len(),
{
    if lines.len() == 0 {
        s
    } else {
        let s2 = if lines.first().len() > 0 {
            spec_store_push(s, 1, lines.first())
        } else {
            s
        };
        spec_txt_ingest(s2, lines.drop_first())
    }
}

/// The entries after making sure the key has an entry, empty if new.
pub open spec fn spec_ensure_key(s: Seq<(i64, Seq<Seq<u8>>)>, k: i64) -> Seq<(i64, Seq<Seq<u8>>)> {
    if find_key(s, k) >= 0 {
        s
    } else {
        s.push((k, Seq::<Seq<u8>>::empty()))
    }
}

/// Number of non-empty lines.
pub open spec fn count_nonempty(lines: Seq<Seq<u8>>) -> nat
    decreases lines.len(),
{
    if lines.len() == 0 {
        0
    } else {
        (if lines.first().len() > 0 {
            1nat
        } else {
            0nat
        }) + count_nonempty(lines.drop_first())
    }
}

proof fn lemma_txt_ingest_snoc(s: Seq<(i64, Seq<Seq<u8>>)>, lines: Seq<Seq<u8>>, line: Seq<u8>)
    ensures
        spec_txt_ingest(s, lines.push(line)) == if line.len() > 0 {
            spec_store_push(spec_txt_ingest(s, lines), 1, line)
        } else {
            spec_txt_ingest(s, lines)
        },
    decreases lines.len(),
{
    if lines.len() == 0 {
        assert(lines.push(line).drop_first() =~= Seq::<Seq<u8>>::empty());
        assert(lines.push(line).first() == line);
        let s2 = if line.len() > 0 {
            spec_store_push(s, 1, line)
        } else {
            s
        };
        assert(spec_txt_ingest(s2, Seq::<Seq<u8>>::empty()) == s2);
    } else {
        assert(lines.push(line).first() == lines.first());
        assert(lines.push(line).drop_first() =~= lines.drop_first().push(line));
        let s2 = if lines.first().len() > 0 {
            spec_store_push(s, 1, lines.first())
        } else {
            s
        };
        lemma_txt_ingest_snoc(s2, lines.drop_first(), line);
    }
}

proof fn lemma_count_nonempty_snoc(lines: Seq<Seq<u8>>, line: Seq<u8>)
    ensures
        count_nonempty(lines.push(line)) == count_nonempty(lines) + (if line.len() > 0 {
            1nat
        } else {
            0nat
        }),
    decreases lines.len(),
{
    if lines.len() == 0 {
        assert(lines.push(line).drop_first() =~= Seq::<Seq<u8>>::empty());
        assert(lines.push(line).first() == line);
        assert(count_nonempty(Seq::<Seq<u8>>::empty()) == 0);
    } else {
        assert(lines.push(line).first() == lines.first());
        assert(lines.push(line).drop_first() =~= lines.drop_first().push(line));
        lemma_count_nonempty_snoc(lines.drop_first(), line);
    }
}

/// Build the store from a bare list of barcode lines: the fixed text
/// bucket `1` is opened even when no line fills it, every non-empty line
/// is appended to it as a barcode, and the read counter grows by one per
/// barcode kept.
pub fn pull_umis_txt(
    lines: &Vec<Vec<u8>>,
    store: &mut IndexMap<i64, Vec<Vec<u8>>>,
    num_reads: &mut u64,
)
    requires
        *old(num_reads) + lines@.len() <= u64::MAX,
    ensures
        store_seq(*final(store)) == spec_txt_ingest(
            spec_ensure_key(store_seq(*old(store)), 1),
            lines.deep_view(),
        ),
        *final(num_reads) == *old(num_reads) + count_nonempty(lines.deep_view()),
{
    let ghost lv = lines.deep_view();
    let ghost nr0 = *old(num_reads);
    store_ensure_key(store, 1);
    let ghost s0 = store_seq(*store);
    let n = lines.len();
    let mut j: usize = 0;
    proof {
        assert(lv.len() == lines@.len());
        assert(forall|t: int| 0 <= t < lv.len() ==> lv[t] == #[trigger] lines@[t]@);
        assert(lv.take(0) =~= Seq::<Seq<u8>>::empty());
    }
    while j < n
        invariant
            lv == lines.deep_view(),
            s0 == spec_ensure_key(store_seq(*old(store)), 1),
            nr0 == *old(num_reads),
            n == lines@.len(),
            lv.len() == lines@.len(),
            forall|t: int| 0 <= t < lv.len() ==> lv[t] == #[trigger] lines@[t]@,
            nr0 + lines@.len() <= u64::MAX,
            j <= n,
            store_seq(*store) == spec_txt_ingest(s0, lv.take(j as int)),
            *num_reads == nr0 + count_nonempty(lv.take(j as int)),
            count_nonempty(lv.take(j as int)) <= j,
        decreases n - j,
    {
        let ghost prefix = lv.take(j as int);
        proof {
            assert(lv.take(j + 1) =~= prefix.push(lv[j as int]));
            lemma_txt_ingest_snoc(s0, prefix, lv[j as int]);
            lemma_count_nonempty_snoc(prefix, lv[j as int]);
        }
        if lines[j].len() > 0 {
            let line = lines[j].clone();
            proof {
                assert(line@ == lv[j as int]);
            }
            store_push(store, 1, line);
            *num_reads = *num_reads + 1;
        }
        j = j + 1;
    }
    proof {
        assert(lv.take(n as int) =~= lv);
    }
}

} // verus!
