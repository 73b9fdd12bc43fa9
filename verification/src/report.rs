//! The report: named per-position columns, horizontal alignment with
//! explicit missing markers, the genome-wide summation column, and the
//! read-count annotation.

use vstd::prelude::*;

verus! {

/// Identity of one report column. The caller renders it to a header:
/// a position key as its decimal text, the shared edit-distance bucket
/// index as its fixed header, the genome-wide total as the dataset's
/// name, and the read-count annotation as its fixed header.
#[derive(Clone, Copy, PartialEq, Eq, Structural, Debug)]
pub enum ColumnLabel {
    Position(i64),
    EditIndex,
    DatasetTotal,
    ReadCount,
}

/// One table cell: a barcode, an unsigned value (bucket index, bucket
/// count, genome-wide total or read count), or a mean held exactly as
/// the sum and the number of the distances it averages.
#[derive(PartialEq, Eq, Debug)]
pub enum Cell {
    Bytes(Vec<u8>),
    UInt(u128),
    MeanOf { sum: u128, count: usize },
}

/// The mathematical value of a [`Cell`].
pub enum CellV {
    Bytes(Seq<u8>),
    UInt(u128),
    MeanOf { sum: u128, count: usize },
}

impl DeepView for Cell {
    type V = CellV;

    open spec fn deep_view(&self) -> CellV {
        match self {
            Cell::Bytes(b) => CellV::Bytes(b@),
            Cell::UInt(v) => CellV::UInt(*v),
            Cell::MeanOf { sum, count } => CellV::MeanOf { sum: *sum, count: *count },
        }
    }
}

/// One named column; a `None` cell is the explicit missing marker that
/// the sink writes as a blank.
#[derive(PartialEq, Eq, Debug)]
pub struct Column {
    pub label: ColumnLabel,
    pub cells: Vec<Option<Cell>>,
}

/// What a cell contributes to a genome-wide sum: its value when it is a
/// count, zero when it is the missing marker (missing is treated as zero
/// for summation only).
pub open spec fn cell_num(c: Option<Cell>) -> int {
    match c {
        Some(Cell::UInt(v)) => v as int,
        _ => 0,
    }
}

/// A cell a summation column may consume: a count that fits the sum's
/// arithmetic, or the missing marker.
pub open spec fn count_cell_ok(c: Option<Cell>) -> bool {
    match c {
        None => true,
        Some(Cell::UInt(v)) => v <= u64::MAX as u128,
        Some(_) => false,
    }
}

/// Sum of row `t` over a column collection, missing cells as zero.
pub open spec fn row_sum(cols: Seq<Column>, t: int) -> int
    decreases cols.len(),
{
    if cols.len() == 0 {
        0
    } else {
        cell_num(cols.first().cells@[t]) + row_sum(cols.drop_first(), t)
    }
}

proof fn lemma_row_sum_bound(s: Seq<Column>, t: int)
    requires
        forall|i: int| 0 <= i < s.len() ==> cell_num((#[trigger] s[i]).cells@[t]) <= u64::MAX as int,
    ensures
        0 <= row_sum(s, t) <= s.len() * (u64::MAX as int),
    decreases s.len(),
{
    if s.len() == 0 {
    } else {
        assert(s[0] == s.first());
        assert(forall|i: int| 0 <= i < s.drop_first().len() ==> cell_num(
            (#[trigger] s.drop_first()[i]).cells@[t],
        ) <= u64::MAX as int);
        lemma_row_sum_bound(s.drop_first(), t);
        assert(s.len() * (u64::MAX as int) == (s.len() - 1) * (u64::MAX as int) + (
        u64::MAX as int)) by (nonlinear_arith);
    }
}

/// The genome-wide summary of a distribution report: the shared
/// bucket-index column is kept first, the per-position columns are
/// replaced by one total column that sums them element-wise, missing
/// cells counting as zero.
pub fn sum_cols(cols: Vec<Column>) -> (r: Vec<Column>)
    requires
        cols@.len() >= 1,
        forall|i: int| 1 <= i < cols@.len() ==> (#[trigger] cols@[i]).cells@.len()
            == cols@[0].cells@.len(),
        forall|i: int, t: int|
            1 <= i < cols@.len() && 0 <= t < cols@[0].cells@.len() ==> count_cell_ok(
                #[trigger] cols@[i].cells@[t],
            ),
    ensures
        r@.len() == 2,
        r@[0] == cols@[0],
        r@[1].label == ColumnLabel::DatasetTotal,
        r@[1].cells@.len() == cols@[0].cells@.len(),
        forall|t: int|
            0 <= t < cols@[0].cells@.len() ==> (#[trigger] r@[1].cells@[t]) == Some(
                Cell::UInt(row_sum(cols@.skip(1), t) as u128),
            ),
{
    let k = cols.len();
    let h = cols[0].cells.len();
    let mut total: Vec<Option<Cell>> = Vec::new();
    let mut t: usize = 0;
    while t < h
        invariant
            k == cols@.len(),
            k >= 1,
            h == cols@[0].cells@.len(),
            forall|i: int| 1 <= i < cols@.len() ==> (#[trigger] cols@[i]).cells@.len() == h,
            forall|i: int, t2: int|
                1 <= i < cols@.len() && 0 <= t2 < h ==> count_cell_ok(
                    #[trigger] cols@[i].cells@[t2],
                ),
            t <= h,
            total@.len() == t,
            forall|t2: int|
                0 <= t2 < t ==> (#[trigger] total@[t2]) == Some(
                    Cell::UInt(row_sum(cols@.skip(1), t2) as u128),
                ),
        decreases h - t,
    {
        let mut acc: u128 = 0;
        let mut i: usize = 1;
        proof {
            let ti = t as int;
            assert forall|i2: int| 0 <= i2 < cols@.skip(1).len() implies cell_num(
                (#[trigger] cols@.skip(1)[i2]).cells@[ti],
            ) <= u64::MAX as int by {
                assert(cols@.skip(1)[i2] == cols@[i2 + 1]);
                assert(count_cell_ok(cols@[i2 + 1].cells@[ti]));
            }
            lemma_row_sum_bound(cols@.skip(1), ti);
        }
        while i < k
            invariant
                k == cols@.len(),
                k >= 1,
                h == cols@[0].cells@.len(),
                forall|i2: int| 1 <= i2 < cols@.len() ==> (#[trigger] cols@[i2]).cells@.len() == h,
                forall|i2: int, t2: int|
                    1 <= i2 < cols@.len() && 0 <= t2 < h ==> count_cell_ok(
                        #[trigger] cols@[i2].cells@[t2],
                    ),
                t < h,
                1 <= i <= k,
                acc + row_sum(cols@.skip(i as int), t as int) == row_sum(
                    cols@.skip(1),
                    t as int,
                ),
                acc <= (i - 1) * (u64::MAX as int),
            decreases k - i,
        {
            proof {
                assert(cols@.skip(i as int).first() == cols@[i as int]);
                assert(cols@.skip(i as int).drop_first() =~= cols@.skip(i + 1));
                assert(count_cell_ok(cols@[i as int].cells@[t as int]));
                let ti = t as int;
                assert forall|i2: int| 0 <= i2 < cols@.skip(i + 1).len() implies cell_num(
                    (#[trigger] cols@.skip(i + 1)[i2]).cells@[ti],
                ) <= u64::MAX as int by {
                    assert(cols@.skip(i + 1)[i2] == cols@[i2 + i + 1]);
                    assert(count_cell_ok(cols@[i2 + i + 1].cells@[ti]));
                }
                lemma_row_sum_bound(cols@.skip(i + 1), ti);
                assert(i * (u64::MAX as int) == (i - 1) * (u64::MAX as int) + (u64::MAX as int))
                    by (nonlinear_arith);
                assert(i * (u64::MAX as int) <= (u64::MAX as int) * (u64::MAX as int))
                    by (nonlinear_arith)
                    requires
                        1 <= i <= u64::MAX as int,
                ;
                assert((u64::MAX as int) * (u64::MAX as int) < u128::MAX as int);
            }
            let c = &cols[i].cells[t];
            match c {
                Some(Cell::UInt(v)) => {
                    acc = acc + *v;
                },
                _ => {},
            }
            i = i + 1;
        }
        proof {
            assert(cols@.skip(k as int).len() == 0);
            assert(row_sum(cols@.skip(k as int), t as int) == 0);
        }
        total.push(Some(Cell::UInt(acc)));
        t = t + 1;
    }
    let mut cols = cols;
    let first = cols.remove(0);
    let mut r: Vec<Column> = Vec::new();
    r.push(first);
    r.push(Column { label: ColumnLabel::DatasetTotal, cells: total });
    r
}

/// Height of the tallest column.
pub open spec fn max_height(cols: Seq<Column>) -> int
    decreases cols.len(),
{
    if cols.len() == 0 {
        0
    } else {
        let rest = max_height(cols.drop_last());
        let h = cols.last().cells@.len() as int;
        if h > rest {
            h
        } else {
            rest
        }
    }
}

proof fn lemma_max_height_ge(cols: Seq<Column>, i: int)
    requires
        0 <= i < cols.len(),
    ensures
        cols[i].cells@.len() <= max_height(cols),
    decreases cols.len(),
{
    if i == cols.len() - 1 {
    } else {
        assert(cols.drop_last()[i] == cols[i]);
        lemma_max_height_ge(cols.drop_last(), i);
    }
}

/// A column's cells padded to height `h` with the missing marker; cells
/// are never dropped.
pub open spec fn spec_pad(cells: Seq<Option<Cell>>, h: int) -> Seq<Option<Cell>> {
    cells + Seq::new(
        if h >= cells.len() {
            (h - cells.len()) as nat
        } else {
            0nat
        },
        |t: int| None::<Cell>,
    )
}

proof fn lemma_max_height_nonneg(cols: Seq<Column>)
    ensures
        max_height(cols) >= 0,
    decreases cols.len(),
{
    if cols.len() > 0 {
        lemma_max_height_nonneg(cols.drop_last());
    }
}

/// The row count of the finished report: the tallest column of what is
/// assembled, but at least one row when the read-count annotation is
/// requested. Under summarization every input column shares the
/// bucket-index column's height.
pub open spec fn spec_report_height(columns: Seq<Column>, get_reads: bool, summarize: bool) -> int {
    let base = if summarize {
        columns[0].cells@.len() as int
    } else {
        max_height(columns)
    };
    if get_reads && base < 1 {
        1
    } else {
        base
    }
}

/// Assemble the final report: optionally replace the per-position
/// columns by the genome-wide summary, optionally append the read-count
/// annotation, and align every column to one common height by padding
/// the shorter ones with the missing marker, never truncating. The
/// caller serializes the result through its tabular sink.
pub fn write_report(columns: Vec<Column>, get_reads: bool, summarize: bool, num_reads: u64) -> (r:
    Vec<Column>)
    requires
        summarize ==> columns@.len() >= 1,
        summarize ==> forall|i: int|
            1 <= i < columns@.len() ==> (#[trigger] columns@[i]).cells@.len()
                == columns@[0].cells@.len(),
        summarize ==> forall|i: int, t: int|
            1 <= i < columns@.len() && 0 <= t < columns@[0].cells@.len() ==> count_cell_ok(
                #[trigger] columns@[i].cells@[t],
            ),
    ensures
        ({
            let k = (if summarize {
                2int
            } else {
                columns@.len() as int
            }) + (if get_reads {
                1int
            } else {
                0int
            });
            let h = spec_report_height(columns@, get_reads, summarize);
            &&& r@.len() == k
            &&& forall|i: int| 0 <= i < k ==> (#[trigger] r@[i]).cells@.len() == h
            &&& (!summarize ==> forall|i: int|
                0 <= i < columns@.len() ==> (#[trigger] r@[i]).label == columns@[i].label && r@[i].cells@
                    == spec_pad(columns@[i].cells@, h))
            &&& (summarize ==> {
                &&& r@[0].label == columns@[0].label
                &&& r@[0].cells@ == spec_pad(columns@[0].cells@, h)
                &&& r@[1].label == ColumnLabel::DatasetTotal
                &&& forall|t: int|
                    0 <= t < columns@[0].cells@.len() ==> (#[trigger] r@[1].cells@[t]) == Some(
                        Cell::UInt(row_sum(columns@.skip(1), t) as u128),
                    )
                &&& forall|t: int|
                    columns@[0].cells@.len() <= t < h ==> (#[trigger] r@[1].cells@[t]) is None
            })
            &&& (get_reads ==> r@[k - 1].label == ColumnLabel::ReadCount && r@[k - 1].cells@
                == spec_pad(seq![Some(Cell::UInt(num_reads as u128))], h))
        }),
{
    let ghost cv = columns@;
    let ghost h = spec_report_height(columns@, get_reads, summarize);
    proof {
        lemma_max_height_nonneg(cv);
    }
    let mut cols = if summarize {
        sum_cols(columns)
    } else {
        columns
    };
    let ghost base = cols@;
    proof {
        if summarize {
            assert(base[0] == cv[0]);
        }
    }
    if get_reads {
        let mut rc: Vec<Option<Cell>> = Vec::new();
        rc.push(Some(Cell::UInt(num_reads as u128)));
        proof {
            assert(rc@ =~= seq![Some(Cell::UInt(num_reads as u128))]);
        }
        cols.push(Column { label: ColumnLabel::ReadCount, cells: rc });
    }
    let ghost stage = cols@;
    proof {
        if get_reads {
            assert(stage.drop_last() =~= base);
            assert(stage.last() == stage[stage.len() - 1]);
        } else {
            assert(stage == base);
        }
        // The staged columns reach exactly the report height.
        if summarize {
            let h0 = cv[0].cells@.len() as int;
            assert(base.len() == 2);
            assert(base[0].cells@.len() == h0);
            assert(base[1].cells@.len() == h0);
            assert(base.drop_last().drop_last() =~= Seq::<Column>::empty());
            assert(max_height(Seq::<Column>::empty()) == 0);
            assert(base.drop_last().last() == base[0]);
            assert(base.drop_last() =~= seq![base[0]]);
            assert(seq![base[0]].drop_last() =~= Seq::<Column>::empty());
            assert(max_height(seq![base[0]]) == h0);
            assert(max_height(base) == h0);
        } else {
            assert(max_height(base) == max_height(cv));
        }
        if get_reads {
            let mb = max_height(base);
            assert(max_height(stage) == if 1int > mb {
                1int
            } else {
                mb
            });
            lemma_max_height_nonneg(base);
        }
        assert(max_height(stage) == h);
    }
    let mut m: usize = 0;
    let mut i: usize = 0;
    proof {
        assert(stage.take(0) =~= Seq::<Column>::empty());
    }
    while i < cols.len()
        invariant
            stage == cols@,
            i <= stage.len(),
            m as int == max_height(stage.take(i as int)),
        decreases stage.len() - i,
    {
        proof {
            assert(stage.take(i + 1).drop_last() =~= stage.take(i as int));
            assert(stage.take(i + 1).last() == stage[i as int]);
        }
        let ch = cols[i].cells.len();
        if ch > m {
            m = ch;
        }
        i = i + 1;
    }
    proof {
        assert(stage.take(stage.len() as int) =~= stage);
        assert(m as int == h);
        assert forall|t: int| 0 <= t < stage.len() implies (#[trigger] stage[t]).cells@.len()
            <= m as int by {
            lemma_max_height_ge(stage, t);
        }
    }
    let mut out: Vec<Column> = Vec::new();
    let mut rest = cols;
    while rest.len() > 0
        invariant
            out@.len() + rest@.len() == stage.len(),
            rest@ == stage.skip(out@.len() as int),
            forall|t: int| 0 <= t < stage.len() ==> (#[trigger] stage[t]).cells@.len() <= m as int,
            forall|t: int|
                0 <= t < out@.len() ==> (#[trigger] out@[t]).label == stage[t].label && out@[t].cells@
                    == spec_pad(stage[t].cells@, m as int),
        decreases rest@.len(),
    {
        let ghost j = out@.len() as int;
        let ghost oldrest = rest@;
        let col = rest.remove(0);
        proof {
            assert(oldrest[0] == stage[j]);
            assert(rest@ =~= stage.skip(j + 1));
        }
        let lab = col.label;
        let mut cells = col.cells;
        let ghost orig = stage[j].cells@;
        proof {
            assert(cells@ =~= orig + Seq::new((cells@.len() - orig.len()) as nat, |t: int| None::<Cell>));
        }
        while cells.len() < m
            invariant
                orig.len() <= cells@.len() <= m as int,
                orig == stage.skip(0)[j].cells@ || orig == stage[j].cells@,
                cells@ == orig + Seq::new((cells@.len() - orig.len()) as nat, |t: int| None::<Cell>),
            decreases m - cells@.len(),
        {
            cells.push(None);
            proof {
                assert(cells@ =~= orig + Seq::new((cells@.len() - orig.len()) as nat, |t: int| None::<Cell>));
            }
        }
        proof {
            assert(cells@.len() == m);
            assert(cells@ =~= spec_pad(orig, m as int));
        }
        out.push(Column { label: lab, cells });
    }
    proof {
        assert(out@.len() == stage.len());
        if summarize {
            assert(out@[0].label == stage[0].label);
            assert(stage[0] == base[0]);
            assert(out@[0].cells@ == spec_pad(cv[0].cells@, h));
            assert(stage[1] == base[1]);
            assert(out@[1].label == ColumnLabel::DatasetTotal);
            assert forall|t: int| 0 <= t < cv[0].cells@.len() implies (#[trigger] out@[1].cells@[t])
                == Some(Cell::UInt(row_sum(cv.skip(1), t) as u128)) by {
                assert(out@[1].cells@ == spec_pad(base[1].cells@, h));
                assert(spec_pad(base[1].cells@, h)[t] == base[1].cells@[t]);
            }
            assert forall|t: int| cv[0].cells@.len() <= t < h implies (#[trigger] out@[1].cells@[t])
                is None by {
                assert(out@[1].cells@ == spec_pad(base[1].cells@, h));
            }
        }
        if get_reads {
            assert(stage[stage.len() - 1].cells@ =~= seq![Some(Cell::UInt(num_reads as u128))]);
            assert(out@[out@.len() - 1].cells@ == spec_pad(
                seq![Some(Cell::UInt(num_reads as u128))],
                h,
            ));
        }
        assert forall|t: int| 0 <= t < out@.len() implies (#[trigger] out@[t]).cells@.len() == h by {
            assert(out@[t].cells@ == spec_pad(stage[t].cells@, h));
        }
    }
    out
}

} // verus!
