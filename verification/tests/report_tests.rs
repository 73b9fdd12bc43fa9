use pull_umis::report::{sum_cols, write_report, Cell, Column, ColumnLabel};

fn uint_col(label: ColumnLabel, values: &[Option<u128>]) -> Column {
    Column {
        label,
        cells: values.iter().map(|v| v.map(Cell::UInt)).collect(),
    }
}

#[test]
fn sum_treats_missing_as_zero() {
    let cols = vec![
        uint_col(ColumnLabel::EditIndex, &[Some(0), Some(1), Some(2)]),
        uint_col(ColumnLabel::Position(5), &[Some(2), None, Some(1)]),
        uint_col(ColumnLabel::Position(9), &[None, Some(4), Some(1)]),
    ];
    let summary = sum_cols(cols);
    assert_eq!(summary.len(), 2);
    assert_eq!(summary[0].label, ColumnLabel::EditIndex);
    assert_eq!(summary[1].label, ColumnLabel::DatasetTotal);
    assert_eq!(
        summary[1].cells,
        vec![
            Some(Cell::UInt(2)),
            Some(Cell::UInt(4)),
            Some(Cell::UInt(2)),
        ]
    );
}

#[test]
fn report_pads_ragged_columns_with_missing_markers() {
    let cols = vec![
        Column {
            label: ColumnLabel::Position(1),
            cells: vec![
                Some(Cell::Bytes(b"AAAA".to_vec())),
                Some(Cell::Bytes(b"CCCC".to_vec())),
            ],
        },
        Column {
            label: ColumnLabel::Position(2),
            cells: vec![Some(Cell::Bytes(b"GGGG".to_vec()))],
        },
    ];
    let report = write_report(cols, false, false, 0);
    assert_eq!(report.len(), 2);
    assert_eq!(report[0].cells.len(), 2);
    assert_eq!(report[1].cells.len(), 2);
    assert_eq!(report[1].cells[1], None);
    assert_eq!(report[1].cells[0], Some(Cell::Bytes(b"GGGG".to_vec())));
}

#[test]
fn report_appends_the_read_count_annotation() {
    let cols = vec![Column {
        label: ColumnLabel::Position(1),
        cells: vec![
            Some(Cell::Bytes(b"AAAA".to_vec())),
            Some(Cell::Bytes(b"CCCC".to_vec())),
        ],
    }];
    let report = write_report(cols, true, false, 17);
    assert_eq!(report.len(), 2);
    assert_eq!(report[1].label, ColumnLabel::ReadCount);
    assert_eq!(report[1].cells[0], Some(Cell::UInt(17)));
    assert_eq!(report[1].cells[1], None);
}

#[test]
fn summarized_report_holds_index_total_and_read_count() {
    let cols = vec![
        uint_col(ColumnLabel::EditIndex, &[Some(0), Some(1)]),
        uint_col(ColumnLabel::Position(5), &[Some(3), None]),
        uint_col(ColumnLabel::Position(9), &[Some(1), Some(2)]),
    ];
    let report = write_report(cols, true, true, 42);
    assert_eq!(report.len(), 3);
    assert_eq!(report[0].label, ColumnLabel::EditIndex);
    assert_eq!(report[1].label, ColumnLabel::DatasetTotal);
    assert_eq!(
        report[1].cells,
        vec![Some(Cell::UInt(4)), Some(Cell::UInt(2))]
    );
    assert_eq!(report[2].label, ColumnLabel::ReadCount);
    assert_eq!(report[2].cells, vec![Some(Cell::UInt(42)), None]);
}
