use indexmap::IndexMap;
use pull_umis::pickers::{extract_dist, extract_means, extract_umis, get_dist, get_mean};
use pull_umis::report::{Cell, ColumnLabel};
use pull_umis::UmiError;

fn one_position_store(umis: &[&[u8]]) -> IndexMap<i64, Vec<Vec<u8>>> {
    let mut store: IndexMap<i64, Vec<Vec<u8>>> = IndexMap::new();
    store.insert(7, umis.iter().map(|u| u.to_vec()).collect());
    store
}

#[test]
fn histogram_of_scenario_distances() {
    let hist = get_dist(&vec![1, 2, 1]);
    assert_eq!(hist.len(), 13);
    for (b, cell) in hist.iter().enumerate() {
        match b {
            1 => assert_eq!(cell, &Some(2)),
            2 => assert_eq!(cell, &Some(1)),
            _ => assert_eq!(cell, &None),
        }
    }
}

#[test]
fn histogram_saturates_large_distances_into_the_last_bucket() {
    let hist = get_dist(&vec![12, 15, 100]);
    assert_eq!(hist[12], Some(3));
    for b in 0..12 {
        assert_eq!(hist[b], None);
    }
}

#[test]
fn histogram_counts_sum_to_the_number_of_distances() {
    let edits = vec![0, 1, 1, 3, 12, 40, 7];
    let hist = get_dist(&edits);
    let total: usize = hist.iter().map(|c| c.unwrap_or(0)).sum();
    assert_eq!(total, edits.len());
}

#[test]
fn mean_is_an_exact_ratio() {
    let m = get_mean(&vec![1, 2, 1]);
    assert_eq!(m.sum, 4);
    assert_eq!(m.count, 3);
    let value = m.sum as f64 / m.count as f64;
    assert!((value - 1.3333333).abs() < 1e-6);
}

#[test]
fn barcode_mode_emits_the_barcodes_themselves() {
    let store = one_position_store(&[b"AAAA", b"AAAT"]);
    let cols = extract_umis(store, 0, 5);
    assert_eq!(cols.len(), 1);
    assert_eq!(cols[0].label, ColumnLabel::Position(7));
    assert_eq!(
        cols[0].cells,
        vec![
            Some(Cell::Bytes(b"AAAA".to_vec())),
            Some(Cell::Bytes(b"AAAT".to_vec())),
        ]
    );
}

#[test]
fn barcode_mode_keeps_every_position() {
    let mut store: IndexMap<i64, Vec<Vec<u8>>> = IndexMap::new();
    store.insert(3, vec![b"AC".to_vec()]);
    store.insert(9, vec![b"GT".to_vec(), b"GG".to_vec()]);
    let cols = extract_umis(store, 0, 5);
    assert_eq!(cols.len(), 2);
    assert_eq!(cols[0].label, ColumnLabel::Position(3));
    assert_eq!(cols[1].label, ColumnLabel::Position(9));
}

#[test]
fn mean_mode_emits_the_scenario_mean() {
    let store = one_position_store(&[b"AAAA", b"AAAT", b"AATT"]);
    let cols = extract_means(store, 0, 5).unwrap();
    assert_eq!(cols.len(), 1);
    assert_eq!(cols[0].label, ColumnLabel::Position(7));
    assert_eq!(cols[0].cells, vec![Some(Cell::MeanOf { sum: 4, count: 3 })]);
}

#[test]
fn mean_mode_skips_a_position_with_a_single_barcode() {
    let store = one_position_store(&[b"AAAA"]);
    let cols = extract_means(store, 0, 5).unwrap();
    assert_eq!(cols.len(), 0);
}

#[test]
fn mean_mode_fails_on_unequal_barcode_lengths() {
    let store = one_position_store(&[b"AAAA", b"AAA"]);
    assert_eq!(extract_means(store, 0, 5), Err(UmiError::LengthMismatch));
}

#[test]
fn dist_mode_emits_the_scenario_histogram() {
    let store = one_position_store(&[b"AAAA", b"AAAT", b"AATT"]);
    let cols = extract_dist(store, 0, 5).unwrap();
    assert_eq!(cols.len(), 2);
    assert_eq!(cols[0].label, ColumnLabel::EditIndex);
    let index: Vec<Option<Cell>> = (0..13).map(|b| Some(Cell::UInt(b as u128))).collect();
    assert_eq!(cols[0].cells, index);
    assert_eq!(cols[1].label, ColumnLabel::Position(7));
    for (b, cell) in cols[1].cells.iter().enumerate() {
        match b {
            1 => assert_eq!(cell, &Some(Cell::UInt(2))),
            2 => assert_eq!(cell, &Some(Cell::UInt(1))),
            _ => assert_eq!(cell, &None),
        }
    }
}

#[test]
fn dist_mode_without_any_pair_emits_nothing() {
    let store = one_position_store(&[b"AAAA"]);
    let cols = extract_dist(store, 0, 5).unwrap();
    assert_eq!(cols.len(), 0);
}

#[test]
fn dist_mode_fails_on_unequal_barcode_lengths() {
    let store = one_position_store(&[b"AAAA", b"AAA"]);
    assert_eq!(extract_dist(store, 0, 5), Err(UmiError::LengthMismatch));
}

#[test]
fn subsampled_modes_stay_within_the_requested_group_size() {
    let umis: Vec<Vec<u8>> = (0..30)
        .map(|i| format!("AA{:02}", i).into_bytes())
        .collect();
    let mut store: IndexMap<i64, Vec<Vec<u8>>> = IndexMap::new();
    store.insert(1, umis);
    let cols = extract_means(store, 5, 5).unwrap();
    assert_eq!(cols.len(), 1);
    match &cols[0].cells[0] {
        Some(Cell::MeanOf { sum: _, count }) => assert_eq!(*count, 5 * 4 / 2),
        _ => panic!("expected a mean cell"),
    }
}
