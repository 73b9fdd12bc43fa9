use indexmap::IndexMap;
use pull_umis::records::{get_read_pos, get_umi, ReadRecord};
use pull_umis::store::{pull_umis_bam, pull_umis_txt, pull_umis_unsorted_bam};
use pull_umis::UmiError;

fn record(name: &str, start: i32, end: i32, reverse: bool) -> ReadRecord {
    ReadRecord {
        mapped: true,
        reverse_strand: reverse,
        start,
        end,
        has_cigar: true,
        leading_soft_clip: 0,
        trailing_soft_clip: 0,
        name: name.as_bytes().to_vec(),
    }
}

#[test]
fn read_pos_forward_subtracts_leading_clip() {
    let mut r = record("r:AAAA", 100, 150, false);
    r.leading_soft_clip = 4;
    assert_eq!(get_read_pos(&r), Some(96));
}

#[test]
fn read_pos_reverse_adds_trailing_clip() {
    let mut r = record("r:AAAA", 100, 150, true);
    r.trailing_soft_clip = 3;
    assert_eq!(get_read_pos(&r), Some(153));
}

#[test]
fn read_pos_missing_cigar_gives_none() {
    let mut r = record("r:AAAA", 100, 150, false);
    r.has_cigar = false;
    assert_eq!(get_read_pos(&r), None);
}

#[test]
fn umi_is_last_field_after_separator() {
    assert_eq!(
        get_umi(&b"machine:lane:GATTACA".to_vec(), &b":".to_vec()),
        Ok(b"GATTACA".to_vec())
    );
}

#[test]
fn umi_split_scans_left_to_right_without_overlap() {
    assert_eq!(
        get_umi(&b"aXXXb".to_vec(), &b"XX".to_vec()),
        Ok(b"Xb".to_vec())
    );
}

#[test]
fn umi_missing_separator_is_malformed() {
    assert_eq!(
        get_umi(&b"noseparator".to_vec(), &b":".to_vec()),
        Err(UmiError::MalformedIdentifier)
    );
}

#[test]
fn store_keeps_every_mapped_read_once() {
    let mut records = vec![
        record("a:AAAA", 10, 20, false),
        record("b:CCCC", 10, 25, false),
        record("c:GGGG", 30, 40, false),
    ];
    records.push(ReadRecord {
        mapped: false,
        ..record("d:TTTT", 50, 60, false)
    });
    let mut store: IndexMap<i64, Vec<Vec<u8>>> = IndexMap::new();
    let mut num_reads: u64 = 0;
    let sep = b":".to_vec();
    assert_eq!(
        pull_umis_bam(&records, &mut store, &sep, &mut num_reads),
        Ok(())
    );
    assert_eq!(num_reads, 3);
    let total: usize = store.values().map(|v| v.len()).sum();
    assert_eq!(total, 3);
    assert_eq!(
        store.get(&10),
        Some(&vec![b"AAAA".to_vec(), b"CCCC".to_vec()])
    );
    assert_eq!(store.get(&30), Some(&vec![b"GGGG".to_vec()]));
}

#[test]
fn store_fails_on_mapped_read_without_cigar() {
    let mut bad = record("a:AAAA", 10, 20, false);
    bad.has_cigar = false;
    let records = vec![bad];
    let mut store: IndexMap<i64, Vec<Vec<u8>>> = IndexMap::new();
    let mut num_reads: u64 = 0;
    assert_eq!(
        pull_umis_bam(&records, &mut store, &b":".to_vec(), &mut num_reads),
        Err(UmiError::MissingCigar)
    );
}

#[test]
fn store_fails_on_name_without_separator() {
    let records = vec![record("nosep", 10, 20, false)];
    let mut store: IndexMap<i64, Vec<Vec<u8>>> = IndexMap::new();
    let mut num_reads: u64 = 0;
    assert_eq!(
        pull_umis_bam(&records, &mut store, &b":".to_vec(), &mut num_reads),
        Err(UmiError::MalformedIdentifier)
    );
}

#[test]
fn unsorted_store_collapses_positions_into_one_bucket() {
    let records = vec![
        record("a:AAAA", 10, 20, false),
        record("b:CCCC", 300, 350, true),
    ];
    let mut store: IndexMap<i64, Vec<Vec<u8>>> = IndexMap::new();
    let mut num_reads: u64 = 0;
    assert_eq!(
        pull_umis_unsorted_bam(&records, &mut store, &b":".to_vec(), &mut num_reads),
        Ok(())
    );
    assert_eq!(num_reads, 2);
    assert_eq!(store.len(), 1);
    assert_eq!(
        store.get(&0),
        Some(&vec![b"AAAA".to_vec(), b"CCCC".to_vec()])
    );
}

#[test]
fn txt_store_keeps_non_empty_lines_in_the_text_bucket() {
    let lines = vec![b"AAAA".to_vec(), Vec::new(), b"CCCC".to_vec()];
    let mut store: IndexMap<i64, Vec<Vec<u8>>> = IndexMap::new();
    let mut num_reads: u64 = 0;
    pull_umis_txt(&lines, &mut store, &mut num_reads);
    assert_eq!(num_reads, 2);
    assert_eq!(
        store.get(&1),
        Some(&vec![b"AAAA".to_vec(), b"CCCC".to_vec()])
    );
}

#[test]
fn txt_store_opens_the_bucket_even_for_empty_input() {
    let lines: Vec<Vec<u8>> = Vec::new();
    let mut store: IndexMap<i64, Vec<Vec<u8>>> = IndexMap::new();
    let mut num_reads: u64 = 0;
    pull_umis_txt(&lines, &mut store, &mut num_reads);
    assert_eq!(num_reads, 0);
    assert_eq!(store.get(&1), Some(&Vec::new()));
}
