use std::collections::BTreeMap;
use vhost::mem::static_mem::StaticMemDescriptor;
use vhost::mem::static_snapshot::{collect_valid_ranges, dense_data, StaticMemRange};

fn sparse(entries: &[(usize, u8)]) -> BTreeMap<usize, u8> {
    entries.iter().copied().collect()
}

fn range(offset: usize, len: usize) -> StaticMemRange {
    StaticMemRange { offset, len }
}

#[test]
fn valid_ranges_of_nothing_written_are_empty() {
    assert_eq!(Vec::<StaticMemRange>::new(), collect_valid_ranges(&BTreeMap::new()));
}

#[test]
fn valid_ranges_of_one_byte() {
    assert_eq!(vec![range(7, 1)], collect_valid_ranges(&sparse(&[(7, 9)])));
}

#[test]
fn valid_ranges_merge_consecutive_offsets() {
    let data = sparse(&[(2, 1), (3, 2), (4, 3)]);
    assert_eq!(vec![range(2, 3)], collect_valid_ranges(&data));
}

#[test]
fn valid_ranges_split_at_gaps() {
    let data = sparse(&[(0, 1), (1, 1), (3, 1), (6, 1), (7, 1), (8, 1), (10, 1)]);
    assert_eq!(
        vec![range(0, 2), range(3, 1), range(6, 3), range(10, 1)],
        collect_valid_ranges(&data)
    );
}

#[test]
fn valid_ranges_keep_a_gap_of_one_offset() {
    let data = sparse(&[(4, 1), (6, 1)]);
    assert_eq!(vec![range(4, 1), range(6, 1)], collect_valid_ranges(&data));
}

#[test]
fn valid_ranges_near_the_top_of_the_offset_space() {
    let top = usize::MAX - 1;
    let data = sparse(&[(top - 1, 1), (top, 2)]);
    assert_eq!(vec![range(top - 1, 2)], collect_valid_ranges(&data));
}

fn descriptor(width: usize, depth: usize) -> StaticMemDescriptor {
    StaticMemDescriptor { path: "dut.mem".to_string(), width, depth }
}

#[test]
fn dense_data_places_written_bytes_and_zero_elsewhere() {
    let data = dense_data(&descriptor(4, 4), &sparse(&[(2, 1), (3, 2), (4, 3)]));
    assert_eq!(16, data.len());
    assert_eq!(&[0, 0, 1, 2, 3, 0, 0, 0], &data[..8]);
    assert!(data[8..].iter().all(|b| *b == 0));
}

#[test]
fn dense_data_of_nothing_written_is_all_zero() {
    assert_eq!(vec![0u8; 6], dense_data(&descriptor(2, 3), &BTreeMap::new()));
}

#[test]
fn dense_data_leaves_out_offsets_beyond_the_extent() {
    let data = dense_data(&descriptor(1, 2), &sparse(&[(1, 5), (2, 6), (100, 7)]));
    assert_eq!(vec![0, 5], data);
}

#[test]
fn dense_data_of_an_empty_extent() {
    assert_eq!(Vec::<u8>::new(), dense_data(&descriptor(4, 0), &sparse(&[(0, 1)])));
}
