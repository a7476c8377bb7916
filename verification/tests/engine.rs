use nsp_cli::chunking::{combine_bytes, split_bytes};
use nsp_cli::PartError;

fn pattern(len: usize) -> Vec<u8> {
    let mut data = Vec::with_capacity(len);
    let mut x: u32 = 0x1234_5678;
    for _ in 0..len {
        x = x.wrapping_mul(1_664_525).wrapping_add(1_013_904_223);
        data.push((x >> 24) as u8);
    }
    data
}

#[test]
fn round_trip_small() {
    let data = pattern(10);
    let parts = split_bytes(&data, 4);
    assert_eq!(parts.len(), 3);
    assert_eq!(parts[0].len(), 4);
    assert_eq!(parts[1].len(), 4);
    assert_eq!(parts[2].len(), 2);
    let combined = combine_bytes(&parts).unwrap();
    assert_eq!(combined, data);
}

#[test]
fn round_trip_exact_multiple() {
    let data = pattern(8);
    let parts = split_bytes(&data, 4);
    assert_eq!(parts.len(), 2);
    assert_eq!(parts[0].len(), 4);
    assert_eq!(parts[1].len(), 4);
    let combined = combine_bytes(&parts).unwrap();
    assert_eq!(combined, data);
}

#[test]
fn round_trip_single_part() {
    let data = pattern(3);
    let parts = split_bytes(&data, 100);
    assert_eq!(parts.len(), 1);
    assert_eq!(parts[0], data);
    let combined = combine_bytes(&parts).unwrap();
    assert_eq!(combined, data);
}

#[test]
fn split_empty_source_yields_no_parts() {
    let data: Vec<u8> = Vec::new();
    let parts = split_bytes(&data, 4);
    assert_eq!(parts.len(), 0);
}

#[test]
fn combine_no_parts_is_empty_input() {
    let parts: Vec<Vec<u8>> = Vec::new();
    assert_eq!(combine_bytes(&parts), Err(PartError::EmptyInput));
}

#[test]
fn part_cap_is_hard_limit() {
    let data = pattern(1000);
    let cap = 64;
    let parts = split_bytes(&data, cap);
    for (i, part) in parts.iter().enumerate() {
        if i + 1 < parts.len() {
            assert_eq!(part.len(), cap);
        } else {
            assert!(part.len() > 0 && part.len() <= cap);
        }
    }
    assert_eq!(parts.last().unwrap().len(), 1000 % 64);
}

#[test]
fn ten_mib_source_in_four_mib_parts() {
    let mib = 1024 * 1024;
    let data = pattern(10 * mib);
    let parts = split_bytes(&data, 4 * mib);
    assert_eq!(parts.len(), 3);
    assert_eq!(parts[0].len(), 4 * mib);
    assert_eq!(parts[1].len(), 4 * mib);
    assert_eq!(parts[2].len(), 2 * mib);
    let combined = combine_bytes(&parts).unwrap();
    assert_eq!(combined.len(), 10 * mib);
    assert_eq!(combined, data);
    let names: Vec<Vec<u8>> = (1u64..=3u64).map(nsp_cli::naming::part_name).collect();
    assert_eq!(names, vec![b"01".to_vec(), b"02".to_vec(), b"03".to_vec()]);
}

#[test]
fn combined_length_is_sum_of_part_lengths() {
    let parts = vec![pattern(5), pattern(7), pattern(11)];
    let combined = combine_bytes(&parts).unwrap();
    assert_eq!(combined.len(), 5 + 7 + 11);
}
