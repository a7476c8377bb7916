use nsp_cli::plan::{combine_order, split_plan};
use nsp_cli::PartError;

#[test]
fn plan_for_ten_mib_at_four_mib() {
    let mib: u64 = 1024 * 1024;
    let sizes = split_plan(10 * mib, 4 * mib).unwrap();
    assert_eq!(sizes, vec![4 * mib, 4 * mib, 2 * mib]);
}

#[test]
fn plan_sizes_sum_to_file_size() {
    let sizes = split_plan(1_000_003, 65_536).unwrap();
    let total: u64 = sizes.iter().sum();
    assert_eq!(total, 1_000_003);
    for (i, s) in sizes.iter().enumerate() {
        if i + 1 < sizes.len() {
            assert_eq!(*s, 65_536);
        } else {
            assert!(*s > 0 && *s <= 65_536);
        }
    }
}

#[test]
fn plan_for_empty_source_is_empty() {
    let sizes = split_plan(0, 4).unwrap();
    assert!(sizes.is_empty());
}

#[test]
fn plan_for_exact_multiple() {
    let sizes = split_plan(8, 4).unwrap();
    assert_eq!(sizes, vec![4, 4]);
}

#[test]
fn plan_at_the_naming_limit() {
    let sizes = split_plan(99, 1).unwrap();
    assert_eq!(sizes.len(), 99);
}

#[test]
fn plan_past_the_naming_limit_is_invalid_input() {
    assert_eq!(split_plan(100, 1), Err(PartError::InvalidInput));
}

#[test]
fn combine_order_sorts_regardless_of_enumeration_order() {
    let entries = vec![
        b"03".to_vec(),
        b"01".to_vec(),
        b"archive.nsp".to_vec(),
        b"02".to_vec(),
        b"readme.txt".to_vec(),
    ];
    let ordered = combine_order(&entries).unwrap();
    assert_eq!(ordered, vec![b"01".to_vec(), b"02".to_vec(), b"03".to_vec()]);
}

#[test]
fn combine_order_keeps_duplicates_and_widths() {
    let entries = vec![b"2".to_vec(), b"10".to_vec(), b"2".to_vec()];
    let ordered = combine_order(&entries).unwrap();
    assert_eq!(ordered, vec![b"10".to_vec(), b"2".to_vec(), b"2".to_vec()]);
}

#[test]
fn combine_order_with_no_qualifying_entries_is_empty_input() {
    let entries = vec![b"notes.txt".to_vec(), b"archive.nsp".to_vec()];
    assert_eq!(combine_order(&entries), Err(PartError::EmptyInput));
}

#[test]
fn combine_order_on_empty_directory_is_empty_input() {
    let entries: Vec<Vec<u8>> = Vec::new();
    assert_eq!(combine_order(&entries), Err(PartError::EmptyInput));
}
