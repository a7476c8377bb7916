use nsp_cli::naming::{
    combined_file_name, file_stem, is_archive_name, is_listing_match, is_part_name, part_name,
};
use nsp_cli::ordering::{lex_le_bytes, sort_names};
use nsp_cli::progress::ProgressTally;
use nsp_cli::PartError;

#[test]
fn part_names_are_two_zero_padded_digits() {
    assert_eq!(part_name(1), b"01".to_vec());
    assert_eq!(part_name(9), b"09".to_vec());
    assert_eq!(part_name(10), b"10".to_vec());
    assert_eq!(part_name(99), b"99".to_vec());
}

#[test]
fn part_name_predicate_accepts_digit_strings_only() {
    assert!(is_part_name(&b"01".to_vec()));
    assert!(is_part_name(&b"7".to_vec()));
    assert!(is_part_name(&b"123456".to_vec()));
    assert!(!is_part_name(&b"".to_vec()));
    assert!(!is_part_name(&b"01a".to_vec()));
    assert!(!is_part_name(&b"archive.nsp".to_vec()));
    assert!(!is_part_name(&b"-1".to_vec()));
}

#[test]
fn listing_matches_archives_and_numeric_names_only() {
    assert!(is_archive_name(&b"game.nsp".to_vec()));
    assert!(is_archive_name(&b"game.xci".to_vec()));
    assert!(!is_archive_name(&b"game.zip".to_vec()));
    assert!(!is_archive_name(&b"nsp".to_vec()));
    assert!(is_listing_match(&b"game.nsp".to_vec()));
    assert!(is_listing_match(&b"game.xci".to_vec()));
    assert!(is_listing_match(&b"02".to_vec()));
    assert!(!is_listing_match(&b"notes.txt".to_vec()));
    assert!(!is_listing_match(&b"".to_vec()));
}

#[test]
fn file_stem_strips_the_last_extension() {
    assert_eq!(file_stem(&b"game.nsp".to_vec()).unwrap(), b"game".to_vec());
    assert_eq!(
        file_stem(&b"archive.tar.gz".to_vec()).unwrap(),
        b"archive.tar".to_vec()
    );
    assert_eq!(file_stem(&b"noext".to_vec()).unwrap(), b"noext".to_vec());
    assert_eq!(file_stem(&b".hidden".to_vec()).unwrap(), b".hidden".to_vec());
}

#[test]
fn file_stem_rejects_unusable_names() {
    assert_eq!(file_stem(&b"".to_vec()), Err(PartError::InvalidInput));
    assert_eq!(file_stem(&b".".to_vec()), Err(PartError::InvalidInput));
    assert_eq!(file_stem(&b"..".to_vec()), Err(PartError::InvalidInput));
}

#[test]
fn combined_file_name_appends_the_archive_extension() {
    assert_eq!(combined_file_name(&b"game".to_vec()), b"game.nsp".to_vec());
}

#[test]
fn lexicographic_order_on_names() {
    assert!(lex_le_bytes(&b"01".to_vec(), &b"02".to_vec()));
    assert!(lex_le_bytes(&b"02".to_vec(), &b"02".to_vec()));
    assert!(!lex_le_bytes(&b"03".to_vec(), &b"02".to_vec()));
    assert!(lex_le_bytes(&b"09".to_vec(), &b"10".to_vec()));
    assert!(lex_le_bytes(&b"".to_vec(), &b"0".to_vec()));
}

#[test]
fn sorting_is_stable_under_any_input_order() {
    let mut names = vec![
        b"10".to_vec(),
        b"02".to_vec(),
        b"99".to_vec(),
        b"01".to_vec(),
    ];
    sort_names(&mut names);
    assert_eq!(
        names,
        vec![b"01".to_vec(), b"02".to_vec(), b"10".to_vec(), b"99".to_vec()]
    );
}

#[test]
fn progress_totals_sum_exactly() {
    let mut tally = ProgressTally::new(10);
    assert_eq!(tally.total(), 10);
    assert!(!tally.is_complete());
    tally.record(4);
    tally.record(4);
    assert_eq!(tally.current(), 8);
    tally.record(2);
    assert_eq!(tally.current(), 10);
    assert!(tally.is_complete());
}
