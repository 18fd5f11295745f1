use hs_hackathon::nal::{nal_units, nth_nal_index};

#[test]
fn nth_index_finds_start_codes_in_order() {
    let buffer: Vec<u8> = vec![0, 0, 1, 9, 0, 0, 1, 8, 8];
    assert_eq!(nth_nal_index(&buffer, 0), Some(0));
    assert_eq!(nth_nal_index(&buffer, 1), Some(4));
    assert_eq!(nth_nal_index(&buffer, 2), None);
}

#[test]
fn nth_index_needs_two_zeros() {
    let buffer: Vec<u8> = vec![0, 1, 9, 9];
    assert_eq!(nth_nal_index(&buffer, 0), None);
}

#[test]
fn nth_index_accepts_longer_zero_runs() {
    let buffer: Vec<u8> = vec![0, 0, 0, 0, 1, 9];
    // the returned position points at the last two zeros of the run
    assert_eq!(nth_nal_index(&buffer, 0), Some(2));
}

#[test]
fn nth_index_skips_interrupted_runs() {
    let buffer: Vec<u8> = vec![0, 7, 0, 1, 9];
    assert_eq!(nth_nal_index(&buffer, 0), None);
}

#[test]
fn nal_units_extracts_complete_units() {
    let mut buffer: Vec<u8> = vec![0, 0, 1, 9, 0, 0, 1, 8, 8];
    let units = nal_units(&mut buffer);
    assert_eq!(units, vec![vec![0, 0, 1, 9]]);
    assert_eq!(buffer, vec![0, 0, 1, 8, 8]);
}

#[test]
fn nal_units_extracts_several_and_keeps_junk_prefix() {
    let mut buffer: Vec<u8> = vec![7, 0, 0, 1, 2, 0, 0, 1, 3, 0, 0, 1];
    let units = nal_units(&mut buffer);
    assert_eq!(units, vec![vec![7, 0, 0, 1, 2], vec![0, 0, 1, 3]]);
    assert_eq!(buffer, vec![0, 0, 1]);
}

#[test]
fn nal_units_leaves_incomplete_buffer_alone() {
    let mut buffer: Vec<u8> = vec![0, 0, 1, 9, 9];
    let units = nal_units(&mut buffer);
    assert!(units.is_empty());
    assert_eq!(buffer, vec![0, 0, 1, 9, 9]);
}
