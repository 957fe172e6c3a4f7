use bit_vec::BitVec;
use nonogram_bits::scan::opt_dist;

#[test]
fn basic_test() {
    assert_eq!(opt_dist(&BitVec::from_bytes(&[0b0010001000]), 5), 3);
    assert_eq!(opt_dist(&BitVec::from_bytes(&[0b0010001000]), 4), 4);
    assert_eq!(opt_dist(&BitVec::from_bytes(&[0b0010001000]), 3), 3);
    assert_eq!(opt_dist(&BitVec::from_bytes(&[0b0010001000]), 2), 2);
    assert_eq!(opt_dist(&BitVec::from_bytes(&[0b0010001000]), 1), 1);
    assert_eq!(opt_dist(&BitVec::from_bytes(&[0b0010001000]), 0), 2);
}

#[test]
fn full_length_run_tries_no_offset() {
    let bits = BitVec::from_bytes(&[0b1111_0000]);
    assert_eq!(opt_dist(&bits, 8), usize::MAX);
    assert_eq!(opt_dist(&BitVec::new(), 0), usize::MAX);
}

#[test]
fn last_offset_is_not_tried() {
    // the run of four fits exactly at offset 4, which is never tried
    let bits = BitVec::from_bytes(&[0b0000_1111]);
    assert_eq!(opt_dist(&bits, 4), 2);
    // reversed, the same run sits at offset 0, which is tried
    let reversed = BitVec::from_bytes(&[0b1111_0000]);
    assert_eq!(opt_dist(&reversed, 4), 0);
}

#[test]
fn reversal_keeps_distance_when_best_placement_is_inside() {
    let bits = BitVec::from_bytes(&[0b0011_0100]);
    let reversed = BitVec::from_bytes(&[0b0010_1100]);
    assert_eq!(opt_dist(&bits, 3), 2);
    assert_eq!(opt_dist(&reversed, 3), 2);
}

#[test]
fn distance_within_run_length_when_window_holds_half_the_bits() {
    let bits = BitVec::from_bytes(&[0b0110_0010]);
    let d = opt_dist(&bits, 3);
    assert!(d <= 3);
    assert_eq!(d, 2);
}

#[test]
fn all_zero_sequence_is_run_length_away() {
    let bits = BitVec::from_elem(6, false);
    assert_eq!(opt_dist(&bits, 2), 2);
}
