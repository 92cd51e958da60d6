use oxipng::bit_depth::{line_widths_exec, pack_samples, unpack_samples};

#[test]
fn one_bit_samples_read_high_bits_first() {
    assert_eq!(unpack_samples(&vec![0b1011_0000], &vec![4], 1), vec![1, 0, 1, 1]);
}

#[test]
fn two_and_four_bit_samples() {
    assert_eq!(unpack_samples(&vec![0b1110_0100], &vec![4], 2), vec![3, 2, 1, 0]);
    assert_eq!(unpack_samples(&vec![0x12, 0x30], &vec![3], 4), vec![1, 2, 3]);
}

#[test]
fn lines_start_on_byte_boundaries() {
    // Two lines of three 2-bit samples, each in a byte of its own.
    assert_eq!(unpack_samples(&vec![0b0110_1100, 0b1101_0000], &vec![3, 3], 2), vec![1, 2, 3, 3, 1, 0]);
    assert_eq!(pack_samples(&vec![1, 2, 3, 3, 1, 0], &vec![3, 3], 2), vec![0b0110_1100, 0b1101_0000]);
}

#[test]
fn packing_clears_padding_and_masks_samples() {
    assert_eq!(pack_samples(&vec![1, 0, 1], &vec![3], 1), vec![0b1010_0000]);
    // Only the low bits of each sample are packed.
    assert_eq!(pack_samples(&vec![0xff, 0x10], &vec![2], 4), vec![0xf0]);
}

#[test]
fn packing_undoes_unpacking() {
    let data = vec![0b1001_1010, 0b1100_0000, 0b0101_0101, 0b1000_0000];
    let widths = vec![10, 9];
    let vals = unpack_samples(&data, &widths, 1);
    assert_eq!(vals.len(), 19);
    assert_eq!(pack_samples(&vals, &widths, 1), data);
}

#[test]
fn line_widths_of_adam7_passes() {
    assert_eq!(line_widths_exec(5, 5, false), vec![5, 5, 5, 5, 5]);
    assert_eq!(line_widths_exec(5, 5, true), vec![1, 1, 2, 1, 1, 3, 2, 2, 2, 5, 5]);
    assert_eq!(line_widths_exec(1, 1, true), vec![1]);
}
