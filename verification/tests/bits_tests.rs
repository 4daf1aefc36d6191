use sledgehammer_bindgen::bits::{
    function_discriminant_size_bits, select_bits_js_inner, with_n_1_bits,
};

#[test]
fn every_operation_takes_one_byte() {
    assert_eq!(function_discriminant_size_bits(0), 8);
    assert_eq!(function_discriminant_size_bits(1), 8);
    assert_eq!(function_discriminant_size_bits(15), 8);
    assert_eq!(function_discriminant_size_bits(16), 8);
    assert_eq!(function_discriminant_size_bits(254), 8);
    assert_eq!(function_discriminant_size_bits(255), 8);
}

#[test]
fn every_code_fits_in_the_discriminant() {
    for n in 0u32..=255 {
        let bits = function_discriminant_size_bits(n);
        assert!((n as u64) < (1u64 << bits), "n = {}", n);
        assert_eq!(32 / bits, 4);
    }
}

#[test]
fn masks_of_low_bits() {
    assert_eq!(with_n_1_bits(0), 0);
    assert_eq!(with_n_1_bits(1), 1);
    assert_eq!(with_n_1_bits(4), 15);
    assert_eq!(with_n_1_bits(8), 255);
    assert_eq!(with_n_1_bits(31), 0x7fff_ffff);
    assert_eq!(with_n_1_bits(32), u32::MAX);
}

#[test]
fn masks_past_thirty_two_bits_truncate_to_all_ones() {
    assert_eq!(with_n_1_bits(33), u32::MAX);
    assert_eq!(with_n_1_bits(63), u32::MAX);
}

#[test]
fn select_low_bits_masks_without_shift() {
    assert_eq!(select_bits_js_inner("x", 32, 0, 8), "x&255");
}

#[test]
fn select_middle_bits_shifts_and_masks() {
    assert_eq!(select_bits_js_inner("x", 32, 4, 8), "(x>>>4)&255");
    assert_eq!(select_bits_js_inner("op", 32, 16, 4), "(op>>>16)&15");
}

#[test]
fn select_top_bits_only_shifts() {
    assert_eq!(select_bits_js_inner("x", 32, 24, 8), "x>>>24");
    assert_eq!(select_bits_js_inner("x", 16, 8, 8), "x>>>8");
}

#[test]
fn select_whole_value_is_the_value() {
    assert_eq!(select_bits_js_inner("x", 8, 0, 8), "x");
    assert_eq!(select_bits_js_inner("value", 32, 0, 32), "value");
}

#[test]
fn select_multi_digit_shift() {
    assert_eq!(select_bits_js_inner("w", 64, 40, 12), "(w>>>40)&4095");
}

#[test]
fn omitted_mask_keeps_the_value() {
    // For an 8-bit value, bits 4..8 need no mask after the shift.
    for x in 0u32..256 {
        assert_eq!((x >> 4) & with_n_1_bits(4), x >> 4);
    }
}
