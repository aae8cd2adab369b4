use postflight::number::{format_i32, format_u128, format_u64, parse_u16, parse_u32};
use postflight::text::chars_of;

#[test]
fn numbers_are_written_in_decimal() {
    assert_eq!(format_u64(0), "0");
    assert_eq!(format_u64(1_234_567_890), "1234567890");
    assert_eq!(format_u128(u128::MAX), u128::MAX.to_string());
    assert_eq!(format_i32(-42), "-42");
    assert_eq!(format_i32(i32::MIN), i32::MIN.to_string());
    assert_eq!(format_i32(7), "7");
}

#[test]
fn numbers_are_read_as_the_standard_library_reads_them() {
    let samples = [
        "", "0", "7", "+7", "++7", "-7", "+", "007", "65535", "65536", "4294967295", "4294967296",
        "99999999999999999999", " 1", "1 ", "1a", "٣", "0x1",
    ];
    for sample in samples {
        let chars = chars_of(sample);
        assert_eq!(parse_u16(&chars), sample.parse::<u16>().ok(), "{sample:?}");
        assert_eq!(parse_u32(&chars), sample.parse::<u32>().ok(), "{sample:?}");
    }
}

#[test]
fn a_number_that_was_written_is_read_back() {
    for n in [0u32, 9, 10, 99, 100, 65_535, u32::MAX] {
        assert_eq!(parse_u32(&chars_of(&format_u64(n as u64))), Some(n));
    }
}
