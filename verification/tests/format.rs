use rwc::format::format_byte_size;

#[test]
fn raw_bytes_below_one_kib() {
    assert_eq!(format_byte_size(0), "0 Bytes");
    assert_eq!(format_byte_size(1), "1 Bytes");
    assert_eq!(format_byte_size(512), "512 Bytes");
    assert_eq!(format_byte_size(1023), "1023 Bytes");
}

#[test]
fn exact_unit_boundaries() {
    assert_eq!(format_byte_size(1024), "1.00 KiB");
    assert_eq!(format_byte_size(1024 * 1024), "1.00 MiB");
    assert_eq!(format_byte_size(1024 * 1024 * 1024), "1.00 GiB");
    assert_eq!(format_byte_size(1u128 << 40), "1.00 TiB");
    assert_eq!(format_byte_size(1u128 << 50), "1.00 PiB");
    assert_eq!(format_byte_size(1u128 << 60), "1.00 EiB");
    assert_eq!(format_byte_size(1u128 << 70), "1.00 ZiB");
    assert_eq!(format_byte_size(1u128 << 80), "1.00 YiB");
}

#[test]
fn two_decimal_digits_rounded() {
    assert_eq!(format_byte_size(1536), "1.50 KiB");
    assert_eq!(format_byte_size(2560), "2.50 KiB");
    assert_eq!(format_byte_size(1024 + 102), "1.10 KiB");
    assert_eq!(format_byte_size(3 * 1024 * 1024 / 2), "1.50 MiB");
}

#[test]
fn fraction_can_carry_into_the_whole_part() {
    // 1048575 bytes is 1023.999 KiB; two decimals round up to 1024.00.
    assert_eq!(format_byte_size(1024 * 1024 - 1), "1024.00 KiB");
}

#[test]
fn largest_unit_is_selected() {
    assert_eq!(format_byte_size(5 * 1024 * 1024), "5.00 MiB");
    assert_eq!(format_byte_size(u64::MAX as u128 + 1), "16.00 EiB");
    assert_eq!(format_byte_size(300 * (1u128 << 80)), "300.00 YiB");
}
