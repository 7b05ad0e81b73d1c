use lector::size::{format_small_size, size_unit, SizeUnit, GB, KB, MB};

#[test]
fn size_units_switch_at_powers_of_1024() {
    assert_eq!(size_unit(0), SizeUnit::Bytes);
    assert_eq!(size_unit(1023), SizeUnit::Bytes);
    assert_eq!(size_unit(1024), SizeUnit::Kilobytes);
    assert_eq!(size_unit(1024 * 1024 - 1), SizeUnit::Kilobytes);
    assert_eq!(size_unit(1024 * 1024), SizeUnit::Megabytes);
    assert_eq!(size_unit(1 << 30), SizeUnit::Gigabytes);
    assert_eq!(size_unit(u64::MAX), SizeUnit::Gigabytes);
    assert_eq!((KB, MB, GB), (1024, 1048576, 1073741824));
}

#[test]
fn small_sizes_are_whole_bytes() {
    assert_eq!(format_small_size(0), "0 B");
    assert_eq!(format_small_size(512), "512 B");
    assert_eq!(format_small_size(1023), "1023 B");
    assert_eq!(SizeUnit::Megabytes.suffix(), "MB");
    assert_eq!(SizeUnit::Gigabytes.divisor(), 1 << 30);
    assert_eq!(SizeUnit::Bytes.divisor(), 1);
}
