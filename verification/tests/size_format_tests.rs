use treecmd::FileSizeFormat;

#[test]
fn byte_unit_keeps_raw_count() {
    assert_eq!(FileSizeFormat::Byte.to_string(2_500_000), "2500000B");
}

#[test]
fn kilo_unit_divides_by_thousand() {
    assert_eq!(FileSizeFormat::Kilo.to_string(2_500_000), "2500KB");
}

#[test]
fn mega_unit_truncates() {
    assert_eq!(FileSizeFormat::Mega.to_string(2_500_000), "2MB");
}

#[test]
fn giga_unit() {
    assert_eq!(FileSizeFormat::Giga.to_string(3_000_000_000), "3GB");
}

#[test]
fn tera_unit() {
    assert_eq!(FileSizeFormat::Tera.to_string(5_000_000_000_000), "5TB");
}

#[test]
fn division_truncates_not_rounds() {
    assert_eq!(FileSizeFormat::Kilo.to_string(1_999), "1KB");
    assert_eq!(FileSizeFormat::Kilo.to_string(999), "0KB");
}

#[test]
fn zero_bytes() {
    assert_eq!(FileSizeFormat::Byte.to_string(0), "0B");
}

#[test]
fn large_count_all_digits() {
    assert_eq!(FileSizeFormat::Byte.to_string(18_446_744_073_709_551_615), "18446744073709551615B");
}
