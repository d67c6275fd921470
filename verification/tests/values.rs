use dmarc_lens::paths::{order_paths, PathPart};
use dmarc_lens::decimal::{i64_text, parse_i64, parse_u64, parse_u8, u64_text};
use dmarc_lens::input::{exit_status, is_report_entry, is_report_file, source_format, SourceFormat};
use dmarc_lens::ip::{chars_of, hex_digit, ip_text, parse_ip};
use dmarc_lens::model::IpAddress;
use dmarc_lens::render::group_digits;
use dmarc_lens::text::{
    equals_ignore_case, has_suffix_ignore_case, is_space_char, lower_ascii_char, lowercased,
    same_text, text_before, trimmed,
};

#[test]
fn groups_thousands() {
    assert_eq!(group_digits(0), "0");
    assert_eq!(group_digits(999), "999");
    assert_eq!(group_digits(1000), "1,000");
    assert_eq!(group_digits(1234567), "1,234,567");
}

#[test]
fn groups_the_largest_count() {
    assert_eq!(group_digits(u64::MAX), "18,446,744,073,709,551,615");
    assert_eq!(group_digits(100000), "100,000");
    assert_eq!(group_digits(12), "12");
}

#[test]
fn unsigned_numbers_parse_as_std_does() {
    assert_eq!(parse_u64("0"), Some(0));
    assert_eq!(parse_u64("+40"), Some(40));
    assert_eq!(parse_u64("007"), Some(7));
    assert_eq!(parse_u64("18446744073709551615"), Some(u64::MAX));
    assert_eq!(parse_u64("18446744073709551616"), None);
    assert_eq!(parse_u64(""), None);
    assert_eq!(parse_u64("+"), None);
    assert_eq!(parse_u64("-1"), None);
    assert_eq!(parse_u64(" 1"), None);
    assert_eq!(parse_u64("1a"), None);
    assert_eq!(parse_u8("255"), Some(255));
    assert_eq!(parse_u8("256"), None);
    assert_eq!(parse_u8("100"), Some(100));
}

#[test]
fn signed_numbers_parse_as_std_does() {
    assert_eq!(parse_i64("-9223372036854775808"), Some(i64::MIN));
    assert_eq!(parse_i64("9223372036854775807"), Some(i64::MAX));
    assert_eq!(parse_i64("9223372036854775808"), None);
    assert_eq!(parse_i64("-9223372036854775809"), None);
    assert_eq!(parse_i64("-0"), Some(0));
    assert_eq!(parse_i64("+12"), Some(12));
    assert_eq!(parse_i64("-"), None);
    assert_eq!(parse_i64("soon"), None);
}

#[test]
fn numbers_print_in_decimal() {
    assert_eq!(u64_text(0), "0");
    assert_eq!(u64_text(1234567), "1234567");
    assert_eq!(u64_text(u64::MAX), u64::MAX.to_string());
    assert_eq!(i64_text(-42), "-42");
    assert_eq!(i64_text(i64::MIN), i64::MIN.to_string());
    assert_eq!(i64_text(0), "0");
}

#[test]
fn ipv4_addresses_parse_and_print() {
    assert_eq!(parse_ip("203.0.113.10"), Some(IpAddress::V4(0xCB00_710A)));
    assert_eq!(parse_ip("0.0.0.0"), Some(IpAddress::V4(0)));
    assert_eq!(parse_ip("255.255.255.255"), Some(IpAddress::V4(u32::MAX)));
    assert_eq!(parse_ip("256.0.0.1"), None);
    assert_eq!(parse_ip("01.2.3.4"), None);
    assert_eq!(parse_ip("1.2.3"), None);
    assert_eq!(parse_ip("1.2.3.4.5"), None);
    assert_eq!(parse_ip(""), None);
    assert_eq!(parse_ip(" 1.2.3.4"), None);
    assert_eq!(ip_text(IpAddress::V4(0xCB00_710A)), "203.0.113.10");
    assert_eq!(ip_text(IpAddress::V4(0)), "0.0.0.0");
}

#[test]
fn ipv6_addresses_parse_and_print() {
    let a = parse_ip("2001:db8:4860::42").unwrap();
    assert_eq!(a, IpAddress::V6(0x2001_0db8_4860_0000_0000_0000_0000_0042));
    assert_eq!(ip_text(a), "2001:db8:4860::42");
    assert_eq!(parse_ip("::"), Some(IpAddress::V6(0)));
    assert_eq!(ip_text(IpAddress::V6(0)), "::");
    assert_eq!(parse_ip("::1"), Some(IpAddress::V6(1)));
    assert_eq!(ip_text(IpAddress::V6(1)), "::1");
    assert_eq!(parse_ip("2001:DB8::1"), Some(IpAddress::V6(0x2001_0db8_0000_0000_0000_0000_0000_0001)));
    assert_eq!(
        parse_ip("::ffff:192.0.2.1"),
        Some(IpAddress::V6(0x0000_0000_0000_0000_0000_ffff_c000_0201))
    );
    assert_eq!(ip_text(IpAddress::V6(0x0000_0000_0000_0000_0000_ffff_c000_0201)), "::ffff:192.0.2.1");
    assert_eq!(
        ip_text(IpAddress::V6(0x0001_0000_0000_0002_0000_0000_0000_0003)),
        "1:0:0:2::3"
    );
    assert_eq!(ip_text(IpAddress::V6(0x0001_0000_0001_0000_0001_0000_0001_0000)), "1:0:1:0:1:0:1:0");
    assert_eq!(parse_ip("1:2:3:4:5:6:7:8"), Some(IpAddress::V6(0x0001_0002_0003_0004_0005_0006_0007_0008)));
    assert_eq!(parse_ip("1:2:3:4:5:6:7:8:9"), None);
    assert_eq!(parse_ip("1::2::3"), None);
    assert_eq!(parse_ip("12345::"), None);
    assert_eq!(parse_ip("g::"), None);
    assert_eq!(parse_ip("1:2:3:4:5:6:7::"), Some(IpAddress::V6(0x0001_0002_0003_0004_0005_0006_0007_0000)));
    assert_eq!(parse_ip("1:2:3:4:5:6:7::8"), None);
    assert_eq!(parse_ip("::1:2:3:4:5:6:7"), Some(IpAddress::V6(0x0000_0001_0002_0003_0004_0005_0006_0007)));
    assert_eq!(parse_ip("::1:2:3:4:5:6:7:8"), None);
    assert_eq!(parse_ip("1:2:3:4:5:6:1.2.3.4"), Some(IpAddress::V6(0x0001_0002_0003_0004_0005_0006_0102_0304)));
    assert_eq!(parse_ip("1:2:3:4:5:6:7:1.2.3.4"), None);
    assert_eq!(parse_ip("::1.2.3.4"), Some(IpAddress::V6(0x0102_0304)));
    assert_eq!(ip_text(IpAddress::V6(0x0102_0304)), "::102:304");
    assert_eq!(parse_ip(":1::"), None);
    assert_eq!(parse_ip("1:"), None);
}

#[test]
fn ip_order_puts_ipv4_first() {
    let a = IpAddress::V4(5);
    let b = IpAddress::V4(6);
    let c = IpAddress::V6(0);
    assert!(a.is_before(&b));
    assert!(!b.is_before(&a));
    assert!(!a.is_before(&a));
    assert!(b.is_before(&c));
    assert!(!c.is_before(&a));
}

#[test]
fn hex_digits_and_chars() {
    assert_eq!(hex_digit('0'), Some(0));
    assert_eq!(hex_digit('f'), Some(15));
    assert_eq!(hex_digit('F'), Some(15));
    assert_eq!(hex_digit('g'), None);
    assert_eq!(chars_of("aé1"), vec!['a', 'é', '1']);
}

#[test]
fn text_helpers_follow_std() {
    assert_eq!(trimmed("\u{3000} a b\t\n"), "a b");
    assert_eq!(trimmed("   "), "");
    assert!(is_space_char('\u{85}'));
    assert!(!is_space_char('\u{200B}'));
    assert_eq!(lower_ascii_char('Q'), 'q');
    assert_eq!(lower_ascii_char('É'), 'É');
    assert_eq!(lowercased("MiXeD Ünï"), "mixed Ünï");
    assert!(equals_ignore_case("EXAMPLE.com", "example.COM"));
    assert!(!equals_ignore_case("example.com", "example.co"));
    assert!(has_suffix_ignore_case("Report.XML", ".xml"));
    assert!(!has_suffix_ignore_case("xml", ".xml"));
    assert!(same_text("a", "a"));
    assert!(!same_text("a", "A"));
    assert!(text_before("Outlook.com", "google.com"));
    assert!(text_before("abc", "abcd"));
    assert!(!text_before("b", "a"));
    assert!(!text_before("a", "a"));
}

#[test]
fn report_files_are_recognized_by_extension() {
    assert_eq!(source_format(Some("reports.zip")), SourceFormat::Zip);
    assert_eq!(source_format(Some("google.xml.gz")), SourceFormat::Gzip);
    assert_eq!(source_format(Some("bad.GZ")), SourceFormat::Gzip);
    assert_eq!(source_format(Some("google.XML")), SourceFormat::Xml);
    assert_eq!(source_format(Some("report.pdf")), SourceFormat::Unsupported);
    assert_eq!(source_format(None), SourceFormat::Unsupported);
    assert!(is_report_file(Some("a.Zip")));
    assert!(is_report_file(Some("b.xml")));
    assert!(!is_report_file(Some("notes.txt")));
    assert!(!is_report_file(None));
    assert!(is_report_entry("microsoft.XML", false));
    assert!(!is_report_entry("readme.txt", false));
    assert!(!is_report_entry("dir.xml", true));
}

#[test]
fn no_valid_reports_exits_1() {
    assert_eq!(exit_status(0), 1);
    assert_eq!(exit_status(2), 0);
}

#[test]
fn unsupported_extension_is_an_error() {
    assert_eq!(source_format(Some("report.pdf")), SourceFormat::Unsupported);
}

fn n(s: &str) -> PathPart {
    PathPart::Normal(s.as_bytes().to_vec())
}

#[test]
fn paths_sort_by_components_and_repeat_once() {
    // a/b, a-b, a/b (again), /z, ./c, a
    let keys = vec![
        vec![n("a"), n("b")],
        vec![n("a-b")],
        vec![n("a"), n("b")],
        vec![PathPart::Root, n("z")],
        vec![PathPart::Current, n("c")],
        vec![n("a")],
    ];
    assert_eq!(order_paths(&keys), vec![3, 4, 5, 0, 1]);
    assert!(order_paths(&Vec::new()).is_empty());
}
