use acme_dns_rust::clock::{serial_at, soa_serial, stamp_at};
use acme_dns_rust::net::{Cidr, Ip};
use acme_dns_rust::text::{
    contains, count, decimal, full_texts, join, less, lines, lower, pad_end, parse_number,
    remove_all, split, split_trimmed, split_whitespace, starts_with, trim, trim_end_matches,
};

fn strings(v: &[&str]) -> Vec<String> {
    v.iter().map(|s| s.to_string()).collect()
}

#[test]
fn small_letters_are_those_of_the_standard_library() {
    for s in ["", "ABC.Def-9", "ÄÖÜ ẞ", "ΟΔΟΣ", "İ"] {
        assert_eq!(lower(s), s.to_lowercase());
    }
}

#[test]
fn white_space_is_trimmed_as_in_the_standard_library() {
    for s in ["", "  a b ", "\u{2003}x\u{a0}", "\t\n", "x", "\u{200b}x"] {
        assert_eq!(trim(s), s.trim());
        assert_eq!(split_whitespace(s), s.split_whitespace().collect::<Vec<_>>());
    }
    assert_eq!(trim_end_matches("a.b..", '.'), "a.b");
}

#[test]
fn lines_end_as_in_the_standard_library() {
    for s in ["", "a", "a\n", "a\r\nb\rc\n\n", "\n", "\r\n"] {
        assert_eq!(lines(s), s.lines().collect::<Vec<_>>());
    }
}

#[test]
fn texts_are_split_and_joined() {
    assert_eq!(split("a,,b", ','), strings(&["a", "", "b"]));
    assert_eq!(split("", ','), strings(&[""]));
    assert_eq!(split_trimmed(" a , b", ','), strings(&["a", "b"]));
    assert_eq!(join(&strings(&["x", "a", "b"]), 1, "."), "a.b");
    assert_eq!(full_texts(strings(&["", "a", ""])), strings(&["a"]));
}

#[test]
fn parts_are_found_and_removed() {
    assert!(contains("abc", ""));
    assert!(contains("abc", "bc"));
    assert!(!contains("abc", "cb"));
    assert!(starts_with("abc", "ab"));
    assert_eq!(count("a:b:c", ':'), 2);
    assert_eq!(remove_all("*.a.*.b", "*."), "*.a.*.b".replace("*.", ""));
    assert_eq!(remove_all("aaa", "aa"), "aaa".replace("aa", ""));
}

#[test]
fn numbers_are_read_and_written() {
    assert_eq!(decimal(0), "0");
    assert_eq!(decimal(18446744073709551615), "18446744073709551615");
    assert_eq!(parse_number("+80", 65535), Some(80));
    assert_eq!(parse_number("65536", 65535), None);
    assert_eq!(parse_number("99999999999999999999999", u64::MAX), None);
    assert_eq!(parse_number("", 9), None);
    assert_eq!(parse_number("-1", 9), None);
    assert_eq!(pad_end("ab", 4), "ab  ");
    assert_eq!(pad_end("abcde", 4), "abcde");
}

#[test]
fn texts_are_ordered_as_in_the_standard_library() {
    for a in ["", "a", "ab", "b", "é"] {
        for b in ["", "a", "ab", "b", "é"] {
            assert_eq!(less(a, b), a < b);
        }
    }
}

#[test]
fn moments_are_written_down_to_the_second() {
    assert_eq!(stamp_at(0), Some("1970-01-01 00:00:00".to_string()));
    assert_eq!(stamp_at(1_700_000_000), Some("2023-11-14 22:13:20".to_string()));
    assert_eq!(stamp_at(i64::MAX), None);
}

#[test]
fn texts_of_moments_are_ordered_as_the_moments_are() {
    let moments = [-62_167_219_200, -1, 0, 59, 60, 86_399, 86_400, 951_782_400, 253_402_300_799];
    for a in moments {
        for b in moments {
            assert_eq!(less(&stamp_at(a).unwrap(), &stamp_at(b).unwrap()), a < b);
        }
    }
}

#[test]
fn the_serial_number_is_the_hour() {
    assert_eq!(serial_at(1_700_000_000), 2023111422);
    assert_eq!(serial_at(0), 1970010100);
    assert_eq!(soa_serial("2023111422"), 2023111422);
    assert_eq!(soa_serial("4294967296"), 1);
    assert_eq!(soa_serial("now"), 1);
    assert_eq!(serial_at(i64::MAX), 1);
}

#[test]
fn a_network_holds_the_addresses_with_its_prefix() {
    let net = Cidr::V4 { addr: 0xC0A8_0100, prefix: 24 };
    assert!(net.contains(Ip::V4(0xC0A8_01FF)));
    assert!(!net.contains(Ip::V4(0xC0A8_0200)));
    assert!(!net.contains(Ip::V6(0xC0A8_0100)));
    let net = Cidr::V6 { addr: 1 << 127, prefix: 1 };
    assert!(net.contains(Ip::V6(u128::MAX)));
    assert!(!net.contains(Ip::V6(1)));
}

#[test]
fn the_widest_network_holds_all_and_the_narrowest_one() {
    assert!(Cidr::V4 { addr: 5, prefix: 0 }.contains(Ip::V4(u32::MAX)));
    assert!(Cidr::V6 { addr: 5, prefix: 0 }.contains(Ip::V6(u128::MAX)));
    assert!(Cidr::V4 { addr: 5, prefix: 32 }.contains(Ip::V4(5)));
    assert!(!Cidr::V4 { addr: 5, prefix: 32 }.contains(Ip::V4(4)));
    assert!(Cidr::V6 { addr: 5, prefix: 128 }.contains(Ip::V6(5)));
    assert!(!Cidr::V6 { addr: 5, prefix: 128 }.contains(Ip::V6(4)));
}
