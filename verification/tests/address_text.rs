use request_counter::text::{write_address, write_numeral};
use request_counter::IpAddress;

fn numeral(n: u64, radix: u64) -> String {
    let mut out = String::new();
    write_numeral(&mut out, n, radix);
    out
}

#[test]
fn numerals_in_decimal() {
    assert_eq!(numeral(0, 10), "0");
    assert_eq!(numeral(7, 10), "7");
    assert_eq!(numeral(10, 10), "10");
    assert_eq!(numeral(255, 10), "255");
    assert_eq!(numeral(1_000_000, 10), "1000000");
    assert_eq!(numeral(u64::MAX, 10), "18446744073709551615");
}

#[test]
fn numerals_in_other_bases() {
    assert_eq!(numeral(0, 16), "0");
    assert_eq!(numeral(0xdb8, 16), "db8");
    assert_eq!(numeral(0xffff, 16), "ffff");
    assert_eq!(numeral(0xabcdef, 16), "abcdef");
    assert_eq!(numeral(u64::MAX, 16), "ffffffffffffffff");
    assert_eq!(numeral(5, 2), "101");
    assert_eq!(numeral(8, 8), "10");
}

#[test]
fn numeral_is_appended() {
    let mut out = String::from("n=");
    write_numeral(&mut out, 42, 10);
    assert_eq!(out, "n=42");
    write_address(&mut out, &IpAddress::v4(1, 2, 3, 4));
    assert_eq!(out, "n=421.2.3.4");
}

#[test]
fn v4_builder_places_the_octets() {
    assert_eq!(IpAddress::v4(127, 0, 0, 1), IpAddress::V4(0x7f00_0001));
    assert_eq!(IpAddress::v4(0, 0, 0, 0), IpAddress::V4(0));
    assert_eq!(IpAddress::v4(255, 255, 255, 255), IpAddress::V4(u32::MAX));
    assert_eq!(IpAddress::v4(1, 2, 3, 4), IpAddress::V4(0x0102_0304));
}

#[test]
fn v6_builder_places_the_segments() {
    assert_eq!(IpAddress::v6([0, 0, 0, 0, 0, 0, 0, 1]), IpAddress::V6(1));
    assert_eq!(IpAddress::v6([0xffff; 8]), IpAddress::V6(u128::MAX));
    assert_eq!(
        IpAddress::v6([0x2001, 0x0db8, 0x85a3, 0, 0, 0x8a2e, 0x0370, 0x7334]),
        IpAddress::V6(0x2001_0db8_85a3_0000_0000_8a2e_0370_7334)
    );
}

#[test]
fn families_are_different_addresses() {
    assert_ne!(IpAddress::V4(1), IpAddress::V6(1));
    assert_ne!(IpAddress::v4(127, 0, 0, 1), IpAddress::v4(127, 0, 0, 2));
    assert_eq!(IpAddress::v4(127, 0, 0, 1), IpAddress::v4(127, 0, 0, 1));
}

#[test]
fn ipv4_text() {
    assert_eq!(IpAddress::v4(127, 0, 0, 1).to_text(), "127.0.0.1");
    assert_eq!(IpAddress::v4(0, 0, 0, 0).to_text(), "0.0.0.0");
    assert_eq!(IpAddress::v4(255, 255, 255, 255).to_text(), "255.255.255.255");
    assert_eq!(IpAddress::v4(192, 168, 10, 200).to_text(), "192.168.10.200");
    assert_eq!(IpAddress::V4(0x0a00_0001).to_text(), "10.0.0.1");
}

#[test]
fn ipv6_text_without_zero_runs() {
    assert_eq!(
        IpAddress::v6([0x2001, 0xdb8, 1, 2, 3, 4, 5, 6]).to_text(),
        "2001:db8:1:2:3:4:5:6"
    );
    assert_eq!(
        IpAddress::v6([0xffff; 8]).to_text(),
        "ffff:ffff:ffff:ffff:ffff:ffff:ffff:ffff"
    );
}

#[test]
fn ipv6_text_leaves_a_single_zero_in_place() {
    assert_eq!(
        IpAddress::v6([0x2001, 0xdb8, 0, 1, 1, 1, 1, 1]).to_text(),
        "2001:db8:0:1:1:1:1:1"
    );
    assert_eq!(IpAddress::v6([1, 0, 1, 0, 1, 0, 1, 0]).to_text(), "1:0:1:0:1:0:1:0");
}

#[test]
fn ipv6_text_elides_the_longest_zero_run() {
    assert_eq!(IpAddress::v6([0, 0, 0, 0, 0, 0, 0, 0]).to_text(), "::");
    assert_eq!(IpAddress::v6([0, 0, 0, 0, 0, 0, 0, 1]).to_text(), "::1");
    assert_eq!(IpAddress::v6([1, 0, 0, 0, 0, 0, 0, 0]).to_text(), "1::");
    assert_eq!(IpAddress::v6([0x2001, 0xdb8, 0, 0, 0, 0, 0, 1]).to_text(), "2001:db8::1");
    assert_eq!(IpAddress::v6([0xfe80, 0, 0, 0, 0x1ff, 0xfe23, 0x4567, 0x890a]).to_text(), "fe80::1ff:fe23:4567:890a");
    assert_eq!(IpAddress::v6([0x2001, 0, 0, 1, 0, 0, 0, 1]).to_text(), "2001:0:0:1::1");
    assert_eq!(IpAddress::v6([0x2001, 0, 0, 0, 1, 0, 0, 1]).to_text(), "2001::1:0:0:1");
}

#[test]
fn ipv6_text_writes_segments_in_lower_case_hexadecimal() {
    assert_eq!(IpAddress::v6([8, 9, 10, 11, 12, 13, 14, 15]).to_text(), "8:9:a:b:c:d:e:f");
    assert_eq!(IpAddress::v6([1, 2, 3, 4, 5, 6, 0, 8]).to_text(), "1:2:3:4:5:6:0:8");
    assert_eq!(
        IpAddress::v6([0xae, 0, 0, 0, 0, 0xffff, 0x0102, 0x0304]).to_text(),
        "ae::ffff:102:304"
    );
    assert_eq!(IpAddress::v6([1, 0, 0, 4, 0, 0, 0, 8]).to_text(), "1:0:0:4::8");
    assert_eq!(IpAddress::v6([1, 0, 0, 4, 5, 0, 0, 8]).to_text(), "1::4:5:0:0:8");
}

#[test]
fn ipv6_text_elides_the_leftmost_of_equal_runs() {
    assert_eq!(IpAddress::v6([0x2001, 0xdb8, 0, 0, 1, 0, 0, 1]).to_text(), "2001:db8::1:0:0:1");
    assert_eq!(IpAddress::v6([0, 0, 1, 0, 0, 1, 0, 0]).to_text(), "::1:0:0:1:0:0");
    assert_eq!(IpAddress::v6([1, 0, 0, 2, 3, 4, 0, 0]).to_text(), "1::2:3:4:0:0");
}

#[test]
fn ipv6_text_of_an_embedded_ipv4_address() {
    assert_eq!(
        IpAddress::v6([0, 0, 0, 0, 0, 0xffff, 0xc000, 0x0280]).to_text(),
        "::ffff:192.0.2.128"
    );
    assert_eq!(IpAddress::v6([0, 0, 0, 0, 0, 0xffff, 0, 0]).to_text(), "::ffff:0.0.0.0");
    assert_eq!(
        IpAddress::v6([0, 0, 0, 0, 0, 0xffff, 0xffff, 0xffff]).to_text(),
        "::ffff:255.255.255.255"
    );
    assert_eq!(IpAddress::v6([0, 0, 0, 0, 0, 0, 0xc000, 0x0280]).to_text(), "::c000:280");
    assert_eq!(IpAddress::v6([0, 0, 0, 0, 1, 0xffff, 0xc000, 0x0280]).to_text(), "::1:ffff:c000:280");
}
