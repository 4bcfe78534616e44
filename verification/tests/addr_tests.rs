use marco::addr::{parse_ip, parse_ip_bytes, IpAddress};
use marco::text::trim_ascii;

fn v4(a: u8, b: u8, c: u8, d: u8) -> IpAddress {
    IpAddress::V4(a, b, c, d)
}

fn v6(g: [u16; 8]) -> IpAddress {
    IpAddress::V6(g[0], g[1], g[2], g[3], g[4], g[5], g[6], g[7])
}

#[test]
fn parses_plain_v4() {
    assert_eq!(parse_ip("1.2.3.4"), Some(v4(1, 2, 3, 4)));
    assert_eq!(parse_ip("0.0.0.0"), Some(v4(0, 0, 0, 0)));
    assert_eq!(parse_ip("255.255.255.255"), Some(v4(255, 255, 255, 255)));
    assert_eq!(parse_ip("192.168.0.1"), Some(v4(192, 168, 0, 1)));
    assert_eq!(parse_ip("8.8.8.8"), Some(v4(8, 8, 8, 8)));
}

#[test]
fn rejects_malformed_v4() {
    assert_eq!(parse_ip("not-an-ip"), None);
    assert_eq!(parse_ip(""), None);
    assert_eq!(parse_ip("1.2.3"), None);
    assert_eq!(parse_ip("1.2.3.4.5"), None);
    assert_eq!(parse_ip("1.2.3.256"), None);
    assert_eq!(parse_ip("256.0.0.1"), None);
    assert_eq!(parse_ip("01.2.3.4"), None);
    assert_eq!(parse_ip("1..2.3"), None);
    assert_eq!(parse_ip("1.2.3.4."), None);
    assert_eq!(parse_ip(".1.2.3.4"), None);
    assert_eq!(parse_ip(" 1.2.3.4"), None);
    assert_eq!(parse_ip("1.2.3.f"), None);
}

#[test]
fn parses_full_v6() {
    assert_eq!(parse_ip("1:2:3:4:5:6:7:8"), Some(v6([1, 2, 3, 4, 5, 6, 7, 8])));
    assert_eq!(
        parse_ip("2001:db8:0:0:0:8a2e:370:7334"),
        Some(v6([0x2001, 0xdb8, 0, 0, 0, 0x8a2e, 0x370, 0x7334]))
    );
    assert_eq!(
        parse_ip("0001:0:0:0:0:0:0:1"),
        Some(v6([1, 0, 0, 0, 0, 0, 0, 1]))
    );
    assert_eq!(
        parse_ip("ffff:ffff:ffff:ffff:ffff:ffff:ffff:ffff"),
        Some(v6([0xffff; 8]))
    );
}

#[test]
fn parses_compressed_v6() {
    assert_eq!(parse_ip("::1"), Some(v6([0, 0, 0, 0, 0, 0, 0, 1])));
    assert_eq!(parse_ip("::"), Some(v6([0; 8])));
    assert_eq!(parse_ip("fe80::"), Some(v6([0xfe80, 0, 0, 0, 0, 0, 0, 0])));
    assert_eq!(
        parse_ip("2001:db8::8a2e:370:7334"),
        Some(v6([0x2001, 0xdb8, 0, 0, 0, 0x8a2e, 0x370, 0x7334]))
    );
    assert_eq!(parse_ip("1::8"), Some(v6([1, 0, 0, 0, 0, 0, 0, 8])));
    assert_eq!(parse_ip("1:2:3:4:5:6:7::"), Some(v6([1, 2, 3, 4, 5, 6, 7, 0])));
}

#[test]
fn accepts_uppercase_hex() {
    assert_eq!(parse_ip("ABCD::1"), Some(v6([0xabcd, 0, 0, 0, 0, 0, 0, 1])));
    assert_eq!(parse_ip("2001:DB8::1"), Some(v6([0x2001, 0xdb8, 0, 0, 0, 0, 0, 1])));
}

#[test]
fn rejects_malformed_v6() {
    assert_eq!(parse_ip("1::2::3"), None);
    assert_eq!(parse_ip(":::"), None);
    assert_eq!(parse_ip("1:2:3:4:5:6:7"), None);
    assert_eq!(parse_ip("1:2:3:4:5:6:7:8:9"), None);
    assert_eq!(parse_ip("1:2:3:4:5:6:7::8"), None);
    assert_eq!(parse_ip("12345::"), None);
    assert_eq!(parse_ip("g::1"), None);
    assert_eq!(parse_ip(":1:2:3:4:5:6:7:8"), None);
    assert_eq!(parse_ip("1:2:3:4:5:6:7:8:"), None);
    assert_eq!(parse_ip(":"), None);
}

#[test]
fn renders_v4() {
    assert_eq!(v4(1, 2, 3, 4).to_text(), "1.2.3.4");
    assert_eq!(v4(0, 0, 0, 0).to_text(), "0.0.0.0");
    assert_eq!(v4(255, 254, 10, 9).to_text(), "255.254.10.9");
}

#[test]
fn renders_v6_uncompressed_lowercase() {
    assert_eq!(
        v6([0x2001, 0xdb8, 0, 0, 0, 0x8a2e, 0x370, 0x7334]).to_text(),
        "2001:db8:0:0:0:8a2e:370:7334"
    );
    assert_eq!(v6([0; 8]).to_text(), "0:0:0:0:0:0:0:0");
    assert_eq!(v6([0xffff; 8]).to_text(), "ffff:ffff:ffff:ffff:ffff:ffff:ffff:ffff");
}

#[test]
fn rendering_then_parsing_round_trips() {
    let samples = vec![
        v4(1, 2, 3, 4),
        v4(0, 0, 0, 0),
        v4(255, 255, 255, 255),
        v6([0; 8]),
        v6([1, 0, 0, 0, 0, 0, 0, 8]),
        v6([0x2001, 0xdb8, 0, 0, 0, 0x8a2e, 0x370, 0x7334]),
        v6([0xffff; 8]),
    ];
    for a in samples {
        let text = a.to_text();
        assert_eq!(parse_ip(&text), Some(a));
    }
}

#[test]
fn trims_surrounding_ascii_whitespace() {
    assert_eq!(trim_ascii(b"  1.2.3.4\r\n"), b"1.2.3.4".to_vec());
    assert_eq!(trim_ascii(b"\t\n"), Vec::<u8>::new());
    assert_eq!(trim_ascii(b"a b"), b"a b".to_vec());
    assert_eq!(parse_ip_bytes(&trim_ascii(b" 9.9.9.9\n")), Some(v4(9, 9, 9, 9)));
}
