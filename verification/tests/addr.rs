//! Addresses as text.

use portwatch::addr::{IpAddr, Ipv4Addr, Ipv6Addr};

fn parse(s: &str) -> Option<IpAddr> {
    let chars: Vec<char> = s.chars().collect();
    IpAddr::parse(&chars)
}

fn some_addresses() -> Vec<IpAddr> {
    let mut out = Vec::new();
    for bits in [0, 1, 255, 256, 0x7f00_0001, 0x0a00_00ff, 0xc0a8_0114, u32::MAX] {
        out.push(IpAddr::V4(Ipv4Addr { bits }));
    }
    let mut seed: u128 = 0x1234_5678_9abc_def0;
    for pattern in 0u32..256 {
        let mut bits: u128 = 0;
        for i in 0..8 {
            seed = seed.wrapping_mul(6364136223846793005).wrapping_add(1442695040888963407);
            let segment = if pattern & (1 << i) == 0 { 0 } else { (seed >> 40) & 0xffff };
            bits = (bits << 16) | segment;
        }
        out.push(IpAddr::V6(Ipv6Addr { bits }));
    }
    out.push(IpAddr::V6(Ipv6Addr { bits: 0xffff_7f00_0001 }));
    out.push(IpAddr::V6(Ipv6Addr { bits: 0xffff_0000_0000 }));
    out.push(IpAddr::V6(Ipv6Addr { bits: 0x1_ffff_7f00_0001 }));
    out.push(IpAddr::V6(Ipv6Addr { bits: u128::MAX }));
    out
}

#[test]
fn texts_are_read_back() {
    for a in some_addresses() {
        assert_eq!(parse(&a.to_string()), Some(a));
    }
}

#[test]
fn octets_are_written_in_decimal() {
    let text = |bits: u32| IpAddr::V4(Ipv4Addr { bits }).to_string();
    assert_eq!(text(0), "0.0.0.0");
    assert_eq!(text(0x7f00_0001), "127.0.0.1");
    assert_eq!(text(0xc0a8_0114), "192.168.1.20");
    assert_eq!(text(u32::MAX), "255.255.255.255");
}

#[test]
fn the_first_longest_run_of_zeros_is_left_out() {
    let text = |g: [u16; 8]| {
        IpAddr::V6(Ipv6Addr::new(g[0], g[1], g[2], g[3], g[4], g[5], g[6], g[7])).to_string()
    };
    assert_eq!(text([0; 8]), "::");
    assert_eq!(text([0, 0, 0, 0, 0, 0, 0, 1]), "::1");
    assert_eq!(text([1, 0, 0, 0, 0, 0, 0, 0]), "1::");
    assert_eq!(text([0x2001, 0xdb8, 0, 1, 1, 1, 1, 1]), "2001:db8:0:1:1:1:1:1");
    assert_eq!(text([1, 0, 0, 2, 0, 0, 3, 4]), "1::2:0:0:3:4");
    assert_eq!(text([1, 0, 0, 2, 0, 0, 0, 4]), "1:0:0:2::4");
    assert_eq!(text([0, 0, 0, 0, 0, 0xffff, 0x7f00, 1]), "::ffff:127.0.0.1");
}

#[test]
fn what_is_no_address_is_rejected() {
    for s in [
        "", "*", "1", "1.2.3", "1.2.3.4.5", "256.1.1.1", "01.1.1.1", "1.1.1.", "+1.1.1.1",
        ":", ":::", "1::2::3", "1:2:3:4:5:6:7", "1:2:3:4:5:6:7:8:9", "1:2:3:4:5:6:7::8", "12345::",
        "g::", "::1.2.3", "1.2.3.4::", "1:2:3:4:5:6:7:1.2.3.4", "::1%lo0", " ::1", "+1::",
    ] {
        assert_eq!(parse(s), None, "{s}");
    }
}

#[test]
fn other_writings_of_addresses_are_read() {
    for (s, text) in [
        ("::", "::"),
        ("::FFFF:1.2.3.4", "::ffff:1.2.3.4"),
        ("1:2:3:4:5:6:1.2.3.4", "1:2:3:4:5:6:102:304"),
        ("1::1.2.3.4", "1::102:304"),
        ("0000:0:0:0:0:0:0:0001", "::1"),
        ("1:2:3:4:5:6:7::", "1:2:3:4:5:6:7:0"),
        ("::2:3:4:5:6:7:8", "0:2:3:4:5:6:7:8"),
        ("0.0.0.0", "0.0.0.0"),
        ("ABCD::abcd", "abcd::abcd"),
    ] {
        let a = parse(s).unwrap_or_else(|| panic!("{s}"));
        assert_eq!(a.to_string(), text);
    }
}

#[test]
fn addresses_are_ordered_by_family_then_number() {
    let v4 = |bits: u32| IpAddr::V4(Ipv4Addr { bits });
    let v6 = |bits: u128| IpAddr::V6(Ipv6Addr { bits });
    assert!(v4(1).is_before(&v4(2)));
    assert!(!v4(2).is_before(&v4(2)));
    assert!(v4(u32::MAX).is_before(&v6(0)));
    assert!(!v6(0).is_before(&v4(u32::MAX)));
    assert!(v6(1).is_before(&v6(2)));
}
