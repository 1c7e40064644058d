use mrtdump::community::Community;
use mrtdump::error::MrtError;
use mrtdump::filter::Filter;
use mrtdump::ipaddrmask::Address;
use mrtdump::prefix::Prefix;
use mrtdump::rib::MrtNlri;
use mrtdump::text::{chars_of, number, split_at};

fn v4(a: u8, b: u8, c: u8, d: u8) -> Address {
    Address::V4(u32::from_be_bytes([a, b, c, d]))
}

fn v6(groups: [u16; 8]) -> Address {
    let mut value: u128 = 0;
    for g in groups {
        value = value << 16 | g as u128;
    }
    Address::V6(value)
}

fn nlri(prefix: Address, plen: u8) -> MrtNlri {
    MrtNlri { sequence: 0, plen, prefix, entry_count: 0, rib_entries: vec![] }
}

#[test]
fn chars_of_a_string() {
    assert_eq!(chars_of(""), Vec::<char>::new());
    assert_eq!(chars_of("a:b"), vec!['a', ':', 'b']);
    assert_eq!(chars_of("\u{e9}\u{20ac}"), vec!['\u{e9}', '\u{20ac}']);
}

#[test]
fn split_keeps_empty_pieces() {
    let pieces = |s: &str| -> Vec<String> {
        split_at(&chars_of(s), ':').iter().map(|p| p.iter().collect::<String>()).collect()
    };
    assert_eq!(pieces(""), vec![""]);
    assert_eq!(pieces("abc"), vec!["abc"]);
    assert_eq!(pieces("a:b"), vec!["a", "b"]);
    assert_eq!(pieces(":"), vec!["", ""]);
    assert_eq!(pieces("::1"), vec!["", "", "1"]);
    assert_eq!(pieces("1::"), vec!["1", "", ""]);
    assert_eq!(pieces("a::b:"), vec!["a", "", "b", ""]);
}

#[test]
fn numbers_in_text() {
    let read = |s: &str, max: u32| number(&chars_of(s), max);
    assert_eq!(read("0", 255), Some(0));
    assert_eq!(read("255", 255), Some(255));
    assert_eq!(read("256", 255), None);
    assert_eq!(read("+8", 255), Some(8));
    assert_eq!(read("008", 255), Some(8));
    assert_eq!(read("", 255), None);
    assert_eq!(read("+", 255), None);
    assert_eq!(read("-1", 255), None);
    assert_eq!(read("1 ", 255), None);
    assert_eq!(read(" 1", 255), None);
    assert_eq!(read("12a", 255), None);
    assert_eq!(read("++1", 255), None);
    assert_eq!(read("4294967295", u32::MAX), Some(u32::MAX));
    assert_eq!(read("4294967296", u32::MAX), None);
    assert_eq!(read("99999999999999999999999999", u32::MAX), None);
    assert_eq!(read("0000000000000000000000065535", 65535), Some(65535));
}

#[test]
fn ipv4_literals() {
    assert_eq!(Address::from_text("10.1.2.3"), Some(v4(10, 1, 2, 3)));
    assert_eq!(Address::from_text("0.0.0.0"), Some(v4(0, 0, 0, 0)));
    assert_eq!(Address::from_text("255.255.255.255"), Some(v4(255, 255, 255, 255)));
    assert_eq!(Address::from_text("192.0.2.1"), Some(Address::V4(0xc0000201)));
}

#[test]
fn ipv4_literals_that_are_refused() {
    for text in [
        "", "1", "1.2.3", "1.2.3.4.5", "256.1.1.1", "1.2.3.256", "01.2.3.4", "1.2.3.04", "1.2.3.",
        ".1.2.3", "1..2.3", "1.2.3.4 ", " 1.2.3.4", "+1.2.3.4", "1.2.3.+4", "a.b.c.d", "1.2.3.4/8",
        "0x1.2.3.4", "1.2.3.1000", "1,2,3,4", "00.0.0.0",
    ] {
        assert_eq!(Address::from_text(text), None, "{}", text);
    }
}

#[test]
fn ipv6_literals_in_full() {
    assert_eq!(Address::from_text("1:2:3:4:5:6:7:8"), Some(v6([1, 2, 3, 4, 5, 6, 7, 8])));
    assert_eq!(
        Address::from_text("2001:0db8:0000:0000:0000:0000:0000:0001"),
        Some(v6([0x2001, 0xdb8, 0, 0, 0, 0, 0, 1]))
    );
    assert_eq!(
        Address::from_text("FFFF:ffff:FfFf:abcd:ABCD:0:00:000"),
        Some(v6([0xffff, 0xffff, 0xffff, 0xabcd, 0xabcd, 0, 0, 0]))
    );
    assert_eq!(
        Address::from_text("1:2:3:4:5:6:1.2.3.4"),
        Some(v6([1, 2, 3, 4, 5, 6, 0x0102, 0x0304]))
    );
}

#[test]
fn ipv6_literals_compressed() {
    assert_eq!(Address::from_text("::"), Some(Address::V6(0)));
    assert_eq!(Address::from_text("::1"), Some(Address::V6(1)));
    assert_eq!(Address::from_text("1::"), Some(v6([1, 0, 0, 0, 0, 0, 0, 0])));
    assert_eq!(Address::from_text("2001:db8::"), Some(Address::V6(0x2001_0db8 << 96)));
    assert_eq!(Address::from_text("2001:db8::1"), Some(v6([0x2001, 0xdb8, 0, 0, 0, 0, 0, 1])));
    assert_eq!(Address::from_text("1::2:3"), Some(v6([1, 0, 0, 0, 0, 0, 2, 3])));
    assert_eq!(Address::from_text("1:2:3:4:5:6:7::"), Some(v6([1, 2, 3, 4, 5, 6, 7, 0])));
    assert_eq!(Address::from_text("::2:3:4:5:6:7:8"), Some(v6([0, 2, 3, 4, 5, 6, 7, 8])));
    assert_eq!(Address::from_text("1:2:3::5:6:7:8"), Some(v6([1, 2, 3, 0, 5, 6, 7, 8])));
    assert_eq!(Address::from_text("::ffff:192.0.2.1"), Some(v6([0, 0, 0, 0, 0, 0xffff, 0xc000, 0x0201])));
    assert_eq!(Address::from_text("::1.2.3.4"), Some(v6([0, 0, 0, 0, 0, 0, 0x0102, 0x0304])));
    assert_eq!(Address::from_text("1:2:3:4:5::1.2.3.4"), Some(v6([1, 2, 3, 4, 5, 0, 0x0102, 0x0304])));
    assert_eq!(Address::from_text("64:ff9b::10.0.0.1"), Some(v6([0x64, 0xff9b, 0, 0, 0, 0, 0x0a00, 1])));
}

#[test]
fn ipv6_literals_that_are_refused() {
    for text in [
        ":", ":::", "1", "1:2", "1:2:3:4:5:6:7", "1:2:3:4:5:6:7:8:9", "::1:2:3:4:5:6:7:8",
        "1:2:3:4:5:6:7:8::", "1::2::3", "1:::2", ":1:2:3:4:5:6:7", "1:2:3:4:5:6:7:", ":1::",
        "::1:", "12345::", "g::", "1:2:3:4:5:6:7:1.2.3.4", "1.2.3.4::", "1.2.3.4::1",
        "::1.2.3.4:5", "1:2:3:4:5:6::1.2.3.4", "::1.2.3", "::1.2.3.256", "::01.2.3.4",
        "1:2:3:4:5:6:7:8 ", " ::", "::%eth0", "[::1]", "::/0", "1:2:3:4:5:6:7:+8", ": :",
    ] {
        assert_eq!(Address::from_text(text), None, "{}", text);
    }
}

#[test]
fn prefixes_in_text() {
    assert_eq!(Prefix::from_text("10.0.0.0/8"), Ok(Prefix { prefix: v4(10, 0, 0, 0), len: 8 }));
    assert_eq!(Prefix::from_text("10.1.2.3/8"), Ok(Prefix { prefix: v4(10, 1, 2, 3), len: 8 }));
    assert_eq!(Prefix::from_text("0.0.0.0/0"), Ok(Prefix { prefix: v4(0, 0, 0, 0), len: 0 }));
    assert_eq!(Prefix::from_text("1.2.3.4/255"), Ok(Prefix { prefix: v4(1, 2, 3, 4), len: 255 }));
    assert_eq!(
        Prefix::from_text("2001:db8::/32"),
        Ok(Prefix { prefix: Address::V6(0x2001_0db8 << 96), len: 32 })
    );
    assert_eq!(Prefix::from_text("::/0"), Ok(Prefix { prefix: Address::V6(0), len: 0 }));
    for text in ["10.0.0.0", "10.0.0.0/", "/8", "10.0.0.0/8/8", "10.0.0.0/256", "10.0.0.0/-1", "10.0.0/8", "10.0.0.0/a", "10.0.0.0 /8", ""] {
        assert_eq!(Prefix::from_text(text), Err(MrtError::BadSyntax), "{}", text);
    }
}

#[test]
fn communities_in_text() {
    assert_eq!(Community::from_text("65000:100"), Ok(Community::Standard(65000, 100)));
    assert_eq!(Community::from_text("0:0"), Ok(Community::Standard(0, 0)));
    assert_eq!(Community::from_text("65535:65535"), Ok(Community::Standard(65535, 65535)));
    assert_eq!(Community::from_text("65000:1:2"), Ok(Community::Large(65000, 1, 2)));
    assert_eq!(
        Community::from_text("4294967295:0:4294967295"),
        Ok(Community::Large(u32::MAX, 0, u32::MAX))
    );
    for text in ["", "1", "1:", ":1", "65536:1", "1:65536", "1:2:3:4", "a:b", "1:2:4294967296", "1::2", "1 :2"] {
        assert_eq!(Community::from_text(text), Err(MrtError::BadSyntax), "{}", text);
    }
}

#[test]
fn filters_in_text_first_reading_wins() {
    assert_eq!(
        Filter::from_text("10.0.0.0/8"),
        Ok(Filter::Prefix(Prefix { prefix: v4(10, 0, 0, 0), len: 8 }))
    );
    assert_eq!(Filter::from_text("10.1.2.3"), Ok(Filter::LPM(v4(10, 1, 2, 3))));
    assert_eq!(Filter::from_text("2001:db8::1"), Ok(Filter::LPM(Address::V6(0x2001_0db8 << 96 | 1))));
    assert_eq!(Filter::from_text("65001"), Ok(Filter::As(65001)));
    assert_eq!(Filter::from_text("4294967295"), Ok(Filter::As(u32::MAX)));
    assert_eq!(Filter::from_text("65000:100"), Ok(Filter::Community(Community::Standard(65000, 100))));
    assert_eq!(Filter::from_text("12345:100"), Ok(Filter::Community(Community::Standard(12345, 100))));
    for text in ["", "4294967296", "65536:1", "1:2:3", "as65001", "10.0.0.0/33/1", "10.0.0", "::1/"] {
        assert_eq!(Filter::from_text(text), Err(MrtError::BadFilter), "{}", text);
    }
}

#[test]
fn text_parses_through_from_str() {
    assert_eq!("10.0.0.0/8".parse::<Prefix>(), Ok(Prefix { prefix: v4(10, 0, 0, 0), len: 8 }));
    assert_eq!("10.0.0.0".parse::<Prefix>(), Err(MrtError::BadSyntax));
    assert_eq!("65000:100".parse::<Community>(), Ok(Community::Standard(65000, 100)));
    assert_eq!("65000".parse::<Community>(), Err(MrtError::BadSyntax));
    assert_eq!("65001".parse::<Filter>(), Ok(Filter::As(65001)));
    assert_eq!("x".parse::<Filter>(), Err(MrtError::BadFilter));
}

#[test]
fn filters_from_text_match_prefix_records() {
    let inside = Filter::from_text("10.0.0.0/8").unwrap();
    assert!(inside.eval(&mut nlri(v4(10, 1, 0, 0), 16)));
    assert!(!inside.eval(&mut nlri(v4(11, 0, 0, 0), 8)));
    let covering = Filter::from_text("10.1.2.3").unwrap();
    assert!(covering.eval(&mut nlri(v4(10, 0, 0, 0), 8)));
    assert!(covering.eval(&mut nlri(v4(10, 1, 0, 0), 16)));
    assert!(!covering.eval(&mut nlri(v4(10, 0, 0, 0), 16)));
}
