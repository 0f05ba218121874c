use sender_receiver::addr::{parse_ip, AddrParseError};

#[test]
fn addresses_are_read() {
    assert_eq!(parse_ip("10.7.0.4".to_string()), Ok([10, 7, 0, 4]));
    assert_eq!(parse_ip("0.0.0.0".to_string()), Ok([0, 0, 0, 0]));
    assert_eq!(parse_ip("255.255.255.255".to_string()), Ok([255, 255, 255, 255]));
    assert_eq!(parse_ip("1.20.200.199".to_string()), Ok([1, 20, 200, 199]));
}

#[test]
fn other_texts_are_refused() {
    for text in [
        "", ".", "1", "1.2.3", "1.2.3.", "1.2.3.4.", "1.2.3.4.5", ".1.2.3", "1..2.3", "256.1.1.1",
        "1.1.1.256", "01.2.3.4", "1.2.3.00", "1.2.3.0004", "1.2.3.1000", " 1.2.3.4", "1.2.3.4 ",
        "1.2.3.4\n", "a.b.c.d", "-1.2.3.4", "+1.2.3.4", "0x1.2.3.4", "1,2,3,4", "1.2.3.\u{0664}",
        "1.2.3.4/8", "localhost",
    ] {
        assert_eq!(parse_ip(text.to_string()), Err(AddrParseError), "{text}");
    }
}

#[test]
fn every_octet_comes_back() {
    for v in 0..=255u8 {
        let text = format!("{}.{}.{}.{}", v, 255 - v, v / 2, v);
        assert_eq!(parse_ip(text), Ok([v, 255 - v, v / 2, v]));
    }
}
