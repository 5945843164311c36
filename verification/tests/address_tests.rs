use rebind_control::address::{make_socket_addr, Endpoint, Host, InvalidAddress};

fn v4(quad: u32, port: u16) -> Result<Endpoint, InvalidAddress> {
    Ok(Endpoint { host: Host::V4 { quad }, port })
}

fn v6(groups: u128, scope_id: u32, port: u16) -> Result<Endpoint, InvalidAddress> {
    Ok(Endpoint { host: Host::V6 { groups, scope_id }, port })
}

#[test]
fn loopback_with_port_is_accepted() {
    assert_eq!(make_socket_addr("127.0.0.1:6000"), v4(0x7F00_0001, 6000));
}

#[test]
fn dotted_quad_is_read_most_significant_first() {
    assert_eq!(make_socket_addr("1.2.3.4:5"), v4(0x0102_0304, 5));
    assert_eq!(make_socket_addr("255.255.255.255:65535"), v4(0xFFFF_FFFF, 65535));
    assert_eq!(make_socket_addr("0.0.0.0:0"), v4(0, 0));
}

#[test]
fn port_may_have_leading_zeros() {
    assert_eq!(make_socket_addr("10.0.0.1:0080"), v4(0x0A00_0001, 80));
    assert_eq!(make_socket_addr("10.0.0.1:000000000000000000000000065535"), v4(0x0A00_0001, 65535));
}

#[test]
fn empty_text_is_rejected_as_empty() {
    assert_eq!(make_socket_addr(""), Err(InvalidAddress::Empty));
}

#[test]
fn text_without_colon_names_no_port() {
    assert_eq!(make_socket_addr("not-an-address"), Err(InvalidAddress::MissingPort));
    assert_eq!(make_socket_addr("bogus"), Err(InvalidAddress::MissingPort));
    assert_eq!(make_socket_addr("127.0.0.1"), Err(InvalidAddress::MissingPort));
}

#[test]
fn port_out_of_range_is_rejected() {
    assert_eq!(make_socket_addr("host:99999"), Err(InvalidAddress::PortOutOfRange));
    assert_eq!(make_socket_addr("127.0.0.1:65536"), Err(InvalidAddress::PortOutOfRange));
    assert_eq!(
        make_socket_addr("127.0.0.1:99999999999999999999999999999999"),
        Err(InvalidAddress::PortOutOfRange)
    );
}

#[test]
fn port_must_be_decimal_digits() {
    assert_eq!(make_socket_addr("127.0.0.1:"), Err(InvalidAddress::InvalidPort));
    assert_eq!(make_socket_addr("127.0.0.1:http"), Err(InvalidAddress::InvalidPort));
    assert_eq!(make_socket_addr("127.0.0.1:80a"), Err(InvalidAddress::InvalidPort));
    assert_eq!(make_socket_addr("127.0.0.1:99999x"), Err(InvalidAddress::InvalidPort));
    assert_eq!(make_socket_addr("127.0.0.1:-1"), Err(InvalidAddress::InvalidPort));
    assert_eq!(make_socket_addr("127.0.0.1:+1"), Err(InvalidAddress::InvalidPort));
    assert_eq!(make_socket_addr("127.0.0.1: 80"), Err(InvalidAddress::InvalidPort));
    assert_eq!(make_socket_addr("[::1]"), Err(InvalidAddress::InvalidPort));
}

#[test]
fn host_must_be_numeric() {
    assert_eq!(make_socket_addr("localhost:6000"), Err(InvalidAddress::InvalidHost));
    assert_eq!(make_socket_addr(":6000"), Err(InvalidAddress::InvalidHost));
    assert_eq!(make_socket_addr("1.2.3:80"), Err(InvalidAddress::InvalidHost));
    assert_eq!(make_socket_addr("1.2.3.4.5:80"), Err(InvalidAddress::InvalidHost));
    assert_eq!(make_socket_addr("256.0.0.1:80"), Err(InvalidAddress::InvalidHost));
    assert_eq!(make_socket_addr("1.2.3.04:80"), Err(InvalidAddress::InvalidHost));
    assert_eq!(make_socket_addr("1.2..4:80"), Err(InvalidAddress::InvalidHost));
    assert_eq!(make_socket_addr("1.2.3.4 :80"), Err(InvalidAddress::InvalidHost));
    assert_eq!(make_socket_addr("::1:80"), Err(InvalidAddress::InvalidHost));
    assert_eq!(make_socket_addr("[::1:80"), Err(InvalidAddress::InvalidHost));
    assert_eq!(make_socket_addr("[1.2.3.4]:80"), Err(InvalidAddress::InvalidHost));
}

#[test]
fn bracketed_ipv6_is_accepted() {
    assert_eq!(make_socket_addr("[::1]:6000"), v6(1, 0, 6000));
    assert_eq!(make_socket_addr("[::]:0"), v6(0, 0, 0));
    assert_eq!(
        make_socket_addr("[2001:db8:0:0:0:0:0:1]:443"),
        v6(0x2001_0db8_0000_0000_0000_0000_0000_0001, 0, 443)
    );
    assert_eq!(
        make_socket_addr("[2001:db8::1]:443"),
        v6(0x2001_0db8_0000_0000_0000_0000_0000_0001, 0, 443)
    );
    assert_eq!(
        make_socket_addr("[FFFF:ffff:FfFf:ffff:ffff:ffff:ffff:ffff]:1"),
        v6(u128::MAX, 0, 1)
    );
    assert_eq!(make_socket_addr("[1::]:1"), v6(0x0001_0000_0000_0000_0000_0000_0000_0000, 0, 1));
    assert_eq!(
        make_socket_addr("[1:2:3:4:5:6:7::]:1"),
        v6(0x0001_0002_0003_0004_0005_0006_0007_0000, 0, 1)
    );
    assert_eq!(
        make_socket_addr("[::2:3:4:5:6:7:8]:1"),
        v6(0x0000_0002_0003_0004_0005_0006_0007_0008, 0, 1)
    );
}

#[test]
fn ipv6_may_end_in_a_dotted_quad() {
    assert_eq!(
        make_socket_addr("[::ffff:192.0.2.128]:80"),
        v6(0x0000_0000_0000_0000_0000_ffff_c000_0280, 0, 80)
    );
    assert_eq!(
        make_socket_addr("[1:2:3:4:5:6:1.2.3.4]:80"),
        v6(0x0001_0002_0003_0004_0005_0006_0102_0304, 0, 80)
    );
    assert_eq!(
        make_socket_addr("[1:2:3:4:5::1.2.3.4]:80"),
        v6(0x0001_0002_0003_0004_0005_0000_0102_0304, 0, 80)
    );
    assert_eq!(make_socket_addr("[1:2:3:4:5:6::1.2.3.4]:80"), Err(InvalidAddress::InvalidHost));
    assert_eq!(make_socket_addr("[1.2.3.4::]:80"), Err(InvalidAddress::InvalidHost));
    assert_eq!(make_socket_addr("[1:2:3:4:5:6:7:1.2.3.4]:80"), Err(InvalidAddress::InvalidHost));
}

#[test]
fn ipv6_scope_is_read() {
    assert_eq!(
        make_socket_addr("[fe80::1%3]:80"),
        v6(0xfe80_0000_0000_0000_0000_0000_0000_0001, 3, 80)
    );
    assert_eq!(
        make_socket_addr("[fe80::1%4294967295]:80"),
        v6(0xfe80_0000_0000_0000_0000_0000_0000_0001, u32::MAX, 80)
    );
    assert_eq!(make_socket_addr("[fe80::1%4294967296]:80"), Err(InvalidAddress::InvalidHost));
    assert_eq!(make_socket_addr("[fe80::1%]:80"), Err(InvalidAddress::InvalidHost));
    assert_eq!(make_socket_addr("[fe80::1%eth0]:80"), Err(InvalidAddress::InvalidHost));
    assert_eq!(make_socket_addr("[fe80::1%1%2]:80"), Err(InvalidAddress::InvalidHost));
}

#[test]
fn malformed_ipv6_is_rejected() {
    for text in [
        "[]:80",
        "[:]:80",
        "[:::]:80",
        "[1:::2]:80",
        "[1::2::3]:80",
        "[1:2:3:4:5:6:7]:80",
        "[1:2:3:4:5:6:7:8:9]:80",
        "[1:2:3:4:5:6:7:8::]:80",
        "[::1:2:3:4:5:6:7:8]:80",
        "[12345::]:80",
        "[g::]:80",
        "[:1]:80",
        "[1:]:80",
        "[[::1]]:80",
        "[::1] :80",
        " [::1]:80",
    ] {
        assert_eq!(make_socket_addr(text), Err(InvalidAddress::InvalidHost), "{}", text);
    }
}

#[test]
fn non_ascii_text_is_rejected() {
    assert_eq!(make_socket_addr("１２７.0.0.1:80"), Err(InvalidAddress::InvalidHost));
    assert_eq!(make_socket_addr("127.0.0.1:８０"), Err(InvalidAddress::InvalidPort));
    assert_eq!(make_socket_addr("héllo"), Err(InvalidAddress::MissingPort));
}

#[test]
fn classification_is_the_same_every_time() {
    for text in ["127.0.0.1:6000", "bogus", "", "[::1]:1", "host:99999"] {
        assert_eq!(make_socket_addr(text), make_socket_addr(text));
    }
}

#[test]
fn texts_of_the_grammar_are_accepted() {
    let accepted = [
        "127.0.0.1:6000", "0.0.0.0:0", "255.255.255.255:65535", "1.2.3.4:05", "[::1]:80",
        "[::]:80", "[1:2:3:4:5:6:7:8]:9", "[1::8]:9", "[1:2::7:8]:9", "[::7:8]:9", "[1:2::]:9",
        "[1:2:3:4:5:6:7::]:9", "[::2:3:4:5:6:7:8]:9", "[1:2:3::5:6:7:8]:9",
        "[::ffff:1.2.3.4]:9", "[1:2:3:4:5:6:1.2.3.4]:9", "[1:2:3:4:5::1.2.3.4]:9",
        "[::1.2.3.4]:9", "[abcd:ef01:2345:6789:ABCD:EF01:2345:6789]:9", "[0000::]:9",
        "[fe80::1%3]:9", "[fe80::1%03]:9", "[fe80::1%4294967295]:9", "[::%0]:9",
        "1.2.3.4:00000000000000000000000000000000000001", "[1::2:3:4:5:6:7]:9",
        "[1:2:3:4:5:6::7]:9", "[::0.0.0.0]:0", "[0::0.0.0.0]:0", "[::255.255.255.255]:0",
        "[ffff::255.255.255.255]:0",
    ];
    for text in accepted {
        assert!(make_socket_addr(text).is_ok(), "{:?}", text);
    }
}

#[test]
fn texts_outside_the_grammar_are_rejected() {
    let rejected = [
        "01.2.3.4:5", "1.2.3.4:65536", "1.2.3.4", "1.2.3:4", "1.2.3.4.5:6", "1.2.3.256:7",
        "1.2.3.4:", ":80", "", "bogus", "not-an-address", "host:99999", "localhost:80", "[::1]",
        "::1:80", "[1:2:3:4:5:6:7:8:9]:9", "[1:2:3:4:5:6:7]:9", "[1:2:3:4:5:6:7:8::]:9",
        "[::1:2:3:4:5:6:7:8]:9", "[1:2:3:4::5:6:7:8]:9", "[:::]:9", "[1:::2]:9", "[1::2::3]:9",
        "[1:2:3:4:5:6:7:1.2.3.4]:9", "[1:2:3:4:5:6::1.2.3.4]:9", "[1.2.3.4::]:9", "[1.2.3.4]:9",
        "[::1.2.3.4:5]:9", "[::1.2.3]:9", "[::1.2.3.04]:9", "[::1.2.3.4567]:9", "[12345::]:9",
        "[00000::]:9", "[g::]:9", "[fe80::1%4294967296]:9", "[fe80::1%]:9", "[fe80::1%eth0]:9",
        "[fe80::1%1%2]:9", "[%1]:9", "[]:9", "[:]:9", "[:1]:9", "[1:]:9", "[[::1]]:9",
        "[::1]]:9", "[::1]:9 ", " [::1]:9", "[::1] :9", "[::1]:+9", "[::1]:0x9", "1.2.3.4:9:9",
        "[::1]:9:9", "[1:2:3:4:5:6:7:8", "1:2:3:4:5:6:7:8]:9", "[::1]x:9", "x[::1]:9",
        "[::1%1]:", "[1:2:3:4:5:6:7::8]:9", "١٢٧.0.0.1:80",
    ];
    for text in rejected {
        assert!(make_socket_addr(text).is_err(), "{:?}", text);
    }
}
