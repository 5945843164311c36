use rebind_control::address::InvalidAddress;
use rebind_control::reply::{append_decimal, rejection_reply, success_reply};

#[test]
fn success_reply_holds_the_count() {
    assert_eq!(success_reply(1), "Hello! This API has been used 1 times.");
    assert_eq!(success_reply(0), "Hello! This API has been used 0 times.");
    assert_eq!(success_reply(10), "Hello! This API has been used 10 times.");
    assert_eq!(success_reply(4294967295), "Hello! This API has been used 4294967295 times.");
}

#[test]
fn decimal_is_appended_without_leading_zeros() {
    for n in [0u32, 7, 9, 10, 11, 99, 100, 101, 1000, 65535, 1_000_000, u32::MAX] {
        let mut out = String::from("n=");
        append_decimal(&mut out, n);
        assert_eq!(out, format!("n={}", n));
    }
}

#[test]
fn rejection_reply_names_the_reason() {
    assert_eq!(rejection_reply(InvalidAddress::Empty), "Invalid address: the address is empty");
    assert_eq!(
        rejection_reply(InvalidAddress::MissingPort),
        "Invalid address: the address names no port"
    );
    assert_eq!(
        rejection_reply(InvalidAddress::InvalidPort),
        "Invalid address: the port is not a decimal number"
    );
    assert_eq!(
        rejection_reply(InvalidAddress::PortOutOfRange),
        "Invalid address: the port is out of range"
    );
    assert_eq!(
        rejection_reply(InvalidAddress::InvalidHost),
        "Invalid address: the host is not a numeric address"
    );
}

#[test]
fn each_reason_has_its_own_words() {
    let all = [
        InvalidAddress::Empty,
        InvalidAddress::MissingPort,
        InvalidAddress::InvalidPort,
        InvalidAddress::PortOutOfRange,
        InvalidAddress::InvalidHost,
    ];
    for (i, a) in all.iter().enumerate() {
        for (j, b) in all.iter().enumerate() {
            assert_eq!(a.reason() == b.reason(), i == j);
        }
    }
}
