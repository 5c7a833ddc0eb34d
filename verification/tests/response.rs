use clob::response::{encode_reply, reply_of};

#[test]
fn reply_is_the_number_in_decimal_digits() {
    assert_eq!(encode_reply(0), Some("0".to_string()));
    assert_eq!(encode_reply(7), Some("7".to_string()));
    assert_eq!(encode_reply(10), Some("10".to_string()));
    assert_eq!(encode_reply(12345), Some("12345".to_string()));
    assert_eq!(encode_reply(u64::MAX), Some("18446744073709551615".to_string()));
}

#[test]
fn reply_is_what_the_encoder_gave() {
    assert_eq!(reply_of(serde_json::to_string(&5u64)), Some("5".to_string()));
    let refused = serde_json::from_str::<u64>("x").map(|n| n.to_string());
    assert_eq!(reply_of(refused), None);
}
