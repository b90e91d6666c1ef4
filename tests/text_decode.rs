use datetime_parse::datetime::MyDateTime;

#[test]
fn text_decode_matches_byte_decode() {
    let text = "2022-04-14T02:32:53.4028225Z";
    let dt = MyDateTime::parse_str(text).unwrap();
    assert_eq!(Some(dt), MyDateTime::parse_validating(text.as_bytes()));
    assert_eq!(2022, dt.year);
    assert_eq!(4028225, dt.microseconds);
}

#[test]
fn text_decode_rejects_a_plus_sign() {
    assert_eq!(None, MyDateTime::parse_str("+022-04-14T02:32:53.4028225Z"));
    assert_eq!(None, MyDateTime::parse_str("2022-+4-14T02:32:53.4028225Z"));
    assert_eq!(None, MyDateTime::parse_str("2022-04-14T02:32:53.+028225Z"));
}

#[test]
fn text_decode_agrees_with_byte_decode() {
    for text in ["0000-00-00T00:00:00.0000000Z", "9999-99-99T99:99:99.9999999Z", "2022#04#14#02#32#53#4028225#tail"] {
        assert_eq!(MyDateTime::parse_validating(text.as_bytes()), MyDateTime::parse_str(text));
    }
}

#[test]
fn text_decode_rejects_bad_fields() {
    assert_eq!(None, MyDateTime::parse_str("2022-04-14T02:32:53.402822"));
    assert_eq!(None, MyDateTime::parse_str("2022-0x-14T02:32:53.4028225Z"));
    assert_eq!(None, MyDateTime::parse_str("2022-04-14T-2:32:53.4028225Z"));
    assert_eq!(None, MyDateTime::parse_str("2022-04-14T+:32:53.4028225Z"));
    assert_eq!(None, MyDateTime::parse_str("2022-04-14T02:32:53. 028225Z"));
}

#[test]
fn text_decode_refuses_split_characters() {
    // 'é' takes two bytes, so the month field would cut it in half.
    assert_eq!(None, MyDateTime::parse_str("2022é4-14T02:32:53.4028225Z"));
    // Non-ASCII text after the record is fine.
    let dt = MyDateTime::parse_str("2022-04-14T02:32:53.4028225Zé").unwrap();
    assert_eq!(53, dt.second);
}
