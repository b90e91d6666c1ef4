use datetime_parse::datetime::{DecodeMode, MyDateTime};

const SAMPLE: &str = "2022-04-14T02:32:53.4028225Z";

fn with_byte(at: usize, b: u8) -> Vec<u8> {
    let mut v = SAMPLE.as_bytes().to_vec();
    v[at] = b;
    v
}

#[test]
fn lib_parse_datetime() {
    let dt = MyDateTime::parse_validating("2022-04-14T02:32:53.4028225Z".as_bytes()).unwrap();
    assert_eq!(2022, dt.year);
    assert_eq!(4, dt.month);
    assert_eq!(14, dt.day);
    assert_eq!(2, dt.hour);
    assert_eq!(32, dt.minute);
    assert_eq!(53, dt.second);
    assert_eq!(4028225, dt.microseconds);
}

#[test]
fn variations_parse_datetime() {
    let dt = MyDateTime::parse_validating("2022-04-14T02:32:53.4028225Z".as_bytes()).unwrap();
    assert_eq!(2022, dt.year);
    assert_eq!(4, dt.month);
    assert_eq!(14, dt.day);
    assert_eq!(2, dt.hour);
    assert_eq!(32, dt.minute);
    assert_eq!(53, dt.second);
    assert_eq!(4028225, dt.microseconds);
    assert_eq!(402822500, dt.nanoseconds());
}

#[test]
fn decoders_agree_on_valid_records() {
    for text in [SAMPLE, "0000-00-00T00:00:00.0000000Z", "9999-99-99T99:99:99.9999999Z", "1970-01-01T00:00:00.0000001Z"] {
        let v = MyDateTime::parse_validating(text.as_bytes()).unwrap();
        let n = MyDateTime::parse_noerrors(text.as_bytes()).unwrap();
        let u = MyDateTime::parse_unrolled(text.as_bytes()).unwrap();
        assert_eq!(v, n);
        assert_eq!(v, u);
    }
    let top = MyDateTime::parse_noerrors("9999-99-99T99:99:99.9999999Z".as_bytes()).unwrap();
    assert_eq!(9999, top.year);
    assert_eq!(99, top.second);
    assert_eq!(9999999, top.microseconds);
}

#[test]
fn non_digit_in_any_field_is_rejected_only_by_validating() {
    let offsets = [0, 1, 2, 3, 5, 6, 8, 9, 11, 12, 14, 15, 17, 18, 20, 21, 22, 23, 24, 25, 26];
    for at in offsets {
        for b in [b'x', b'/', b':', b' ', 0u8, 255u8] {
            let record = with_byte(at, b);
            assert_eq!(None, MyDateTime::parse_validating(&record), "offset {}", at);
            assert!(MyDateTime::parse_noerrors(&record).is_some());
            assert!(MyDateTime::parse_unrolled(&record).is_some());
        }
    }
}

#[test]
fn non_validating_garbage_wraps() {
    // 'x' - '0' = 72, so the month is 10 * 72 + 4 = 724, which is 212 modulo 256.
    let dt = MyDateTime::parse_noerrors(&with_byte(5, b'x')).unwrap();
    assert_eq!(212, dt.month);
    // The unrolled variant wraps modulo 2^16 instead: 724.
    let dt = MyDateTime::parse_unrolled(&with_byte(5, b'x')).unwrap();
    assert_eq!(724, dt.month);
    // A byte below '0' wraps the other way in the unrolled sum.
    let dt = MyDateTime::parse_unrolled(&with_byte(6, b'/')).unwrap();
    assert_eq!(65535, dt.month);
}

#[test]
fn short_inputs_are_rejected() {
    let bytes = SAMPLE.as_bytes();
    for len in 0..28 {
        assert_eq!(None, MyDateTime::parse_validating(&bytes[..len]));
        assert_eq!(None, MyDateTime::parse_noerrors(&bytes[..len]));
        assert_eq!(None, MyDateTime::parse_unrolled(&bytes[..len]));
    }
}

#[test]
fn separators_are_never_inspected() {
    let mut record = SAMPLE.as_bytes().to_vec();
    for at in [4, 7, 10, 13, 16, 19, 27] {
        record[at] = b'#';
    }
    let dt = MyDateTime::parse_validating(&record).unwrap();
    assert_eq!(2022, dt.year);
    assert_eq!(4028225, dt.microseconds);
}

#[test]
fn longer_records_only_pass_validating() {
    let line = format!("{}\n", SAMPLE);
    assert!(MyDateTime::parse_validating(line.as_bytes()).is_some());
    assert_eq!(None, MyDateTime::parse_noerrors(line.as_bytes()));
    assert_eq!(None, MyDateTime::parse_unrolled(line.as_bytes()));
}

#[test]
fn decode_follows_mode() {
    let bad = with_byte(0, b'x');
    assert_eq!(None, MyDateTime::decode(&bad, DecodeMode::Validating));
    assert!(MyDateTime::decode(&bad, DecodeMode::NonValidating).is_some());
    let good = MyDateTime::decode(SAMPLE.as_bytes(), DecodeMode::NonValidating).unwrap();
    assert_eq!(14, good.day);
}
