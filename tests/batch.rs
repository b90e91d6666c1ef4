use datetime_parse::batch::{decode_lines, decode_strides, sum_custom};
use datetime_parse::datetime::{DecodeMode, MyDateTime};

const A: &str = "2022-04-14T02:32:53.4028225Z";
const B: &str = "1999-12-31T23:59:59.9990000Z";

#[test]
fn strides_decode_whole_records() {
    let block = format!("{}\n{}\n{}", A, B, &A[..10]);
    let (records, used) = decode_strides(block.as_bytes(), DecodeMode::Validating).unwrap();
    assert_eq!(58, used);
    assert_eq!(2, records.len());
    assert_eq!(2022, records[0].year);
    assert_eq!(1999, records[1].year);
    assert_eq!(9990000, records[1].microseconds);
}

#[test]
fn strides_report_first_bad_record() {
    let block = format!("{}\n{}\nXXXX{}\n", A, B, &A[4..]);
    assert_eq!(Err(2), decode_strides(block.as_bytes(), DecodeMode::Validating));
    let (records, used) = decode_strides(block.as_bytes(), DecodeMode::NonValidating).unwrap();
    assert_eq!(3, records.len());
    assert_eq!(87, used);
}

#[test]
fn short_block_has_no_strides() {
    let (records, used) = decode_strides(&A.as_bytes()[..20], DecodeMode::Validating).unwrap();
    assert!(records.is_empty());
    assert_eq!(0, used);
}

#[test]
fn lines_decode_in_order() {
    let lines = vec![A.as_bytes().to_vec(), B.as_bytes().to_vec()];
    let records = decode_lines(&lines, DecodeMode::NonValidating).unwrap();
    assert_eq!(vec![MyDateTime::parse_validating(A.as_bytes()).unwrap(), MyDateTime::parse_validating(B.as_bytes()).unwrap()], records);
    let bad = vec![A.as_bytes().to_vec(), b"short".to_vec()];
    assert_eq!(Err(1), decode_lines(&bad, DecodeMode::Validating));
}

#[test]
fn checksum_sums_whole_milliseconds() {
    let a = MyDateTime::parse_validating(A.as_bytes()).unwrap();
    let b = MyDateTime::parse_validating(B.as_bytes()).unwrap();
    // 402.8225 ms and 999.0 ms
    assert_eq!(402 + 999, sum_custom(vec![a, b]));
    assert_eq!(0, sum_custom(Vec::new()));
}

use datetime_parse::batch::{decode_all_lines, decode_line_block, decode_text_lines, LineDecodeError, StrideError, StrideReader};
use datetime_parse::line_reader::{LineReader, TrailingLine};

#[test]
fn stride_reader_survives_short_reads() {
    let data = format!("{}\n{}\n{}\n", A, B, A);
    let mut reader = StrideReader::new(DecodeMode::Validating);
    let mut all = Vec::new();
    // Blocks of 10 bytes: every record straddles a block boundary.
    for chunk in data.as_bytes().chunks(10) {
        all.extend(reader.feed(chunk).unwrap());
    }
    assert_eq!(Ok(None), reader.finish());
    assert_eq!(3, all.len());
    assert_eq!(1999, all[1].year);
    assert_eq!(2022, all[2].year);
}

#[test]
fn stride_reader_final_record_without_separator() {
    let data = format!("{}\n{}", A, B);
    let mut reader = StrideReader::new(DecodeMode::NonValidating);
    let records = reader.feed(data.as_bytes()).unwrap();
    assert_eq!(1, records.len());
    assert_eq!(Ok(Some(MyDateTime::parse_validating(B.as_bytes()).unwrap())), reader.finish());
}

#[test]
fn stride_reader_errors() {
    let mut reader = StrideReader::new(DecodeMode::Validating);
    assert!(reader.feed(&A.as_bytes()[..10]).unwrap().is_empty());
    assert_eq!(Err(StrideError::Truncated), reader.finish());

    let bad = format!("{}\nXXXX{}\n", A, &B[4..]);
    let mut reader = StrideReader::new(DecodeMode::Validating);
    assert_eq!(Err(StrideError::Undecodable(1)), reader.feed(bad.as_bytes()));
}

#[test]
fn stride_modes_agree_on_valid_records() {
    let block = format!("{}\n{}\n", A, B);
    let (v, _) = decode_strides(block.as_bytes(), DecodeMode::Validating).unwrap();
    let (n, _) = decode_strides(block.as_bytes(), DecodeMode::NonValidating).unwrap();
    assert_eq!(v, n);
}

#[test]
fn line_blocks_decode_records_once() {
    let data = format!("{}\n{}\n{}", A, B, A);
    let mut reader = LineReader::new(A.len() + 10, TrailingLine::Drop);
    let mut all = Vec::new();
    let mut rest = data.as_bytes();
    while !rest.is_empty() {
        let n = reader.free_space().min(rest.len());
        all.extend(decode_line_block(&mut reader, &rest[..n], DecodeMode::Validating).unwrap());
        rest = &rest[n..];
    }
    assert_eq!(2, all.len());
    assert_eq!(1999, all[1].year);
}

#[test]
fn whole_input_lines_decode() {
    let data = format!("{}\n{}\nunterminated", A, B);
    let records = decode_all_lines(data.as_bytes(), 64, DecodeMode::Validating).unwrap();
    assert_eq!(2, records.len());
    let bad = format!("{}\nnot a record\n", A);
    assert_eq!(Err(LineDecodeError::Undecodable(1)), decode_all_lines(bad.as_bytes(), 64, DecodeMode::Validating));
    assert_eq!(Err(LineDecodeError::RecordTooLong), decode_all_lines(data.as_bytes(), 20, DecodeMode::Validating));
}

#[test]
fn text_lines_decode() {
    let lines = vec![A.to_string(), B.to_string()];
    assert_eq!(2, decode_text_lines(&lines).unwrap().len());
    let lines = vec![A.to_string(), "+022-04-14T02:32:53.4028225Z".to_string()];
    assert_eq!(Err(1), decode_text_lines(&lines));
}
