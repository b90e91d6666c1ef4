use datetime_parse::line_reader::{read_all, LineReader, ReadError, TrailingLine};

fn strings(lines: &[Vec<u8>]) -> Vec<String> {
    lines.iter().map(|l| String::from_utf8(l.clone()).unwrap()).collect()
}

#[test]
fn unterminated_last_line_is_not_delivered() {
    let data = b"first\nsecond line\nthird\nunterminated";
    for capacity in [20, 21, 24, 64] {
        let lines = read_all(data, capacity, TrailingLine::Drop).unwrap();
        assert_eq!(vec!["first", "second line", "third"], strings(&lines));
    }
}

#[test]
fn unterminated_last_line_is_flushed_on_request() {
    let data = b"first\nsecond line\nthird\nunterminated";
    let lines = read_all(data, 20, TrailingLine::Flush).unwrap();
    assert_eq!(vec!["first", "second line", "third", "unterminated"], strings(&lines));
    let lines = read_all(b"a\nb\n", 20, TrailingLine::Flush).unwrap();
    assert_eq!(vec!["a", "b"], strings(&lines));
}

#[test]
fn record_spanning_a_fill_is_reassembled() {
    let record = "2022-04-14T02:32:53.4028225Z";
    let data = format!("{}\n{}\n", record, record);
    let lines = read_all(data.as_bytes(), record.len() + 10, TrailingLine::Drop).unwrap();
    assert_eq!(vec![record, record], strings(&lines));
}

#[test]
fn reading_twice_gives_the_same_records() {
    let data = b"x\nyy\n\nzzz\nw";
    let first = read_all(data, 4, TrailingLine::Drop).unwrap();
    let second = read_all(data, 4, TrailingLine::Drop).unwrap();
    assert_eq!(first, second);
    assert_eq!(vec!["x", "yy", "", "zzz"], strings(&first));
}

#[test]
fn empty_input_has_no_records() {
    assert!(read_all(b"", 8, TrailingLine::Flush).unwrap().is_empty());
    assert!(read_all(b"", 8, TrailingLine::Drop).unwrap().is_empty());
}

#[test]
fn record_longer_than_buffer_is_an_error() {
    assert_eq!(Err(ReadError::RecordTooLong), read_all(b"abcdefgh\n", 8, TrailingLine::Drop));
    assert_eq!(Err(ReadError::RecordTooLong), read_all(b"ok\nabcdefgh", 8, TrailingLine::Drop));
    // A record of capacity - 1 bytes and its newline fit.
    let lines = read_all(b"abcdefg\n", 8, TrailingLine::Drop).unwrap();
    assert_eq!(vec!["abcdefg"], strings(&lines));
}

#[test]
fn feeding_blocks_carries_the_tail_over() {
    let mut reader = LineReader::new(10, TrailingLine::Flush);
    assert_eq!(10, reader.free_space());
    let lines = reader.feed(b"ab\ncd").unwrap();
    assert_eq!(vec!["ab"], strings(&lines));
    assert_eq!(8, reader.free_space());
    let lines = reader.feed(b"e\nfg\n").unwrap();
    assert_eq!(vec!["cde", "fg"], strings(&lines));
    assert_eq!(10, reader.free_space());
    let lines = reader.feed(b"hij").unwrap();
    assert!(lines.is_empty());
    assert_eq!(Some(b"hij".to_vec()), reader.finish());
}

#[test]
fn full_buffer_without_newline_is_reported() {
    let mut reader = LineReader::new(4, TrailingLine::Drop);
    assert!(reader.feed(b"ab").unwrap().is_empty());
    assert_eq!(Err(ReadError::RecordTooLong), reader.feed(b"cd"));
    assert_eq!(0, reader.free_space());
}
