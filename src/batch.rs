//! Decoding many records at once: fixed-stride blocks and lists of lines.
use crate::datetime::{
    fields_are_digits, lemma_decoders_agree, validating_decode, wrapping_decode, DecodeMode, MyDateTime,
    RECORD_LEN,
};
use crate::line_reader::{
    all_records, complete_lines, read_all, records_fit, views, LineReader, ReadError, TrailingLine,
};
use vstd::arithmetic::div_mod::{lemma_div_multiples_vanish_fancy, lemma_fundamental_div_mod};
use vstd::prelude::*;
use vstd::utf8::encode_utf8;

verus! {

/// Distance from one fixed-stride record to the next: the record and its
/// one-byte separator.
pub const STRIDE: usize = 29;

/// What decoding `s` in `mode` gives.
pub open spec fn decode_spec(s: Seq<u8>, mode: DecodeMode) -> Option<MyDateTime> {
    match mode {
        DecodeMode::Validating => validating_decode(s),
        DecodeMode::NonValidating => wrapping_decode(s),
    }
}

/// The `i`-th record of a fixed-stride block, without its separator.
pub open spec fn stride_record(block: Seq<u8>, i: int) -> Seq<u8> {
    block.subrange(i * STRIDE, i * STRIDE + RECORD_LEN)
}

/// How many whole strides `block` holds.
pub open spec fn stride_count(block: Seq<u8>) -> int {
    block.len() as int / STRIDE as int
}

/// Decodes every whole stride at the front of `block`. On success returns the
/// records and the number of bytes they span; otherwise the index of the first
/// record that does not decode.
pub fn decode_strides(block: &[u8], mode: DecodeMode) -> (r: Result<(Vec<MyDateTime>, usize), usize>)
    ensures
        (match r {
            Ok((records, used)) => {
                &&& records@.len() == stride_count(block@)
                &&& used == stride_count(block@) * STRIDE
                &&& forall|i: int|
                    0 <= i < records@.len() ==> decode_spec(stride_record(block@, i), mode) == Some(
                        #[trigger] records@[i],
                    )
            },
            Err(k) => {
                &&& k < stride_count(block@)
                &&& decode_spec(stride_record(block@, k as int), mode) is None
                &&& forall|i: int|
                    0 <= i < k ==> #[trigger] decode_spec(stride_record(block@, i), mode) is Some
            },
        }),
{
    let mut records: Vec<MyDateTime> = Vec::new();
    let mut start: usize = 0;
    let mut k: usize = 0;
    while block.len() - start >= STRIDE
        invariant
            start == k * STRIDE,
            start <= block@.len(),
            k <= stride_count(block@),
            records@.len() == k,
            forall|i: int|
                0 <= i < k ==> decode_spec(stride_record(block@, i), mode) == Some(
                    #[trigger] records@[i],
                ),
        decreases block@.len() - start,
    {
        let record = &block[start..start + RECORD_LEN];
        assert(record@ == stride_record(block@, k as int));
        match MyDateTime::decode(record, mode) {
            Some(dt) => records.push(dt),
            None => {
                assert forall|i: int| 0 <= i < k implies #[trigger] decode_spec(
                    stride_record(block@, i),
                    mode,
                ) is Some by {
                    assert(decode_spec(stride_record(block@, i), mode) == Some(records@[i]));
                }
                assert(k < stride_count(block@)) by (nonlinear_arith)
                    requires
                        k * 29 + 29 <= block@.len(),
                        stride_count(block@) == block@.len() as int / 29,
                ;
                return Err(k);
            },
        }
        start = start + STRIDE;
        k = k + 1;
    }
    assert(k == stride_count(block@));
    Ok((records, start))
}

/// The bytes after the last whole stride of `s`.
pub open spec fn stride_tail(s: Seq<u8>) -> Seq<u8> {
    s.subrange(stride_count(s) * STRIDE, s.len() as int)
}

/// Carry-over for strides: the strides of `a + b` are those of `a`, then
/// those of the tail of `a` followed by `b`, and the tail left at the end is
/// the same. Hence cutting a fixed-stride stream into blocks, at any point,
/// changes nothing in the records read.
pub proof fn lemma_stride_carry_over(a: Seq<u8>, b: Seq<u8>)
    ensures
        stride_count(a + b) == stride_count(a) + stride_count(stride_tail(a) + b),
        forall|i: int|
            0 <= i < stride_count(a) ==> #[trigger] stride_record(a + b, i) == stride_record(a, i),
        forall|i: int|
            0 <= i < stride_count(stride_tail(a) + b) ==> #[trigger] stride_record(
                stride_tail(a) + b,
                i,
            ) == stride_record(a + b, stride_count(a) + i),
        stride_tail(a + b) == stride_tail(stride_tail(a) + b),
{
    let n = stride_count(a);
    let p = stride_tail(a);
    let c = p + b;
    let m = stride_count(c);
    lemma_fundamental_div_mod(a.len() as int, 29);
    lemma_fundamental_div_mod(c.len() as int, 29);
    assert(0 <= n * 29 <= a.len()) by (nonlinear_arith)
        requires
            n == a.len() as int / 29,
            a.len() == 29 * n + a.len() as int % 29,
            0 <= a.len() as int % 29 < 29,
    ;
    assert((a + b).len() == 29 * (n + m) + c.len() as int % 29) by (nonlinear_arith)
        requires
            (a + b).len() == n * 29 + c.len(),
            c.len() == 29 * m + c.len() as int % 29,
    ;
    lemma_div_multiples_vanish_fancy(n + m, c.len() as int % 29, 29);
    assert forall|i: int| 0 <= i < n implies #[trigger] stride_record(a + b, i) == stride_record(
        a,
        i,
    ) by {
        assert(i * 29 + 28 <= a.len()) by (nonlinear_arith)
            requires
                0 <= i < n,
                n * 29 <= a.len(),
        ;
        assert(stride_record(a + b, i) =~= stride_record(a, i));
    }
    assert forall|i: int| 0 <= i < m implies #[trigger] stride_record(c, i) == stride_record(
        a + b,
        n + i,
    ) by {
        assert((n + i) * 29 == n * 29 + i * 29) by (nonlinear_arith);
        assert(i * 29 + 28 <= c.len()) by (nonlinear_arith)
            requires
                0 <= i < m,
                m * 29 <= c.len(),
                c.len() == 29 * m + c.len() as int % 29,
        ;
        assert(stride_record(c, i) =~= stride_record(a + b, n + i));
    }
    assert((n + m) * 29 == n * 29 + m * 29) by (nonlinear_arith);
    assert(stride_tail(a + b) =~= stride_tail(c));
}

/// Why fixed-stride reading stopped.
#[derive(Clone, Copy, Debug, PartialEq, Eq, Structural)]
pub enum StrideError {
    /// The record at this index of the block did not decode.
    Undecodable(usize),
    /// The input ended inside a record.
    Truncated,
}

/// Decodes a fixed-stride stream fed in blocks of any size, carrying the
/// bytes of an incomplete stride over to the next block.
pub struct StrideReader {
    carry: Vec<u8>,
    mode: DecodeMode,
}

impl StrideReader {
    /// The bytes kept for the next block.
    pub closed spec fn pending(&self) -> Seq<u8> {
        self.carry@
    }

    /// The checking each record gets.
    pub closed spec fn spec_mode(&self) -> DecodeMode {
        self.mode
    }

    /// Less than one stride is kept.
    pub closed spec fn wf(&self) -> bool {
        self.carry@.len() < STRIDE
    }

    pub fn new(mode: DecodeMode) -> (r: StrideReader)
        ensures
            r.wf(),
            r.pending() == Seq::<u8>::empty(),
            r.spec_mode() == mode,
    {
        StrideReader { carry: Vec::new(), mode }
    }

    /// Takes the next block: decodes every whole stride of the kept bytes
    /// followed by `chunk`, and keeps what is left after them. Otherwise gives
    /// the index, among those strides, of the first record that does not
    /// decode.
    pub fn feed(&mut self, chunk: &[u8]) -> (r: Result<Vec<MyDateTime>, StrideError>)
        requires
            old(self).wf(),
        ensures
            final(self).spec_mode() == old(self).spec_mode(),
            (match r {
                Ok(records) => {
                    let buf = old(self).pending() + chunk@;
                    &&& final(self).wf()
                    &&& final(self).pending() == stride_tail(buf)
                    &&& records@.len() == stride_count(buf)
                    &&& forall|i: int|
                        0 <= i < records@.len() ==> decode_spec(
                            stride_record(buf, i),
                            old(self).spec_mode(),
                        ) == Some(#[trigger] records@[i])
                },
                Err(e) => {
                    let buf = old(self).pending() + chunk@;
                    &&& e matches StrideError::Undecodable(k)
                    &&& k < stride_count(buf)
                    &&& decode_spec(stride_record(buf, k as int), old(self).spec_mode()) is None
                    &&& forall|i: int|
                        0 <= i < k ==> #[trigger] decode_spec(
                            stride_record(buf, i),
                            old(self).spec_mode(),
                        ) is Some
                },
            }),
    {
        let ghost buf = self.carry@ + chunk@;
        let mut i: usize = 0;
        while i < chunk.len()
            invariant
                i <= chunk@.len(),
                buf == old(self).carry@ + chunk@,
                self.carry@ == old(self).carry@ + chunk@.subrange(0, i as int),
                self.mode == old(self).mode,
            decreases chunk@.len() - i,
        {
            self.carry.push(chunk[i]);
            i += 1;
        }
        assert(self.carry@ =~= buf);
        match decode_strides(self.carry.as_slice(), self.mode) {
            Ok((records, used)) => {
                let rest = self.carry.split_off(used);
                self.carry = rest;
                proof {
                    lemma_fundamental_div_mod(buf.len() as int, 29);
                }
                Ok(records)
            },
            Err(k) => Err(StrideError::Undecodable(k)),
        }
    }

    /// End of input: a last record of exactly 28 bytes, with no separator
    /// after it, is decoded; any other kept bytes mean the input ended inside
    /// a record.
    pub fn finish(self) -> (r: Result<Option<MyDateTime>, StrideError>)
        requires
            self.wf(),
        ensures
            self.pending().len() == 0 ==> r == Ok::<Option<MyDateTime>, StrideError>(None),
            self.pending().len() == RECORD_LEN ==> (match decode_spec(self.pending(), self.spec_mode()) {
                Some(d) => r == Ok::<Option<MyDateTime>, StrideError>(Some(d)),
                None => r == Err::<Option<MyDateTime>, StrideError>(StrideError::Undecodable(0)),
            }),
            self.pending().len() != 0 && self.pending().len() != RECORD_LEN ==> r == Err::<
                Option<MyDateTime>,
                StrideError,
            >(StrideError::Truncated),
    {
        if self.carry.len() == 0 {
            Ok(None)
        } else if self.carry.len() == RECORD_LEN {
            match MyDateTime::decode(self.carry.as_slice(), self.mode) {
                Some(d) => Ok(Some(d)),
                None => Err(StrideError::Undecodable(0)),
            }
        } else {
            Err(StrideError::Truncated)
        }
    }
}

/// On a block whose records all have digit fields, both decoding modes give
/// the same records.
pub proof fn lemma_stride_modes_agree(block: Seq<u8>)
    requires
        forall|i: int| 0 <= i < stride_count(block) ==> fields_are_digits(#[trigger] stride_record(block, i)),
    ensures
        forall|i: int|
            0 <= i < stride_count(block) ==> {
                &&& decode_spec(#[trigger] stride_record(block, i), DecodeMode::Validating) is Some
                &&& decode_spec(stride_record(block, i), DecodeMode::Validating) == decode_spec(
                    stride_record(block, i),
                    DecodeMode::NonValidating,
                )
            },
{
    assert forall|i: int| 0 <= i < stride_count(block) implies {
        &&& decode_spec(#[trigger] stride_record(block, i), DecodeMode::Validating) is Some
        &&& decode_spec(stride_record(block, i), DecodeMode::Validating) == decode_spec(
            stride_record(block, i),
            DecodeMode::NonValidating,
        )
    } by {
        lemma_fundamental_div_mod(block.len() as int, 29);
        assert(i * 29 + 28 <= block.len()) by (nonlinear_arith)
            requires
                0 <= i < stride_count(block),
                stride_count(block) == block.len() as int / 29,
                block.len() == 29 * (block.len() as int / 29) + block.len() as int % 29,
                0 <= block.len() as int % 29,
        ;
        lemma_decoders_agree(stride_record(block, i));
    }
}

/// Decodes every line of `lines`; otherwise gives the index of the first line
/// that does not decode.
pub fn decode_lines(lines: &Vec<Vec<u8>>, mode: DecodeMode) -> (r: Result<Vec<MyDateTime>, usize>)
    ensures
        (match r {
            Ok(records) => {
                &&& records@.len() == lines@.len()
                &&& forall|i: int|
                    0 <= i < records@.len() ==> decode_spec(lines@[i]@, mode) == Some(
                        #[trigger] records@[i],
                    )
            },
            Err(k) => {
                &&& k < lines@.len()
                &&& decode_spec(lines@[k as int]@, mode) is None
                &&& forall|i: int| 0 <= i < k ==> #[trigger] decode_spec(lines@[i]@, mode) is Some
            },
        }),
{
    let mut records: Vec<MyDateTime> = Vec::new();
    let mut k: usize = 0;
    while k < lines.len()
        invariant
            k <= lines@.len(),
            records@.len() == k,
            forall|i: int|
                0 <= i < k ==> decode_spec(lines@[i]@, mode) == Some(#[trigger] records@[i]),
        decreases lines@.len() - k,
    {
        match MyDateTime::decode(lines[k].as_slice(), mode) {
            Some(dt) => records.push(dt),
            None => {
                assert forall|i: int| 0 <= i < k implies #[trigger] decode_spec(lines@[i]@, mode)
                    is Some by {
                    assert(decode_spec(lines@[i]@, mode) == Some(records@[i]));
                }
                return Err(k);
            },
        }
        k = k + 1;
    }
    Ok(records)
}

/// Why reading newline-terminated records stopped.
#[derive(Clone, Copy, Debug, PartialEq, Eq, Structural)]
pub enum LineDecodeError {
    /// A record filled the whole buffer without a newline.
    RecordTooLong,
    /// The record at this index, among those just completed (or among all
    /// records, for a whole input), did not decode.
    Undecodable(usize),
}

/// The records that reading `after` completes beyond those of `before`.
pub open spec fn new_lines(before: Seq<u8>, after: Seq<u8>) -> Seq<Seq<u8>> {
    complete_lines(after).subrange(complete_lines(before).len() as int, complete_lines(after).len() as int)
}

/// Feeds the next block to `reader` and decodes each record that it
/// completes, in order.
pub fn decode_line_block(reader: &mut LineReader, chunk: &[u8], mode: DecodeMode) -> (r: Result<
    Vec<MyDateTime>,
    LineDecodeError,
>)
    requires
        old(reader).wf(),
        chunk@.len() <= old(reader).spec_free_space(),
    ensures
        final(reader).wf(),
        final(reader).consumed() == old(reader).consumed() + chunk@,
        final(reader).spec_capacity() == old(reader).spec_capacity(),
        final(reader).spec_trailing() == old(reader).spec_trailing(),
        r == Err::<Vec<MyDateTime>, LineDecodeError>(LineDecodeError::RecordTooLong)
            <==> final(reader).pending().len() == final(reader).spec_capacity(),
        (match r {
            Ok(records) => {
                let lines = new_lines(old(reader).consumed(), final(reader).consumed());
                &&& records@.len() == lines.len()
                &&& forall|i: int|
                    0 <= i < records@.len() ==> decode_spec(lines[i], mode) == Some(
                        #[trigger] records@[i],
                    )
            },
            Err(LineDecodeError::Undecodable(k)) => {
                let lines = new_lines(old(reader).consumed(), final(reader).consumed());
                &&& k < lines.len()
                &&& decode_spec(lines[k as int], mode) is None
                &&& forall|i: int| 0 <= i < k ==> #[trigger] decode_spec(lines[i], mode) is Some
            },
            Err(LineDecodeError::RecordTooLong) => true,
        }),
{
    match reader.feed(chunk) {
        Ok(lines) => {
            let ghost before = complete_lines(old(reader).consumed());
            proof {
                assert(views(lines@) =~= new_lines(old(reader).consumed(), reader.consumed()));
                assert forall|i: int| 0 <= i < lines@.len() implies lines@[i]@ == new_lines(
                    old(reader).consumed(),
                    reader.consumed(),
                )[i] by {
                    assert(views(lines@)[i] == lines@[i]@);
                }
            }
            match decode_lines(&lines, mode) {
                Ok(records) => Ok(records),
                Err(k) => Err(LineDecodeError::Undecodable(k)),
            }
        },
        Err(ReadError::RecordTooLong) => Err(LineDecodeError::RecordTooLong),
    }
}

/// Reads all of `data` as newline-terminated records through a buffer of
/// `capacity` bytes, dropping an unterminated last record, and decodes each.
pub fn decode_all_lines(data: &[u8], capacity: usize, mode: DecodeMode) -> (r: Result<
    Vec<MyDateTime>,
    LineDecodeError,
>)
    requires
        capacity > 0,
    ensures
        r == Err::<Vec<MyDateTime>, LineDecodeError>(LineDecodeError::RecordTooLong) <==> !records_fit(
            data@,
            capacity as int,
        ),
        (match r {
            Ok(records) => {
                let lines = all_records(data@, TrailingLine::Drop);
                &&& records@.len() == lines.len()
                &&& forall|i: int|
                    0 <= i < records@.len() ==> decode_spec(lines[i], mode) == Some(
                        #[trigger] records@[i],
                    )
            },
            Err(LineDecodeError::Undecodable(k)) => {
                let lines = all_records(data@, TrailingLine::Drop);
                &&& k < lines.len()
                &&& decode_spec(lines[k as int], mode) is None
                &&& forall|i: int| 0 <= i < k ==> #[trigger] decode_spec(lines[i], mode) is Some
            },
            Err(LineDecodeError::RecordTooLong) => true,
        }),
{
    match read_all(data, capacity, TrailingLine::Drop) {
        Ok(lines) => {
            proof {
                assert forall|i: int| 0 <= i < lines@.len() implies lines@[i]@ == all_records(
                    data@,
                    TrailingLine::Drop,
                )[i] by {
                    assert(views(lines@)[i] == lines@[i]@);
                }
            }
            match decode_lines(&lines, mode) {
                Ok(records) => Ok(records),
                Err(k) => Err(LineDecodeError::Undecodable(k)),
            }
        },
        Err(ReadError::RecordTooLong) => Err(LineDecodeError::RecordTooLong),
    }
}

/// Decodes each text line with `MyDateTime::parse_str`; otherwise gives the
/// index of the first line that does not decode.
pub fn decode_text_lines(lines: &Vec<String>) -> (r: Result<Vec<MyDateTime>, usize>)
    ensures
        (match r {
            Ok(records) => {
                &&& records@.len() == lines@.len()
                &&& forall|i: int|
                    0 <= i < records@.len() ==> validating_decode(encode_utf8(lines@[i]@))
                        == Some(#[trigger] records@[i])
            },
            Err(k) => {
                &&& k < lines@.len()
                &&& validating_decode(encode_utf8(lines@[k as int]@)) is None
                &&& forall|i: int|
                    0 <= i < k ==> #[trigger] validating_decode(encode_utf8(lines@[i]@)) is Some
            },
        }),
{
    let mut records: Vec<MyDateTime> = Vec::new();
    let mut k: usize = 0;
    while k < lines.len()
        invariant
            k <= lines@.len(),
            records@.len() == k,
            forall|i: int|
                0 <= i < k ==> validating_decode(encode_utf8(lines@[i]@)) == Some(
                    #[trigger] records@[i],
                ),
        decreases lines@.len() - k,
    {
        match MyDateTime::parse_str(lines[k].as_str()) {
            Some(dt) => records.push(dt),
            None => {
                assert forall|i: int| 0 <= i < k implies #[trigger] validating_decode(
                    encode_utf8(lines@[i]@),
                ) is Some by {
                    assert(validating_decode(encode_utf8(lines@[i]@)) == Some(records@[i]));
                }
                return Err(k);
            },
        }
        k = k + 1;
    }
    Ok(records)
}

/// Whole milliseconds of the fraction of a second of `d`.
pub open spec fn millis_of(d: MyDateTime) -> int {
    d.microseconds * 100 / 1000000
}

/// The sum of the whole milliseconds of every record of `s`.
pub open spec fn sum_millis(s: Seq<MyDateTime>) -> int
    decreases s.len(),
{
    if s.len() == 0 {
        0
    } else {
        sum_millis(s.drop_last()) + millis_of(s.last())
    }
}

/// Sums the whole milliseconds of each record: a checksum over a run of
/// decoded records.
pub fn sum_custom(dates: Vec<MyDateTime>) -> (r: u64)
    requires
        sum_millis(dates@) <= u64::MAX,
    ensures
        r == sum_millis(dates@),
{
    let mut sum: u64 = 0;
    let mut i: usize = 0;
    while i < dates.len()
        invariant
            i <= dates@.len(),
            sum == sum_millis(dates@.subrange(0, i as int)),
            sum_millis(dates@) <= u64::MAX,
        decreases dates@.len() - i,
    {
        let date = dates[i];
        proof {
            assert(dates@.subrange(0, i as int + 1).drop_last() =~= dates@.subrange(0, i as int));
            lemma_sum_millis_prefix(dates@, i as int + 1);
        }
        sum = sum + date.nanoseconds() / 1000000;
        i += 1;
    }
    assert(dates@.subrange(0, dates@.len() as int) =~= dates@);
    sum
}

/// The sum over a prefix is no more than the sum over the whole.
proof fn lemma_sum_millis_prefix(s: Seq<MyDateTime>, j: int)
    requires
        0 <= j <= s.len(),
    ensures
        sum_millis(s.subrange(0, j)) <= sum_millis(s),
    decreases s.len(),
{
    if j < s.len() {
        lemma_sum_millis_prefix(s.drop_last(), j);
        assert(s.drop_last().subrange(0, j) =~= s.subrange(0, j));
    } else {
        assert(s.subrange(0, j) =~= s);
    }
}

} // verus!
