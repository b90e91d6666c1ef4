//! Splitting a byte stream, fed in blocks, into newline-terminated records.
//!
//! A `LineReader` owns one fixed-capacity buffer. Each block read from the
//! source is appended to the bytes carried over from the previous block; every
//! record that a newline ends is handed back without its delimiter, and the
//! unterminated tail is kept for the next block. A record that fills the
//! whole buffer without a newline can never be completed: the reader reports
//! it rather than truncating it.
use vstd::prelude::*;

verus! {

/// The record delimiter, `'\n'`.
pub const NEWLINE: u8 = 10;

/// Scans `s` from the left: the records that a newline ended, in order and
/// without their delimiter, and the bytes after the last newline.
pub open spec fn scan(s: Seq<u8>) -> (Seq<Seq<u8>>, Seq<u8>)
    decreases s.len(),
{
    if s.len() == 0 {
        (Seq::empty(), Seq::empty())
    } else {
        let before = scan(s.drop_last());
        if s.last() == NEWLINE {
            (before.0.push(before.1), Seq::empty())
        } else {
            (before.0, before.1.push(s.last()))
        }
    }
}

/// The newline-terminated records of `s`.
pub open spec fn complete_lines(s: Seq<u8>) -> Seq<Seq<u8>> {
    scan(s).0
}

/// The unterminated fragment at the end of `s`.
pub open spec fn trailing_fragment(s: Seq<u8>) -> Seq<u8> {
    scan(s).1
}

/// The contents of a list of byte vectors.
pub open spec fn views(v: Seq<Vec<u8>>) -> Seq<Seq<u8>> {
    v.map_values(|l: Vec<u8>| l@)
}

/// What happens at end of input to an unterminated last record.
#[derive(Clone, Copy, Debug, PartialEq, Eq, Structural)]
pub enum TrailingLine {
    /// It is dropped.
    Drop,
    /// It is delivered as a last record, if it is not empty.
    Flush,
}

/// Why reading stopped.
#[derive(Clone, Copy, Debug, PartialEq, Eq, Structural)]
pub enum ReadError {
    /// A record filled the whole buffer without a newline.
    RecordTooLong,
}

/// The record that end of input delivers after the bytes `s`.
pub open spec fn final_line(s: Seq<u8>, trailing: TrailingLine) -> Option<Seq<u8>> {
    if trailing == TrailingLine::Flush && trailing_fragment(s).len() > 0 {
        Some(trailing_fragment(s))
    } else {
        None
    }
}

/// Every record that reading all of `s` delivers: the newline-terminated
/// ones, then the unterminated last one where the policy flushes it.
pub open spec fn all_records(s: Seq<u8>, trailing: TrailingLine) -> Seq<Seq<u8>> {
    match final_line(s, trailing) {
        Some(l) => complete_lines(s).push(l),
        None => complete_lines(s),
    }
}

/// No record of `s` reaches `capacity` bytes before its newline (or before
/// the end of input).
pub open spec fn records_fit(s: Seq<u8>, capacity: int) -> bool {
    forall|k: int| 0 <= k <= s.len() ==> #[trigger] trailing_fragment(s.subrange(0, k)).len()
        < capacity
}

/// `s` holds no newline.
pub open spec fn no_newline(s: Seq<u8>) -> bool {
    forall|i: int| 0 <= i < s.len() ==> #[trigger] s[i] != NEWLINE
}

/// Bytes with no newline complete no record and are all a fragment.
pub proof fn lemma_scan_no_newline(s: Seq<u8>)
    requires
        no_newline(s),
    ensures
        complete_lines(s) == Seq::<Seq<u8>>::empty(),
        trailing_fragment(s) == s,
    decreases s.len(),
{
    if s.len() > 0 {
        let d = s.drop_last();
        assert(no_newline(d)) by {
            assert forall|i: int| 0 <= i < d.len() implies #[trigger] d[i] != NEWLINE by {
                assert(d[i] == s[i]);
            }
        }
        lemma_scan_no_newline(d);
        assert(s.last() == s[s.len() - 1]);
        assert(d.push(s.last()) =~= s);
    }
}

/// The unterminated fragment holds no newline.
pub proof fn lemma_fragment_no_newline(s: Seq<u8>)
    ensures
        no_newline(trailing_fragment(s)),
    decreases s.len(),
{
    if s.len() > 0 {
        lemma_fragment_no_newline(s.drop_last());
    }
}

/// The records of `lines`, each followed by its newline, end to end.
pub open spec fn joined(lines: Seq<Seq<u8>>) -> Seq<u8>
    decreases lines.len(),
{
    if lines.len() == 0 {
        Seq::empty()
    } else {
        joined(lines.drop_last()) + lines.last().push(NEWLINE)
    }
}

/// Nothing is lost, repeated or reordered: the newline-terminated records,
/// each with its newline put back, followed by the unterminated fragment,
/// are exactly the input.
pub proof fn lemma_records_rebuild_input(s: Seq<u8>)
    ensures
        joined(complete_lines(s)) + trailing_fragment(s) == s,
    decreases s.len(),
{
    if s.len() == 0 {
        assert(joined(complete_lines(s)) + trailing_fragment(s) =~= s);
    } else {
        let d = s.drop_last();
        lemma_records_rebuild_input(d);
        if s.last() == NEWLINE {
            let lines = complete_lines(s);
            assert(lines.drop_last() =~= complete_lines(d));
            assert(lines.last() == trailing_fragment(d));
            assert(joined(lines) + trailing_fragment(s) =~= d.push(NEWLINE));
        } else {
            assert(joined(complete_lines(s)) + trailing_fragment(s) =~= (joined(complete_lines(d))
                + trailing_fragment(d)).push(s.last()));
        }
        assert(d.push(s.last()) =~= s);
    }
}

/// Carry-over: the records of `a + b` are those of `a`, then those read from
/// the unterminated fragment of `a` followed by `b`; the fragment left at the
/// end is the same either way. Hence cutting a stream into blocks, at any
/// point, changes nothing in what is read.
pub proof fn lemma_carry_over(a: Seq<u8>, b: Seq<u8>)
    ensures
        complete_lines(a + b) == complete_lines(a) + complete_lines(trailing_fragment(a) + b),
        trailing_fragment(a + b) == trailing_fragment(trailing_fragment(a) + b),
    decreases b.len(),
{
    let f = trailing_fragment(a);
    if b.len() == 0 {
        assert(a + b =~= a);
        assert(f + b =~= f);
        lemma_fragment_no_newline(a);
        lemma_scan_no_newline(f);
        assert(complete_lines(a) + Seq::<Seq<u8>>::empty() =~= complete_lines(a));
    } else {
        let b1 = b.drop_last();
        lemma_carry_over(a, b1);
        assert((a + b).drop_last() =~= a + b1);
        assert((f + b).drop_last() =~= f + b1);
        assert((a + b).last() == b.last());
        assert((f + b).last() == b.last());
        if b.last() == NEWLINE {
            assert(complete_lines(a + b) =~= complete_lines(a) + complete_lines(f + b));
        }
    }
}

/// Adding `j` bytes makes the fragment at most `j` bytes longer.
proof fn lemma_fragment_growth(p: Seq<u8>, q: Seq<u8>)
    ensures
        trailing_fragment(p + q).len() <= trailing_fragment(p).len() + q.len(),
    decreases q.len(),
{
    if q.len() > 0 {
        let q1 = q.drop_last();
        lemma_fragment_growth(p, q1);
        assert((p + q).drop_last() =~= p + q1);
    } else {
        assert(p + q =~= p);
    }
}

/// Splits newline-terminated records out of blocks of bytes.
pub struct LineReader {
    carry: Vec<u8>,
    capacity: usize,
    trailing: TrailingLine,
    fed: Ghost<Seq<u8>>,
}

impl LineReader {
    /// Every byte fed so far, in order.
    pub closed spec fn consumed(&self) -> Seq<u8> {
        self.fed@
    }

    /// The size of the buffer.
    pub closed spec fn spec_capacity(&self) -> nat {
        self.capacity as nat
    }

    /// The policy for an unterminated last record.
    pub closed spec fn spec_trailing(&self) -> TrailingLine {
        self.trailing
    }

    /// The buffer holds exactly the unterminated fragment of what was fed.
    pub closed spec fn wf(&self) -> bool {
        &&& self.carry@ == trailing_fragment(self.fed@)
        &&& self.carry@.len() <= self.capacity
        &&& self.capacity > 0
    }

    /// The bytes kept in the buffer for the next block.
    pub open spec fn pending(&self) -> Seq<u8> {
        trailing_fragment(self.consumed())
    }

    /// How many bytes the next block may hold.
    pub open spec fn spec_free_space(&self) -> int {
        self.spec_capacity() - self.pending().len()
    }

    /// A reader with a buffer of `capacity` bytes.
    pub fn new(capacity: usize, trailing: TrailingLine) -> (r: LineReader)
        requires
            capacity > 0,
        ensures
            r.wf(),
            r.consumed() == Seq::<u8>::empty(),
            r.spec_capacity() == capacity,
            r.spec_trailing() == trailing,
    {
        let r = LineReader { carry: Vec::new(), capacity, trailing, fed: Ghost(Seq::empty()) };
        assert(r.carry@ =~= trailing_fragment(Seq::empty()));
        r
    }

    /// The size of the buffer.
    pub fn capacity(&self) -> (r: usize)
        ensures
            r == self.spec_capacity(),
    {
        self.capacity
    }

    /// How many bytes the next block may hold: the capacity less the bytes
    /// carried over.
    pub fn free_space(&self) -> (r: usize)
        requires
            self.wf(),
        ensures
            r == self.spec_free_space(),
            r <= self.spec_capacity(),
    {
        self.capacity - self.carry.len()
    }

    /// Takes the next block of input. Returns the records that it completes,
    /// or `RecordTooLong` when the buffer is then full with no newline in it.
    pub fn feed(&mut self, chunk: &[u8]) -> (r: Result<Vec<Vec<u8>>, ReadError>)
        requires
            old(self).wf(),
            chunk@.len() <= old(self).spec_free_space(),
        ensures
            final(self).wf(),
            final(self).consumed() == old(self).consumed() + chunk@,
            final(self).spec_capacity() == old(self).spec_capacity(),
            final(self).spec_trailing() == old(self).spec_trailing(),
            final(self).pending().len() <= final(self).spec_capacity(),
            r is Ok <==> final(self).pending().len() < final(self).spec_capacity(),
            r matches Ok(lines) ==> complete_lines(old(self).consumed()) + views(lines@)
                == complete_lines(final(self).consumed()),
    {
        let ghost start = self.fed@;
        let mut lines: Vec<Vec<u8>> = Vec::new();
        let mut i: usize = 0;
        assert(start + chunk@.subrange(0, 0) =~= start);
        assert(views(lines@) =~= Seq::<Seq<u8>>::empty());
        while i < chunk.len()
            invariant
                0 <= i <= chunk@.len(),
                self.fed@ == start,
                self.capacity == old(self).capacity,
                self.trailing == old(self).trailing,
                start == old(self).fed@,
                old(self).carry@ == trailing_fragment(start),
                self.carry@ == trailing_fragment(start + chunk@.subrange(0, i as int)),
                self.carry@.len() <= old(self).carry@.len() + i,
                complete_lines(start) + views(lines@) == complete_lines(
                    start + chunk@.subrange(0, i as int),
                ),
            decreases chunk@.len() - i,
        {
            let b = chunk[i];
            let ghost before = start + chunk@.subrange(0, i as int);
            let ghost after = start + chunk@.subrange(0, i as int + 1);
            assert(after.drop_last() =~= before);
            assert(after.last() == b);
            if b == NEWLINE {
                let mut line: Vec<u8> = Vec::new();
                std::mem::swap(&mut line, &mut self.carry);
                let ghost old_lines = lines@;
                lines.push(line);
                assert(views(lines@) =~= views(old_lines).push(line@));
                assert(complete_lines(start) + views(lines@) =~= (complete_lines(start) + views(
                    old_lines,
                )).push(line@));
                assert(self.carry@ =~= trailing_fragment(after));
            } else {
                self.carry.push(b);
            }
            i += 1;
        }
        self.fed = Ghost(start + chunk@);
        assert(start + chunk@.subrange(0, chunk@.len() as int) =~= start + chunk@);
        if self.carry.len() == self.capacity {
            Err(ReadError::RecordTooLong)
        } else {
            Ok(lines)
        }
    }

    /// End of input: the unterminated last record, if the policy delivers it.
    pub fn finish(self) -> (r: Option<Vec<u8>>)
        requires
            self.wf(),
        ensures
            (match r {
                Some(line) => final_line(self.consumed(), self.spec_trailing()) == Some(line@),
                None => final_line(self.consumed(), self.spec_trailing()) is None,
            }),
    {
        match self.trailing {
            TrailingLine::Flush => {
                if self.carry.len() > 0 {
                    Some(self.carry)
                } else {
                    None
                }
            },
            TrailingLine::Drop => None,
        }
    }
}

/// Reads all of `data` through a reader with a buffer of `capacity` bytes,
/// each block filling the free part of the buffer, and returns every record.
/// Fails exactly when some record does not fit in the buffer.
pub fn read_all(data: &[u8], capacity: usize, trailing: TrailingLine) -> (r: Result<
    Vec<Vec<u8>>,
    ReadError,
>)
    requires
        capacity > 0,
    ensures
        r is Ok <==> records_fit(data@, capacity as int),
        r matches Ok(lines) ==> views(lines@) == all_records(data@, trailing),
{
    let mut reader = LineReader::new(capacity, trailing);
    let mut out: Vec<Vec<u8>> = Vec::new();
    let mut pos: usize = 0;
    assert(data@.subrange(0, 0) =~= Seq::<u8>::empty());
    assert(views(out@) =~= Seq::<Seq<u8>>::empty());
    while pos < data.len()
        invariant
            0 <= pos <= data@.len(),
            reader.wf(),
            reader.spec_capacity() == capacity,
            reader.spec_trailing() == trailing,
            reader.consumed() == data@.subrange(0, pos as int),
            reader.pending().len() < capacity,
            views(out@) == complete_lines(data@.subrange(0, pos as int)),
            forall|k: int|
                0 <= k <= pos ==> #[trigger] trailing_fragment(data@.subrange(0, k)).len()
                    < capacity,
        decreases data@.len() - pos,
    {
        let free = reader.free_space();
        let rest = data.len() - pos;
        let n = if free < rest {
            free
        } else {
            rest
        };
        let chunk = &data[pos..pos + n];
        let ghost before = reader.consumed();
        match reader.feed(chunk) {
            Ok(lines) => {
                let mut lines = lines;
                let ghost got = lines@;
                let ghost old_out = out@;
                out.append(&mut lines);
                assert(views(out@) =~= views(old_out) + views(got));
            },
            Err(e) => {
                assert(data@.subrange(0, pos as int) + chunk@ =~= data@.subrange(0, pos + n));
                return Err(e);
            },
        }
        proof {
            assert(data@.subrange(0, pos as int) + chunk@ =~= data@.subrange(0, pos + n));
            assert forall|k: int| 0 <= k <= pos + n implies #[trigger] trailing_fragment(
                data@.subrange(0, k),
            ).len() < capacity by {
                if k > pos && k < pos + n {
                    let q = data@.subrange(pos as int, k);
                    assert(data@.subrange(0, pos as int) + q =~= data@.subrange(0, k));
                    lemma_fragment_growth(data@.subrange(0, pos as int), q);
                }
            }
        }
        pos += n;
    }
    assert(data@.subrange(0, data@.len() as int) =~= data@);
    let ghost complete = out@;
    match reader.finish() {
        Some(last) => {
            out.push(last);
            assert(views(out@) =~= views(complete).push(last@));
        },
        None => {},
    }
    Ok(out)
}

} // verus!
