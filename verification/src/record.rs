//! Record marking: how RPC messages are told apart on a byte stream.
//!
//! A record is sent as one or more fragments. Each fragment is preceded by a
//! 32-bit mark whose highest bit says whether the fragment is the record's
//! last and whose other 31 bits give the fragment's length in bytes.

use crate::xdr::{
    get_u32, lemma_concat_assoc, lemma_take_u32_front, lemma_take_u32_len, lemma_u32_round_trip,
    put_u32, take_u32, u32_bytes, XdrError,
};
use vstd::prelude::*;
use vstd::slice::slice_subrange;

verus! {

/// The most bytes one fragment can hold: what 31 bits can count.
pub const MAX_FRAGMENT_BYTES: u32 = 0x7fff_ffff;

/// The mark in front of a fragment.
#[derive(Clone, Copy, Debug, PartialEq, Eq, Structural)]
pub struct RecordMark {
    /// Whether the fragment is the last of its record.
    pub last: bool,
    /// The fragment's length in bytes.
    pub len: u32,
}

impl RecordMark {
    /// Whether the length fits in 31 bits.
    pub open spec fn fits(self) -> bool {
        self.len <= MAX_FRAGMENT_BYTES
    }

    /// The mark as a 32-bit number: the length, with the highest bit set for
    /// a last fragment.
    pub open spec fn word(self) -> u32 {
        if self.last {
            (self.len + 0x8000_0000) as u32
        } else {
            self.len
        }
    }

    /// The mark that the number `w` stands for.
    pub open spec fn of_word(w: u32) -> RecordMark {
        if w >= 0x8000_0000 {
            RecordMark { last: true, len: (w - 0x8000_0000) as u32 }
        } else {
            RecordMark { last: false, len: w }
        }
    }

    /// Every 32-bit number is the word of exactly one mark that fits, and
    /// that mark is read back from it.
    pub proof fn lemma_word_round_trip(self, w: u32)
        ensures
            self.fits() ==> Self::of_word(self.word()) == self,
            Self::of_word(w).fits(),
            Self::of_word(w).word() == w,
    {
    }

    /// The mark as a 32-bit number, unless the length does not fit in 31
    /// bits.
    pub fn to_word(&self) -> (r: Result<u32, XdrError>)
        ensures
            r == (if self.fits() {
                Ok::<u32, XdrError>(self.word())
            } else {
                Err::<u32, XdrError>(XdrError::LengthOutOfRange)
            }),
    {
        if self.len > MAX_FRAGMENT_BYTES {
            Err(XdrError::LengthOutOfRange)
        } else if self.last {
            Ok(self.len + 0x8000_0000)
        } else {
            Ok(self.len)
        }
    }

    /// The mark that the number `w` stands for.
    pub fn from_word(w: u32) -> (r: RecordMark)
        ensures
            r == Self::of_word(w),
    {
        if w >= 0x8000_0000 {
            RecordMark { last: true, len: w - 0x8000_0000 }
        } else {
            RecordMark { last: false, len: w }
        }
    }

    /// Reads the mark that the four bytes of `header` encode. Fails with
    /// `UnexpectedEnd` on fewer bytes and with `TrailingBytes` on more.
    pub fn decode(header: &[u8]) -> (r: Result<RecordMark, XdrError>)
        ensures
            r == (if header@.len() < 4 {
                Err::<RecordMark, XdrError>(XdrError::UnexpectedEnd)
            } else if header@.len() > 4 {
                Err::<RecordMark, XdrError>(XdrError::TrailingBytes)
            } else {
                Ok::<RecordMark, XdrError>(Self::of_word(take_u32(header@)->Ok_0.0))
            }),
    {
        proof {
            lemma_take_u32_len(header@);
        }
        let (w, rest) = get_u32(header)?;
        if rest.len() != 0 {
            return Err(XdrError::TrailingBytes);
        }
        Ok(Self::from_word(w))
    }
}

/// A record sent as a single fragment: the mark of a last fragment, then the
/// payload.
pub open spec fn record_bytes(payload: Seq<u8>) -> Seq<u8> {
    u32_bytes(RecordMark { last: true, len: payload.len() as u32 }.word()) + payload
}

/// Splits `s` into the fragment at its front, as its mark and its bytes, and
/// the rest.
pub open spec fn take_fragment(s: Seq<u8>) -> Result<(RecordMark, Seq<u8>, Seq<u8>), XdrError> {
    match take_u32(s) {
        Err(e) => Err(e),
        Ok((w, rest)) => {
            let mark = RecordMark::of_word(w);
            if rest.len() < mark.len {
                Err(XdrError::UnexpectedEnd)
            } else {
                Ok((mark, rest.take(mark.len as int), rest.skip(mark.len as int)))
            }
        },
    }
}

/// Splits `s` into the record at its front and the rest. The record is what
/// its fragments hold, up to and with the first that is marked last, put
/// together in order.
pub open spec fn take_record(s: Seq<u8>) -> Result<(Seq<u8>, Seq<u8>), XdrError>
    decreases s.len(),
{
    match take_fragment(s) {
        Err(e) => Err(e),
        Ok((mark, data, rest)) => if mark.last {
            Ok((data, rest))
        } else if rest.len() < s.len() {
            match take_record(rest) {
                Err(e) => Err(e),
                Ok((more, after)) => Ok((data + more, after)),
            }
        } else {
            Err(XdrError::UnexpectedEnd)
        },
    }
}

/// What follows a fragment is shorter than what the fragment was read from.
pub proof fn lemma_fragment_shrinks(s: Seq<u8>)
    requires
        take_fragment(s) is Ok,
    ensures
        take_fragment(s)->Ok_0.2.len() + 4 + take_fragment(s)->Ok_0.1.len() == s.len(),
        take_fragment(s)->Ok_0.1.len() == take_fragment(s)->Ok_0.0.len,
{
    lemma_take_u32_len(s);
}

/// The payload as a record of one fragment. Fails with `LengthOutOfRange`
/// where the payload is longer than a fragment can be.
pub fn frame(payload: &[u8]) -> (r: Result<Vec<u8>, XdrError>)
    ensures
        payload@.len() <= MAX_FRAGMENT_BYTES ==> r is Ok && r->Ok_0@ == record_bytes(payload@),
        payload@.len() > MAX_FRAGMENT_BYTES ==> r == Err::<Vec<u8>, XdrError>(
            XdrError::LengthOutOfRange,
        ),
{
    if payload.len() > MAX_FRAGMENT_BYTES as usize {
        return Err(XdrError::LengthOutOfRange);
    }
    let mark = RecordMark { last: true, len: payload.len() as u32 };
    let word = mark.to_word()?;
    let mut out: Vec<u8> = Vec::new();
    put_u32(&mut out, word);
    out.extend_from_slice(payload);
    assert(out@ =~= record_bytes(payload@));
    Ok(out)
}

/// Reads the fragment at the front of `input`.
pub fn read_fragment(input: &[u8]) -> (r: Result<(RecordMark, &[u8], &[u8]), XdrError>)
    ensures
        match r {
            Ok((mark, data, rest)) => take_fragment(input@) == Ok::<
                (RecordMark, Seq<u8>, Seq<u8>),
                XdrError,
            >((mark, data@, rest@)),
            Err(e) => take_fragment(input@) == Err::<(RecordMark, Seq<u8>, Seq<u8>), XdrError>(e),
        },
{
    let (w, rest) = get_u32(input)?;
    let mark = RecordMark::from_word(w);
    let len: usize = mark.len as usize;
    if rest.len() < len {
        return Err(XdrError::UnexpectedEnd);
    }
    let data = slice_subrange(rest, 0, len);
    let after = slice_subrange(rest, len, rest.len());
    Ok((mark, data, after))
}

/// Reads the record at the front of `input`, putting its fragments together.
pub fn read_record(input: &[u8]) -> (r: Result<(Vec<u8>, &[u8]), XdrError>)
    ensures
        match r {
            Ok((record, rest)) => take_record(input@) == Ok::<(Seq<u8>, Seq<u8>), XdrError>(
                (record@, rest@),
            ),
            Err(e) => take_record(input@) == Err::<(Seq<u8>, Seq<u8>), XdrError>(e),
        },
{
    let mut record: Vec<u8> = Vec::new();
    let mut cur = input;
    loop
        invariant
            match take_record(cur@) {
                Ok((more, after)) => take_record(input@) == Ok::<(Seq<u8>, Seq<u8>), XdrError>(
                    (record@ + more, after),
                ),
                Err(e) => take_record(input@) == Err::<(Seq<u8>, Seq<u8>), XdrError>(e),
            },
        decreases cur@.len(),
    {
        let ghost before = record@;
        let (mark, data, rest) = read_fragment(cur)?;
        proof {
            lemma_fragment_shrinks(cur@);
        }
        record.extend_from_slice(data);
        if mark.last {
            assert(before + data@ =~= record@);
            return Ok((record, rest));
        }
        proof {
            assert(record@ == before + data@);
            assert(rest@.len() < cur@.len());
            assert(take_fragment(cur@) == Ok::<(RecordMark, Seq<u8>, Seq<u8>), XdrError>(
                (mark, data@, rest@),
            ));
            match take_record(rest@) {
                Ok((more, after)) => {
                    assert(take_record(cur@) == Ok::<(Seq<u8>, Seq<u8>), XdrError>(
                        (data@ + more, after),
                    ));
                    lemma_concat_assoc(before, data@, more);
                },
                Err(e) => {
                    assert(take_record(cur@) == Err::<(Seq<u8>, Seq<u8>), XdrError>(e));
                },
            }
        }
        cur = rest;
    }
}

/// A record sent as one fragment is read back as it was, whatever follows it.
pub proof fn lemma_record_round_trip(payload: Seq<u8>, rest: Seq<u8>)
    requires
        payload.len() <= MAX_FRAGMENT_BYTES,
    ensures
        take_record(record_bytes(payload) + rest) == Ok::<(Seq<u8>, Seq<u8>), XdrError>(
            (payload, rest),
        ),
        record_bytes(payload).len() == 4 + payload.len(),
{
    let mark = RecordMark { last: true, len: payload.len() as u32 };
    let tail = payload + rest;
    lemma_u32_round_trip(mark.word(), tail);
    lemma_concat_assoc(u32_bytes(mark.word()), payload, rest);
    assert(tail.take(mark.len as int) =~= payload);
    assert(tail.skip(mark.len as int) =~= rest);
}

/// Where a reader stands that reads a record from a stream piece by piece,
/// first the mark of a fragment and then its bytes, and may take no more
/// than a budget of bytes from the stream.
pub enum Hearing {
    /// At the start of a fragment: the mark is wanted next. `record` is
    /// what the fragments before hold, and `left` what is left of the
    /// budget.
    Header { record: Seq<u8>, left: nat },
    /// Behind a mark: the `len` bytes of its fragment are wanted next.
    Body { record: Seq<u8>, left: nat, len: nat },
    /// Behind a last fragment: the record is complete.
    Done(Seq<u8>),
    /// Behind the mark of a fragment that is longer than the budget allows:
    /// nothing more is read.
    TooLong,
    /// Nowhere: the bytes end within a mark or within a fragment, or go on
    /// behind the record.
    Broken,
}

/// What a reader wants next from the stream, if anything: four bytes for a
/// mark, or the bytes of a fragment.
pub open spec fn wanted(hearing: Hearing) -> Option<nat> {
    match hearing {
        Hearing::Header { .. } => Some(4),
        Hearing::Body { len, .. } => Some(len),
        _ => None,
    }
}

/// Where a reader stands whose record begins with `front` and who stands at
/// `hearing` in what follows.
pub open spec fn joined(front: Seq<u8>, hearing: Hearing) -> Hearing {
    match hearing {
        Hearing::Header { record, left } => Hearing::Header { record: front + record, left },
        Hearing::Body { record, left, len } => Hearing::Body { record: front + record, left, len },
        Hearing::Done(record) => Hearing::Done(front + record),
        Hearing::TooLong => Hearing::TooLong,
        Hearing::Broken => Hearing::Broken,
    }
}

/// Where a reader stands that has heard exactly the bytes `s` since it began
/// to read a record with a budget of `budget` bytes. Each fragment costs its
/// length and the four bytes of its mark. The bytes of an empty fragment are
/// not asked for.
pub open spec fn hearing(s: Seq<u8>, budget: nat) -> Hearing
    decreases s.len(),
{
    if s.len() == 0 {
        Hearing::Header { record: Seq::empty(), left: budget }
    } else if s.len() < 4 {
        Hearing::Broken
    } else {
        let mark = RecordMark::of_word(take_u32(s)->Ok_0.0);
        let body = s.skip(4);
        if budget < 4 + mark.len {
            if body.len() == 0 {
                Hearing::TooLong
            } else {
                Hearing::Broken
            }
        } else if body.len() < mark.len {
            if body.len() == 0 {
                Hearing::Body { record: Seq::empty(), left: budget, len: mark.len as nat }
            } else {
                Hearing::Broken
            }
        } else {
            let data = body.take(mark.len as int);
            let rest = body.skip(mark.len as int);
            if mark.last {
                if rest.len() == 0 {
                    Hearing::Done(data)
                } else {
                    Hearing::Broken
                }
            } else {
                joined(data, hearing(rest, (budget - 4 - mark.len) as nat))
            }
        }
    }
}

/// Nothing in front changes nothing, and two fronts are one.
proof fn lemma_joined(a: Seq<u8>, b: Seq<u8>, h: Hearing)
    ensures
        joined(Seq::empty(), h) == h,
        joined(a, joined(b, h)) == joined(a + b, h),
{
    match h {
        Hearing::Header { record, left } => {
            assert(Seq::<u8>::empty() + record =~= record);
            assert(a + (b + record) =~= (a + b) + record);
        },
        Hearing::Body { record, left, len } => {
            assert(Seq::<u8>::empty() + record =~= record);
            assert(a + (b + record) =~= (a + b) + record);
        },
        Hearing::Done(record) => {
            assert(Seq::<u8>::empty() + record =~= record);
            assert(a + (b + record) =~= (a + b) + record);
        },
        _ => {},
    }
}

/// A reader that stands at the start of a fragment goes on, with what
/// follows, as a reader that begins there with what is left of the budget.
pub proof fn lemma_hearing_append(h: Seq<u8>, t: Seq<u8>, budget: nat)
    requires
        hearing(h, budget) is Header,
    ensures
        hearing(h + t, budget) == joined(
            hearing(h, budget)->Header_record,
            hearing(t, hearing(h, budget)->Header_left),
        ),
    decreases h.len(),
{
    if h.len() == 0 {
        assert(h + t =~= t);
        lemma_joined(Seq::empty(), Seq::empty(), hearing(t, budget));
    } else {
        let s = h + t;
        let mark = RecordMark::of_word(take_u32(h)->Ok_0.0);
        let body = h.skip(4);
        let data = body.take(mark.len as int);
        let rest = body.skip(mark.len as int);
        let left = (budget - 4 - mark.len) as nat;
        assert(h.len() >= 4);
        assert(budget >= 4 + mark.len && body.len() >= mark.len && !mark.last);
        assert(hearing(h, budget) == joined(data, hearing(rest, left)));
        assert(hearing(rest, left) is Header);
        lemma_take_u32_front(h, t);
        assert(s.skip(4) =~= body + t);
        assert(s.skip(4).take(mark.len as int) =~= data);
        assert(s.skip(4).skip(mark.len as int) =~= rest + t);
        assert(hearing(s, budget) == joined(data, hearing(rest + t, left)));
        lemma_hearing_append(rest, t, left);
        lemma_joined(
            data,
            hearing(rest, left)->Header_record,
            hearing(t, hearing(rest, left)->Header_left),
        );
    }
}

/// Where a reader at the start of a fragment stands after the four bytes
/// `header` of a mark.
pub proof fn lemma_heard_header(heard: Seq<u8>, header: Seq<u8>, budget: nat)
    requires
        hearing(heard, budget) is Header,
        header.len() == 4,
    ensures
        ({
            let mark = RecordMark::of_word(take_u32(header)->Ok_0.0);
            let record = hearing(heard, budget)->Header_record;
            let left = hearing(heard, budget)->Header_left;
            hearing(heard + header, budget) == (if left < 4 + mark.len {
                Hearing::TooLong
            } else if mark.len > 0 {
                Hearing::Body { record, left, len: mark.len as nat }
            } else if mark.last {
                Hearing::Done(record)
            } else {
                Hearing::Header { record, left: (left - 4) as nat }
            })
        }),
{
    let mark = RecordMark::of_word(take_u32(header)->Ok_0.0);
    let record = hearing(heard, budget)->Header_record;
    let left = hearing(heard, budget)->Header_left;
    lemma_hearing_append(heard, header, budget);
    assert(header.skip(4) =~= Seq::<u8>::empty());
    assert(header.skip(4).take(0) =~= Seq::<u8>::empty());
    assert(header.skip(4).skip(0) =~= Seq::<u8>::empty());
    assert(record + Seq::<u8>::empty() =~= record);
    assert(Seq::<u8>::empty() + Seq::<u8>::empty() =~= Seq::<u8>::empty());
    if left >= 4 + mark.len && mark.len == 0 && !mark.last {
        assert(hearing(Seq::<u8>::empty(), (left - 4) as nat) == Hearing::Header {
            record: Seq::empty(),
            left: (left - 4) as nat,
        });
    }
}

/// Where a reader at the start of a fragment stands after the four bytes
/// `header` of a mark and the bytes `data` of its fragment.
pub proof fn lemma_heard_fragment(heard: Seq<u8>, header: Seq<u8>, data: Seq<u8>, budget: nat)
    requires
        hearing(heard, budget) is Header,
        header.len() == 4,
        data.len() == RecordMark::of_word(take_u32(header)->Ok_0.0).len,
        hearing(heard, budget)->Header_left >= 4 + data.len(),
    ensures
        ({
            let mark = RecordMark::of_word(take_u32(header)->Ok_0.0);
            let record = hearing(heard, budget)->Header_record;
            let left = hearing(heard, budget)->Header_left;
            hearing(heard + header + data, budget) == (if mark.last {
                Hearing::Done(record + data)
            } else {
                Hearing::Header { record: record + data, left: (left - 4 - data.len()) as nat }
            })
        }),
{
    let mark = RecordMark::of_word(take_u32(header)->Ok_0.0);
    let record = hearing(heard, budget)->Header_record;
    let left = hearing(heard, budget)->Header_left;
    let piece = header + data;
    lemma_concat_assoc(heard, header, data);
    lemma_hearing_append(heard, piece, budget);
    lemma_take_u32_front(header, data);
    assert(header.skip(4) =~= Seq::<u8>::empty());
    assert(piece.skip(4) =~= data);
    assert(piece.skip(4).take(mark.len as int) =~= data);
    assert(piece.skip(4).skip(mark.len as int) =~= Seq::<u8>::empty());
    assert(data + Seq::<u8>::empty() =~= data);
    if !mark.last {
        assert(hearing(Seq::<u8>::empty(), (left - 4 - data.len()) as nat) == Hearing::Header {
            record: Seq::empty(),
            left: (left - 4 - data.len()) as nat,
        });
    }
}

/// What a reader has heard when its record is complete is the record's
/// fragments and nothing else: the record is what these bytes hold.
pub proof fn lemma_hearing_done(s: Seq<u8>, budget: nat)
    requires
        hearing(s, budget) is Done,
    ensures
        take_record(s) == Ok::<(Seq<u8>, Seq<u8>), XdrError>(
            (hearing(s, budget)->Done_0, Seq::empty()),
        ),
    decreases s.len(),
{
    lemma_take_u32_len(s);
    let mark = RecordMark::of_word(take_u32(s)->Ok_0.0);
    let body = s.skip(4);
    let data = body.take(mark.len as int);
    let rest = body.skip(mark.len as int);
    assert(s.len() >= 4);
    assert(budget >= 4 + mark.len && body.len() >= mark.len);
    assert(take_fragment(s) == Ok::<(RecordMark, Seq<u8>, Seq<u8>), XdrError>((mark, data, rest)));
    if mark.last {
        assert(rest =~= Seq::<u8>::empty());
    } else {
        let left = (budget - 4 - mark.len) as nat;
        assert(hearing(rest, left) is Done);
        lemma_hearing_done(rest, left);
    }
}

/// What is sent as one record is heard as that record: a reader with budget
/// enough stands behind the payload when it has heard the bytes of the
/// record, and not before.
pub proof fn lemma_frame_heard(payload: Seq<u8>, budget: nat)
    requires
        payload.len() <= MAX_FRAGMENT_BYTES,
        budget >= 4 + payload.len(),
    ensures
        hearing(record_bytes(payload), budget) == Hearing::Done(payload),
        payload.len() > 0 ==> hearing(record_bytes(payload).take(4), budget) == (Hearing::Body {
            record: Seq::empty(),
            left: budget,
            len: payload.len(),
        }),
{
    let mark = RecordMark { last: true, len: payload.len() as u32 };
    let header = u32_bytes(mark.word());
    let s = record_bytes(payload);
    lemma_u32_round_trip(mark.word(), payload);
    mark.lemma_word_round_trip(0);
    assert(s.skip(4) =~= payload);
    assert(payload.take(mark.len as int) =~= payload);
    assert(payload.skip(mark.len as int) =~= Seq::<u8>::empty());
    if payload.len() > 0 {
        lemma_u32_round_trip(mark.word(), Seq::empty());
        assert(header + Seq::<u8>::empty() =~= header);
        assert(s.take(4) =~= header);
        assert(header.skip(4) =~= Seq::<u8>::empty());
    }
}

} // verus!
