//! File attributes on the wire: a bitmap that says which attributes are
//! there, and the values of those attributes, one after the other in the
//! order of the attributes' numbers.

use crate::attrs::{
    AttrModel, AttributeSet, FileAttribute, FileAttributeId, FileAttributes, FileHandle, FileType,
    FsId, Time,
};
use crate::xdr::{
    get_i64, get_opaque, get_u32, get_u64, i64_bytes, lemma_concat_assoc, lemma_i64_round_trip,
    lemma_opaque_aligned, lemma_opaque_round_trip, lemma_sum_aligned, lemma_u32_round_trip,
    lemma_u64_round_trip, opaque_bytes, put_i64, put_opaque, put_u32, put_u64, take_i64,
    take_opaque, take_u32, take_u64, u32_bytes, u64_bytes, XdrError,
};
use crate::xdr::{
    expect_end, get_u32_array, lemma_u32_array_round_trip, put_u32_array, take_u32_array,
    u32_array_bytes,
};
use vstd::prelude::*;
use vstd::string::*;
use vstd::utf8::{decode_utf8, encode_utf8, valid_utf8};

verus! {

/// The most bytes a file handle may have.
pub const MAX_HANDLE_BYTES: u32 = 128;

/// Why bytes are not the encoding of attributes, or attributes cannot be
/// encoded.
#[derive(Clone, Copy, Debug, PartialEq, Eq, Structural)]
pub enum AttrFault {
    /// The bytes are not well-formed XDR, or a length is out of its bounds.
    Malformed(XdrError),
    /// The bitmap holds the bit of an attribute that this library does not
    /// know, so that what follows cannot be read.
    UnknownAttribute(u32),
    /// The number stands for no kind of file.
    InvalidFileType(u32),
    /// The nanoseconds of a time are a second or more.
    InvalidTime,
    /// A text is not UTF-8.
    InvalidText,
}

/// Calls `String::from_utf8` of std, which gives the text that the bytes
/// encode exactly where they are valid UTF-8.
#[verifier::external_body]
fn text_from_utf8(bytes: Vec<u8>) -> (r: Option<String>)
    ensures
        match r {
            Some(text) => valid_utf8(bytes@) && text@ == decode_utf8(bytes@),
            None => !valid_utf8(bytes@),
        },
{
    String::from_utf8(bytes).ok()
}

/// The bound on the length of a text: all that is left of the input, as far
/// as 32 bits can count.
pub open spec fn text_bound(s: Seq<u8>) -> nat {
    if s.len() > u32::MAX {
        u32::MAX as nat
    } else {
        s.len()
    }
}

/// Splits `s` into the text at its front and the rest.
pub open spec fn take_text(s: Seq<u8>) -> Result<(Seq<char>, Seq<u8>), AttrFault> {
    match take_opaque(s, text_bound(s)) {
        Err(e) => Err(AttrFault::Malformed(e)),
        Ok((bytes, rest)) => if valid_utf8(bytes) {
            Ok((decode_utf8(bytes), rest))
        } else {
            Err(AttrFault::InvalidText)
        },
    }
}

/// The encoding of the value of one attribute.
pub open spec fn value_bytes(value: AttrModel) -> Seq<u8> {
    match value {
        AttrModel::Type(kind) => u32_bytes(kind.wire()),
        AttrModel::Size(v) => u64_bytes(v),
        AttrModel::FsId(id) => u64_bytes(id.major) + u64_bytes(id.minor),
        AttrModel::LeaseTime(v) => u32_bytes(v),
        AttrModel::FileHandle(handle) => opaque_bytes(handle),
        AttrModel::FileId(v) => u64_bytes(v),
        AttrModel::Mode(v) => u32_bytes(v),
        AttrModel::NumLinks(v) => u32_bytes(v),
        AttrModel::Owner(text) => opaque_bytes(encode_utf8(text)),
        AttrModel::OwnerGroup(text) => opaque_bytes(encode_utf8(text)),
        AttrModel::TimeModify(time) => i64_bytes(time.seconds) + u32_bytes(time.nseconds),
    }
}

/// Whether the value can be sent: a handle is not too long, a text is not
/// longer than 32 bits can count, and a time is valid.
pub open spec fn value_encodable(value: AttrModel) -> bool {
    match value {
        AttrModel::FileHandle(handle) => handle.len() <= MAX_HANDLE_BYTES,
        AttrModel::Owner(text) => encode_utf8(text).len() <= u32::MAX,
        AttrModel::OwnerGroup(text) => encode_utf8(text).len() <= u32::MAX,
        AttrModel::TimeModify(time) => time.valid(),
        _ => true,
    }
}

/// Why a value cannot be sent, where it cannot.
pub open spec fn value_fault(value: AttrModel) -> AttrFault {
    match value {
        AttrModel::TimeModify(_) => AttrFault::InvalidTime,
        _ => AttrFault::Malformed(XdrError::LengthOutOfRange),
    }
}

/// Splits `s` into the value of the attribute `id` at its front and the
/// rest.
#[verifier::opaque]
pub open spec fn take_value(id: FileAttributeId, s: Seq<u8>) -> Result<
    (AttrModel, Seq<u8>),
    AttrFault,
> {
    match id {
        FileAttributeId::Type => match take_u32(s) {
            Err(e) => Err(AttrFault::Malformed(e)),
            Ok((v, rest)) => match FileType::of_wire(v) {
                None => Err(AttrFault::InvalidFileType(v)),
                Some(kind) => Ok((AttrModel::Type(kind), rest)),
            },
        },
        FileAttributeId::Size => match take_u64(s) {
            Err(e) => Err(AttrFault::Malformed(e)),
            Ok((v, rest)) => Ok((AttrModel::Size(v), rest)),
        },
        FileAttributeId::FsId => match take_u64(s) {
            Err(e) => Err(AttrFault::Malformed(e)),
            Ok((major, rest)) => match take_u64(rest) {
                Err(e) => Err(AttrFault::Malformed(e)),
                Ok((minor, rest)) => Ok((AttrModel::FsId(FsId { major, minor }), rest)),
            },
        },
        FileAttributeId::LeaseTime => match take_u32(s) {
            Err(e) => Err(AttrFault::Malformed(e)),
            Ok((v, rest)) => Ok((AttrModel::LeaseTime(v), rest)),
        },
        FileAttributeId::FileHandle => match take_opaque(s, MAX_HANDLE_BYTES as nat) {
            Err(e) => Err(AttrFault::Malformed(e)),
            Ok((handle, rest)) => Ok((AttrModel::FileHandle(handle), rest)),
        },
        FileAttributeId::FileId => match take_u64(s) {
            Err(e) => Err(AttrFault::Malformed(e)),
            Ok((v, rest)) => Ok((AttrModel::FileId(v), rest)),
        },
        FileAttributeId::Mode => match take_u32(s) {
            Err(e) => Err(AttrFault::Malformed(e)),
            Ok((v, rest)) => Ok((AttrModel::Mode(v), rest)),
        },
        FileAttributeId::NumLinks => match take_u32(s) {
            Err(e) => Err(AttrFault::Malformed(e)),
            Ok((v, rest)) => Ok((AttrModel::NumLinks(v), rest)),
        },
        FileAttributeId::Owner => match take_text(s) {
            Err(e) => Err(e),
            Ok((text, rest)) => Ok((AttrModel::Owner(text), rest)),
        },
        FileAttributeId::OwnerGroup => match take_text(s) {
            Err(e) => Err(e),
            Ok((text, rest)) => Ok((AttrModel::OwnerGroup(text), rest)),
        },
        FileAttributeId::TimeModify => match take_i64(s) {
            Err(e) => Err(AttrFault::Malformed(e)),
            Ok((seconds, rest)) => match take_u32(rest) {
                Err(e) => Err(AttrFault::Malformed(e)),
                Ok((nseconds, rest)) => if nseconds < 1_000_000_000 {
                    Ok((AttrModel::TimeModify(Time { seconds, nseconds }), rest))
                } else {
                    Err(AttrFault::InvalidTime)
                },
            },
        },
    }
}

/// A value that is read is a value of the attribute that was asked for.
pub proof fn lemma_value_of_its_attribute(id: FileAttributeId, s: Seq<u8>)
    ensures
        take_value(id, s) matches Ok((value, _)) ==> value.id() == id,
{
    reveal(take_value);
}

/// A text is read back as it was, whatever follows it.
pub proof fn lemma_text_round_trip(text: Seq<char>, rest: Seq<u8>)
    requires
        encode_utf8(text).len() <= u32::MAX,
    ensures
        take_text(opaque_bytes(encode_utf8(text)) + rest) == Ok::<
            (Seq<char>, Seq<u8>),
            AttrFault,
        >((text, rest)),
{
    let bytes = encode_utf8(text);
    let all = opaque_bytes(bytes) + rest;
    lemma_opaque_aligned(bytes);
    assert(bytes.len() <= text_bound(all));
    lemma_opaque_round_trip(bytes, rest, text_bound(all));
    vstd::utf8::encode_utf8_valid_utf8(text);
    vstd::utf8::encode_utf8_decode_utf8(text);
}

/// The value of an attribute is read back as it was, whatever follows it.
pub proof fn lemma_value_round_trip(value: AttrModel, rest: Seq<u8>)
    requires
        value_encodable(value),
    ensures
        take_value(value.id(), value_bytes(value) + rest) == Ok::<(AttrModel, Seq<u8>), AttrFault>(
            (value, rest),
        ),
{
    reveal(take_value);
    match value {
        AttrModel::Type(kind) => {
            lemma_u32_round_trip(kind.wire(), rest);
        },
        AttrModel::Size(v) => {
            lemma_u64_round_trip(v, rest);
        },
        AttrModel::FsId(id) => {
            lemma_u64_round_trip(id.major, u64_bytes(id.minor) + rest);
            lemma_u64_round_trip(id.minor, rest);
            lemma_concat_assoc(u64_bytes(id.major), u64_bytes(id.minor), rest);
        },
        AttrModel::LeaseTime(v) => {
            lemma_u32_round_trip(v, rest);
        },
        AttrModel::FileHandle(handle) => {
            lemma_opaque_round_trip(handle, rest, MAX_HANDLE_BYTES as nat);
        },
        AttrModel::FileId(v) => {
            lemma_u64_round_trip(v, rest);
        },
        AttrModel::Mode(v) => {
            lemma_u32_round_trip(v, rest);
        },
        AttrModel::NumLinks(v) => {
            lemma_u32_round_trip(v, rest);
        },
        AttrModel::Owner(text) => {
            lemma_text_round_trip(text, rest);
        },
        AttrModel::OwnerGroup(text) => {
            lemma_text_round_trip(text, rest);
        },
        AttrModel::TimeModify(time) => {
            lemma_i64_round_trip(time.seconds, u32_bytes(time.nseconds) + rest);
            lemma_u32_round_trip(time.nseconds, rest);
            lemma_concat_assoc(i64_bytes(time.seconds), u32_bytes(time.nseconds), rest);
        },
    }
}

/// The encoding of a value is a multiple of four bytes long.
pub proof fn lemma_value_aligned(value: AttrModel)
    ensures
        value_bytes(value).len() % 4 == 0,
{
    match value {
        AttrModel::Type(kind) => {
            lemma_u32_round_trip(kind.wire(), Seq::empty());
        },
        AttrModel::Size(v) => {
            lemma_u64_round_trip(v, Seq::empty());
        },
        AttrModel::FsId(id) => {
            lemma_u64_round_trip(id.major, Seq::empty());
            lemma_u64_round_trip(id.minor, Seq::empty());
            assert(value_bytes(value).len() == 16);
        },
        AttrModel::LeaseTime(v) => {
            lemma_u32_round_trip(v, Seq::empty());
        },
        AttrModel::FileHandle(handle) => {
            lemma_opaque_aligned(handle);
        },
        AttrModel::FileId(v) => {
            lemma_u64_round_trip(v, Seq::empty());
        },
        AttrModel::Mode(v) => {
            lemma_u32_round_trip(v, Seq::empty());
        },
        AttrModel::NumLinks(v) => {
            lemma_u32_round_trip(v, Seq::empty());
        },
        AttrModel::Owner(text) => {
            lemma_opaque_aligned(encode_utf8(text));
        },
        AttrModel::OwnerGroup(text) => {
            lemma_opaque_aligned(encode_utf8(text));
        },
        AttrModel::TimeModify(time) => {
            lemma_i64_round_trip(time.seconds, Seq::empty());
            lemma_u32_round_trip(time.nseconds, Seq::empty());
            assert(value_bytes(value).len() == 12);
        },
    }
}

/// Appends the encoding of the text to `out`, unless it is longer than 32
/// bits can count.
pub fn put_text(out: &mut Vec<u8>, text: &str) -> (r: Result<(), AttrFault>)
    ensures
        r is Ok <==> encode_utf8(text@).len() <= u32::MAX,
        r is Ok ==> final(out)@ == old(out)@ + opaque_bytes(encode_utf8(text@)),
        r is Err ==> r == Err::<(), AttrFault>(AttrFault::Malformed(XdrError::LengthOutOfRange))
            && final(out)@ == old(out)@,
{
    match put_opaque(out, text.as_bytes()) {
        Ok(_) => Ok(()),
        Err(e) => Err(AttrFault::Malformed(e)),
    }
}

/// Reads the text at the front of `input`.
pub fn get_text(input: &[u8]) -> (r: Result<(String, &[u8]), AttrFault>)
    ensures
        match r {
            Ok((text, rest)) => take_text(input@) == Ok::<(Seq<char>, Seq<u8>), AttrFault>(
                (text@, rest@),
            ),
            Err(e) => take_text(input@) == Err::<(Seq<char>, Seq<u8>), AttrFault>(e),
        },
{
    let bound: u32 = if input.len() > u32::MAX as usize {
        u32::MAX
    } else {
        input.len() as u32
    };
    let (bytes, rest) = match get_opaque(input, bound) {
        Ok(pair) => pair,
        Err(e) => { return Err(AttrFault::Malformed(e)); },
    };
    match text_from_utf8(bytes) {
        Some(text) => Ok((text, rest)),
        None => Err(AttrFault::InvalidText),
    }
}

/// Appends the encoding of the value of `attr` to `out`, unless the value
/// cannot be sent.
pub fn put_value(out: &mut Vec<u8>, attr: &FileAttribute) -> (r: Result<(), AttrFault>)
    ensures
        r is Ok <==> value_encodable(attr@),
        r is Ok ==> final(out)@ == old(out)@ + value_bytes(attr@),
        r is Err ==> r == Err::<(), AttrFault>(value_fault(attr@)) && final(out)@ == old(out)@,
{
    match attr {
        FileAttribute::Type(kind) => {
            put_u32(out, kind.to_wire());
            Ok(())
        },
        FileAttribute::Size(v) => {
            put_u64(out, *v);
            Ok(())
        },
        FileAttribute::FsId(id) => {
            put_u64(out, id.major);
            put_u64(out, id.minor);
            proof {
                lemma_concat_assoc(old(out)@, u64_bytes(id.major), u64_bytes(id.minor));
            }
            Ok(())
        },
        FileAttribute::LeaseTime(v) => {
            put_u32(out, *v);
            Ok(())
        },
        FileAttribute::FileHandle(handle) => {
            if handle.0.len() > MAX_HANDLE_BYTES as usize {
                return Err(AttrFault::Malformed(XdrError::LengthOutOfRange));
            }
            let _ = put_opaque(out, handle.0.as_slice());
            Ok(())
        },
        FileAttribute::FileId(v) => {
            put_u64(out, *v);
            Ok(())
        },
        FileAttribute::Mode(v) => {
            put_u32(out, *v);
            Ok(())
        },
        FileAttribute::NumLinks(v) => {
            put_u32(out, *v);
            Ok(())
        },
        FileAttribute::Owner(text) => put_text(out, text.as_str()),
        FileAttribute::OwnerGroup(text) => put_text(out, text.as_str()),
        FileAttribute::TimeModify(time) => {
            if time.nseconds >= 1_000_000_000 {
                return Err(AttrFault::InvalidTime);
            }
            put_i64(out, time.seconds);
            put_u32(out, time.nseconds);
            proof {
                lemma_concat_assoc(old(out)@, i64_bytes(time.seconds), u32_bytes(time.nseconds));
            }
            Ok(())
        },
    }
}

/// Reads the value of the attribute `id` at the front of `input`.
pub fn get_value(id: FileAttributeId, input: &[u8]) -> (r: Result<(FileAttribute, &[u8]), AttrFault>)
    ensures
        match r {
            Ok((attr, rest)) => take_value(id, input@) == Ok::<(AttrModel, Seq<u8>), AttrFault>(
                (attr@, rest@),
            ),
            Err(e) => take_value(id, input@) == Err::<(AttrModel, Seq<u8>), AttrFault>(e),
        },
{
    proof {
        reveal(take_value);
    }
    match id {
        FileAttributeId::Type => {
            let (v, rest) = match get_u32(input) {
                Ok(pair) => pair,
                Err(e) => { return Err(AttrFault::Malformed(e)); },
            };
            match FileType::from_wire(v) {
                None => Err(AttrFault::InvalidFileType(v)),
                Some(kind) => Ok((FileAttribute::Type(kind), rest)),
            }
        },
        FileAttributeId::Size => match get_u64(input) {
            Ok((v, rest)) => Ok((FileAttribute::Size(v), rest)),
            Err(e) => Err(AttrFault::Malformed(e)),
        },
        FileAttributeId::FsId => {
            let (major, rest) = match get_u64(input) {
                Ok(pair) => pair,
                Err(e) => { return Err(AttrFault::Malformed(e)); },
            };
            match get_u64(rest) {
                Ok((minor, rest)) => Ok((FileAttribute::FsId(FsId { major, minor }), rest)),
                Err(e) => Err(AttrFault::Malformed(e)),
            }
        },
        FileAttributeId::LeaseTime => match get_u32(input) {
            Ok((v, rest)) => Ok((FileAttribute::LeaseTime(v), rest)),
            Err(e) => Err(AttrFault::Malformed(e)),
        },
        FileAttributeId::FileHandle => match get_opaque(input, MAX_HANDLE_BYTES) {
            Ok((bytes, rest)) => Ok((FileAttribute::FileHandle(FileHandle(bytes)), rest)),
            Err(e) => Err(AttrFault::Malformed(e)),
        },
        FileAttributeId::FileId => match get_u64(input) {
            Ok((v, rest)) => Ok((FileAttribute::FileId(v), rest)),
            Err(e) => Err(AttrFault::Malformed(e)),
        },
        FileAttributeId::Mode => match get_u32(input) {
            Ok((v, rest)) => Ok((FileAttribute::Mode(v), rest)),
            Err(e) => Err(AttrFault::Malformed(e)),
        },
        FileAttributeId::NumLinks => match get_u32(input) {
            Ok((v, rest)) => Ok((FileAttribute::NumLinks(v), rest)),
            Err(e) => Err(AttrFault::Malformed(e)),
        },
        FileAttributeId::Owner => match get_text(input) {
            Ok((text, rest)) => Ok((FileAttribute::Owner(text), rest)),
            Err(e) => Err(e),
        },
        FileAttributeId::OwnerGroup => match get_text(input) {
            Ok((text, rest)) => Ok((FileAttribute::OwnerGroup(text), rest)),
            Err(e) => Err(e),
        },
        FileAttributeId::TimeModify => {
            let (seconds, rest) = match get_i64(input) {
                Ok(pair) => pair,
                Err(e) => { return Err(AttrFault::Malformed(e)); },
            };
            let (nseconds, rest) = match get_u32(rest) {
                Ok(pair) => pair,
                Err(e) => { return Err(AttrFault::Malformed(e)); },
            };
            if nseconds < 1_000_000_000 {
                Ok((FileAttribute::TimeModify(Time { seconds, nseconds }), rest))
            } else {
                Err(AttrFault::InvalidTime)
            }
        },
    }
}

/// Whether bit `b` of the word `w` is set, the lowest bit being bit 0.
pub open spec fn word_bit(w: u32, b: u32) -> bool {
    (w >> b) & 1 == 1
}

/// Whether bit `n` of the bitmap is set: bit `n % 32` of word `n / 32`.
pub open spec fn bit_set(words: Seq<u32>, n: nat) -> bool {
    n / 32 < words.len() && word_bit(words[(n / 32) as int], (n % 32) as u32)
}

/// The attribute with the number `n`, if this library knows it.
pub open spec fn known(n: nat) -> Option<FileAttributeId> {
    if n <= u32::MAX {
        FileAttributeId::of_number(n as u32)
    } else {
        None
    }
}

/// Whether the attribute with the number `n` is in `keys`.
pub open spec fn has_number(keys: Set<FileAttributeId>, n: nat) -> bool {
    known(n) matches Some(id) && keys.contains(id)
}

/// The bits from `b` upwards of word `k` of the bitmap for `keys`: bit `c` is
/// set where the attribute with the number `32 * k + c` is in `keys`.
pub open spec fn word_from(keys: Set<FileAttributeId>, k: nat, b: nat) -> u32
    decreases 32 - b,
{
    if b >= 32 {
        0
    } else {
        (if has_number(keys, 32 * k + b) {
            1u32 << (b as u32)
        } else {
            0u32
        }) | word_from(keys, k, b + 1)
    }
}

/// The bitmap for `keys`: as many words as the highest attribute in `keys`
/// needs, none for no attribute.
pub open spec fn bitmap_words(keys: Set<FileAttributeId>) -> Seq<u32> {
    let low = word_from(keys, 0, 0);
    let high = word_from(keys, 1, 0);
    if high != 0 {
        seq![low, high]
    } else if low != 0 {
        seq![low]
    } else {
        Seq::empty()
    }
}

proof fn lemma_bit_or(x: u32, y: u32, c: u32)
    by (bit_vector)
    requires
        c < 32,
    ensures
        ((x | y) >> c) & 1 == 1 <==> ((x >> c) & 1 == 1 || (y >> c) & 1 == 1),
{
}

proof fn lemma_bit_one(b: u32, c: u32)
    by (bit_vector)
    requires
        b < 32,
        c < 32,
    ensures
        ((1u32 << b) >> c) & 1 == 1 <==> b == c,
        0u32 | (1u32 << b) == 1u32 << b,
{
}

proof fn lemma_bit_zero(x: u32, c: u32)
    by (bit_vector)
    requires
        c < 32,
    ensures
        (0u32 >> c) & 1 != 1,
        0u32 | x == x,
{
}

/// Which bits of a word of the bitmap are set.
pub proof fn lemma_word_bits(keys: Set<FileAttributeId>, k: nat, b: nat, c: nat)
    requires
        b <= 32,
        c < 32,
    ensures
        word_bit(word_from(keys, k, b), c as u32) <==> (c >= b && has_number(keys, 32 * k + c)),
    decreases 32 - b,
{
    if b >= 32 {
        lemma_bit_zero(0, c as u32);
    } else {
        let rest = word_from(keys, k, b + 1);
        lemma_word_bits(keys, k, b + 1, c);
        if has_number(keys, 32 * k + b) {
            lemma_bit_or(1u32 << (b as u32), rest, c as u32);
            lemma_bit_one(b as u32, c as u32);
        } else {
            lemma_bit_or(0u32, rest, c as u32);
            lemma_bit_zero(0, c as u32);
        }
    }
}

/// A word of the bitmap without a bit set stands for no attribute.
proof fn lemma_zero_word(keys: Set<FileAttributeId>, k: nat, c: nat)
    requires
        c < 32,
        word_from(keys, k, 0) == 0,
    ensures
        !has_number(keys, 32 * k + c),
{
    lemma_word_bits(keys, k, 0, c);
    lemma_bit_zero(0, c as u32);
}

/// A word of the bitmap with a bit set is not zero.
proof fn lemma_nonzero_word(keys: Set<FileAttributeId>, k: nat, c: nat)
    requires
        c < 32,
        has_number(keys, 32 * k + c),
    ensures
        word_from(keys, k, 0) != 0,
{
    lemma_word_bits(keys, k, 0, c);
    lemma_bit_zero(0, c as u32);
}

/// The set bits of the bitmap for `keys` are exactly the numbers of the
/// attributes in `keys`.
pub proof fn lemma_bitmap_bits(keys: Set<FileAttributeId>, n: nat)
    ensures
        bit_set(bitmap_words(keys), n) <==> has_number(keys, n),
        bitmap_words(keys).len() <= 2,
{
    let words = bitmap_words(keys);
    let k = n / 32;
    let c = n % 32;
    assert(n == 32 * k + c);
    if k >= 2 {
        assert(known(n) is None);
    } else {
        lemma_word_bits(keys, k, 0, c);
        if k == 0 {
            if words.len() == 0 {
                lemma_zero_word(keys, 0, c);
            }
        } else {
            if words.len() < 2 {
                lemma_zero_word(keys, 1, c);
            }
        }
    }
}

/// Word `k` of the bitmap for `set`.
fn bitmap_word(set: &AttributeSet, k: u32) -> (w: u32)
    requires
        k < 2,
    ensures
        w == word_from(set@, k as nat, 0),
{
    let mut w: u32 = 0;
    let mut b: u32 = 32;
    while b > 0
        invariant
            b <= 32,
            k < 2,
            w == word_from(set@, k as nat, b as nat),
        decreases b,
    {
        b = b - 1;
        let n: u32 = 32 * k + b;
        let present = match FileAttributeId::from_number(n) {
            Some(id) => set.contains(id),
            None => false,
        };
        let ghost rest = w;
        if present {
            w = (1u32 << b) | w;
        } else {
            proof {
                lemma_bit_zero(w, 0);
            }
        }
        assert(w == word_from(set@, k as nat, b as nat));
    }
    w
}

/// The bitmap for the attributes of `set`.
pub fn attribute_bitmap(set: &AttributeSet) -> (r: Vec<u32>)
    ensures
        r@ == bitmap_words(set@),
{
    let low = bitmap_word(set, 0);
    let high = bitmap_word(set, 1);
    let mut words: Vec<u32> = Vec::new();
    if high != 0 {
        words.push(low);
        words.push(high);
    } else if low != 0 {
        words.push(low);
    }
    assert(words@ =~= bitmap_words(set@));
    words
}

/// The encoding of the value that `attrs` has for the attribute with the
/// number `n`: nothing where there is no such attribute or no value for it.
pub open spec fn part(attrs: Map<FileAttributeId, AttrModel>, n: nat) -> Seq<u8> {
    match known(n) {
        Some(id) => if attrs.contains_key(id) {
            value_bytes(attrs[id])
        } else {
            Seq::empty()
        },
        None => Seq::empty(),
    }
}

/// The encodings of the values of `attrs` for the attributes with the
/// numbers from `n` upwards, in the order of the numbers.
pub open spec fn values_from(attrs: Map<FileAttributeId, AttrModel>, n: nat) -> Seq<u8>
    decreases 64 - n,
{
    if n >= 64 {
        Seq::empty()
    } else {
        part(attrs, n) + values_from(attrs, n + 1)
    }
}

/// Whether every value of `attrs` can be sent.
pub open spec fn values_encodable(attrs: Map<FileAttributeId, AttrModel>) -> bool {
    forall|id: FileAttributeId| #[trigger] attrs.contains_key(id) ==> value_encodable(attrs[id])
}

/// Whether the attributes can be sent: each value stands under its own
/// attribute and can be sent, and the values together are not longer than 32
/// bits can count.
pub open spec fn attributes_encodable(attrs: Map<FileAttributeId, AttrModel>) -> bool {
    &&& forall|id: FileAttributeId| #[trigger]
        attrs.contains_key(id) ==> attrs[id].id() == id && value_encodable(attrs[id])
    &&& values_from(attrs, 0).len() <= u32::MAX
}

/// The encoding of a set of attributes: the bitmap of the attributes, then
/// the values as opaque data.
pub open spec fn attributes_bytes(attrs: Map<FileAttributeId, AttrModel>) -> Seq<u8> {
    u32_array_bytes(bitmap_words(attrs.dom())) + opaque_bytes(values_from(attrs, 0))
}

/// Reads from `blob` the values of the attributes whose bits, from bit `n`
/// upwards, are set in the bitmap `words`, in the order of the bits, and puts
/// them into `acc`. Gives the attributes and what is left of `blob`.
pub open spec fn take_values(
    words: Seq<u32>,
    n: nat,
    blob: Seq<u8>,
    acc: Map<FileAttributeId, AttrModel>,
) -> Result<(Map<FileAttributeId, AttrModel>, Seq<u8>), AttrFault>
    decreases 32 * words.len() - n,
{
    if n >= 32 * words.len() {
        Ok((acc, blob))
    } else if !bit_set(words, n) {
        take_values(words, n + 1, blob, acc)
    } else {
        match known(n) {
            None => Err(AttrFault::UnknownAttribute((n % 0x1_0000_0000) as u32)),
            Some(id) => match take_value(id, blob) {
                Err(e) => Err(e),
                Ok((value, rest)) => take_values(words, n + 1, rest, acc.insert(id, value)),
            },
        }
    }
}

/// Splits `s` into the set of attributes at its front and the rest. The
/// values must fill their opaque data to its end.
pub open spec fn take_attributes(s: Seq<u8>) -> Result<
    (Map<FileAttributeId, AttrModel>, Seq<u8>),
    AttrFault,
> {
    match take_u32_array(s, u32::MAX as nat) {
        Err(e) => Err(AttrFault::Malformed(e)),
        Ok((words, rest)) => match take_opaque(rest, u32::MAX as nat) {
            Err(e) => Err(AttrFault::Malformed(e)),
            Ok((blob, rest)) => match take_values(words, 0, blob, Map::empty()) {
                Err(e) => Err(e),
                Ok((attrs, left)) => if left.len() == 0 {
                    Ok((attrs, rest))
                } else {
                    Err(AttrFault::Malformed(XdrError::TrailingBytes))
                },
            },
        },
    }
}

/// The values of a set of attributes, one after the other in the order of
/// the attributes' numbers. Fails, and leaves `out` as it was, where a value
/// cannot be sent.
fn put_values(out: &mut Vec<u8>, attrs: &FileAttributes) -> (r: Result<(), AttrFault>)
    ensures
        r is Ok ==> final(out)@ == old(out)@ + values_from(attrs@, 0),
        r is Ok <==> values_encodable(attrs@),
{
    let mut n: u32 = 64;
    let mut parts: Vec<u8> = Vec::new();
    proof {
        attrs.lemma_values_match_ids();
    }
    // the values are gathered from the highest number down, each in front of
    // those gathered before
    while n > 0
        invariant
            n <= 64,
            parts@ == values_from(attrs@, n as nat),
            forall|id: FileAttributeId| #[trigger]
                attrs@.contains_key(id) && id.number() >= n ==> value_encodable(attrs@[id]),
        decreases n,
    {
        n = n - 1;
        let ghost after = parts@;
        match FileAttributeId::from_number(n) {
            None => {
                assert(part(attrs@, n as nat) + after =~= after);
            },
            Some(id) => {
                match attribute_of(attrs, id) {
                    None => {
                        assert(part(attrs@, n as nat) + after =~= after);
                    },
                    Some(attr) => {
                        let mut front: Vec<u8> = Vec::new();
                        match put_value(&mut front, &attr) {
                            Ok(_) => {},
                            Err(e) => {
                                assert(!value_encodable(attrs@[id]));
                                return Err(e);
                            },
                        }
                        front.extend_from_slice(parts.as_slice());
                        assert(front@ =~= part(attrs@, n as nat) + after);
                        parts = front;
                    },
                }
            },
        }
        assert forall|id: FileAttributeId| #[trigger]
            attrs@.contains_key(id) && id.number() >= n implies value_encodable(attrs@[id]) by {
            if id.number() == n {
                id.lemma_number_round_trip(n);
            }
        }
    }
    out.extend_from_slice(parts.as_slice());
    assert forall|id: FileAttributeId| #[trigger] attrs@.contains_key(id) implies value_encodable(
        attrs@[id],
    ) by {
        assert(id.number() >= 0);
    }
    Ok(())
}

/// The value that `attrs` has for the attribute `id`, if it has one.
pub fn attribute_of(attrs: &FileAttributes, id: FileAttributeId) -> (r: Option<FileAttribute>)
    ensures
        match r {
            Some(attr) => attrs@.contains_key(id) && attr@ == attrs@[id],
            None => !attrs@.contains_key(id),
        },
{
    match id {
        FileAttributeId::Type => match attrs.file_type {
            Some(v) => Some(FileAttribute::Type(v)),
            None => None,
        },
        FileAttributeId::Size => match attrs.size {
            Some(v) => Some(FileAttribute::Size(v)),
            None => None,
        },
        FileAttributeId::FsId => match attrs.fs_id {
            Some(v) => Some(FileAttribute::FsId(v)),
            None => None,
        },
        FileAttributeId::LeaseTime => match attrs.lease_time {
            Some(v) => Some(FileAttribute::LeaseTime(v)),
            None => None,
        },
        FileAttributeId::FileHandle => match &attrs.file_handle {
            Some(v) => Some(FileAttribute::FileHandle(v.duplicate())),
            None => None,
        },
        FileAttributeId::FileId => match attrs.file_id {
            Some(v) => Some(FileAttribute::FileId(v)),
            None => None,
        },
        FileAttributeId::Mode => match attrs.mode {
            Some(v) => Some(FileAttribute::Mode(v)),
            None => None,
        },
        FileAttributeId::NumLinks => match attrs.num_links {
            Some(v) => Some(FileAttribute::NumLinks(v)),
            None => None,
        },
        FileAttributeId::Owner => match &attrs.owner {
            Some(v) => Some(FileAttribute::Owner(v.clone())),
            None => None,
        },
        FileAttributeId::OwnerGroup => match &attrs.owner_group {
            Some(v) => Some(FileAttribute::OwnerGroup(v.clone())),
            None => None,
        },
        FileAttributeId::TimeModify => match attrs.time_modify {
            Some(v) => Some(FileAttribute::TimeModify(v)),
            None => None,
        },
    }
}

/// Why a set of attributes cannot be sent, where it cannot.
#[derive(Clone, Copy, Debug, PartialEq, Eq, Structural)]
pub enum EncodeFault {
    /// A value cannot be sent: a handle or a text is too long, or a time is
    /// not valid.
    Value,
    /// The values together are longer than 32 bits can count.
    TooLong,
}

/// Appends the encoding of `attrs` to `out`. Fails, and leaves `out` as it
/// was, where the attributes cannot be sent.
pub fn put_attributes(out: &mut Vec<u8>, attrs: &FileAttributes) -> (r: Result<(), EncodeFault>)
    ensures
        r is Ok <==> attributes_encodable(attrs@),
        r is Ok ==> final(out)@ == old(out)@ + attributes_bytes(attrs@),
        r is Err ==> final(out)@ == old(out)@,
        r == Err::<(), EncodeFault>(EncodeFault::Value) <==> !values_encodable(attrs@),
        r == Err::<(), EncodeFault>(EncodeFault::TooLong) <==> values_encodable(attrs@)
            && values_from(attrs@, 0).len() > u32::MAX,
{
    proof {
        attrs.lemma_values_match_ids();
    }
    let mut values: Vec<u8> = Vec::new();
    match put_values(&mut values, attrs) {
        Ok(_) => {},
        Err(_) => { return Err(EncodeFault::Value); },
    }
    assert(values@ =~= values_from(attrs@, 0));
    if values.len() > u32::MAX as usize {
        return Err(EncodeFault::TooLong);
    }
    let words = attribute_bitmap(&attrs.keys());
    proof {
        lemma_bitmap_bits(attrs@.dom(), 0);
    }
    let _ = put_u32_array(out, words.as_slice());
    let _ = put_opaque(out, values.as_slice());
    proof {
        lemma_concat_assoc(
            old(out)@,
            u32_array_bytes(bitmap_words(attrs@.dom())),
            opaque_bytes(values_from(attrs@, 0)),
        );
    }
    Ok(())
}

/// Whether bit `n` of the bitmap `words` is set.
pub fn bit_at(words: &[u32], n: u64) -> (r: bool)
    ensures
        r == bit_set(words@, n as nat),
{
    let k: u64 = n / 32;
    if k >= words.len() as u64 {
        return false;
    }
    let word = words[k as usize];
    let b: u32 = (n % 32) as u32;
    (word >> b) & 1 == 1
}

/// The attribute with the number `n`, if this library knows it.
pub fn attribute_numbered(n: u64) -> (r: Option<FileAttributeId>)
    ensures
        r == known(n as nat),
{
    if n <= u32::MAX as u64 {
        FileAttributeId::from_number(n as u32)
    } else {
        None
    }
}

/// Reads the set of attributes at the front of `input`.
pub fn get_attributes(input: &[u8]) -> (r: Result<(FileAttributes, &[u8]), AttrFault>)
    ensures
        match r {
            Ok((attrs, rest)) => take_attributes(input@) == Ok::<
                (Map<FileAttributeId, AttrModel>, Seq<u8>),
                AttrFault,
            >((attrs@, rest@)),
            Err(e) => take_attributes(input@) == Err::<
                (Map<FileAttributeId, AttrModel>, Seq<u8>),
                AttrFault,
            >(e),
        },
{
    let (words, rest) = match get_u32_array(input, u32::MAX) {
        Ok(pair) => pair,
        Err(e) => { return Err(AttrFault::Malformed(e)); },
    };
    let (blob, rest) = match get_opaque(rest, u32::MAX) {
        Ok(pair) => pair,
        Err(e) => { return Err(AttrFault::Malformed(e)); },
    };
    let mut attrs = FileAttributes::new();
    let mut left: &[u8] = blob.as_slice();
    let bits: u64 = 32 * (words.len() as u64);
    let mut n: u64 = 0;
    let ghost outcome = take_values(words@, 0, blob@, Map::empty());
    while n < bits
        invariant
            n <= bits,
            bits == 32 * words@.len(),
            words@.len() <= u32::MAX,
            outcome == take_values(words@, n as nat, left@, attrs@),
            take_attributes(input@) == (match outcome {
                Err(e) => Err::<(Map<FileAttributeId, AttrModel>, Seq<u8>), AttrFault>(e),
                Ok((attrs, left)) => if left.len() == 0 {
                    Ok::<(Map<FileAttributeId, AttrModel>, Seq<u8>), AttrFault>((attrs, rest@))
                } else {
                    Err::<(Map<FileAttributeId, AttrModel>, Seq<u8>), AttrFault>(
                        AttrFault::Malformed(XdrError::TrailingBytes),
                    )
                },
            }),
        decreases bits - n,
    {
        if bit_at(words.as_slice(), n) {
            match attribute_numbered(n) {
                None => {
                    return Err(AttrFault::UnknownAttribute((n % 0x1_0000_0000) as u32));
                },
                Some(id) => {
                    let (attr, after) = get_value(id, left)?;
                    proof {
                        lemma_value_of_its_attribute(id, left@);
                    }
                    attrs.insert(attr);
                    left = after;
                },
            }
        }
        n = n + 1;
    }
    match expect_end(left) {
        Ok(_) => Ok((attrs, rest)),
        Err(e) => Err(AttrFault::Malformed(e)),
    }
}

/// Which attributes are read from a bitmap: those whose bits are set. And
/// every bit that is set is the bit of an attribute that this library knows.
pub proof fn lemma_taken_keys(
    words: Seq<u32>,
    n: nat,
    blob: Seq<u8>,
    acc: Map<FileAttributeId, AttrModel>,
)
    requires
        take_values(words, n, blob, acc) is Ok,
    ensures
        forall|id: FileAttributeId|
            #![trigger take_values(words, n, blob, acc)->Ok_0.0.contains_key(id)]
            take_values(words, n, blob, acc)->Ok_0.0.contains_key(id) <==> (acc.contains_key(id)
                || (id.number() >= n && bit_set(words, id.number() as nat))),
        forall|j: nat| j >= n && #[trigger] bit_set(words, j) ==> known(j) is Some,
    decreases 32 * words.len() - n,
{
    let taken = take_values(words, n, blob, acc)->Ok_0.0;
    if n >= 32 * words.len() {
        assert forall|j: nat| j >= n implies !#[trigger] bit_set(words, j) by {
            assert(j / 32 >= words.len());
        }
    } else if !bit_set(words, n) {
        lemma_taken_keys(words, n + 1, blob, acc);
        assert forall|id: FileAttributeId| #![trigger taken.contains_key(id)]
            taken.contains_key(id) <==> (acc.contains_key(id) || (id.number() >= n && bit_set(
                words,
                id.number() as nat,
            ))) by {
            if id.number() == n {
                assert(!bit_set(words, id.number() as nat));
            }
        }
    } else {
        let id = known(n)->0;
        id.lemma_number_round_trip(n as u32);
        let (value, rest) = take_value(id, blob)->Ok_0;
        lemma_taken_keys(words, n + 1, rest, acc.insert(id, value));
        assert forall|other: FileAttributeId| #![trigger taken.contains_key(other)]
            taken.contains_key(other) <==> (acc.contains_key(other) || (other.number() >= n
                && bit_set(words, other.number() as nat))) by {
            other.lemma_number_round_trip(n as u32);
            if other.number() == n {
                assert(other == id);
            }
        }
    }
}

/// The bitmap that `s` begins with, where it begins with one.
pub open spec fn bitmap_read(s: Seq<u8>) -> Seq<u32> {
    take_u32_array(s, u32::MAX as nat)->Ok_0.0
}

/// The set bits of a bitmap that was read are exactly the numbers of the
/// attributes that were read with it.
pub proof fn lemma_decoded_keys(s: Seq<u8>, n: nat)
    requires
        take_attributes(s) is Ok,
    ensures
        bit_set(bitmap_read(s), n) <==> has_number(take_attributes(s)->Ok_0.0.dom(), n),
{
    let words = bitmap_read(s);
    let rest = take_u32_array(s, u32::MAX as nat)->Ok_0.1;
    let blob = take_opaque(rest, u32::MAX as nat)->Ok_0.0;
    let attrs = take_attributes(s)->Ok_0.0;
    assert(take_values(words, 0, blob, Map::empty())->Ok_0.0 == attrs);
    lemma_taken_keys(words, 0, blob, Map::empty());
    if bit_set(words, n) {
        let id = known(n)->0;
        id.lemma_number_round_trip(n as u32);
        assert(attrs.contains_key(id));
    }
    if has_number(attrs.dom(), n) {
        let id = known(n)->0;
        id.lemma_number_round_trip(n as u32);
        assert(attrs.contains_key(id));
    }
}

/// The part of `attrs` with the attributes whose numbers are below `n`.
pub open spec fn below(attrs: Map<FileAttributeId, AttrModel>, n: nat) -> Map<
    FileAttributeId,
    AttrModel,
> {
    attrs.restrict(Set::new(|id: FileAttributeId| id.number() < n))
}

/// Where no attribute of `attrs` has a number from `n` upwards, no values
/// are left from `n` upwards, and the part below `n` is all of `attrs`.
proof fn lemma_nothing_above(attrs: Map<FileAttributeId, AttrModel>, n: nat)
    requires
        forall|j: nat| j >= n ==> !#[trigger] has_number(attrs.dom(), j),
    ensures
        values_from(attrs, n) == Seq::<u8>::empty(),
        below(attrs, n) == attrs,
    decreases 64 - n,
{
    if n < 64 {
        lemma_nothing_above(attrs, n + 1);
        assert(!has_number(attrs.dom(), n));
        assert(part(attrs, n) =~= Seq::<u8>::empty());
        assert(values_from(attrs, n) =~= Seq::<u8>::empty());
    }
    assert forall|id: FileAttributeId| attrs.contains_key(id) implies id.number() < n by {
        id.lemma_number_round_trip(0);
        if id.number() >= n {
            assert(has_number(attrs.dom(), id.number() as nat));
        }
    }
    assert(below(attrs, n) =~= attrs);
}

/// The values of `attrs` from the number `n` upwards are read back into the
/// part of `attrs` below `n`, and make up all of `attrs` with it.
proof fn lemma_values_round_trip(attrs: Map<FileAttributeId, AttrModel>, n: nat)
    requires
        forall|id: FileAttributeId| #[trigger]
            attrs.contains_key(id) ==> attrs[id].id() == id && value_encodable(attrs[id]),
    ensures
        take_values(bitmap_words(attrs.dom()), n, values_from(attrs, n), below(attrs, n)) == Ok::<
            (Map<FileAttributeId, AttrModel>, Seq<u8>),
            AttrFault,
        >((attrs, Seq::<u8>::empty())),
    decreases 64 - n,
{
    let keys = attrs.dom();
    let words = bitmap_words(keys);
    lemma_bitmap_bits(keys, n);
    if n >= 32 * words.len() {
        assert forall|j: nat| j >= n implies !#[trigger] has_number(keys, j) by {
            lemma_bitmap_bits(keys, j);
            assert(j / 32 >= words.len());
        }
        lemma_nothing_above(attrs, n);
    } else {
        assert(n < 64);
        lemma_values_round_trip(attrs, n + 1);
        if bit_set(words, n) {
            let id = known(n)->0;
            id.lemma_number_round_trip(n as u32);
            assert(attrs.contains_key(id));
            lemma_value_round_trip(attrs[id], values_from(attrs, n + 1));
            assert(values_from(attrs, n) == value_bytes(attrs[id]) + values_from(attrs, n + 1));
            assert(below(attrs, n).insert(id, attrs[id]) =~= below(attrs, n + 1)) by {
                assert forall|other: FileAttributeId| other.number() == n implies other == id by {
                    other.lemma_number_round_trip(n as u32);
                }
            }
        } else {
            assert(part(attrs, n) =~= Seq::<u8>::empty());
            assert(values_from(attrs, n) =~= values_from(attrs, n + 1));
            assert(below(attrs, n) =~= below(attrs, n + 1)) by {
                assert forall|other: FileAttributeId|
                    attrs.contains_key(other) implies other.number() != n by {
                    other.lemma_number_round_trip(n as u32);
                    if other.number() == n {
                        assert(has_number(keys, n));
                    }
                }
            }
        }
    }
}

/// A set of attributes that can be sent is read back as it was, whatever
/// follows it.
pub proof fn lemma_attributes_round_trip(attrs: Map<FileAttributeId, AttrModel>, rest: Seq<u8>)
    requires
        attributes_encodable(attrs),
    ensures
        take_attributes(attributes_bytes(attrs) + rest) == Ok::<
            (Map<FileAttributeId, AttrModel>, Seq<u8>),
            AttrFault,
        >((attrs, rest)),
{
    let words = bitmap_words(attrs.dom());
    let values = values_from(attrs, 0);
    lemma_bitmap_bits(attrs.dom(), 0);
    lemma_concat_assoc(u32_array_bytes(words), opaque_bytes(values), rest);
    lemma_u32_array_round_trip(words, opaque_bytes(values) + rest, u32::MAX as nat);
    lemma_opaque_round_trip(values, rest, u32::MAX as nat);
    lemma_values_round_trip(attrs, 0);
    assert(below(attrs, 0) =~= Map::<FileAttributeId, AttrModel>::empty());
}

/// The encoding of a set of attributes is a multiple of four bytes long.
pub proof fn lemma_attributes_aligned(attrs: Map<FileAttributeId, AttrModel>)
    ensures
        attributes_bytes(attrs).len() % 4 == 0,
{
    let words = bitmap_words(attrs.dom());
    let map = u32_array_bytes(words).len() as int;
    let values = opaque_bytes(values_from(attrs, 0)).len() as int;
    lemma_bitmap_bits(attrs.dom(), 0);
    assert(map == 4 + 4 * words.len()) by {
        lemma_u32_array_round_trip(words, Seq::<u8>::empty(), u32::MAX as nat);
    }
    assert(values % 4 == 0) by {
        lemma_opaque_aligned(values_from(attrs, 0));
    }
    assert(attributes_bytes(attrs).len() == map + values);
    let count = words.len() as int;
    assert(map % 4 == 0) by (nonlinear_arith)
        requires
            map == 4 + 4 * count,
    ;
    lemma_sum_aligned(map, values);
}

/// Reads the attributes whose bits, from bit `n` upwards, are set in the
/// bitmap `words`, into the set `acc`.
pub open spec fn take_keys(words: Seq<u32>, n: nat, acc: Set<FileAttributeId>) -> Result<
    Set<FileAttributeId>,
    AttrFault,
>
    decreases 32 * words.len() - n,
{
    if n >= 32 * words.len() {
        Ok(acc)
    } else if !bit_set(words, n) {
        take_keys(words, n + 1, acc)
    } else {
        match known(n) {
            None => Err(AttrFault::UnknownAttribute((n % 0x1_0000_0000) as u32)),
            Some(id) => take_keys(words, n + 1, acc.insert(id)),
        }
    }
}

/// The encoding of a set of attributes without values: its bitmap.
pub open spec fn request_bitmap_bytes(keys: Set<FileAttributeId>) -> Seq<u8> {
    u32_array_bytes(bitmap_words(keys))
}

/// Splits `s` into the bitmap at its front, as the set of the attributes
/// whose bits are set, and the rest.
pub open spec fn take_bitmap(s: Seq<u8>) -> Result<(Set<FileAttributeId>, Seq<u8>), AttrFault> {
    match take_u32_array(s, u32::MAX as nat) {
        Err(e) => Err(AttrFault::Malformed(e)),
        Ok((words, rest)) => match take_keys(words, 0, Set::empty()) {
            Err(e) => Err(e),
            Ok(keys) => Ok((keys, rest)),
        },
    }
}

/// Appends the bitmap of the attributes of `set` to `out`.
pub fn put_bitmap(out: &mut Vec<u8>, set: &AttributeSet)
    ensures
        final(out)@ == old(out)@ + request_bitmap_bytes(set@),
{
    let words = attribute_bitmap(set);
    proof {
        lemma_bitmap_bits(set@, 0);
    }
    let _ = put_u32_array(out, words.as_slice());
}

/// Reads the bitmap at the front of `input`.
pub fn get_bitmap(input: &[u8]) -> (r: Result<(AttributeSet, &[u8]), AttrFault>)
    ensures
        match r {
            Ok((set, rest)) => take_bitmap(input@) == Ok::<
                (Set<FileAttributeId>, Seq<u8>),
                AttrFault,
            >((set@, rest@)),
            Err(e) => take_bitmap(input@) == Err::<(Set<FileAttributeId>, Seq<u8>), AttrFault>(e),
        },
{
    let (words, rest) = match get_u32_array(input, u32::MAX) {
        Ok(pair) => pair,
        Err(e) => { return Err(AttrFault::Malformed(e)); },
    };
    let mut set = AttributeSet::empty();
    let bits: u64 = 32 * (words.len() as u64);
    let mut n: u64 = 0;
    let ghost outcome = take_keys(words@, 0, Set::empty());
    while n < bits
        invariant
            n <= bits,
            bits == 32 * words@.len(),
            words@.len() <= u32::MAX,
            outcome == take_keys(words@, n as nat, set@),
            take_bitmap(input@) == (match outcome {
                Err(e) => Err::<(Set<FileAttributeId>, Seq<u8>), AttrFault>(e),
                Ok(keys) => Ok::<(Set<FileAttributeId>, Seq<u8>), AttrFault>((keys, rest@)),
            }),
        decreases bits - n,
    {
        if bit_at(words.as_slice(), n) {
            match attribute_numbered(n) {
                None => {
                    return Err(AttrFault::UnknownAttribute((n % 0x1_0000_0000) as u32));
                },
                Some(id) => {
                    set = set.with(id);
                },
            }
        }
        n = n + 1;
    }
    Ok((set, rest))
}

/// The attributes of `keys` whose numbers are below `n`.
pub open spec fn keys_below(keys: Set<FileAttributeId>, n: nat) -> Set<FileAttributeId> {
    keys.filter(|id: FileAttributeId| id.number() < n)
}

/// The bits of the bitmap for `keys` from bit `n` upwards are read back into
/// the attributes of `keys` below `n`, and make up all of `keys` with them.
proof fn lemma_keys_round_trip(keys: Set<FileAttributeId>, n: nat)
    ensures
        take_keys(bitmap_words(keys), n, keys_below(keys, n)) == Ok::<
            Set<FileAttributeId>,
            AttrFault,
        >(keys),
    decreases 64 - n,
{
    let words = bitmap_words(keys);
    lemma_bitmap_bits(keys, n);
    if n >= 32 * words.len() {
        assert forall|id: FileAttributeId| keys.contains(id) implies id.number() < n by {
            id.lemma_number_round_trip(0);
            lemma_bitmap_bits(keys, id.number() as nat);
            if id.number() >= n {
                assert(id.number() as nat / 32 >= words.len());
            }
        }
        assert(keys_below(keys, n) =~= keys);
    } else {
        assert(n < 64);
        lemma_keys_round_trip(keys, n + 1);
        if bit_set(words, n) {
            let id = known(n)->0;
            id.lemma_number_round_trip(n as u32);
            assert(keys_below(keys, n).insert(id) =~= keys_below(keys, n + 1)) by {
                assert forall|other: FileAttributeId| other.number() == n implies other == id by {
                    other.lemma_number_round_trip(n as u32);
                }
            }
        } else {
            assert(keys_below(keys, n) =~= keys_below(keys, n + 1)) by {
                assert forall|other: FileAttributeId| keys.contains(other) implies other.number()
                    != n by {
                    other.lemma_number_round_trip(n as u32);
                    if other.number() == n {
                        assert(has_number(keys, n));
                    }
                }
            }
        }
    }
}

/// The bitmap of a set of attributes is read back as the set, whatever
/// follows it.
pub proof fn lemma_bitmap_round_trip(keys: Set<FileAttributeId>, rest: Seq<u8>)
    ensures
        take_bitmap(request_bitmap_bytes(keys) + rest) == Ok::<
            (Set<FileAttributeId>, Seq<u8>),
            AttrFault,
        >((keys, rest)),
{
    let words = bitmap_words(keys);
    lemma_bitmap_bits(keys, 0);
    lemma_u32_array_round_trip(words, rest, u32::MAX as nat);
    lemma_keys_round_trip(keys, 0);
    assert(keys_below(keys, 0) =~= Set::<FileAttributeId>::empty());
}

} // verus!
