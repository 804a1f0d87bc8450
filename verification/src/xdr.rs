//! XDR: big-endian, four-byte-aligned encoding of the values that RPC
//! messages are made of.
//!
//! Every encoding is given as a spec function from a value to its bytes, and
//! every decoder as a spec function that splits a byte sequence into the
//! value at its front and the bytes that follow. The executable functions are
//! proved against these.

use vstd::prelude::*;
use vstd::slice::{slice_subrange, slice_to_vec};

verus! {

/// Why a byte sequence does not start with the encoding of a value.
#[derive(Clone, Copy, Debug, PartialEq, Eq, Structural)]
pub enum XdrError {
    /// The input ends before the value does.
    UnexpectedEnd,
    /// A boolean was neither 0 nor 1.
    InvalidBool,
    /// A union tag names no arm of the union.
    InvalidDiscriminant,
    /// A length is above the bound given for it, or does not fit in 32 bits.
    LengthOutOfRange,
    /// Bytes are left over after the last value.
    TrailingBytes,
}

/// Concatenation may be bracketed either way.
pub proof fn lemma_concat_assoc(a: Seq<u8>, b: Seq<u8>, c: Seq<u8>)
    ensures
        (a + b) + c == a + (b + c),
{
    assert((a + b) + c =~= a + (b + c));
}

/// Four bytes in front of a sequence leave its length modulo four as it was.
pub proof fn lemma_word_prefix_len(word: Seq<u8>, rest: Seq<u8>, k: nat)
    requires
        word.len() == 4,
        rest.len() % 4 == k % 4,
    ensures
        (word + rest).len() % 4 == k % 4,
        (word + rest).len() == 4 + rest.len(),
{
}

/// Byte `i` of the four bytes of `v`, byte 0 being the most significant.
#[verifier::opaque]
pub open spec fn be_byte(v: u32, i: int) -> u8 {
    if i == 0 {
        (v / 0x100_0000) as u8
    } else if i == 1 {
        (v / 0x1_0000 % 0x100) as u8
    } else if i == 2 {
        (v / 0x100 % 0x100) as u8
    } else {
        (v % 0x100) as u8
    }
}

/// The four bytes of `v`, most significant first.
pub open spec fn u32_bytes(v: u32) -> Seq<u8> {
    seq![be_byte(v, 0), be_byte(v, 1), be_byte(v, 2), be_byte(v, 3)]
}

/// The number whose big-endian bytes are `b0 b1 b2 b3`.
pub open spec fn u32_of(b0: u8, b1: u8, b2: u8, b3: u8) -> u32 {
    (b0 * 0x100_0000 + b1 * 0x1_0000 + b2 * 0x100 + b3) as u32
}

/// Splits `s` into the 32-bit number at its front and the rest.
#[verifier::opaque]
pub open spec fn take_u32(s: Seq<u8>) -> Result<(u32, Seq<u8>), XdrError> {
    if s.len() < 4 {
        Err(XdrError::UnexpectedEnd)
    } else {
        Ok((u32_of(s[0], s[1], s[2], s[3]), s.skip(4)))
    }
}

/// Appends the encoding of `v` to `out`.
pub fn put_u32(out: &mut Vec<u8>, v: u32)
    ensures
        final(out)@ == old(out)@ + u32_bytes(v),
{
    proof {
        reveal(be_byte);
    }
    out.push((v / 0x100_0000) as u8);
    out.push((v / 0x1_0000 % 0x100) as u8);
    out.push((v / 0x100 % 0x100) as u8);
    out.push((v % 0x100) as u8);
    assert(out@ =~= old(out)@ + u32_bytes(v));
}

/// Reads the 32-bit number at the front of `input`.
pub fn get_u32(input: &[u8]) -> (r: Result<(u32, &[u8]), XdrError>)
    ensures
        match r {
            Ok((v, rest)) => take_u32(input@) == Ok::<(u32, Seq<u8>), XdrError>((v, rest@)),
            Err(e) => take_u32(input@) == Err::<(u32, Seq<u8>), XdrError>(e),
        },
{
    proof {
        reveal(take_u32);
    }
    if input.len() < 4 {
        return Err(XdrError::UnexpectedEnd);
    }
    let b0: u32 = input[0] as u32;
    let b1: u32 = input[1] as u32;
    let b2: u32 = input[2] as u32;
    let b3: u32 = input[3] as u32;
    let v: u32 = b0 * 0x100_0000 + b1 * 0x1_0000 + b2 * 0x100 + b3;
    let rest = slice_subrange(input, 4, input.len());
    Ok((v, rest))
}

/// The four base-256 digits of a 32-bit number make up the number.
proof fn lemma_u32_digits(v: u32)
    ensures
        v / 0x100_0000 < 0x100,
        (v / 0x100_0000) * 0x100_0000 + (v / 0x1_0000 % 0x100) * 0x1_0000 + (v / 0x100 % 0x100)
            * 0x100 + v % 0x100 == v,
{
    assert(v / 0x100_0000 < 0x100) by (bit_vector);
    assert((v / 0x100_0000) * 0x100_0000 + (v / 0x1_0000 % 0x100) * 0x1_0000 + (v / 0x100 % 0x100)
        * 0x100 + v % 0x100 == v) by (bit_vector);
}

/// A number put together from four digits has those digits.
proof fn lemma_u32_of_digits(b0: u8, b1: u8, b2: u8, b3: u8)
    ensures
        u32_bytes(u32_of(b0, b1, b2, b3)) == seq![b0, b1, b2, b3],
{
    reveal(be_byte);
    let v: u32 = u32_of(b0, b1, b2, b3);
    assert(v == b0 as u32 * 0x100_0000 + b1 as u32 * 0x1_0000 + b2 as u32 * 0x100 + b3 as u32);
    assert(v / 0x100_0000 == b0 as u32 && v / 0x1_0000 % 0x100 == b1 as u32 && v / 0x100 % 0x100
        == b2 as u32 && v % 0x100 == b3 as u32) by (bit_vector)
        requires
            v == b0 as u32 * 0x100_0000 + b1 as u32 * 0x1_0000 + b2 as u32 * 0x100 + b3 as u32,
    ;
    assert(u32_bytes(v) =~= seq![b0, b1, b2, b3]);
}

/// Decoding undoes encoding, whatever follows the encoded number.
pub proof fn lemma_u32_round_trip(v: u32, rest: Seq<u8>)
    ensures
        take_u32(u32_bytes(v) + rest) == Ok::<(u32, Seq<u8>), XdrError>((v, rest)),
        u32_bytes(v).len() == 4,
{
    reveal(take_u32);
    reveal(be_byte);
    let s = u32_bytes(v) + rest;
    lemma_u32_digits(v);
    assert(u32_of(s[0], s[1], s[2], s[3]) == v);
    assert(s.skip(4) =~= rest);
}

/// A decoded number was read from its own encoding: the encoding is unique.
pub proof fn lemma_u32_canonical(s: Seq<u8>)
    requires
        take_u32(s) is Ok,
    ensures
        s == u32_bytes(take_u32(s)->Ok_0.0) + take_u32(s)->Ok_0.1,
{
    reveal(take_u32);
    lemma_u32_of_digits(s[0], s[1], s[2], s[3]);
    assert(s =~= seq![s[0], s[1], s[2], s[3]] + s.skip(4));
}

/// The higher half of `v`.
#[verifier::opaque]
pub open spec fn high_word(v: u64) -> u32 {
    (v / 0x1_0000_0000) as u32
}

/// The lower half of `v`.
#[verifier::opaque]
pub open spec fn low_word(v: u64) -> u32 {
    (v % 0x1_0000_0000) as u32
}

/// A number takes four bytes: fewer do not hold one, and what follows a
/// number is four bytes shorter than what the number was read from.
pub proof fn lemma_take_u32_len(s: Seq<u8>)
    ensures
        s.len() < 4 ==> take_u32(s) == Err::<(u32, Seq<u8>), XdrError>(XdrError::UnexpectedEnd),
        s.len() >= 4 ==> take_u32(s) is Ok && take_u32(s)->Ok_0.1 == s.skip(4),
{
    reveal(take_u32);
}

/// A number is read from the first four bytes alone: what follows them is
/// left as it is.
pub proof fn lemma_take_u32_front(s: Seq<u8>, t: Seq<u8>)
    requires
        s.len() >= 4,
    ensures
        take_u32(s + t) == Ok::<(u32, Seq<u8>), XdrError>((take_u32(s)->Ok_0.0, s.skip(4) + t)),
{
    reveal(take_u32);
    assert((s + t).skip(4) =~= s.skip(4) + t);
}

/// The eight bytes of `v`, most significant first.
pub open spec fn u64_bytes(v: u64) -> Seq<u8> {
    u32_bytes(high_word(v)) + u32_bytes(low_word(v))
}

/// Splits `s` into the 64-bit number at its front and the rest.
pub open spec fn take_u64(s: Seq<u8>) -> Result<(u64, Seq<u8>), XdrError> {
    match take_u32(s) {
        Err(e) => Err(e),
        Ok((high, rest)) => match take_u32(rest) {
            Err(e) => Err(e),
            Ok((low, rest)) => Ok(((high * 0x1_0000_0000 + low) as u64, rest)),
        },
    }
}

/// Appends the encoding of `v` to `out`.
pub fn put_u64(out: &mut Vec<u8>, v: u64)
    ensures
        final(out)@ == old(out)@ + u64_bytes(v),
{
    proof {
        reveal(high_word);
        reveal(low_word);
    }
    put_u32(out, (v / 0x1_0000_0000) as u32);
    put_u32(out, (v % 0x1_0000_0000) as u32);
    assert(out@ =~= old(out)@ + u64_bytes(v));
}

/// Reads the 64-bit number at the front of `input`.
pub fn get_u64(input: &[u8]) -> (r: Result<(u64, &[u8]), XdrError>)
    ensures
        match r {
            Ok((v, rest)) => take_u64(input@) == Ok::<(u64, Seq<u8>), XdrError>((v, rest@)),
            Err(e) => take_u64(input@) == Err::<(u64, Seq<u8>), XdrError>(e),
        },
{
    let (high, rest) = get_u32(input)?;
    let (low, rest) = get_u32(rest)?;
    let v: u64 = high as u64 * 0x1_0000_0000 + low as u64;
    Ok((v, rest))
}

/// Decoding undoes encoding, whatever follows the encoded number.
pub proof fn lemma_u64_round_trip(v: u64, rest: Seq<u8>)
    ensures
        take_u64(u64_bytes(v) + rest) == Ok::<(u64, Seq<u8>), XdrError>((v, rest)),
        u64_bytes(v).len() == 8,
{
    reveal(high_word);
    reveal(low_word);
    let high = high_word(v);
    let low = low_word(v);
    lemma_u32_round_trip(high, u32_bytes(low) + rest);
    lemma_u32_round_trip(low, rest);
    assert(u64_bytes(v) + rest =~= u32_bytes(high) + (u32_bytes(low) + rest));
}

/// The eight bytes of `v` in two's complement, most significant first.
pub open spec fn i64_bytes(v: i64) -> Seq<u8> {
    u64_bytes(v as u64)
}

/// Splits `s` into the signed 64-bit number at its front and the rest.
pub open spec fn take_i64(s: Seq<u8>) -> Result<(i64, Seq<u8>), XdrError> {
    match take_u64(s) {
        Err(e) => Err(e),
        Ok((v, rest)) => Ok((v as i64, rest)),
    }
}

/// Appends the encoding of `v` to `out`.
pub fn put_i64(out: &mut Vec<u8>, v: i64)
    ensures
        final(out)@ == old(out)@ + i64_bytes(v),
{
    put_u64(out, #[verifier::truncate] (v as u64));
}

/// Reads the signed 64-bit number at the front of `input`.
pub fn get_i64(input: &[u8]) -> (r: Result<(i64, &[u8]), XdrError>)
    ensures
        match r {
            Ok((v, rest)) => take_i64(input@) == Ok::<(i64, Seq<u8>), XdrError>((v, rest@)),
            Err(e) => take_i64(input@) == Err::<(i64, Seq<u8>), XdrError>(e),
        },
{
    let (v, rest) = get_u64(input)?;
    Ok((#[verifier::truncate] (v as i64), rest))
}

/// Decoding undoes encoding, whatever follows the encoded number.
pub proof fn lemma_i64_round_trip(v: i64, rest: Seq<u8>)
    ensures
        take_i64(i64_bytes(v) + rest) == Ok::<(i64, Seq<u8>), XdrError>((v, rest)),
        i64_bytes(v).len() == 8,
{
    lemma_u64_round_trip(v as u64, rest);
    assert((v as u64) as i64 == v) by (bit_vector);
}

/// A boolean is the number 1 or 0.
pub open spec fn bool_bytes(b: bool) -> Seq<u8> {
    u32_bytes(if b { 1 } else { 0 })
}

/// Splits `s` into the boolean at its front and the rest. Only 0 and 1 are
/// booleans.
pub open spec fn take_bool(s: Seq<u8>) -> Result<(bool, Seq<u8>), XdrError> {
    match take_u32(s) {
        Err(e) => Err(e),
        Ok((v, rest)) => if v == 0 {
            Ok((false, rest))
        } else if v == 1 {
            Ok((true, rest))
        } else {
            Err(XdrError::InvalidBool)
        },
    }
}

/// Appends the encoding of `b` to `out`.
pub fn put_bool(out: &mut Vec<u8>, b: bool)
    ensures
        final(out)@ == old(out)@ + bool_bytes(b),
{
    put_u32(out, if b { 1 } else { 0 });
}

/// Reads the boolean at the front of `input`.
pub fn get_bool(input: &[u8]) -> (r: Result<(bool, &[u8]), XdrError>)
    ensures
        match r {
            Ok((b, rest)) => take_bool(input@) == Ok::<(bool, Seq<u8>), XdrError>((b, rest@)),
            Err(e) => take_bool(input@) == Err::<(bool, Seq<u8>), XdrError>(e),
        },
{
    let (v, rest) = get_u32(input)?;
    if v == 0 {
        Ok((false, rest))
    } else if v == 1 {
        Ok((true, rest))
    } else {
        Err(XdrError::InvalidBool)
    }
}

/// Decoding undoes encoding, whatever follows the encoded boolean.
pub proof fn lemma_bool_round_trip(b: bool, rest: Seq<u8>)
    ensures
        take_bool(bool_bytes(b) + rest) == Ok::<(bool, Seq<u8>), XdrError>((b, rest)),
        bool_bytes(b).len() == 4,
{
    lemma_u32_round_trip(if b { 1 } else { 0 }, rest);
}

/// How many zero bytes follow `len` bytes of data to reach a multiple of four.
pub open spec fn pad_len(len: nat) -> nat {
    ((4 - len % 4) % 4) as nat
}

/// `n` zero bytes.
pub open spec fn zeros(n: nat) -> Seq<u8> {
    Seq::new(n, |i: int| 0u8)
}

/// Variable-length opaque data: the length, the bytes, and zero bytes up to a
/// multiple of four.
#[verifier::opaque]
pub open spec fn opaque_bytes(data: Seq<u8>) -> Seq<u8> {
    u32_bytes(data.len() as u32) + data + zeros(pad_len(data.len()))
}

/// Splits `s` into the opaque data at its front, of at most `max` bytes, and
/// the rest. The padding is skipped whatever it holds.
#[verifier::opaque]
pub open spec fn take_opaque(s: Seq<u8>, max: nat) -> Result<(Seq<u8>, Seq<u8>), XdrError> {
    match take_u32(s) {
        Err(e) => Err(e),
        Ok((n, rest)) => if n > max {
            Err(XdrError::LengthOutOfRange)
        } else if rest.len() < n + pad_len(n as nat) {
            Err(XdrError::UnexpectedEnd)
        } else {
            Ok((rest.take(n as int), rest.skip(n + pad_len(n as nat))))
        },
    }
}

/// Appends the encoding of `data` to `out`, unless its length does not fit in
/// 32 bits.
pub fn put_opaque(out: &mut Vec<u8>, data: &[u8]) -> (r: Result<(), XdrError>)
    ensures
        r is Ok <==> data@.len() <= u32::MAX,
        r is Ok ==> final(out)@ == old(out)@ + opaque_bytes(data@),
        r is Err ==> r == Err::<(), XdrError>(XdrError::LengthOutOfRange) && final(out)@ == old(out)@,
{
    proof {
        reveal(opaque_bytes);
    }
    if data.len() > u32::MAX as usize {
        return Err(XdrError::LengthOutOfRange);
    }
    put_u32(out, data.len() as u32);
    out.extend_from_slice(data);
    let pad: usize = (4 - data.len() % 4) % 4;
    let ghost body = out@;
    let mut i: usize = 0;
    while i < pad
        invariant
            i <= pad,
            out@ == body + zeros(i as nat),
        decreases pad - i,
    {
        out.push(0u8);
        i += 1;
        assert(out@ =~= body + zeros(i as nat));
    }
    assert(out@ =~= old(out)@ + opaque_bytes(data@));
    Ok(())
}

/// Reads the opaque data at the front of `input`, of at most `max` bytes.
pub fn get_opaque(input: &[u8], max: u32) -> (r: Result<(Vec<u8>, &[u8]), XdrError>)
    ensures
        match r {
            Ok((data, rest)) => take_opaque(input@, max as nat) == Ok::<
                (Seq<u8>, Seq<u8>),
                XdrError,
            >((data@, rest@)),
            Err(e) => take_opaque(input@, max as nat) == Err::<(Seq<u8>, Seq<u8>), XdrError>(e),
        },
        r matches Ok((data, _)) ==> data@.len() <= max,
{
    proof {
        reveal(take_opaque);
    }
    let (n, rest) = get_u32(input)?;
    if n > max {
        return Err(XdrError::LengthOutOfRange);
    }
    let len: usize = n as usize;
    let pad: usize = (4 - len % 4) % 4;
    if rest.len() < len || rest.len() - len < pad {
        return Err(XdrError::UnexpectedEnd);
    }
    let data = slice_to_vec(slice_subrange(rest, 0, len));
    let after = slice_subrange(rest, len + pad, rest.len());
    Ok((data, after))
}

/// Decoding undoes encoding, whatever follows the encoded data.
pub proof fn lemma_opaque_round_trip(data: Seq<u8>, rest: Seq<u8>, max: nat)
    requires
        data.len() <= max,
        data.len() <= u32::MAX,
    ensures
        take_opaque(opaque_bytes(data) + rest, max) == Ok::<(Seq<u8>, Seq<u8>), XdrError>(
            (data, rest),
        ),
{
    reveal(opaque_bytes);
    reveal(take_opaque);
    let n = data.len() as u32;
    let tail = data + zeros(pad_len(data.len())) + rest;
    lemma_u32_round_trip(n, tail);
    assert(opaque_bytes(data) + rest =~= u32_bytes(n) + tail);
    assert(tail.take(n as int) =~= data);
    assert(tail.skip(n + pad_len(n as nat)) =~= rest);
}

/// A multiple of four added to a number leaves its remainder by four.
pub proof fn lemma_sum_aligned(a: int, b: int)
    by (nonlinear_arith)
    requires
        a % 4 == 0,
    ensures
        (a + b) % 4 == b % 4,
{
}

/// Two sequences of whole words make a sequence of whole words.
pub proof fn lemma_concat_aligned(a: Seq<u8>, b: Seq<u8>)
    requires
        a.len() % 4 == 0,
        b.len() % 4 == 0,
    ensures
        (a + b).len() % 4 == 0,
{
    lemma_sum_aligned(a.len() as int, b.len() as int);
}

/// Data and its padding together are a multiple of four bytes long.
pub proof fn lemma_padded(len: nat)
    by (nonlinear_arith)
    ensures
        (len + pad_len(len)) % 4 == 0,
        pad_len(len) < 4,
{
}

/// Encoded opaque data ends on a four-byte boundary.
pub proof fn lemma_opaque_aligned(data: Seq<u8>)
    ensures
        opaque_bytes(data).len() == 4 + data.len() + pad_len(data.len()),
        opaque_bytes(data).len() % 4 == 0,
{
    reveal(opaque_bytes);
    let n = data.len();
    let total = opaque_bytes(data).len() as int;
    assert(u32_bytes(n as u32).len() == 4);
    assert(zeros(pad_len(n)).len() == pad_len(n));
    assert(total == 4 + n + pad_len(n));
    lemma_padded(n);
    lemma_sum_aligned((n + pad_len(n)) as int, 4);
}

/// The encodings of `items`, one after the other.
#[verifier::opaque]
pub open spec fn u32s_bytes(items: Seq<u32>) -> Seq<u8> {
    Seq::new(4 * items.len(), |j: int| u32_bytes(items[j / 4])[j % 4])
}

/// Splits `s` into `count` 32-bit numbers and the rest.
#[verifier::opaque]
pub open spec fn take_u32s(s: Seq<u8>, count: nat) -> Result<(Seq<u32>, Seq<u8>), XdrError> {
    if s.len() < 4 * count {
        Err(XdrError::UnexpectedEnd)
    } else {
        Ok(
            (
                Seq::new(count, |i: int| u32_of(s[4 * i], s[4 * i + 1], s[4 * i + 2], s[4 * i + 3])),
                s.skip(4 * count as int),
            ),
        )
    }
}

/// A counted array of 32-bit numbers: the count, then the numbers.
#[verifier::opaque]
pub open spec fn u32_array_bytes(items: Seq<u32>) -> Seq<u8> {
    u32_bytes(items.len() as u32) + u32s_bytes(items)
}

/// Splits `s` into the counted array at its front, of at most `max` numbers,
/// and the rest.
#[verifier::opaque]
pub open spec fn take_u32_array(s: Seq<u8>, max: nat) -> Result<(Seq<u32>, Seq<u8>), XdrError> {
    match take_u32(s) {
        Err(e) => Err(e),
        Ok((n, rest)) => if n > max {
            Err(XdrError::LengthOutOfRange)
        } else {
            take_u32s(rest, n as nat)
        },
    }
}

/// Encoding one more number appends its four bytes.
pub proof fn lemma_u32s_bytes_push(items: Seq<u32>, v: u32)
    ensures
        u32s_bytes(items.push(v)) == u32s_bytes(items) + u32_bytes(v),
{
    reveal(u32s_bytes);
    let a = u32s_bytes(items.push(v));
    let b = u32s_bytes(items) + u32_bytes(v);
    assert(a.len() == b.len());
    assert forall|j: int| 0 <= j < a.len() implies a[j] == b[j] by {
        if j < 4 * items.len() {
            assert(j / 4 < items.len());
            assert(items.push(v)[j / 4] == items[j / 4]);
        } else {
            assert(j / 4 == items.len());
            assert(j % 4 == j - 4 * items.len());
            assert(items.push(v)[j / 4] == v);
        }
    }
    assert(a =~= b);
}

/// Appends the encoding of the array `items` to `out`, unless its length does
/// not fit in 32 bits.
pub fn put_u32_array(out: &mut Vec<u8>, items: &[u32]) -> (r: Result<(), XdrError>)
    ensures
        r is Ok <==> items@.len() <= u32::MAX,
        r is Ok ==> final(out)@ == old(out)@ + u32_array_bytes(items@),
        r is Err ==> r == Err::<(), XdrError>(XdrError::LengthOutOfRange) && final(out)@ == old(out)@,
{
    proof {
        reveal(u32s_bytes);
        reveal(u32_array_bytes);
    }
    if items.len() > u32::MAX as usize {
        return Err(XdrError::LengthOutOfRange);
    }
    put_u32(out, items.len() as u32);
    let ghost head = out@;
    let mut i: usize = 0;
    assert(out@ =~= head + u32s_bytes(items@.take(0)));
    while i < items.len()
        invariant
            i <= items.len(),
            out@ == head + u32s_bytes(items@.take(i as int)),
        decreases items.len() - i,
    {
        proof {
            lemma_u32s_bytes_push(items@.take(i as int), items@[i as int]);
            assert(items@.take(i as int).push(items@[i as int]) =~= items@.take(i + 1));
        }
        put_u32(out, items[i]);
        i += 1;
        assert(out@ =~= head + u32s_bytes(items@.take(i as int)));
    }
    assert(items@.take(i as int) =~= items@);
    assert(out@ =~= old(out)@ + u32_array_bytes(items@));
    Ok(())
}

/// Reads the counted array at the front of `input`, of at most `max` numbers.
pub fn get_u32_array(input: &[u8], max: u32) -> (r: Result<(Vec<u32>, &[u8]), XdrError>)
    ensures
        match r {
            Ok((items, rest)) => take_u32_array(input@, max as nat) == Ok::<
                (Seq<u32>, Seq<u8>),
                XdrError,
            >((items@, rest@)),
            Err(e) => take_u32_array(input@, max as nat) == Err::<(Seq<u32>, Seq<u8>), XdrError>(
                e,
            ),
        },
        r matches Ok((items, _)) ==> items@.len() <= max,
{
    proof {
        reveal(take_u32s);
        reveal(take_u32_array);
    }
    let (n, rest) = get_u32(input)?;
    if n > max {
        return Err(XdrError::LengthOutOfRange);
    }
    let count: usize = n as usize;
    if rest.len() / 4 < count {
        return Err(XdrError::UnexpectedEnd);
    }
    let mut items: Vec<u32> = Vec::new();
    let mut i: usize = 0;
    while i < count
        invariant
            i <= count,
            4 * count <= rest.len(),
            items@ == take_u32s(rest@, i as nat)->Ok_0.0,
        decreases count - i,
    {
        let b0: u32 = rest[4 * i] as u32;
        let b1: u32 = rest[4 * i + 1] as u32;
        let b2: u32 = rest[4 * i + 2] as u32;
        let b3: u32 = rest[4 * i + 3] as u32;
        items.push(b0 * 0x100_0000 + b1 * 0x1_0000 + b2 * 0x100 + b3);
        i += 1;
        proof {
            reveal(take_u32s);
        }
        assert(items@ =~= take_u32s(rest@, i as nat)->Ok_0.0);
    }
    let after = slice_subrange(rest, 4 * count, rest.len());
    Ok((items, after))
}

/// Byte `k` of item `i` stands at place `4 * i + k` of the items' encoding.
proof fn lemma_u32s_bytes_index(items: Seq<u32>, i: int, k: int)
    requires
        0 <= i < items.len(),
        0 <= k < 4,
    ensures
        u32s_bytes(items)[4 * i + k] == u32_bytes(items[i])[k],
{
    reveal(u32s_bytes);
    assert((4 * i + k) / 4 == i);
    assert((4 * i + k) % 4 == k);
}

/// A number is put together again from the bytes of its encoding.
proof fn lemma_u32_of_bytes(v: u32)
    ensures
        u32_of(u32_bytes(v)[0], u32_bytes(v)[1], u32_bytes(v)[2], u32_bytes(v)[3]) == v,
{
    reveal(be_byte);
    lemma_u32_digits(v);
}

/// Decoding undoes encoding, whatever follows the encoded array.
pub proof fn lemma_u32_array_round_trip(items: Seq<u32>, rest: Seq<u8>, max: nat)
    requires
        items.len() <= max,
        items.len() <= u32::MAX,
    ensures
        take_u32_array(u32_array_bytes(items) + rest, max) == Ok::<(Seq<u32>, Seq<u8>), XdrError>(
            (items, rest),
        ),
        u32_array_bytes(items).len() == 4 + 4 * items.len(),
{
    reveal(u32s_bytes);
    reveal(take_u32s);
    reveal(u32_array_bytes);
    reveal(take_u32_array);
    let n = items.len() as u32;
    let tail = u32s_bytes(items) + rest;
    lemma_u32_round_trip(n, tail);
    assert(u32_array_bytes(items) + rest =~= u32_bytes(n) + tail);
    let got = take_u32s(tail, n as nat)->Ok_0.0;
    assert(got.len() == items.len());
    assert forall|i: int| 0 <= i < items.len() implies got[i] == items[i] by {
        lemma_u32s_bytes_index(items, i, 0);
        lemma_u32s_bytes_index(items, i, 1);
        lemma_u32s_bytes_index(items, i, 2);
        lemma_u32s_bytes_index(items, i, 3);
        lemma_u32_of_bytes(items[i]);
        assert(tail[4 * i] == u32_bytes(items[i])[0]);
        assert(tail[4 * i + 1] == u32_bytes(items[i])[1]);
        assert(tail[4 * i + 2] == u32_bytes(items[i])[2]);
        assert(tail[4 * i + 3] == u32_bytes(items[i])[3]);
    }
    assert(got =~= items);
    assert(tail.skip(4 * n) =~= rest);
}

/// Accepts `input` only if nothing is left of it.
pub fn expect_end(input: &[u8]) -> (r: Result<(), XdrError>)
    ensures
        r == (if input@.len() == 0 {
            Ok::<(), XdrError>(())
        } else {
            Err::<(), XdrError>(XdrError::TrailingBytes)
        }),
{
    if input.len() == 0 {
        Ok(())
    } else {
        Err(XdrError::TrailingBytes)
    }
}

} // verus!
