//! COMPOUND requests on the wire: a tag, the minor version, and the
//! operations, each as its number and its arguments.

use crate::attr_codec::{
    attributes_bytes, attributes_encodable, bitmap_words, lemma_attributes_aligned,
    lemma_bitmap_bits, put_attributes, put_bitmap, put_text, request_bitmap_bytes,
    MAX_HANDLE_BYTES,
};
use crate::attr_codec::{
    get_attributes, get_bitmap, get_text, lemma_attributes_round_trip, lemma_bitmap_round_trip,
    lemma_text_round_trip, take_attributes, take_bitmap, take_text, AttrFault,
};
use crate::attrs::{AttrModel, FileAttributeId, FileHandle};
use crate::compound::OpCode;
use crate::response::{get_state_id, lemma_state_id_round_trip, take_state_id};
use crate::xdr::{
    expect_end, get_opaque, get_u32, get_u64, lemma_opaque_round_trip, take_opaque, take_u32,
    take_u64, XdrError,
};
use crate::compound::{models, Operation, OperationModel, StateId};
use crate::xdr::{
    lemma_concat_aligned, lemma_concat_assoc, lemma_opaque_aligned, lemma_u32_array_round_trip,
    lemma_u32_round_trip, lemma_u64_round_trip, opaque_bytes, put_opaque, put_u32, put_u64,
    u32_array_bytes, u32_bytes, u64_bytes,
};
use vstd::prelude::*;
use vstd::utf8::encode_utf8;

verus! {

/// The minor version of NFS version 4 that the requests are for.
pub const MINOR_VERSION: u32 = 0;

/// The most bytes the name of an open owner may have.
pub const MAX_OWNER_BYTES: u32 = 1024;

/// Opening a file for writing.
pub const SHARE_ACCESS_WRITE: u32 = 2;

/// Opening a file without keeping others from it.
pub const SHARE_DENY_NONE: u32 = 0;

/// Opening a file and creating it where it is not there.
pub const OPEN_CREATE: u32 = 1;

/// Creating a file without failing where it is there already.
pub const CREATE_UNCHECKED: u32 = 0;

/// Opening a file by its name in the current directory.
pub const CLAIM_NULL: u32 = 0;

/// Writing to stable storage before the reply.
pub const FILE_SYNC: u32 = 2;

/// The encoding of a state id: its four words.
#[verifier::opaque]
pub open spec fn state_id_bytes(id: StateId) -> Seq<u8> {
    u32_bytes(id.sequence_id) + u32_bytes(id.first) + u32_bytes(id.second) + u32_bytes(id.third)
}

/// The encoding of a text: its UTF-8 bytes as opaque data.
pub open spec fn text_bytes(text: Seq<char>) -> Seq<u8> {
    opaque_bytes(encode_utf8(text))
}

/// Whether a text is short enough to be sent.
pub open spec fn text_encodable(text: Seq<char>) -> bool {
    encode_utf8(text).len() <= u32::MAX
}

/// The encoding of the arguments of an operation.
#[verifier::opaque]
pub open spec fn arguments_bytes(op: OperationModel) -> Seq<u8> {
    match op {
        OperationModel::PutRootFh => Seq::empty(),
        OperationModel::PutFh(handle) => opaque_bytes(handle),
        OperationModel::LookUp(name) => text_bytes(name),
        OperationModel::GetFh => Seq::empty(),
        OperationModel::GetAttr(request) => request_bitmap_bytes(request),
        OperationModel::SetAttr(attrs) => state_id_bytes(StateId::anonymous_id())
            + attributes_bytes(attrs),
        OperationModel::ReadDir { cookie, cookie_verifier, dir_count, max_count, request } => {
            u64_bytes(cookie) + u64_bytes(cookie_verifier) + u32_bytes(dir_count) + u32_bytes(
                max_count,
            ) + request_bitmap_bytes(request)
        },
        OperationModel::Open { seqid, client_id, owner, name, attrs } => {
            u32_bytes(seqid) + u32_bytes(SHARE_ACCESS_WRITE) + u32_bytes(SHARE_DENY_NONE)
                + u64_bytes(client_id) + opaque_bytes(owner) + u32_bytes(OPEN_CREATE) + u32_bytes(
                CREATE_UNCHECKED,
            ) + attributes_bytes(attrs) + u32_bytes(CLAIM_NULL) + text_bytes(name)
        },
        OperationModel::Close { seqid, state_id } => u32_bytes(seqid) + state_id_bytes(state_id),
        OperationModel::Remove(name) => text_bytes(name),
        OperationModel::Read { offset, count } => state_id_bytes(StateId::anonymous_id())
            + u64_bytes(offset) + u32_bytes(count),
        OperationModel::Write { offset, data } => state_id_bytes(StateId::anonymous_id())
            + u64_bytes(offset) + u32_bytes(FILE_SYNC) + opaque_bytes(data),
        OperationModel::Commit { offset, count } => u64_bytes(offset) + u32_bytes(count),
    }
}

/// Whether the operation can be sent: its handle, texts, attributes and data
/// are within the bounds of the protocol.
pub open spec fn operation_encodable(op: OperationModel) -> bool {
    match op {
        OperationModel::PutFh(handle) => handle.len() <= MAX_HANDLE_BYTES,
        OperationModel::LookUp(name) => text_encodable(name),
        OperationModel::SetAttr(attrs) => attributes_encodable(attrs),
        OperationModel::Open { seqid, client_id, owner, name, attrs } => owner.len()
            <= MAX_OWNER_BYTES && text_encodable(name) && attributes_encodable(attrs),
        OperationModel::Remove(name) => text_encodable(name),
        OperationModel::Write { offset, data } => data.len() <= u32::MAX,
        _ => true,
    }
}

/// The encoding of an operation: its number, then its arguments.
pub open spec fn operation_bytes(op: OperationModel) -> Seq<u8> {
    u32_bytes(op.code().number()) + arguments_bytes(op)
}

/// The encodings of the operations, one after the other.
pub open spec fn operations_bytes(ops: Seq<OperationModel>) -> Seq<u8>
    decreases ops.len(),
{
    if ops.len() == 0 {
        Seq::empty()
    } else {
        operations_bytes(ops.drop_last()) + operation_bytes(ops.last())
    }
}

/// The encoding of a request: the tag, the minor version, which is 0, the
/// number of operations, and the operations.
pub open spec fn request_bytes(tag: Seq<u8>, ops: Seq<OperationModel>) -> Seq<u8> {
    opaque_bytes(tag) + u32_bytes(MINOR_VERSION) + u32_bytes(ops.len() as u32) + operations_bytes(
        ops,
    )
}

/// Why a request cannot be sent.
#[derive(Clone, Copy, Debug, PartialEq, Eq, Structural)]
pub enum RequestFault {
    /// The tag is longer than 32 bits can count.
    TagTooLong,
    /// There are more operations than 32 bits can count.
    TooManyOperations,
    /// The operation at this place cannot be sent.
    Operation(usize),
}

/// Why the request with this tag and these operations cannot be sent, if it
/// cannot: the first reason in the order of the request.
pub open spec fn request_fault(tag: Seq<u8>, ops: Seq<OperationModel>) -> Option<RequestFault> {
    if tag.len() > u32::MAX {
        Some(RequestFault::TagTooLong)
    } else if ops.len() > u32::MAX {
        Some(RequestFault::TooManyOperations)
    } else if exists|i: int| 0 <= i < ops.len() && !operation_encodable(#[trigger] ops[i]) {
        Some(RequestFault::Operation(first_unencodable(ops) as usize))
    } else {
        None
    }
}

/// The place of the first operation that cannot be sent.
pub open spec fn first_unencodable(ops: Seq<OperationModel>) -> int {
    choose|i: int|
        0 <= i < ops.len() && !operation_encodable(#[trigger] ops[i]) && forall|j: int|
            0 <= j < i ==> operation_encodable(#[trigger] ops[j])
}

/// Appends the encoding of a state id to `out`.
pub fn put_state_id(out: &mut Vec<u8>, id: StateId)
    ensures
        final(out)@ == old(out)@ + state_id_bytes(id),
{
    proof {
        reveal(state_id_bytes);
    }
    put_u32(out, id.sequence_id);
    put_u32(out, id.first);
    put_u32(out, id.second);
    put_u32(out, id.third);
    assert(out@ =~= old(out)@ + state_id_bytes(id));
}

/// Appends the arguments of `op` to `out` and says whether the operation can
/// be sent. Where it cannot, `out` holds no more than some of the arguments.
fn put_arguments(out: &mut Vec<u8>, op: &Operation) -> (r: bool)
    ensures
        r == operation_encodable(op@),
        r ==> final(out)@ == old(out)@ + arguments_bytes(op@),
{
    proof {
        reveal(arguments_bytes);
    }
    match op {
        Operation::PutRootFh => {
            assert(out@ =~= old(out)@ + arguments_bytes(op@));
            true
        },
        Operation::PutFh(handle) => {
            if handle.0.len() > MAX_HANDLE_BYTES as usize {
                return false;
            }
            let _ = put_opaque(out, handle.0.as_slice());
            true
        },
        Operation::LookUp(name) => put_text(out, name.as_str()).is_ok(),
        Operation::GetFh => {
            assert(out@ =~= old(out)@ + arguments_bytes(op@));
            true
        },
        Operation::GetAttr(request) => {
            put_bitmap(out, request);
            true
        },
        Operation::SetAttr(attrs) => {
            put_state_id(out, StateId::anonymous());
            let done = put_attributes(out, attrs).is_ok();
            proof {
                lemma_concat_assoc(
                    old(out)@,
                    state_id_bytes(StateId::anonymous_id()),
                    attributes_bytes(attrs@),
                );
            }
            done
        },
        Operation::ReadDir { cookie, cookie_verifier, dir_count, max_count, request } => {
            put_u64(out, *cookie);
            put_u64(out, *cookie_verifier);
            put_u32(out, *dir_count);
            put_u32(out, *max_count);
            put_bitmap(out, request);
            assert(out@ =~= old(out)@ + arguments_bytes(op@));
            true
        },
        Operation::Open { seqid, client_id, owner, name, attrs } => {
            if owner.len() > MAX_OWNER_BYTES as usize {
                return false;
            }
            put_u32(out, *seqid);
            put_u32(out, SHARE_ACCESS_WRITE);
            put_u32(out, SHARE_DENY_NONE);
            put_u64(out, *client_id);
            let _ = put_opaque(out, owner.as_slice());
            put_u32(out, OPEN_CREATE);
            put_u32(out, CREATE_UNCHECKED);
            if put_attributes(out, attrs).is_err() {
                return false;
            }
            put_u32(out, CLAIM_NULL);
            if put_text(out, name.as_str()).is_err() {
                return false;
            }
            assert(out@ =~= old(out)@ + arguments_bytes(op@));
            true
        },
        Operation::Close { seqid, state_id } => {
            put_u32(out, *seqid);
            put_state_id(out, *state_id);
            assert(out@ =~= old(out)@ + arguments_bytes(op@));
            true
        },
        Operation::Remove(name) => put_text(out, name.as_str()).is_ok(),
        Operation::Read { offset, count } => {
            put_state_id(out, StateId::anonymous());
            put_u64(out, *offset);
            put_u32(out, *count);
            assert(out@ =~= old(out)@ + arguments_bytes(op@));
            true
        },
        Operation::Write { offset, data } => {
            if data.len() > u32::MAX as usize {
                return false;
            }
            put_state_id(out, StateId::anonymous());
            put_u64(out, *offset);
            put_u32(out, FILE_SYNC);
            let _ = put_opaque(out, data.as_slice());
            assert(out@ =~= old(out)@ + arguments_bytes(op@));
            true
        },
        Operation::Commit { offset, count } => {
            put_u64(out, *offset);
            put_u32(out, *count);
            assert(out@ =~= old(out)@ + arguments_bytes(op@));
            true
        },
    }
}

/// The encoding of one operation, unless it cannot be sent.
pub fn encode_operation(op: &Operation) -> (r: Option<Vec<u8>>)
    ensures
        match r {
            Some(bytes) => operation_encodable(op@) && bytes@ == operation_bytes(op@),
            None => !operation_encodable(op@),
        },
{
    let mut out: Vec<u8> = Vec::new();
    put_u32(&mut out, op.code().to_number());
    if put_arguments(&mut out, op) {
        assert(out@ =~= operation_bytes(op@));
        Some(out)
    } else {
        None
    }
}

/// The encoding of the request with the tag `tag` and the operations `ops`,
/// or the first reason why it cannot be sent.
pub fn encode_request(tag: &[u8], ops: &[Operation]) -> (r: Result<Vec<u8>, RequestFault>)
    ensures
        match r {
            Ok(bytes) => request_fault(tag@, models(ops@)) is None && bytes@ == request_bytes(
                tag@,
                models(ops@),
            ),
            Err(fault) => request_fault(tag@, models(ops@)) == Some(fault),
        },
{
    let ghost all = models(ops@);
    if tag.len() > u32::MAX as usize {
        return Err(RequestFault::TagTooLong);
    }
    if ops.len() > u32::MAX as usize {
        return Err(RequestFault::TooManyOperations);
    }
    let mut out: Vec<u8> = Vec::new();
    let _ = put_opaque(&mut out, tag);
    put_u32(&mut out, MINOR_VERSION);
    put_u32(&mut out, ops.len() as u32);
    let ghost head = out@;
    let mut i: usize = 0;
    assert(all.take(0) =~= Seq::<OperationModel>::empty());
    assert(out@ =~= head + operations_bytes(all.take(0)));
    while i < ops.len()
        invariant
            i <= ops.len(),
            all == models(ops@),
            all.len() == ops.len(),
            tag@.len() <= u32::MAX,
            ops@.len() <= u32::MAX,
            head == opaque_bytes(tag@) + u32_bytes(MINOR_VERSION) + u32_bytes(ops@.len() as u32),
            out@ == head + operations_bytes(all.take(i as int)),
            forall|j: int| 0 <= j < i ==> operation_encodable(#[trigger] all[j]),
        decreases ops.len() - i,
    {
        match encode_operation(&ops[i]) {
            None => {
                proof {
                    assert(!operation_encodable(all[i as int]));
                    let k = first_unencodable(all);
                    assert(0 <= k < all.len() && !operation_encodable(all[k]) && forall|j: int|
                        0 <= j < k ==> operation_encodable(#[trigger] all[j]));
                    if k < i {
                        assert(operation_encodable(all[k]));
                    }
                    if i < k {
                        assert(operation_encodable(all[i as int]));
                    }
                }
                return Err(RequestFault::Operation(i));
            },
            Some(piece) => {
                out.extend_from_slice(piece.as_slice());
                proof {
                    let before = all.take(i as int);
                    let now = all.take(i + 1);
                    assert(now.drop_last() =~= before);
                    assert(now.last() == all[i as int]);
                    lemma_concat_assoc(head, operations_bytes(before), operation_bytes(all[i as int]));
                }
            },
        }
        i += 1;
    }
    assert(all.take(i as int) =~= all);
    proof {
        lemma_concat_assoc(
            opaque_bytes(tag@) + u32_bytes(MINOR_VERSION),
            u32_bytes(ops@.len() as u32),
            operations_bytes(all),
        );
    }
    assert(out@ =~= request_bytes(tag@, all));
    Ok(out)
}

/// A number is a whole word.
pub proof fn lemma_u32_aligned(v: u32)
    ensures
        u32_bytes(v).len() % 4 == 0,
{
    lemma_u32_round_trip(v, Seq::empty());
}

/// A long number is two whole words.
pub proof fn lemma_u64_aligned(v: u64)
    ensures
        u64_bytes(v).len() % 4 == 0,
{
    lemma_u64_round_trip(v, Seq::empty());
}

/// A state id is four whole words.
pub proof fn lemma_state_id_aligned(id: StateId)
    ensures
        state_id_bytes(id).len() % 4 == 0,
{
    reveal(state_id_bytes);
    lemma_u32_aligned(id.sequence_id);
    lemma_u32_aligned(id.first);
    lemma_u32_aligned(id.second);
    lemma_u32_aligned(id.third);
    lemma_concat_aligned(u32_bytes(id.sequence_id), u32_bytes(id.first));
    lemma_concat_aligned(u32_bytes(id.sequence_id) + u32_bytes(id.first), u32_bytes(id.second));
    lemma_concat_aligned(
        u32_bytes(id.sequence_id) + u32_bytes(id.first) + u32_bytes(id.second),
        u32_bytes(id.third),
    );
}

/// A bitmap is whole words.
proof fn lemma_bitmap_aligned(keys: Set<FileAttributeId>)
    ensures
        u32_array_bytes(bitmap_words(keys)).len() % 4 == 0,
{
    let words = bitmap_words(keys);
    lemma_bitmap_bits(keys, 0);
    lemma_u32_array_round_trip(words, Seq::empty(), u32::MAX as nat);
    let count = words.len() as int;
    let len = u32_array_bytes(words).len() as int;
    assert(len % 4 == 0) by (nonlinear_arith)
        requires
            len == 4 + 4 * count,
    ;
}

/// The arguments of an operation are whole words.
pub proof fn lemma_arguments_aligned(op: OperationModel)
    ensures
        arguments_bytes(op).len() % 4 == 0,
{
    reveal(arguments_bytes);
    match op {
        OperationModel::PutRootFh => {},
        OperationModel::PutFh(handle) => {
            lemma_opaque_aligned(handle);
        },
        OperationModel::LookUp(name) => {
            lemma_opaque_aligned(encode_utf8(name));
        },
        OperationModel::GetFh => {},
        OperationModel::GetAttr(request) => {
            lemma_bitmap_aligned(request);
        },
        OperationModel::SetAttr(attrs) => {
            lemma_state_id_aligned(StateId::anonymous_id());
            lemma_attributes_aligned(attrs);
            lemma_concat_aligned(state_id_bytes(StateId::anonymous_id()), attributes_bytes(attrs));
        },
        OperationModel::ReadDir { cookie, cookie_verifier, dir_count, max_count, request } => {
            let a = u64_bytes(cookie);
            let b = u64_bytes(cookie_verifier);
            let c = u32_bytes(dir_count);
            let d = u32_bytes(max_count);
            let e = u32_array_bytes(bitmap_words(request));
            lemma_u64_aligned(cookie);
            lemma_u64_aligned(cookie_verifier);
            lemma_u32_aligned(dir_count);
            lemma_u32_aligned(max_count);
            lemma_bitmap_aligned(request);
            lemma_concat_aligned(a, b);
            lemma_concat_aligned(a + b, c);
            lemma_concat_aligned(a + b + c, d);
            lemma_concat_aligned(a + b + c + d, e);
        },
        OperationModel::Open { seqid, client_id, owner, name, attrs } => {
            let a = u32_bytes(seqid);
            let b = u32_bytes(SHARE_ACCESS_WRITE);
            let c = u32_bytes(SHARE_DENY_NONE);
            let d = u64_bytes(client_id);
            let e = opaque_bytes(owner);
            let f = u32_bytes(OPEN_CREATE);
            let g = u32_bytes(CREATE_UNCHECKED);
            let h = attributes_bytes(attrs);
            let i = u32_bytes(CLAIM_NULL);
            let j = text_bytes(name);
            lemma_u32_aligned(seqid);
            lemma_u32_aligned(SHARE_ACCESS_WRITE);
            lemma_u32_aligned(SHARE_DENY_NONE);
            lemma_u64_aligned(client_id);
            lemma_opaque_aligned(owner);
            lemma_u32_aligned(OPEN_CREATE);
            lemma_u32_aligned(CREATE_UNCHECKED);
            lemma_attributes_aligned(attrs);
            lemma_u32_aligned(CLAIM_NULL);
            lemma_opaque_aligned(encode_utf8(name));
            lemma_concat_aligned(a, b);
            lemma_concat_aligned(a + b, c);
            lemma_concat_aligned(a + b + c, d);
            lemma_concat_aligned(a + b + c + d, e);
            lemma_concat_aligned(a + b + c + d + e, f);
            lemma_concat_aligned(a + b + c + d + e + f, g);
            lemma_concat_aligned(a + b + c + d + e + f + g, h);
            lemma_concat_aligned(a + b + c + d + e + f + g + h, i);
            lemma_concat_aligned(a + b + c + d + e + f + g + h + i, j);
        },
        OperationModel::Close { seqid, state_id } => {
            lemma_u32_aligned(seqid);
            lemma_state_id_aligned(state_id);
            lemma_concat_aligned(u32_bytes(seqid), state_id_bytes(state_id));
        },
        OperationModel::Remove(name) => {
            lemma_opaque_aligned(encode_utf8(name));
        },
        OperationModel::Read { offset, count } => {
            let a = state_id_bytes(StateId::anonymous_id());
            lemma_state_id_aligned(StateId::anonymous_id());
            lemma_u64_aligned(offset);
            lemma_u32_aligned(count);
            lemma_concat_aligned(a, u64_bytes(offset));
            lemma_concat_aligned(a + u64_bytes(offset), u32_bytes(count));
        },
        OperationModel::Write { offset, data } => {
            let a = state_id_bytes(StateId::anonymous_id());
            lemma_state_id_aligned(StateId::anonymous_id());
            lemma_u64_aligned(offset);
            lemma_u32_aligned(FILE_SYNC);
            lemma_opaque_aligned(data);
            lemma_concat_aligned(a, u64_bytes(offset));
            lemma_concat_aligned(a + u64_bytes(offset), u32_bytes(FILE_SYNC));
            lemma_concat_aligned(a + u64_bytes(offset) + u32_bytes(FILE_SYNC), opaque_bytes(data));
        },
        OperationModel::Commit { offset, count } => {
            lemma_u64_aligned(offset);
            lemma_u32_aligned(count);
            lemma_concat_aligned(u64_bytes(offset), u32_bytes(count));
        },
    }
}

/// The operations of a request are whole words.
pub proof fn lemma_operations_aligned(ops: Seq<OperationModel>)
    ensures
        operations_bytes(ops).len() % 4 == 0,
    decreases ops.len(),
{
    if ops.len() > 0 {
        let op = ops.last();
        lemma_operations_aligned(ops.drop_last());
        lemma_u32_aligned(op.code().number());
        lemma_arguments_aligned(op);
        lemma_concat_aligned(u32_bytes(op.code().number()), arguments_bytes(op));
        lemma_concat_aligned(operations_bytes(ops.drop_last()), operation_bytes(op));
    }
}

/// The encoding of a request is a multiple of four bytes long.
pub proof fn lemma_request_aligned(tag: Seq<u8>, ops: Seq<OperationModel>)
    ensures
        request_bytes(tag, ops).len() % 4 == 0,
{
    let a = opaque_bytes(tag);
    let b = u32_bytes(MINOR_VERSION);
    let c = u32_bytes(ops.len() as u32);
    lemma_opaque_aligned(tag);
    lemma_u32_aligned(MINOR_VERSION);
    lemma_u32_aligned(ops.len() as u32);
    lemma_operations_aligned(ops);
    lemma_concat_aligned(a, b);
    lemma_concat_aligned(a + b, c);
    lemma_concat_aligned(a + b + c, operations_bytes(ops));
}

/// Why bytes are not a request that this library could have sent.
#[derive(Clone, Copy, Debug, PartialEq, Eq, Structural)]
pub enum ParseFault {
    /// The bytes are not well-formed XDR, or a length is out of its bounds.
    Malformed(XdrError),
    /// Attributes in the request cannot be read.
    Attribute(AttrFault),
    /// The request holds an operation that this library does not send.
    UnknownOperation(u32),
    /// The request holds an argument that this library does not send: another
    /// minor version, state id, way of opening or of writing.
    Unsupported,
}

/// Splits `s` into the arguments of a setting of attributes and the rest.
#[verifier::opaque]
pub open spec fn take_set_attr(s: Seq<u8>) -> Result<(OperationModel, Seq<u8>), ParseFault> {
    match take_state_id(s) {
        Err(e) => Err(ParseFault::Malformed(e)),
        Ok((id, rest)) => if id != StateId::anonymous_id() {
            Err(ParseFault::Unsupported)
        } else {
            match take_attributes(rest) {
                Err(e) => Err(ParseFault::Attribute(e)),
                Ok((attrs, rest)) => Ok((OperationModel::SetAttr(attrs), rest)),
            }
        },
    }
}

/// Splits `s` into the arguments of a directory read and the rest.
#[verifier::opaque]
pub open spec fn take_read_dir(s: Seq<u8>) -> Result<(OperationModel, Seq<u8>), ParseFault> {
    match take_u64(s) {
        Err(e) => Err(ParseFault::Malformed(e)),
        Ok((cookie, rest)) => match take_u64(rest) {
            Err(e) => Err(ParseFault::Malformed(e)),
            Ok((cookie_verifier, rest)) => match take_u32(rest) {
                Err(e) => Err(ParseFault::Malformed(e)),
                Ok((dir_count, rest)) => match take_u32(rest) {
                    Err(e) => Err(ParseFault::Malformed(e)),
                    Ok((max_count, rest)) => match take_bitmap(rest) {
                        Err(e) => Err(ParseFault::Attribute(e)),
                        Ok((request, rest)) => Ok(
                            (
                                OperationModel::ReadDir {
                                    cookie,
                                    cookie_verifier,
                                    dir_count,
                                    max_count,
                                    request,
                                },
                                rest,
                            ),
                        ),
                    },
                },
            },
        },
    }
}

/// Splits `s` into the owner of an open, as the client id and the name of
/// the owner, and the rest, behind the sequence number and the words that the
/// file is opened for writing and kept from nobody.
#[verifier::opaque]
pub open spec fn take_open_owner(s: Seq<u8>) -> Result<(u32, u64, Seq<u8>, Seq<u8>), ParseFault> {
    match take_u32(s) {
        Err(e) => Err(ParseFault::Malformed(e)),
        Ok((seqid, rest)) => match take_u32(rest) {
            Err(e) => Err(ParseFault::Malformed(e)),
            Ok((access, rest)) => match take_u32(rest) {
                Err(e) => Err(ParseFault::Malformed(e)),
                Ok((deny, rest)) => if access != SHARE_ACCESS_WRITE || deny != SHARE_DENY_NONE {
                    Err(ParseFault::Unsupported)
                } else {
                    match take_u64(rest) {
                        Err(e) => Err(ParseFault::Malformed(e)),
                        Ok((client_id, rest)) => match take_opaque(rest, MAX_OWNER_BYTES as nat) {
                            Err(e) => Err(ParseFault::Malformed(e)),
                            Ok((owner, rest)) => Ok((seqid, client_id, owner, rest)),
                        },
                    }
                },
            },
        },
    }
}

/// Splits `s` into the way of an open, as the attributes to create the file
/// with and its name, and the rest.
#[verifier::opaque]
pub open spec fn take_open_how(s: Seq<u8>) -> Result<
    (Map<FileAttributeId, AttrModel>, Seq<char>, Seq<u8>),
    ParseFault,
> {
    match take_u32(s) {
        Err(e) => Err(ParseFault::Malformed(e)),
        Ok((how, rest)) => match take_u32(rest) {
            Err(e) => Err(ParseFault::Malformed(e)),
            Ok((mode, rest)) => if how != OPEN_CREATE || mode != CREATE_UNCHECKED {
                Err(ParseFault::Unsupported)
            } else {
                match take_attributes(rest) {
                    Err(e) => Err(ParseFault::Attribute(e)),
                    Ok((attrs, rest)) => match take_u32(rest) {
                        Err(e) => Err(ParseFault::Malformed(e)),
                        Ok((claim, rest)) => if claim != CLAIM_NULL {
                            Err(ParseFault::Unsupported)
                        } else {
                            match take_text(rest) {
                                Err(e) => Err(ParseFault::Attribute(e)),
                                Ok((name, rest)) => Ok((attrs, name, rest)),
                            }
                        },
                    },
                }
            },
        },
    }
}

/// Splits `s` into the arguments of an open and the rest.
pub open spec fn take_open(s: Seq<u8>) -> Result<(OperationModel, Seq<u8>), ParseFault> {
    match take_open_owner(s) {
        Err(e) => Err(e),
        Ok((seqid, client_id, owner, rest)) => match take_open_how(rest) {
            Err(e) => Err(e),
            Ok((attrs, name, rest)) => Ok(
                (OperationModel::Open { seqid, client_id, owner, name, attrs }, rest),
            ),
        },
    }
}

/// Splits `s` into the arguments of a read and the rest.
#[verifier::opaque]
pub open spec fn take_read(s: Seq<u8>) -> Result<(OperationModel, Seq<u8>), ParseFault> {
    match take_state_id(s) {
        Err(e) => Err(ParseFault::Malformed(e)),
        Ok((id, rest)) => if id != StateId::anonymous_id() {
            Err(ParseFault::Unsupported)
        } else {
            match take_u64(rest) {
                Err(e) => Err(ParseFault::Malformed(e)),
                Ok((offset, rest)) => match take_u32(rest) {
                    Err(e) => Err(ParseFault::Malformed(e)),
                    Ok((count, rest)) => Ok((OperationModel::Read { offset, count }, rest)),
                },
            }
        },
    }
}

/// Splits `s` into the arguments of a write and the rest.
#[verifier::opaque]
pub open spec fn take_write(s: Seq<u8>) -> Result<(OperationModel, Seq<u8>), ParseFault> {
    match take_state_id(s) {
        Err(e) => Err(ParseFault::Malformed(e)),
        Ok((id, rest)) => if id != StateId::anonymous_id() {
            Err(ParseFault::Unsupported)
        } else {
            match take_u64(rest) {
                Err(e) => Err(ParseFault::Malformed(e)),
                Ok((offset, rest)) => match take_u32(rest) {
                    Err(e) => Err(ParseFault::Malformed(e)),
                    Ok((stable, rest)) => if stable != FILE_SYNC {
                        Err(ParseFault::Unsupported)
                    } else {
                        match take_opaque(rest, u32::MAX as nat) {
                            Err(e) => Err(ParseFault::Malformed(e)),
                            Ok((data, rest)) => Ok((OperationModel::Write { offset, data }, rest)),
                        }
                    },
                },
            }
        },
    }
}

/// Splits `s` into two numbers, of 64 and of 32 bits, and the rest.
#[verifier::opaque]
pub open spec fn take_long_and_word(s: Seq<u8>) -> Result<(u64, u32, Seq<u8>), ParseFault> {
    match take_u64(s) {
        Err(e) => Err(ParseFault::Malformed(e)),
        Ok((long, rest)) => match take_u32(rest) {
            Err(e) => Err(ParseFault::Malformed(e)),
            Ok((word, rest)) => Ok((long, word, rest)),
        },
    }
}

/// Splits `s` into the arguments of the operation `code` and the rest.
#[verifier::opaque]
pub open spec fn take_arguments(code: OpCode, s: Seq<u8>) -> Result<
    (OperationModel, Seq<u8>),
    ParseFault,
> {
    match code {
        OpCode::PutRootFh => Ok((OperationModel::PutRootFh, s)),
        OpCode::GetFh => Ok((OperationModel::GetFh, s)),
        OpCode::PutFh => match take_opaque(s, MAX_HANDLE_BYTES as nat) {
            Err(e) => Err(ParseFault::Malformed(e)),
            Ok((handle, rest)) => Ok((OperationModel::PutFh(handle), rest)),
        },
        OpCode::LookUp => match take_text(s) {
            Err(e) => Err(ParseFault::Attribute(e)),
            Ok((name, rest)) => Ok((OperationModel::LookUp(name), rest)),
        },
        OpCode::Remove => match take_text(s) {
            Err(e) => Err(ParseFault::Attribute(e)),
            Ok((name, rest)) => Ok((OperationModel::Remove(name), rest)),
        },
        OpCode::GetAttr => match take_bitmap(s) {
            Err(e) => Err(ParseFault::Attribute(e)),
            Ok((request, rest)) => Ok((OperationModel::GetAttr(request), rest)),
        },
        OpCode::SetAttr => take_set_attr(s),
        OpCode::ReadDir => take_read_dir(s),
        OpCode::Open => take_open(s),
        OpCode::Close => match take_u32(s) {
            Err(e) => Err(ParseFault::Malformed(e)),
            Ok((seqid, rest)) => match take_state_id(rest) {
                Err(e) => Err(ParseFault::Malformed(e)),
                Ok((state_id, rest)) => Ok((OperationModel::Close { seqid, state_id }, rest)),
            },
        },
        OpCode::Read => take_read(s),
        OpCode::Write => take_write(s),
        OpCode::Commit => match take_long_and_word(s) {
            Err(e) => Err(e),
            Ok((offset, count, rest)) => Ok((OperationModel::Commit { offset, count }, rest)),
        },
    }
}

/// Splits `s` into the operation at its front and the rest.
#[verifier::opaque]
pub open spec fn take_operation(s: Seq<u8>) -> Result<(OperationModel, Seq<u8>), ParseFault> {
    match take_u32(s) {
        Err(e) => Err(ParseFault::Malformed(e)),
        Ok((number, rest)) => match OpCode::of_number(number) {
            None => Err(ParseFault::UnknownOperation(number)),
            Some(code) => take_arguments(code, rest),
        },
    }
}

/// Reads `count` operations from the front of `s` behind the operations
/// `acc`.
pub open spec fn take_operations(s: Seq<u8>, count: nat, acc: Seq<OperationModel>) -> Result<
    (Seq<OperationModel>, Seq<u8>),
    ParseFault,
>
    decreases count,
{
    if count == 0 {
        Ok((acc, s))
    } else {
        match take_operation(s) {
            Err(e) => Err(e),
            Ok((op, rest)) => take_operations(rest, (count - 1) as nat, acc.push(op)),
        }
    }
}

/// Reads a request that fills `s` to its end, as its tag and its
/// operations.
pub open spec fn parse_request(s: Seq<u8>) -> Result<(Seq<u8>, Seq<OperationModel>), ParseFault> {
    match take_opaque(s, u32::MAX as nat) {
        Err(e) => Err(ParseFault::Malformed(e)),
        Ok((tag, rest)) => match take_u32(rest) {
            Err(e) => Err(ParseFault::Malformed(e)),
            Ok((minor, rest)) => if minor != MINOR_VERSION {
                Err(ParseFault::Unsupported)
            } else {
                match take_u32(rest) {
                    Err(e) => Err(ParseFault::Malformed(e)),
                    Ok((count, rest)) => match take_operations(rest, count as nat, Seq::empty()) {
                        Err(e) => Err(e),
                        Ok((ops, rest)) => if rest.len() == 0 {
                            Ok((tag, ops))
                        } else {
                            Err(ParseFault::Malformed(XdrError::TrailingBytes))
                        },
                    },
                }
            },
        },
    }
}

/// The arguments of a setting of attributes are read back as they were.
proof fn lemma_set_attr_round_trip(attrs: Map<FileAttributeId, AttrModel>, rest: Seq<u8>)
    requires
        attributes_encodable(attrs),
    ensures
        take_set_attr(arguments_bytes(OperationModel::SetAttr(attrs)) + rest) == Ok::<
            (OperationModel, Seq<u8>),
            ParseFault,
        >((OperationModel::SetAttr(attrs), rest)),
{
    reveal(take_set_attr);
    reveal(arguments_bytes);
    let a = state_id_bytes(StateId::anonymous_id());
    let b = attributes_bytes(attrs);
    lemma_concat_assoc(a, b, rest);
    lemma_state_id_round_trip(StateId::anonymous_id(), b + rest);
    lemma_attributes_round_trip(attrs, rest);
}

/// The arguments of a directory read are read back as they were.
proof fn lemma_read_dir_round_trip(
    cookie: u64,
    cookie_verifier: u64,
    dir_count: u32,
    max_count: u32,
    request: Set<FileAttributeId>,
    rest: Seq<u8>,
)
    ensures
        take_read_dir(
            arguments_bytes(
                OperationModel::ReadDir { cookie, cookie_verifier, dir_count, max_count, request },
            ) + rest,
        ) == Ok::<(OperationModel, Seq<u8>), ParseFault>(
            (
                OperationModel::ReadDir { cookie, cookie_verifier, dir_count, max_count, request },
                rest,
            ),
        ),
{
    reveal(take_read_dir);
    reveal(arguments_bytes);
    let a = u64_bytes(cookie);
    let b = u64_bytes(cookie_verifier);
    let c = u32_bytes(dir_count);
    let d = u32_bytes(max_count);
    let e = request_bitmap_bytes(request);
    lemma_concat_assoc(a + b + c + d, e, rest);
    lemma_concat_assoc(a + b + c, d, e + rest);
    lemma_concat_assoc(a + b, c, d + (e + rest));
    lemma_concat_assoc(a, b, c + (d + (e + rest)));
    lemma_u64_round_trip(cookie, b + (c + (d + (e + rest))));
    lemma_u64_round_trip(cookie_verifier, c + (d + (e + rest)));
    lemma_u32_round_trip(dir_count, d + (e + rest));
    lemma_u32_round_trip(max_count, e + rest);
    lemma_bitmap_round_trip(request, rest);
}

/// The owner of an open is read back as it was.
proof fn lemma_open_owner_round_trip(seqid: u32, client_id: u64, owner: Seq<u8>, rest: Seq<u8>)
    requires
        owner.len() <= MAX_OWNER_BYTES,
    ensures
        take_open_owner(
            u32_bytes(seqid) + u32_bytes(SHARE_ACCESS_WRITE) + u32_bytes(SHARE_DENY_NONE)
                + u64_bytes(client_id) + opaque_bytes(owner) + rest,
        ) == Ok::<(u32, u64, Seq<u8>, Seq<u8>), ParseFault>((seqid, client_id, owner, rest)),
{
    reveal(take_open_owner);
    let a = u32_bytes(seqid);
    let b = u32_bytes(SHARE_ACCESS_WRITE);
    let c = u32_bytes(SHARE_DENY_NONE);
    let d = u64_bytes(client_id);
    let e = opaque_bytes(owner);
    lemma_concat_assoc(a + b + c + d, e, rest);
    lemma_concat_assoc(a + b + c, d, e + rest);
    lemma_concat_assoc(a + b, c, d + (e + rest));
    lemma_concat_assoc(a, b, c + (d + (e + rest)));
    lemma_u32_round_trip(seqid, b + (c + (d + (e + rest))));
    lemma_u32_round_trip(SHARE_ACCESS_WRITE, c + (d + (e + rest)));
    lemma_u32_round_trip(SHARE_DENY_NONE, d + (e + rest));
    lemma_u64_round_trip(client_id, e + rest);
    lemma_opaque_round_trip(owner, rest, MAX_OWNER_BYTES as nat);
}

/// The way of an open is read back as it was.
proof fn lemma_open_how_round_trip(
    attrs: Map<FileAttributeId, AttrModel>,
    name: Seq<char>,
    rest: Seq<u8>,
)
    requires
        attributes_encodable(attrs),
        text_encodable(name),
    ensures
        take_open_how(
            u32_bytes(OPEN_CREATE) + u32_bytes(CREATE_UNCHECKED) + attributes_bytes(attrs)
                + u32_bytes(CLAIM_NULL) + text_bytes(name) + rest,
        ) == Ok::<(Map<FileAttributeId, AttrModel>, Seq<char>, Seq<u8>), ParseFault>(
            (attrs, name, rest),
        ),
{
    reveal(take_open_how);
    let a = u32_bytes(OPEN_CREATE);
    let b = u32_bytes(CREATE_UNCHECKED);
    let c = attributes_bytes(attrs);
    let d = u32_bytes(CLAIM_NULL);
    let e = text_bytes(name);
    lemma_concat_assoc(a + b + c + d, e, rest);
    lemma_concat_assoc(a + b + c, d, e + rest);
    lemma_concat_assoc(a + b, c, d + (e + rest));
    lemma_concat_assoc(a, b, c + (d + (e + rest)));
    lemma_u32_round_trip(OPEN_CREATE, b + (c + (d + (e + rest))));
    lemma_u32_round_trip(CREATE_UNCHECKED, c + (d + (e + rest)));
    lemma_attributes_round_trip(attrs, d + (e + rest));
    lemma_u32_round_trip(CLAIM_NULL, e + rest);
    lemma_text_round_trip(name, rest);
}

/// The arguments of an open are read back as they were.
proof fn lemma_open_round_trip(
    seqid: u32,
    client_id: u64,
    owner: Seq<u8>,
    name: Seq<char>,
    attrs: Map<FileAttributeId, AttrModel>,
    rest: Seq<u8>,
)
    requires
        owner.len() <= MAX_OWNER_BYTES,
        attributes_encodable(attrs),
        text_encodable(name),
    ensures
        take_open(
            arguments_bytes(OperationModel::Open { seqid, client_id, owner, name, attrs }) + rest,
        ) == Ok::<(OperationModel, Seq<u8>), ParseFault>(
            (OperationModel::Open { seqid, client_id, owner, name, attrs }, rest),
        ),
{
    reveal(arguments_bytes);
    let front = u32_bytes(seqid) + u32_bytes(SHARE_ACCESS_WRITE) + u32_bytes(SHARE_DENY_NONE)
        + u64_bytes(client_id) + opaque_bytes(owner);
    let f = u32_bytes(OPEN_CREATE);
    let g = u32_bytes(CREATE_UNCHECKED);
    let h = attributes_bytes(attrs);
    let i = u32_bytes(CLAIM_NULL);
    let j = text_bytes(name);
    let back = f + g + h + i + j;
    assert(arguments_bytes(OperationModel::Open { seqid, client_id, owner, name, attrs }) == front
        + f + g + h + i + j);
    assert(front + f + g + h + i + j == front + back) by {
        lemma_concat_assoc(front + f + g + h, i, j);
        lemma_concat_assoc(front + f + g, h, i + j);
        lemma_concat_assoc(front + f, g, h + (i + j));
        lemma_concat_assoc(front, f, g + (h + (i + j)));
        lemma_concat_assoc(f + g + h, i, j);
        lemma_concat_assoc(f + g, h, i + j);
        lemma_concat_assoc(f, g, h + (i + j));
    }
    lemma_concat_assoc(front, back, rest);
    lemma_open_owner_round_trip(seqid, client_id, owner, back + rest);
    lemma_open_how_round_trip(attrs, name, rest);
}

/// The arguments of a read are read back as they were.
proof fn lemma_read_round_trip(offset: u64, count: u32, rest: Seq<u8>)
    ensures
        take_read(arguments_bytes(OperationModel::Read { offset, count }) + rest) == Ok::<
            (OperationModel, Seq<u8>),
            ParseFault,
        >((OperationModel::Read { offset, count }, rest)),
{
    reveal(take_read);
    reveal(arguments_bytes);
    let a = state_id_bytes(StateId::anonymous_id());
    let b = u64_bytes(offset);
    let c = u32_bytes(count);
    lemma_concat_assoc(a + b, c, rest);
    lemma_concat_assoc(a, b, c + rest);
    lemma_state_id_round_trip(StateId::anonymous_id(), b + (c + rest));
    lemma_u64_round_trip(offset, c + rest);
    lemma_u32_round_trip(count, rest);
}

/// The arguments of a write are read back as they were.
proof fn lemma_write_round_trip(offset: u64, data: Seq<u8>, rest: Seq<u8>)
    requires
        data.len() <= u32::MAX,
    ensures
        take_write(arguments_bytes(OperationModel::Write { offset, data }) + rest) == Ok::<
            (OperationModel, Seq<u8>),
            ParseFault,
        >((OperationModel::Write { offset, data }, rest)),
{
    reveal(take_write);
    reveal(arguments_bytes);
    let a = state_id_bytes(StateId::anonymous_id());
    let b = u64_bytes(offset);
    let c = u32_bytes(FILE_SYNC);
    let d = opaque_bytes(data);
    lemma_concat_assoc(a + b + c, d, rest);
    lemma_concat_assoc(a + b, c, d + rest);
    lemma_concat_assoc(a, b, c + (d + rest));
    lemma_state_id_round_trip(StateId::anonymous_id(), b + (c + (d + rest)));
    lemma_u64_round_trip(offset, c + (d + rest));
    lemma_u32_round_trip(FILE_SYNC, d + rest);
    lemma_opaque_round_trip(data, rest, u32::MAX as nat);
}

/// A number of 64 bits and one of 32 bits are read back as they were.
proof fn lemma_long_and_word_round_trip(long: u64, word: u32, rest: Seq<u8>)
    ensures
        take_long_and_word(u64_bytes(long) + u32_bytes(word) + rest) == Ok::<
            (u64, u32, Seq<u8>),
            ParseFault,
        >((long, word, rest)),
{
    reveal(take_long_and_word);
    lemma_concat_assoc(u64_bytes(long), u32_bytes(word), rest);
    lemma_u64_round_trip(long, u32_bytes(word) + rest);
    lemma_u32_round_trip(word, rest);
}

/// The arguments of an operation that can be sent are read back as they
/// were, whatever follows them.
pub proof fn lemma_arguments_round_trip(op: OperationModel, rest: Seq<u8>)
    requires
        operation_encodable(op),
    ensures
        take_arguments(op.code(), arguments_bytes(op) + rest) == Ok::<
            (OperationModel, Seq<u8>),
            ParseFault,
        >((op, rest)),
{
    reveal(take_arguments);
    match op {
        OperationModel::PutRootFh => {
            reveal(arguments_bytes);
            assert(arguments_bytes(op) + rest =~= rest);
        },
        OperationModel::GetFh => {
            reveal(arguments_bytes);
            assert(arguments_bytes(op) + rest =~= rest);
        },
        OperationModel::PutFh(handle) => {
            reveal(arguments_bytes);
            lemma_opaque_round_trip(handle, rest, MAX_HANDLE_BYTES as nat);
        },
        OperationModel::LookUp(name) => {
            reveal(arguments_bytes);
            lemma_text_round_trip(name, rest);
        },
        OperationModel::Remove(name) => {
            reveal(arguments_bytes);
            lemma_text_round_trip(name, rest);
        },
        OperationModel::GetAttr(request) => {
            reveal(arguments_bytes);
            lemma_bitmap_round_trip(request, rest);
        },
        OperationModel::SetAttr(attrs) => {
            lemma_set_attr_round_trip(attrs, rest);
        },
        OperationModel::ReadDir { cookie, cookie_verifier, dir_count, max_count, request } => {
            lemma_read_dir_round_trip(cookie, cookie_verifier, dir_count, max_count, request, rest);
        },
        OperationModel::Open { seqid, client_id, owner, name, attrs } => {
            lemma_open_round_trip(seqid, client_id, owner, name, attrs, rest);
        },
        OperationModel::Close { seqid, state_id } => {
            reveal(arguments_bytes);
            lemma_concat_assoc(u32_bytes(seqid), state_id_bytes(state_id), rest);
            lemma_u32_round_trip(seqid, state_id_bytes(state_id) + rest);
            lemma_state_id_round_trip(state_id, rest);
        },
        OperationModel::Read { offset, count } => {
            lemma_read_round_trip(offset, count, rest);
        },
        OperationModel::Write { offset, data } => {
            lemma_write_round_trip(offset, data, rest);
        },
        OperationModel::Commit { offset, count } => {
            reveal(arguments_bytes);
            lemma_long_and_word_round_trip(offset, count, rest);
        },
    }
}

/// An operation that can be sent is read back as it was, whatever follows
/// it.
pub proof fn lemma_operation_round_trip(op: OperationModel, rest: Seq<u8>)
    requires
        operation_encodable(op),
    ensures
        take_operation(operation_bytes(op) + rest) == Ok::<(OperationModel, Seq<u8>), ParseFault>(
            (op, rest),
        ),
{
    reveal(take_operation);
    lemma_concat_assoc(u32_bytes(op.code().number()), arguments_bytes(op), rest);
    lemma_u32_round_trip(op.code().number(), arguments_bytes(op) + rest);
    op.code().lemma_number_round_trip(0);
    lemma_arguments_round_trip(op, rest);
}

/// The encodings of operations, one after the other, begin with the encoding
/// of the first.
pub proof fn lemma_operations_front(ops: Seq<OperationModel>)
    requires
        ops.len() > 0,
    ensures
        operations_bytes(ops) == operation_bytes(ops[0]) + operations_bytes(ops.drop_first()),
    decreases ops.len(),
{
    if ops.len() == 1 {
        assert(ops.drop_last() =~= Seq::<OperationModel>::empty());
        assert(ops.drop_first() =~= Seq::<OperationModel>::empty());
        assert(operations_bytes(ops) =~= operation_bytes(ops[0]) + operations_bytes(
            ops.drop_first(),
        ));
    } else {
        let inner = ops.drop_last();
        lemma_operations_front(inner);
        assert(inner[0] == ops[0]);
        assert(inner.drop_first() =~= ops.drop_first().drop_last());
        assert(ops.drop_first().last() == ops.last());
        lemma_concat_assoc(
            operation_bytes(ops[0]),
            operations_bytes(inner.drop_first()),
            operation_bytes(ops.last()),
        );
    }
}

/// Operations that can be sent are read back as they were, behind the
/// operations read before, whatever follows them.
pub proof fn lemma_operations_round_trip(
    ops: Seq<OperationModel>,
    rest: Seq<u8>,
    acc: Seq<OperationModel>,
)
    requires
        forall|i: int| 0 <= i < ops.len() ==> operation_encodable(#[trigger] ops[i]),
    ensures
        take_operations(operations_bytes(ops) + rest, ops.len(), acc) == Ok::<
            (Seq<OperationModel>, Seq<u8>),
            ParseFault,
        >((acc + ops, rest)),
    decreases ops.len(),
{
    if ops.len() == 0 {
        assert(operations_bytes(ops) + rest =~= rest);
        assert(acc + ops =~= acc);
    } else {
        let first = ops[0];
        let tail = ops.drop_first();
        lemma_operations_front(ops);
        lemma_concat_assoc(operation_bytes(first), operations_bytes(tail), rest);
        lemma_operation_round_trip(first, operations_bytes(tail) + rest);
        assert forall|i: int| 0 <= i < tail.len() implies operation_encodable(
            #[trigger] tail[i],
        ) by {
            assert(tail[i] == ops[i + 1]);
        }
        lemma_operations_round_trip(tail, rest, acc.push(first));
        assert(acc.push(first) + tail =~= acc + ops);
    }
}

/// A request that can be sent is read back as it was.
pub proof fn lemma_request_round_trip(tag: Seq<u8>, ops: Seq<OperationModel>)
    requires
        request_fault(tag, ops) is None,
    ensures
        parse_request(request_bytes(tag, ops)) == Ok::<
            (Seq<u8>, Seq<OperationModel>),
            ParseFault,
        >((tag, ops)),
{
    let a = opaque_bytes(tag);
    let b = u32_bytes(MINOR_VERSION);
    let c = u32_bytes(ops.len() as u32);
    let d = operations_bytes(ops);
    let e = Seq::<u8>::empty();
    assert(d + e =~= d);
    lemma_concat_assoc(a + b, c, d);
    lemma_concat_assoc(a, b, c + d);
    lemma_opaque_round_trip(tag, b + (c + d), u32::MAX as nat);
    lemma_u32_round_trip(MINOR_VERSION, c + d);
    lemma_u32_round_trip(ops.len() as u32, d);
    assert forall|i: int| 0 <= i < ops.len() implies operation_encodable(#[trigger] ops[i]) by {
        if !operation_encodable(ops[i]) {
            assert(exists|k: int| 0 <= k < ops.len() && !operation_encodable(#[trigger] ops[k]));
        }
    }
    lemma_operations_round_trip(ops, e, Seq::empty());
    assert(Seq::<OperationModel>::empty() + ops =~= ops);
}

/// Whether a state id is the one of all zeros.
fn is_anonymous(id: StateId) -> (r: bool)
    ensures
        r == (id == StateId::anonymous_id()),
{
    id.sequence_id == 0 && id.first == 0 && id.second == 0 && id.third == 0
}

/// Reads the arguments of a setting of attributes.
fn get_set_attr(input: &[u8]) -> (r: Result<(Operation, &[u8]), ParseFault>)
    ensures
        match r {
            Ok((op, rest)) => take_set_attr(input@) == Ok::<(OperationModel, Seq<u8>), ParseFault>(
                (op@, rest@),
            ),
            Err(e) => take_set_attr(input@) == Err::<(OperationModel, Seq<u8>), ParseFault>(e),
        },
{
    proof {
        reveal(take_set_attr);
    }
    let (id, rest) = match get_state_id(input) {
        Ok(pair) => pair,
        Err(e) => { return Err(ParseFault::Malformed(e)); },
    };
    if !is_anonymous(id) {
        return Err(ParseFault::Unsupported);
    }
    match get_attributes(rest) {
        Ok((attrs, rest)) => Ok((Operation::SetAttr(attrs), rest)),
        Err(e) => Err(ParseFault::Attribute(e)),
    }
}

/// Reads the arguments of a directory read.
fn get_read_dir(input: &[u8]) -> (r: Result<(Operation, &[u8]), ParseFault>)
    ensures
        match r {
            Ok((op, rest)) => take_read_dir(input@) == Ok::<(OperationModel, Seq<u8>), ParseFault>(
                (op@, rest@),
            ),
            Err(e) => take_read_dir(input@) == Err::<(OperationModel, Seq<u8>), ParseFault>(e),
        },
{
    proof {
        reveal(take_read_dir);
    }
    let (cookie, rest) = match get_u64(input) {
        Ok(pair) => pair,
        Err(e) => { return Err(ParseFault::Malformed(e)); },
    };
    let (cookie_verifier, rest) = match get_u64(rest) {
        Ok(pair) => pair,
        Err(e) => { return Err(ParseFault::Malformed(e)); },
    };
    let (dir_count, rest) = match get_u32(rest) {
        Ok(pair) => pair,
        Err(e) => { return Err(ParseFault::Malformed(e)); },
    };
    let (max_count, rest) = match get_u32(rest) {
        Ok(pair) => pair,
        Err(e) => { return Err(ParseFault::Malformed(e)); },
    };
    match get_bitmap(rest) {
        Ok((request, rest)) => Ok(
            (Operation::ReadDir { cookie, cookie_verifier, dir_count, max_count, request }, rest),
        ),
        Err(e) => Err(ParseFault::Attribute(e)),
    }
}

/// Reads the owner of an open.
fn get_open_owner(input: &[u8]) -> (r: Result<(u32, u64, Vec<u8>, &[u8]), ParseFault>)
    ensures
        match r {
            Ok((seqid, client_id, owner, rest)) => take_open_owner(input@) == Ok::<
                (u32, u64, Seq<u8>, Seq<u8>),
                ParseFault,
            >((seqid, client_id, owner@, rest@)),
            Err(e) => take_open_owner(input@) == Err::<(u32, u64, Seq<u8>, Seq<u8>), ParseFault>(
                e,
            ),
        },
{
    proof {
        reveal(take_open_owner);
    }
    let (seqid, rest) = match get_u32(input) {
        Ok(pair) => pair,
        Err(e) => { return Err(ParseFault::Malformed(e)); },
    };
    let (access, rest) = match get_u32(rest) {
        Ok(pair) => pair,
        Err(e) => { return Err(ParseFault::Malformed(e)); },
    };
    let (deny, rest) = match get_u32(rest) {
        Ok(pair) => pair,
        Err(e) => { return Err(ParseFault::Malformed(e)); },
    };
    if access != SHARE_ACCESS_WRITE || deny != SHARE_DENY_NONE {
        return Err(ParseFault::Unsupported);
    }
    let (client_id, rest) = match get_u64(rest) {
        Ok(pair) => pair,
        Err(e) => { return Err(ParseFault::Malformed(e)); },
    };
    match get_opaque(rest, MAX_OWNER_BYTES) {
        Ok((owner, rest)) => Ok((seqid, client_id, owner, rest)),
        Err(e) => Err(ParseFault::Malformed(e)),
    }
}

/// Reads the way of an open.
fn get_open_how(input: &[u8]) -> (r: Result<(crate::attrs::FileAttributes, String, &[u8]), ParseFault>)
    ensures
        match r {
            Ok((attrs, name, rest)) => take_open_how(input@) == Ok::<
                (Map<FileAttributeId, AttrModel>, Seq<char>, Seq<u8>),
                ParseFault,
            >((attrs@, name@, rest@)),
            Err(e) => take_open_how(input@) == Err::<
                (Map<FileAttributeId, AttrModel>, Seq<char>, Seq<u8>),
                ParseFault,
            >(e),
        },
{
    proof {
        reveal(take_open_how);
    }
    let (how, rest) = match get_u32(input) {
        Ok(pair) => pair,
        Err(e) => { return Err(ParseFault::Malformed(e)); },
    };
    let (mode, rest) = match get_u32(rest) {
        Ok(pair) => pair,
        Err(e) => { return Err(ParseFault::Malformed(e)); },
    };
    if how != OPEN_CREATE || mode != CREATE_UNCHECKED {
        return Err(ParseFault::Unsupported);
    }
    let (attrs, rest) = match get_attributes(rest) {
        Ok(pair) => pair,
        Err(e) => { return Err(ParseFault::Attribute(e)); },
    };
    let (claim, rest) = match get_u32(rest) {
        Ok(pair) => pair,
        Err(e) => { return Err(ParseFault::Malformed(e)); },
    };
    if claim != CLAIM_NULL {
        return Err(ParseFault::Unsupported);
    }
    match get_text(rest) {
        Ok((name, rest)) => Ok((attrs, name, rest)),
        Err(e) => Err(ParseFault::Attribute(e)),
    }
}

/// Reads the arguments of a read.
fn get_read(input: &[u8]) -> (r: Result<(Operation, &[u8]), ParseFault>)
    ensures
        match r {
            Ok((op, rest)) => take_read(input@) == Ok::<(OperationModel, Seq<u8>), ParseFault>(
                (op@, rest@),
            ),
            Err(e) => take_read(input@) == Err::<(OperationModel, Seq<u8>), ParseFault>(e),
        },
{
    proof {
        reveal(take_read);
    }
    let (id, rest) = match get_state_id(input) {
        Ok(pair) => pair,
        Err(e) => { return Err(ParseFault::Malformed(e)); },
    };
    if !is_anonymous(id) {
        return Err(ParseFault::Unsupported);
    }
    let (offset, rest) = match get_u64(rest) {
        Ok(pair) => pair,
        Err(e) => { return Err(ParseFault::Malformed(e)); },
    };
    match get_u32(rest) {
        Ok((count, rest)) => Ok((Operation::Read { offset, count }, rest)),
        Err(e) => Err(ParseFault::Malformed(e)),
    }
}

/// Reads the arguments of a write.
fn get_write(input: &[u8]) -> (r: Result<(Operation, &[u8]), ParseFault>)
    ensures
        match r {
            Ok((op, rest)) => take_write(input@) == Ok::<(OperationModel, Seq<u8>), ParseFault>(
                (op@, rest@),
            ),
            Err(e) => take_write(input@) == Err::<(OperationModel, Seq<u8>), ParseFault>(e),
        },
{
    proof {
        reveal(take_write);
    }
    let (id, rest) = match get_state_id(input) {
        Ok(pair) => pair,
        Err(e) => { return Err(ParseFault::Malformed(e)); },
    };
    if !is_anonymous(id) {
        return Err(ParseFault::Unsupported);
    }
    let (offset, rest) = match get_u64(rest) {
        Ok(pair) => pair,
        Err(e) => { return Err(ParseFault::Malformed(e)); },
    };
    let (stable, rest) = match get_u32(rest) {
        Ok(pair) => pair,
        Err(e) => { return Err(ParseFault::Malformed(e)); },
    };
    if stable != FILE_SYNC {
        return Err(ParseFault::Unsupported);
    }
    match get_opaque(rest, u32::MAX) {
        Ok((data, rest)) => Ok((Operation::Write { offset, data }, rest)),
        Err(e) => Err(ParseFault::Malformed(e)),
    }
}

/// Reads a number of 64 bits and one of 32 bits.
fn get_long_and_word(input: &[u8]) -> (r: Result<(u64, u32, &[u8]), ParseFault>)
    ensures
        match r {
            Ok((long, word, rest)) => take_long_and_word(input@) == Ok::<
                (u64, u32, Seq<u8>),
                ParseFault,
            >((long, word, rest@)),
            Err(e) => take_long_and_word(input@) == Err::<(u64, u32, Seq<u8>), ParseFault>(e),
        },
{
    proof {
        reveal(take_long_and_word);
    }
    let (long, rest) = match get_u64(input) {
        Ok(pair) => pair,
        Err(e) => { return Err(ParseFault::Malformed(e)); },
    };
    match get_u32(rest) {
        Ok((word, rest)) => Ok((long, word, rest)),
        Err(e) => Err(ParseFault::Malformed(e)),
    }
}

/// Reads the arguments of the operation `code` at the front of `input`.
pub fn get_arguments(code: OpCode, input: &[u8]) -> (r: Result<(Operation, &[u8]), ParseFault>)
    ensures
        match r {
            Ok((op, rest)) => take_arguments(code, input@) == Ok::<
                (OperationModel, Seq<u8>),
                ParseFault,
            >((op@, rest@)),
            Err(e) => take_arguments(code, input@) == Err::<(OperationModel, Seq<u8>), ParseFault>(
                e,
            ),
        },
{
    proof {
        reveal(take_arguments);
    }
    match code {
        OpCode::PutRootFh => Ok((Operation::PutRootFh, input)),
        OpCode::GetFh => Ok((Operation::GetFh, input)),
        OpCode::PutFh => match get_opaque(input, MAX_HANDLE_BYTES) {
            Ok((bytes, rest)) => Ok((Operation::PutFh(FileHandle(bytes)), rest)),
            Err(e) => Err(ParseFault::Malformed(e)),
        },
        OpCode::LookUp => match get_text(input) {
            Ok((name, rest)) => Ok((Operation::LookUp(name), rest)),
            Err(e) => Err(ParseFault::Attribute(e)),
        },
        OpCode::Remove => match get_text(input) {
            Ok((name, rest)) => Ok((Operation::Remove(name), rest)),
            Err(e) => Err(ParseFault::Attribute(e)),
        },
        OpCode::GetAttr => match get_bitmap(input) {
            Ok((request, rest)) => Ok((Operation::GetAttr(request), rest)),
            Err(e) => Err(ParseFault::Attribute(e)),
        },
        OpCode::SetAttr => get_set_attr(input),
        OpCode::ReadDir => get_read_dir(input),
        OpCode::Open => {
            let (seqid, client_id, owner, rest) = get_open_owner(input)?;
            let (attrs, name, rest) = get_open_how(rest)?;
            Ok((Operation::Open { seqid, client_id, owner, name, attrs }, rest))
        },
        OpCode::Close => {
            let (seqid, rest) = match get_u32(input) {
                Ok(pair) => pair,
                Err(e) => { return Err(ParseFault::Malformed(e)); },
            };
            match get_state_id(rest) {
                Ok((state_id, rest)) => Ok((Operation::Close { seqid, state_id }, rest)),
                Err(e) => Err(ParseFault::Malformed(e)),
            }
        },
        OpCode::Read => get_read(input),
        OpCode::Write => get_write(input),
        OpCode::Commit => {
            let (offset, count, rest) = get_long_and_word(input)?;
            Ok((Operation::Commit { offset, count }, rest))
        },
    }
}

/// Reads the operation at the front of `input`.
pub fn get_operation(input: &[u8]) -> (r: Result<(Operation, &[u8]), ParseFault>)
    ensures
        match r {
            Ok((op, rest)) => take_operation(input@) == Ok::<(OperationModel, Seq<u8>), ParseFault>(
                (op@, rest@),
            ),
            Err(e) => take_operation(input@) == Err::<(OperationModel, Seq<u8>), ParseFault>(e),
        },
{
    proof {
        reveal(take_operation);
    }
    let (number, rest) = match get_u32(input) {
        Ok(pair) => pair,
        Err(e) => { return Err(ParseFault::Malformed(e)); },
    };
    match OpCode::from_number(number) {
        None => Err(ParseFault::UnknownOperation(number)),
        Some(code) => get_arguments(code, rest),
    }
}

/// Reads a request that fills `input` to its end, as its tag and its
/// operations.
pub fn decode_request(input: &[u8]) -> (r: Result<(Vec<u8>, Vec<Operation>), ParseFault>)
    ensures
        match r {
            Ok((tag, ops)) => parse_request(input@) == Ok::<
                (Seq<u8>, Seq<OperationModel>),
                ParseFault,
            >((tag@, models(ops@))),
            Err(e) => parse_request(input@) == Err::<(Seq<u8>, Seq<OperationModel>), ParseFault>(
                e,
            ),
        },
{
    let (tag, rest) = match get_opaque(input, u32::MAX) {
        Ok(pair) => pair,
        Err(e) => { return Err(ParseFault::Malformed(e)); },
    };
    let (minor, rest) = match get_u32(rest) {
        Ok(pair) => pair,
        Err(e) => { return Err(ParseFault::Malformed(e)); },
    };
    if minor != MINOR_VERSION {
        return Err(ParseFault::Unsupported);
    }
    let (count, rest) = match get_u32(rest) {
        Ok(pair) => pair,
        Err(e) => { return Err(ParseFault::Malformed(e)); },
    };
    let mut ops: Vec<Operation> = Vec::new();
    let mut cur = rest;
    let mut left: u32 = count;
    let ghost outcome = take_operations(rest@, count as nat, Seq::empty());
    assert(models(ops@) =~= Seq::<OperationModel>::empty());
    while left > 0
        invariant
            outcome == take_operations(cur@, left as nat, models(ops@)),
            parse_request(input@) == (match outcome {
                Err(e) => Err::<(Seq<u8>, Seq<OperationModel>), ParseFault>(e),
                Ok((ops, rest)) => if rest.len() == 0 {
                    Ok::<(Seq<u8>, Seq<OperationModel>), ParseFault>((tag@, ops))
                } else {
                    Err::<(Seq<u8>, Seq<OperationModel>), ParseFault>(
                        ParseFault::Malformed(XdrError::TrailingBytes),
                    )
                },
            }),
        decreases left,
    {
        let (op, rest) = get_operation(cur)?;
        let ghost before = models(ops@);
        ops.push(op);
        assert(models(ops@) =~= before.push(op@));
        cur = rest;
        left = left - 1;
    }
    match expect_end(cur) {
        Ok(_) => Ok((tag, ops)),
        Err(e) => Err(ParseFault::Malformed(e)),
    }
}

} // verus!
