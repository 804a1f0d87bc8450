//! COMPOUND replies on the wire: a status, the tag of the request, and the
//! results of the operations that the server ran, each as the number of the
//! operation, its status and, where it did what it was asked, what it gives.

use crate::attr_codec::{
    attributes_bytes, attributes_encodable, get_attributes, get_text, lemma_attributes_aligned,
    put_attributes, put_text,
    lemma_attributes_round_trip, lemma_text_round_trip, take_attributes, take_text, AttrFault,
    MAX_HANDLE_BYTES,
};
use crate::attrs::{
    AttrModel, DirectoryEntry, EntryModel, FileAttributeId, FileAttributes, FileHandle,
};
use crate::compound::{OpCode, StateId};
use crate::request::{
    lemma_state_id_aligned, lemma_u32_aligned, lemma_u64_aligned, put_state_id, state_id_bytes,
    text_bytes, text_encodable,
};
use crate::xdr::{
    bool_bytes, expect_end, get_bool, get_opaque, get_u32, get_u32_array, get_u64,
    lemma_bool_round_trip, lemma_concat_aligned, lemma_concat_assoc, lemma_opaque_aligned,
    lemma_opaque_round_trip,
    lemma_u32_array_round_trip, lemma_u32_round_trip, lemma_u64_round_trip, opaque_bytes,
    put_bool, put_opaque, put_u32, put_u32_array, put_u64,
    take_bool, take_opaque, take_u32, take_u32_array, take_u64, u32_array_bytes, u32_bytes,
    u64_bytes, XdrError,
};
use vstd::prelude::*;

verus! {

/// Why bytes are not a reply.
#[derive(Clone, Copy, Debug, PartialEq, Eq, Structural)]
pub enum ResponseFault {
    /// The bytes are not well-formed XDR, or a length is out of its bounds.
    Malformed(XdrError),
    /// Attributes in the reply cannot be read.
    Attribute(AttrFault),
    /// The reply holds the result of an operation that this library does
    /// not send.
    UnknownOperation(u32),
    /// An open gave a delegation, which this library does not ask for and
    /// cannot read.
    UnsupportedDelegation(u32),
}

/// How a directory changed by an operation.
#[derive(Clone, Copy, Debug, PartialEq, Eq, Structural)]
pub struct ChangeInfo {
    pub atomic: bool,
    pub before: u64,
    pub after: u64,
}

/// What an operation gives where it did what it was asked.
#[derive(Clone, Debug, PartialEq, Eq)]
pub enum ResultValue {
    /// Nothing, as for setting the current filehandle and for looking up.
    Done,
    /// The current filehandle.
    Handle(FileHandle),
    /// The attributes that were asked for.
    Attributes(FileAttributes),
    /// The bitmap of the attributes that were set.
    AttributesSet(Vec<u32>),
    /// Entries of a directory, the verifier for their cookies, and whether
    /// they reach the end of the directory.
    Entries { cookie_verifier: u64, entries: Vec<DirectoryEntry>, eof: bool },
    /// The state of the open file, how the directory changed, flags, and the
    /// bitmap of the attributes that were set in creating the file.
    Opened { state_id: StateId, change: ChangeInfo, flags: u32, attributes_set: Vec<u32> },
    /// The state id after the close.
    Closed(StateId),
    /// How the directory changed.
    Removed(ChangeInfo),
    /// Bytes of the file, and whether they reach its end.
    Data { eof: bool, data: Vec<u8> },
    /// How many bytes were written, how stably, and the verifier of the
    /// write.
    Written { count: u32, committed: u32, verifier: u64 },
    /// The verifier of the writes that are now stable.
    Committed { verifier: u64 },
}

/// What a [`ResultValue`] holds.
pub enum ValueModel {
    Done,
    Handle(Seq<u8>),
    Attributes(Map<FileAttributeId, AttrModel>),
    AttributesSet(Seq<u32>),
    Entries { cookie_verifier: u64, entries: Seq<EntryModel>, eof: bool },
    Opened { state_id: StateId, change: ChangeInfo, flags: u32, attributes_set: Seq<u32> },
    Closed(StateId),
    Removed(ChangeInfo),
    Data { eof: bool, data: Seq<u8> },
    Written { count: u32, committed: u32, verifier: u64 },
    Committed { verifier: u64 },
}

/// What the entries hold, in order.
pub open spec fn entry_models(entries: Seq<DirectoryEntry>) -> Seq<EntryModel> {
    entries.map_values(|entry: DirectoryEntry| entry@)
}

impl View for ResultValue {
    type V = ValueModel;

    open spec fn view(&self) -> ValueModel {
        match *self {
            ResultValue::Done => ValueModel::Done,
            ResultValue::Handle(handle) => ValueModel::Handle(handle@),
            ResultValue::Attributes(attrs) => ValueModel::Attributes(attrs@),
            ResultValue::AttributesSet(words) => ValueModel::AttributesSet(words@),
            ResultValue::Entries { cookie_verifier, entries, eof } => ValueModel::Entries {
                cookie_verifier,
                entries: entry_models(entries@),
                eof,
            },
            ResultValue::Opened { state_id, change, flags, attributes_set } => ValueModel::Opened {
                state_id,
                change,
                flags,
                attributes_set: attributes_set@,
            },
            ResultValue::Closed(state_id) => ValueModel::Closed(state_id),
            ResultValue::Removed(change) => ValueModel::Removed(change),
            ResultValue::Data { eof, data } => ValueModel::Data { eof, data: data@ },
            ResultValue::Written { count, committed, verifier } => ValueModel::Written {
                count,
                committed,
                verifier,
            },
            ResultValue::Committed { verifier } => ValueModel::Committed { verifier },
        }
    }
}

/// The result of one operation.
#[derive(Clone, Debug, PartialEq, Eq)]
pub struct OperationResult {
    pub code: OpCode,
    pub status: u32,
    /// What the operation gives: something where the status is `NFS4_OK`,
    /// and for setting attributes in any case.
    pub value: Option<ResultValue>,
}

/// What an [`OperationResult`] holds.
pub struct ResultModel {
    pub code: OpCode,
    pub status: u32,
    pub value: Option<ValueModel>,
}

impl View for OperationResult {
    type V = ResultModel;

    open spec fn view(&self) -> ResultModel {
        ResultModel {
            code: self.code,
            status: self.status,
            value: match self.value {
                Some(value) => Some(value@),
                None => None,
            },
        }
    }
}

/// What the results hold, in order.
pub open spec fn result_models(results: Seq<OperationResult>) -> Seq<ResultModel> {
    results.map_values(|result: OperationResult| result@)
}

/// A reply to a request.
#[derive(Clone, Debug, PartialEq, Eq)]
pub struct Response {
    /// The status of the last operation that the server ran.
    pub status: u32,
    pub tag: Vec<u8>,
    pub results: Vec<OperationResult>,
}

/// What a [`Response`] holds.
pub struct ResponseModel {
    pub status: u32,
    pub tag: Seq<u8>,
    pub results: Seq<ResultModel>,
}

impl View for Response {
    type V = ResponseModel;

    open spec fn view(&self) -> ResponseModel {
        ResponseModel { status: self.status, tag: self.tag@, results: result_models(self.results@) }
    }
}

/// Splits `s` into the state id at its front and the rest.
#[verifier::opaque]
pub open spec fn take_state_id(s: Seq<u8>) -> Result<(StateId, Seq<u8>), XdrError> {
    match take_u32(s) {
        Err(e) => Err(e),
        Ok((sequence_id, rest)) => match take_u32(rest) {
            Err(e) => Err(e),
            Ok((first, rest)) => match take_u32(rest) {
                Err(e) => Err(e),
                Ok((second, rest)) => match take_u32(rest) {
                    Err(e) => Err(e),
                    Ok((third, rest)) => Ok((StateId { sequence_id, first, second, third }, rest)),
                },
            },
        },
    }
}

/// Splits `s` into the change of a directory at its front and the rest.
#[verifier::opaque]
pub open spec fn take_change_info(s: Seq<u8>) -> Result<(ChangeInfo, Seq<u8>), XdrError> {
    match take_bool(s) {
        Err(e) => Err(e),
        Ok((atomic, rest)) => match take_u64(rest) {
            Err(e) => Err(e),
            Ok((before, rest)) => match take_u64(rest) {
                Err(e) => Err(e),
                Ok((after, rest)) => Ok((ChangeInfo { atomic, before, after }, rest)),
            },
        },
    }
}

/// Splits `s` into the directory entry at its front and the rest.
#[verifier::opaque]
pub open spec fn take_entry(s: Seq<u8>) -> Result<(EntryModel, Seq<u8>), ResponseFault> {
    match take_u64(s) {
        Err(e) => Err(ResponseFault::Malformed(e)),
        Ok((cookie, rest)) => match take_text(rest) {
            Err(e) => Err(ResponseFault::Attribute(e)),
            Ok((name, rest)) => match take_attributes(rest) {
                Err(e) => Err(ResponseFault::Attribute(e)),
                Ok((attrs, rest)) => Ok((EntryModel { cookie, name, attrs }, rest)),
            },
        },
    }
}

/// Reads the list of directory entries at the front of `s` behind the
/// entries `acc`: before each entry stands the word that one follows, and
/// after the last the word that none does.
pub open spec fn take_entries(s: Seq<u8>, acc: Seq<EntryModel>) -> Result<
    (Seq<EntryModel>, Seq<u8>),
    ResponseFault,
>
    decreases s.len(),
{
    match take_bool(s) {
        Err(e) => Err(ResponseFault::Malformed(e)),
        Ok((follows, rest)) => if !follows {
            Ok((acc, rest))
        } else {
            match take_entry(rest) {
                Err(e) => Err(e),
                Ok((entry, rest)) => if rest.len() < s.len() {
                    take_entries(rest, acc.push(entry))
                } else {
                    Err(ResponseFault::Malformed(XdrError::UnexpectedEnd))
                },
            }
        },
    }
}

/// Splits `s` into what a directory read gives and the rest: the verifier,
/// the entries, and the word on whether they reach the end.
#[verifier::opaque]
pub open spec fn take_listing(s: Seq<u8>) -> Result<(ValueModel, Seq<u8>), ResponseFault> {
    match take_u64(s) {
        Err(e) => Err(ResponseFault::Malformed(e)),
        Ok((cookie_verifier, rest)) => match take_entries(rest, Seq::empty()) {
            Err(e) => Err(e),
            Ok((entries, rest)) => match take_bool(rest) {
                Err(e) => Err(ResponseFault::Malformed(e)),
                Ok((eof, rest)) => Ok((ValueModel::Entries { cookie_verifier, entries, eof }, rest)),
            },
        },
    }
}

/// Splits `s` into what an open gives and the rest: the state id, the change
/// of the directory, the flags, the bitmap of the attributes set, and the
/// word that no delegation was given.
#[verifier::opaque]
pub open spec fn take_opened(s: Seq<u8>) -> Result<(ValueModel, Seq<u8>), ResponseFault> {
    match take_state_id(s) {
        Err(e) => Err(ResponseFault::Malformed(e)),
        Ok((state_id, rest)) => match take_change_info(rest) {
            Err(e) => Err(ResponseFault::Malformed(e)),
            Ok((change, rest)) => match take_u32(rest) {
                Err(e) => Err(ResponseFault::Malformed(e)),
                Ok((flags, rest)) => match take_u32_array(rest, u32::MAX as nat) {
                    Err(e) => Err(ResponseFault::Malformed(e)),
                    Ok((attributes_set, rest)) => match take_u32(rest) {
                        Err(e) => Err(ResponseFault::Malformed(e)),
                        Ok((delegation, rest)) => if delegation == 0 {
                            Ok(
                                (
                                    ValueModel::Opened { state_id, change, flags, attributes_set },
                                    rest,
                                ),
                            )
                        } else {
                            Err(ResponseFault::UnsupportedDelegation(delegation))
                        },
                    },
                },
            },
        },
    }
}

/// Splits `s` into what a read gives and the rest: the word on whether the
/// end is reached, and the bytes.
#[verifier::opaque]
pub open spec fn take_data(s: Seq<u8>) -> Result<(ValueModel, Seq<u8>), ResponseFault> {
    match take_bool(s) {
        Err(e) => Err(ResponseFault::Malformed(e)),
        Ok((eof, rest)) => match take_opaque(rest, u32::MAX as nat) {
            Err(e) => Err(ResponseFault::Malformed(e)),
            Ok((data, rest)) => Ok((ValueModel::Data { eof, data }, rest)),
        },
    }
}

/// Splits `s` into what a write gives and the rest: the number of bytes
/// written, how stably, and the verifier.
#[verifier::opaque]
pub open spec fn take_written(s: Seq<u8>) -> Result<(ValueModel, Seq<u8>), ResponseFault> {
    match take_u32(s) {
        Err(e) => Err(ResponseFault::Malformed(e)),
        Ok((count, rest)) => match take_u32(rest) {
            Err(e) => Err(ResponseFault::Malformed(e)),
            Ok((committed, rest)) => match take_u64(rest) {
                Err(e) => Err(ResponseFault::Malformed(e)),
                Ok((verifier, rest)) => Ok(
                    (ValueModel::Written { count, committed, verifier }, rest),
                ),
            },
        },
    }
}

/// Splits `s` into what the operation `code` gives where it did what it was
/// asked, and the rest.
#[verifier::opaque]
pub open spec fn take_given(code: OpCode, s: Seq<u8>) -> Result<(ValueModel, Seq<u8>), ResponseFault> {
    match code {
        OpCode::PutFh | OpCode::PutRootFh | OpCode::LookUp => Ok((ValueModel::Done, s)),
        OpCode::GetFh => match take_opaque(s, MAX_HANDLE_BYTES as nat) {
            Err(e) => Err(ResponseFault::Malformed(e)),
            Ok((handle, rest)) => Ok((ValueModel::Handle(handle), rest)),
        },
        OpCode::GetAttr => match take_attributes(s) {
            Err(e) => Err(ResponseFault::Attribute(e)),
            Ok((attrs, rest)) => Ok((ValueModel::Attributes(attrs), rest)),
        },
        OpCode::SetAttr => match take_u32_array(s, u32::MAX as nat) {
            Err(e) => Err(ResponseFault::Malformed(e)),
            Ok((words, rest)) => Ok((ValueModel::AttributesSet(words), rest)),
        },
        OpCode::ReadDir => take_listing(s),
        OpCode::Open => take_opened(s),
        OpCode::Close => match take_state_id(s) {
            Err(e) => Err(ResponseFault::Malformed(e)),
            Ok((state_id, rest)) => Ok((ValueModel::Closed(state_id), rest)),
        },
        OpCode::Remove => match take_change_info(s) {
            Err(e) => Err(ResponseFault::Malformed(e)),
            Ok((change, rest)) => Ok((ValueModel::Removed(change), rest)),
        },
        OpCode::Read => take_data(s),
        OpCode::Write => take_written(s),
        OpCode::Commit => match take_u64(s) {
            Err(e) => Err(ResponseFault::Malformed(e)),
            Ok((verifier, rest)) => Ok((ValueModel::Committed { verifier }, rest)),
        },
    }
}

/// Splits `s` into the result of an operation at its front and the rest:
/// the number of the operation, its status, and what it gives, which is
/// there where the status is `NFS4_OK`, and for setting attributes in any
/// case.
#[verifier::opaque]
pub open spec fn take_result(s: Seq<u8>) -> Result<(ResultModel, Seq<u8>), ResponseFault> {
    match take_u32(s) {
        Err(e) => Err(ResponseFault::Malformed(e)),
        Ok((number, rest)) => match OpCode::of_number(number) {
            None => Err(ResponseFault::UnknownOperation(number)),
            Some(code) => match take_u32(rest) {
                Err(e) => Err(ResponseFault::Malformed(e)),
                Ok((status, rest)) => if status == 0 || code == OpCode::SetAttr {
                    match take_given(code, rest) {
                        Err(e) => Err(e),
                        Ok((value, rest)) => Ok(
                            (ResultModel { code, status, value: Some(value) }, rest),
                        ),
                    }
                } else {
                    Ok((ResultModel { code, status, value: None }, rest))
                },
            },
        },
    }
}

/// Reads `count` results from the front of `s` behind the results `acc`.
pub open spec fn take_results(s: Seq<u8>, count: nat, acc: Seq<ResultModel>) -> Result<
    (Seq<ResultModel>, Seq<u8>),
    ResponseFault,
>
    decreases count,
{
    if count == 0 {
        Ok((acc, s))
    } else {
        match take_result(s) {
            Err(e) => Err(e),
            Ok((result, rest)) => take_results(rest, (count - 1) as nat, acc.push(result)),
        }
    }
}

/// Reads a reply that fills `s` to its end: the status, the tag, the number
/// of results, and the results.
pub open spec fn parse_response(s: Seq<u8>) -> Result<ResponseModel, ResponseFault> {
    match take_u32(s) {
        Err(e) => Err(ResponseFault::Malformed(e)),
        Ok((status, rest)) => match take_opaque(rest, u32::MAX as nat) {
            Err(e) => Err(ResponseFault::Malformed(e)),
            Ok((tag, rest)) => match take_u32(rest) {
                Err(e) => Err(ResponseFault::Malformed(e)),
                Ok((count, rest)) => match take_results(rest, count as nat, Seq::empty()) {
                    Err(e) => Err(e),
                    Ok((results, rest)) => if rest.len() == 0 {
                        Ok(ResponseModel { status, tag, results })
                    } else {
                        Err(ResponseFault::Malformed(XdrError::TrailingBytes))
                    },
                },
            },
        },
    }
}

/// Reads the state id at the front of `input`.
pub fn get_state_id(input: &[u8]) -> (r: Result<(StateId, &[u8]), XdrError>)
    ensures
        match r {
            Ok((id, rest)) => take_state_id(input@) == Ok::<(StateId, Seq<u8>), XdrError>(
                (id, rest@),
            ),
            Err(e) => take_state_id(input@) == Err::<(StateId, Seq<u8>), XdrError>(e),
        },
{
    proof {
        reveal(take_state_id);
    }
    let (sequence_id, rest) = get_u32(input)?;
    let (first, rest) = get_u32(rest)?;
    let (second, rest) = get_u32(rest)?;
    let (third, rest) = get_u32(rest)?;
    Ok((StateId { sequence_id, first, second, third }, rest))
}

/// Reads the change of a directory at the front of `input`.
pub fn get_change_info(input: &[u8]) -> (r: Result<(ChangeInfo, &[u8]), XdrError>)
    ensures
        match r {
            Ok((change, rest)) => take_change_info(input@) == Ok::<(ChangeInfo, Seq<u8>), XdrError>(
                (change, rest@),
            ),
            Err(e) => take_change_info(input@) == Err::<(ChangeInfo, Seq<u8>), XdrError>(e),
        },
{
    proof {
        reveal(take_change_info);
    }
    let (atomic, rest) = get_bool(input)?;
    let (before, rest) = get_u64(rest)?;
    let (after, rest) = get_u64(rest)?;
    Ok((ChangeInfo { atomic, before, after }, rest))
}

/// Reads the directory entry at the front of `input`.
pub fn get_entry(input: &[u8]) -> (r: Result<(DirectoryEntry, &[u8]), ResponseFault>)
    ensures
        match r {
            Ok((entry, rest)) => take_entry(input@) == Ok::<(EntryModel, Seq<u8>), ResponseFault>(
                (entry@, rest@),
            ),
            Err(e) => take_entry(input@) == Err::<(EntryModel, Seq<u8>), ResponseFault>(e),
        },
{
    proof {
        reveal(take_entry);
    }
    let (cookie, rest) = match get_u64(input) {
        Ok(pair) => pair,
        Err(e) => { return Err(ResponseFault::Malformed(e)); },
    };
    let (name, rest) = match get_text(rest) {
        Ok(pair) => pair,
        Err(e) => { return Err(ResponseFault::Attribute(e)); },
    };
    let (attrs, rest) = match get_attributes(rest) {
        Ok(pair) => pair,
        Err(e) => { return Err(ResponseFault::Attribute(e)); },
    };
    Ok((DirectoryEntry { cookie, name, attrs }, rest))
}

/// Reads the list of directory entries at the front of `input`.
pub fn get_entries(input: &[u8]) -> (r: Result<(Vec<DirectoryEntry>, &[u8]), ResponseFault>)
    ensures
        match r {
            Ok((entries, rest)) => take_entries(input@, Seq::empty()) == Ok::<
                (Seq<EntryModel>, Seq<u8>),
                ResponseFault,
            >((entry_models(entries@), rest@)),
            Err(e) => take_entries(input@, Seq::empty()) == Err::<
                (Seq<EntryModel>, Seq<u8>),
                ResponseFault,
            >(e),
        },
{
    let mut entries: Vec<DirectoryEntry> = Vec::new();
    let mut cur = input;
    assert(entry_models(entries@) =~= Seq::<EntryModel>::empty());
    loop
        invariant
            take_entries(input@, Seq::empty()) == take_entries(cur@, entry_models(entries@)),
        decreases cur@.len(),
    {
        let (follows, rest) = match get_bool(cur) {
            Ok(pair) => pair,
            Err(e) => { return Err(ResponseFault::Malformed(e)); },
        };
        if !follows {
            return Ok((entries, rest));
        }
        let (entry, rest) = get_entry(rest)?;
        if rest.len() >= cur.len() {
            return Err(ResponseFault::Malformed(XdrError::UnexpectedEnd));
        }
        let ghost before = entry_models(entries@);
        entries.push(entry);
        assert(entry_models(entries@) =~= before.push(entry@));
        cur = rest;
    }
}

/// Reads what a directory read gives.
pub fn get_listing(input: &[u8]) -> (r: Result<(ResultValue, &[u8]), ResponseFault>)
    ensures
        match r {
            Ok((value, rest)) => take_listing(input@) == Ok::<(ValueModel, Seq<u8>), ResponseFault>(
                (value@, rest@),
            ),
            Err(e) => take_listing(input@) == Err::<(ValueModel, Seq<u8>), ResponseFault>(e),
        },
{
    proof {
        reveal(take_listing);
    }
    let (cookie_verifier, rest) = match get_u64(input) {
        Ok(pair) => pair,
        Err(e) => { return Err(ResponseFault::Malformed(e)); },
    };
    let (entries, rest) = get_entries(rest)?;
    match get_bool(rest) {
        Ok((eof, rest)) => Ok((ResultValue::Entries { cookie_verifier, entries, eof }, rest)),
        Err(e) => Err(ResponseFault::Malformed(e)),
    }
}

/// Reads what an open gives.
pub fn get_opened(input: &[u8]) -> (r: Result<(ResultValue, &[u8]), ResponseFault>)
    ensures
        match r {
            Ok((value, rest)) => take_opened(input@) == Ok::<(ValueModel, Seq<u8>), ResponseFault>(
                (value@, rest@),
            ),
            Err(e) => take_opened(input@) == Err::<(ValueModel, Seq<u8>), ResponseFault>(e),
        },
{
    proof {
        reveal(take_opened);
    }
    let (state_id, rest) = match get_state_id(input) {
        Ok(pair) => pair,
        Err(e) => { return Err(ResponseFault::Malformed(e)); },
    };
    let (change, rest) = match get_change_info(rest) {
        Ok(pair) => pair,
        Err(e) => { return Err(ResponseFault::Malformed(e)); },
    };
    let (flags, rest) = match get_u32(rest) {
        Ok(pair) => pair,
        Err(e) => { return Err(ResponseFault::Malformed(e)); },
    };
    let (attributes_set, rest) = match get_u32_array(rest, u32::MAX) {
        Ok(pair) => pair,
        Err(e) => { return Err(ResponseFault::Malformed(e)); },
    };
    let (delegation, rest) = match get_u32(rest) {
        Ok(pair) => pair,
        Err(e) => { return Err(ResponseFault::Malformed(e)); },
    };
    if delegation == 0 {
        Ok((ResultValue::Opened { state_id, change, flags, attributes_set }, rest))
    } else {
        Err(ResponseFault::UnsupportedDelegation(delegation))
    }
}

/// Reads what a read gives.
pub fn get_data(input: &[u8]) -> (r: Result<(ResultValue, &[u8]), ResponseFault>)
    ensures
        match r {
            Ok((value, rest)) => take_data(input@) == Ok::<(ValueModel, Seq<u8>), ResponseFault>(
                (value@, rest@),
            ),
            Err(e) => take_data(input@) == Err::<(ValueModel, Seq<u8>), ResponseFault>(e),
        },
{
    proof {
        reveal(take_data);
    }
    let (eof, rest) = match get_bool(input) {
        Ok(pair) => pair,
        Err(e) => { return Err(ResponseFault::Malformed(e)); },
    };
    match get_opaque(rest, u32::MAX) {
        Ok((data, rest)) => Ok((ResultValue::Data { eof, data }, rest)),
        Err(e) => Err(ResponseFault::Malformed(e)),
    }
}

/// Reads what a write gives.
pub fn get_written(input: &[u8]) -> (r: Result<(ResultValue, &[u8]), ResponseFault>)
    ensures
        match r {
            Ok((value, rest)) => take_written(input@) == Ok::<(ValueModel, Seq<u8>), ResponseFault>(
                (value@, rest@),
            ),
            Err(e) => take_written(input@) == Err::<(ValueModel, Seq<u8>), ResponseFault>(e),
        },
{
    proof {
        reveal(take_written);
    }
    let (count, rest) = match get_u32(input) {
        Ok(pair) => pair,
        Err(e) => { return Err(ResponseFault::Malformed(e)); },
    };
    let (committed, rest) = match get_u32(rest) {
        Ok(pair) => pair,
        Err(e) => { return Err(ResponseFault::Malformed(e)); },
    };
    match get_u64(rest) {
        Ok((verifier, rest)) => Ok((ResultValue::Written { count, committed, verifier }, rest)),
        Err(e) => Err(ResponseFault::Malformed(e)),
    }
}

/// Reads what the operation `code` gives where it did what it was asked.
pub fn get_given(code: OpCode, input: &[u8]) -> (r: Result<(ResultValue, &[u8]), ResponseFault>)
    ensures
        match r {
            Ok((value, rest)) => take_given(code, input@) == Ok::<
                (ValueModel, Seq<u8>),
                ResponseFault,
            >((value@, rest@)),
            Err(e) => take_given(code, input@) == Err::<(ValueModel, Seq<u8>), ResponseFault>(e),
        },
{
    proof {
        reveal(take_given);
    }
    match code {
        OpCode::PutFh | OpCode::PutRootFh | OpCode::LookUp => Ok((ResultValue::Done, input)),
        OpCode::GetFh => match get_opaque(input, MAX_HANDLE_BYTES) {
            Ok((bytes, rest)) => Ok((ResultValue::Handle(FileHandle(bytes)), rest)),
            Err(e) => Err(ResponseFault::Malformed(e)),
        },
        OpCode::GetAttr => match get_attributes(input) {
            Ok((attrs, rest)) => Ok((ResultValue::Attributes(attrs), rest)),
            Err(e) => Err(ResponseFault::Attribute(e)),
        },
        OpCode::SetAttr => match get_u32_array(input, u32::MAX) {
            Ok((words, rest)) => Ok((ResultValue::AttributesSet(words), rest)),
            Err(e) => Err(ResponseFault::Malformed(e)),
        },
        OpCode::ReadDir => get_listing(input),
        OpCode::Open => get_opened(input),
        OpCode::Close => match get_state_id(input) {
            Ok((state_id, rest)) => Ok((ResultValue::Closed(state_id), rest)),
            Err(e) => Err(ResponseFault::Malformed(e)),
        },
        OpCode::Remove => match get_change_info(input) {
            Ok((change, rest)) => Ok((ResultValue::Removed(change), rest)),
            Err(e) => Err(ResponseFault::Malformed(e)),
        },
        OpCode::Read => get_data(input),
        OpCode::Write => get_written(input),
        OpCode::Commit => match get_u64(input) {
            Ok((verifier, rest)) => Ok((ResultValue::Committed { verifier }, rest)),
            Err(e) => Err(ResponseFault::Malformed(e)),
        },
    }
}

/// Reads the result of an operation at the front of `input`.
pub fn get_result(input: &[u8]) -> (r: Result<(OperationResult, &[u8]), ResponseFault>)
    ensures
        match r {
            Ok((result, rest)) => take_result(input@) == Ok::<(ResultModel, Seq<u8>), ResponseFault>(
                (result@, rest@),
            ),
            Err(e) => take_result(input@) == Err::<(ResultModel, Seq<u8>), ResponseFault>(e),
        },
{
    proof {
        reveal(take_result);
    }
    let (number, rest) = match get_u32(input) {
        Ok(pair) => pair,
        Err(e) => { return Err(ResponseFault::Malformed(e)); },
    };
    let code = match OpCode::from_number(number) {
        Some(code) => code,
        None => { return Err(ResponseFault::UnknownOperation(number)); },
    };
    let (status, rest) = match get_u32(rest) {
        Ok(pair) => pair,
        Err(e) => { return Err(ResponseFault::Malformed(e)); },
    };
    let sets = match code {
        OpCode::SetAttr => true,
        _ => false,
    };
    if status == 0 || sets {
        let (value, rest) = get_given(code, rest)?;
        Ok((OperationResult { code, status, value: Some(value) }, rest))
    } else {
        Ok((OperationResult { code, status, value: None }, rest))
    }
}

/// Reads a reply that fills `input` to its end.
pub fn decode_response(input: &[u8]) -> (r: Result<Response, ResponseFault>)
    ensures
        match r {
            Ok(response) => parse_response(input@) == Ok::<ResponseModel, ResponseFault>(response@),
            Err(e) => parse_response(input@) == Err::<ResponseModel, ResponseFault>(e),
        },
{
    let (status, rest) = match get_u32(input) {
        Ok(pair) => pair,
        Err(e) => { return Err(ResponseFault::Malformed(e)); },
    };
    let (tag, rest) = match get_opaque(rest, u32::MAX) {
        Ok(pair) => pair,
        Err(e) => { return Err(ResponseFault::Malformed(e)); },
    };
    let (count, rest) = match get_u32(rest) {
        Ok(pair) => pair,
        Err(e) => { return Err(ResponseFault::Malformed(e)); },
    };
    let mut results: Vec<OperationResult> = Vec::new();
    let mut cur = rest;
    let mut left: u32 = count;
    let ghost outcome = take_results(rest@, count as nat, Seq::empty());
    assert(result_models(results@) =~= Seq::<ResultModel>::empty());
    while left > 0
        invariant
            outcome == take_results(cur@, left as nat, result_models(results@)),
            parse_response(input@) == (match outcome {
                Err(e) => Err::<ResponseModel, ResponseFault>(e),
                Ok((results, rest)) => if rest.len() == 0 {
                    Ok::<ResponseModel, ResponseFault>(
                        ResponseModel { status, tag: tag@, results },
                    )
                } else {
                    Err::<ResponseModel, ResponseFault>(
                        ResponseFault::Malformed(XdrError::TrailingBytes),
                    )
                },
            }),
        decreases left,
    {
        let (result, rest) = get_result(cur)?;
        let ghost before = result_models(results@);
        results.push(result);
        assert(result_models(results@) =~= before.push(result@));
        cur = rest;
        left = left - 1;
    }
    match expect_end(cur) {
        Ok(_) => Ok(Response { status, tag, results }),
        Err(e) => Err(ResponseFault::Malformed(e)),
    }
}

/// The encoding of the change of a directory.
#[verifier::opaque]
pub open spec fn change_bytes(change: ChangeInfo) -> Seq<u8> {
    bool_bytes(change.atomic) + u64_bytes(change.before) + u64_bytes(change.after)
}

/// The encoding of a directory entry.
#[verifier::opaque]
pub open spec fn entry_bytes(entry: EntryModel) -> Seq<u8> {
    u64_bytes(entry.cookie) + text_bytes(entry.name) + attributes_bytes(entry.attrs)
}

/// Whether a directory entry can be sent.
pub open spec fn entry_encodable(entry: EntryModel) -> bool {
    text_encodable(entry.name) && attributes_encodable(entry.attrs)
}

/// The encoding of a list of directory entries: each entry behind the word
/// that one follows, and at the end the word that none does.
pub open spec fn entries_bytes(entries: Seq<EntryModel>) -> Seq<u8>
    decreases entries.len(),
{
    if entries.len() == 0 {
        bool_bytes(false)
    } else {
        bool_bytes(true) + entry_bytes(entries[0]) + entries_bytes(entries.drop_first())
    }
}

/// Whether all entries of a list can be sent.
pub open spec fn entries_encodable(entries: Seq<EntryModel>) -> bool {
    forall|i: int| 0 <= i < entries.len() ==> entry_encodable(#[trigger] entries[i])
}

/// The encoding of what an operation gives.
#[verifier::opaque]
pub open spec fn given_bytes(value: ValueModel) -> Seq<u8> {
    match value {
        ValueModel::Done => Seq::empty(),
        ValueModel::Handle(handle) => opaque_bytes(handle),
        ValueModel::Attributes(attrs) => attributes_bytes(attrs),
        ValueModel::AttributesSet(words) => u32_array_bytes(words),
        ValueModel::Entries { cookie_verifier, entries, eof } => u64_bytes(cookie_verifier)
            + entries_bytes(entries) + bool_bytes(eof),
        ValueModel::Opened { state_id, change, flags, attributes_set } => state_id_bytes(state_id)
            + change_bytes(change) + u32_bytes(flags) + u32_array_bytes(attributes_set)
            + u32_bytes(0),
        ValueModel::Closed(state_id) => state_id_bytes(state_id),
        ValueModel::Removed(change) => change_bytes(change),
        ValueModel::Data { eof, data } => bool_bytes(eof) + opaque_bytes(data),
        ValueModel::Written { count, committed, verifier } => u32_bytes(count) + u32_bytes(
            committed,
        ) + u64_bytes(verifier),
        ValueModel::Committed { verifier } => u64_bytes(verifier),
    }
}

/// Whether `value` is of the kind that the operation `code` gives.
pub open spec fn given_by(code: OpCode, value: ValueModel) -> bool {
    match code {
        OpCode::PutFh | OpCode::PutRootFh | OpCode::LookUp => value is Done,
        OpCode::GetFh => value is Handle,
        OpCode::GetAttr => value is Attributes,
        OpCode::SetAttr => value is AttributesSet,
        OpCode::ReadDir => value is Entries,
        OpCode::Open => value is Opened,
        OpCode::Close => value is Closed,
        OpCode::Remove => value is Removed,
        OpCode::Read => value is Data,
        OpCode::Write => value is Written,
        OpCode::Commit => value is Committed,
    }
}

/// Whether what an operation gives can be sent.
pub open spec fn given_encodable(value: ValueModel) -> bool {
    match value {
        ValueModel::Handle(handle) => handle.len() <= MAX_HANDLE_BYTES,
        ValueModel::Attributes(attrs) => attributes_encodable(attrs),
        ValueModel::AttributesSet(words) => words.len() <= u32::MAX,
        ValueModel::Entries { cookie_verifier, entries, eof } => entries_encodable(entries),
        ValueModel::Opened { state_id, change, flags, attributes_set } => attributes_set.len()
            <= u32::MAX,
        ValueModel::Data { eof, data } => data.len() <= u32::MAX,
        _ => true,
    }
}

/// Whether a result can be sent: it gives something exactly where its
/// status is `NFS4_OK` or it sets attributes, and what it gives is of its
/// operation's kind and can be sent.
pub open spec fn result_encodable(result: ResultModel) -> bool {
    &&& result.value is Some <==> (result.status == 0 || result.code == OpCode::SetAttr)
    &&& result.value matches Some(value) ==> given_by(result.code, value) && given_encodable(
        value,
    )
}

/// The encoding of a result: the number of the operation, the status, and
/// what the operation gives.
#[verifier::opaque]
pub open spec fn result_bytes(result: ResultModel) -> Seq<u8> {
    u32_bytes(result.code.number()) + u32_bytes(result.status) + (match result.value {
        Some(value) => given_bytes(value),
        None => Seq::empty(),
    })
}

/// The encodings of the results, one after the other.
pub open spec fn results_bytes(results: Seq<ResultModel>) -> Seq<u8>
    decreases results.len(),
{
    if results.len() == 0 {
        Seq::empty()
    } else {
        result_bytes(results[0]) + results_bytes(results.drop_first())
    }
}

/// Whether a reply can be sent.
pub open spec fn response_encodable(response: ResponseModel) -> bool {
    &&& response.tag.len() <= u32::MAX
    &&& response.results.len() <= u32::MAX
    &&& forall|i: int|
        0 <= i < response.results.len() ==> result_encodable(#[trigger] response.results[i])
}

/// The encoding of a reply: the status, the tag, the number of results, and
/// the results.
pub open spec fn response_bytes(response: ResponseModel) -> Seq<u8> {
    u32_bytes(response.status) + opaque_bytes(response.tag) + u32_bytes(
        response.results.len() as u32,
    ) + results_bytes(response.results)
}

/// A state id is read back as it was, whatever follows it.
pub proof fn lemma_state_id_round_trip(id: StateId, rest: Seq<u8>)
    ensures
        take_state_id(state_id_bytes(id) + rest) == Ok::<(StateId, Seq<u8>), XdrError>((id, rest)),
{
    reveal(take_state_id);
    reveal(state_id_bytes);
    let a = u32_bytes(id.sequence_id);
    let b = u32_bytes(id.first);
    let c = u32_bytes(id.second);
    let d = u32_bytes(id.third);
    lemma_concat_assoc(a + b + c, d, rest);
    lemma_concat_assoc(a + b, c, d + rest);
    lemma_concat_assoc(a, b, c + (d + rest));
    lemma_u32_round_trip(id.sequence_id, b + (c + (d + rest)));
    lemma_u32_round_trip(id.first, c + (d + rest));
    lemma_u32_round_trip(id.second, d + rest);
    lemma_u32_round_trip(id.third, rest);
}

/// The change of a directory is read back as it was, whatever follows it.
pub proof fn lemma_change_round_trip(change: ChangeInfo, rest: Seq<u8>)
    ensures
        take_change_info(change_bytes(change) + rest) == Ok::<(ChangeInfo, Seq<u8>), XdrError>(
            (change, rest),
        ),
{
    reveal(take_change_info);
    reveal(change_bytes);
    let a = bool_bytes(change.atomic);
    let b = u64_bytes(change.before);
    let c = u64_bytes(change.after);
    lemma_concat_assoc(a + b, c, rest);
    lemma_concat_assoc(a, b, c + rest);
    lemma_bool_round_trip(change.atomic, b + (c + rest));
    lemma_u64_round_trip(change.before, c + rest);
    lemma_u64_round_trip(change.after, rest);
}

/// A directory entry is read back as it was, whatever follows it.
pub proof fn lemma_entry_round_trip(entry: EntryModel, rest: Seq<u8>)
    requires
        entry_encodable(entry),
    ensures
        take_entry(entry_bytes(entry) + rest) == Ok::<(EntryModel, Seq<u8>), ResponseFault>(
            (entry, rest),
        ),
{
    reveal(take_entry);
    reveal(entry_bytes);
    let a = u64_bytes(entry.cookie);
    let b = text_bytes(entry.name);
    let c = attributes_bytes(entry.attrs);
    lemma_concat_assoc(a + b, c, rest);
    lemma_concat_assoc(a, b, c + rest);
    lemma_u64_round_trip(entry.cookie, b + (c + rest));
    lemma_text_round_trip(entry.name, c + rest);
    lemma_attributes_round_trip(entry.attrs, rest);
}

/// A list of directory entries is read back as it was, behind the entries
/// read before, whatever follows it.
pub proof fn lemma_entries_round_trip(entries: Seq<EntryModel>, rest: Seq<u8>, acc: Seq<EntryModel>)
    requires
        forall|i: int| 0 <= i < entries.len() ==> entry_encodable(#[trigger] entries[i]),
    ensures
        take_entries(entries_bytes(entries) + rest, acc) == Ok::<
            (Seq<EntryModel>, Seq<u8>),
            ResponseFault,
        >((acc + entries, rest)),
    decreases entries.len(),
{
    if entries.len() == 0 {
        lemma_bool_round_trip(false, rest);
        assert(acc + entries =~= acc);
    } else {
        let first = entries[0];
        let tail = entries.drop_first();
        let a = bool_bytes(true);
        let b = entry_bytes(first);
        let c = entries_bytes(tail);
        let all = entries_bytes(entries) + rest;
        lemma_concat_assoc(a + b, c, rest);
        lemma_concat_assoc(a, b, c + rest);
        lemma_bool_round_trip(true, b + (c + rest));
        lemma_entry_round_trip(first, c + rest);
        assert forall|i: int| 0 <= i < tail.len() implies entry_encodable(#[trigger] tail[i]) by {
            assert(tail[i] == entries[i + 1]);
        }
        lemma_entries_round_trip(tail, rest, acc.push(first));
        assert(acc.push(first) + tail =~= acc + entries);
        assert(all.len() == a.len() + (b + (c + rest)).len());
        assert((c + rest).len() < all.len());
    }
}

/// What a directory read gives is read back as it was.
proof fn lemma_listing_round_trip(
    cookie_verifier: u64,
    entries: Seq<EntryModel>,
    eof: bool,
    rest: Seq<u8>,
)
    requires
        forall|i: int| 0 <= i < entries.len() ==> entry_encodable(#[trigger] entries[i]),
    ensures
        take_listing(
            given_bytes(ValueModel::Entries { cookie_verifier, entries, eof }) + rest,
        ) == Ok::<(ValueModel, Seq<u8>), ResponseFault>(
            (ValueModel::Entries { cookie_verifier, entries, eof }, rest),
        ),
{
    reveal(take_listing);
    reveal(given_bytes);
    let a = u64_bytes(cookie_verifier);
    let b = entries_bytes(entries);
    let c = bool_bytes(eof);
    lemma_concat_assoc(a + b, c, rest);
    lemma_concat_assoc(a, b, c + rest);
    lemma_u64_round_trip(cookie_verifier, b + (c + rest));
    lemma_entries_round_trip(entries, c + rest, Seq::empty());
    lemma_bool_round_trip(eof, rest);
    assert(Seq::<EntryModel>::empty() + entries =~= entries);
}

/// What an open gives is read back as it was.
proof fn lemma_opened_round_trip(
    state_id: StateId,
    change: ChangeInfo,
    flags: u32,
    attributes_set: Seq<u32>,
    rest: Seq<u8>,
)
    requires
        attributes_set.len() <= u32::MAX,
    ensures
        take_opened(
            given_bytes(ValueModel::Opened { state_id, change, flags, attributes_set }) + rest,
        ) == Ok::<(ValueModel, Seq<u8>), ResponseFault>(
            (ValueModel::Opened { state_id, change, flags, attributes_set }, rest),
        ),
{
    reveal(take_opened);
    reveal(given_bytes);
    let a = state_id_bytes(state_id);
    let b = change_bytes(change);
    let c = u32_bytes(flags);
    let d = u32_array_bytes(attributes_set);
    let e = u32_bytes(0);
    lemma_concat_assoc(a + b + c + d, e, rest);
    lemma_concat_assoc(a + b + c, d, e + rest);
    lemma_concat_assoc(a + b, c, d + (e + rest));
    lemma_concat_assoc(a, b, c + (d + (e + rest)));
    lemma_state_id_round_trip(state_id, b + (c + (d + (e + rest))));
    lemma_change_round_trip(change, c + (d + (e + rest)));
    lemma_u32_round_trip(flags, d + (e + rest));
    lemma_u32_array_round_trip(attributes_set, e + rest, u32::MAX as nat);
    lemma_u32_round_trip(0, rest);
}

/// What a read gives is read back as it was.
proof fn lemma_data_round_trip(eof: bool, data: Seq<u8>, rest: Seq<u8>)
    requires
        data.len() <= u32::MAX,
    ensures
        take_data(given_bytes(ValueModel::Data { eof, data }) + rest) == Ok::<
            (ValueModel, Seq<u8>),
            ResponseFault,
        >((ValueModel::Data { eof, data }, rest)),
{
    reveal(take_data);
    reveal(given_bytes);
    lemma_concat_assoc(bool_bytes(eof), opaque_bytes(data), rest);
    lemma_bool_round_trip(eof, opaque_bytes(data) + rest);
    lemma_opaque_round_trip(data, rest, u32::MAX as nat);
}

/// What a write gives is read back as it was.
proof fn lemma_written_round_trip(count: u32, committed: u32, verifier: u64, rest: Seq<u8>)
    ensures
        take_written(given_bytes(ValueModel::Written { count, committed, verifier }) + rest) == Ok::<
            (ValueModel, Seq<u8>),
            ResponseFault,
        >((ValueModel::Written { count, committed, verifier }, rest)),
{
    reveal(take_written);
    reveal(given_bytes);
    let a = u32_bytes(count);
    let b = u32_bytes(committed);
    let c = u64_bytes(verifier);
    lemma_concat_assoc(a + b, c, rest);
    lemma_concat_assoc(a, b, c + rest);
    lemma_u32_round_trip(count, b + (c + rest));
    lemma_u32_round_trip(committed, c + rest);
    lemma_u64_round_trip(verifier, rest);
}

/// What an operation gives is read back as it was, whatever follows it.
pub proof fn lemma_given_round_trip(code: OpCode, value: ValueModel, rest: Seq<u8>)
    requires
        given_by(code, value),
        given_encodable(value),
    ensures
        take_given(code, given_bytes(value) + rest) == Ok::<(ValueModel, Seq<u8>), ResponseFault>(
            (value, rest),
        ),
{
    reveal(take_given);
    reveal(given_bytes);
    match value {
        ValueModel::Done => {
            assert(given_bytes(value) + rest =~= rest);
        },
        ValueModel::Handle(handle) => {
            lemma_opaque_round_trip(handle, rest, MAX_HANDLE_BYTES as nat);
        },
        ValueModel::Attributes(attrs) => {
            lemma_attributes_round_trip(attrs, rest);
        },
        ValueModel::AttributesSet(words) => {
            lemma_u32_array_round_trip(words, rest, u32::MAX as nat);
        },
        ValueModel::Entries { cookie_verifier, entries, eof } => {
            lemma_listing_round_trip(cookie_verifier, entries, eof, rest);
        },
        ValueModel::Opened { state_id, change, flags, attributes_set } => {
            lemma_opened_round_trip(state_id, change, flags, attributes_set, rest);
        },
        ValueModel::Closed(state_id) => {
            lemma_state_id_round_trip(state_id, rest);
        },
        ValueModel::Removed(change) => {
            lemma_change_round_trip(change, rest);
        },
        ValueModel::Data { eof, data } => {
            lemma_data_round_trip(eof, data, rest);
        },
        ValueModel::Written { count, committed, verifier } => {
            lemma_written_round_trip(count, committed, verifier, rest);
        },
        ValueModel::Committed { verifier } => {
            lemma_u64_round_trip(verifier, rest);
        },
    }
}

/// A result is read back as it was, whatever follows it.
pub proof fn lemma_result_round_trip(result: ResultModel, rest: Seq<u8>)
    requires
        result_encodable(result),
    ensures
        take_result(result_bytes(result) + rest) == Ok::<(ResultModel, Seq<u8>), ResponseFault>(
            (result, rest),
        ),
{
    reveal(take_result);
    reveal(result_bytes);
    let a = u32_bytes(result.code.number());
    let b = u32_bytes(result.status);
    let c = match result.value {
        Some(value) => given_bytes(value),
        None => Seq::empty(),
    };
    lemma_concat_assoc(a + b, c, rest);
    lemma_concat_assoc(a, b, c + rest);
    lemma_u32_round_trip(result.code.number(), b + (c + rest));
    lemma_u32_round_trip(result.status, c + rest);
    result.code.lemma_number_round_trip(0);
    match result.value {
        Some(value) => {
            lemma_given_round_trip(result.code, value, rest);
        },
        None => {
            assert(c + rest =~= rest);
        },
    }
}

/// Results are read back as they were, behind the results read before,
/// whatever follows them.
pub proof fn lemma_results_round_trip(results: Seq<ResultModel>, rest: Seq<u8>, acc: Seq<ResultModel>)
    requires
        forall|i: int| 0 <= i < results.len() ==> result_encodable(#[trigger] results[i]),
    ensures
        take_results(results_bytes(results) + rest, results.len(), acc) == Ok::<
            (Seq<ResultModel>, Seq<u8>),
            ResponseFault,
        >((acc + results, rest)),
    decreases results.len(),
{
    if results.len() == 0 {
        assert(results_bytes(results) + rest =~= rest);
        assert(acc + results =~= acc);
    } else {
        let first = results[0];
        let tail = results.drop_first();
        lemma_concat_assoc(result_bytes(first), results_bytes(tail), rest);
        lemma_result_round_trip(first, results_bytes(tail) + rest);
        assert forall|i: int| 0 <= i < tail.len() implies result_encodable(#[trigger] tail[i]) by {
            assert(tail[i] == results[i + 1]);
        }
        lemma_results_round_trip(tail, rest, acc.push(first));
        assert(acc.push(first) + tail =~= acc + results);
    }
}

/// A reply that can be sent is read back as it was.
pub proof fn lemma_response_round_trip(response: ResponseModel)
    requires
        response_encodable(response),
    ensures
        parse_response(response_bytes(response)) == Ok::<ResponseModel, ResponseFault>(response),
{
    let a = u32_bytes(response.status);
    let b = opaque_bytes(response.tag);
    let c = u32_bytes(response.results.len() as u32);
    let d = results_bytes(response.results);
    let e = Seq::<u8>::empty();
    assert(d + e =~= d);
    lemma_concat_assoc(a + b, c, d);
    lemma_concat_assoc(a, b, c + d);
    lemma_u32_round_trip(response.status, b + (c + d));
    lemma_opaque_round_trip(response.tag, c + d, u32::MAX as nat);
    lemma_u32_round_trip(response.results.len() as u32, d);
    lemma_results_round_trip(response.results, e, Seq::empty());
    assert(Seq::<ResultModel>::empty() + response.results =~= response.results);
}

/// Appends the encoding of the change of a directory to `out`.
pub fn put_change_info(out: &mut Vec<u8>, change: ChangeInfo)
    ensures
        final(out)@ == old(out)@ + change_bytes(change),
{
    proof {
        reveal(change_bytes);
    }
    put_bool(out, change.atomic);
    put_u64(out, change.before);
    put_u64(out, change.after);
    assert(out@ =~= old(out)@ + change_bytes(change));
}

/// The encoding of a directory entry, unless it cannot be sent.
pub fn encode_entry(entry: &DirectoryEntry) -> (r: Option<Vec<u8>>)
    ensures
        match r {
            Some(bytes) => entry_encodable(entry@) && bytes@ == entry_bytes(entry@),
            None => !entry_encodable(entry@),
        },
{
    proof {
        reveal(entry_bytes);
    }
    let mut out: Vec<u8> = Vec::new();
    put_u64(&mut out, entry.cookie);
    if put_text(&mut out, entry.name.as_str()).is_err() {
        return None;
    }
    if put_attributes(&mut out, &entry.attrs).is_err() {
        return None;
    }
    assert(out@ =~= entry_bytes(entry@));
    Some(out)
}

/// The encoding of a list of directory entries, unless one of them cannot
/// be sent.
pub fn encode_entries(entries: &Vec<DirectoryEntry>) -> (r: Option<Vec<u8>>)
    ensures
        match r {
            Some(bytes) => bytes@ == entries_bytes(entry_models(entries@)) && entries_encodable(
                entry_models(entries@),
            ),
            None => !entries_encodable(entry_models(entries@)),
        },
{
    let ghost all = entry_models(entries@);
    let mut out: Vec<u8> = Vec::new();
    put_bool(&mut out, false);
    let mut i: usize = entries.len();
    assert(all.skip(i as int) =~= Seq::<EntryModel>::empty());
    // the list is put together from its end
    while i > 0
        invariant
            i <= entries.len(),
            all == entry_models(entries@),
            all.len() == entries@.len(),
            out@ == entries_bytes(all.skip(i as int)),
            forall|j: int| i <= j < all.len() ==> entry_encodable(#[trigger] all[j]),
        decreases i,
    {
        i = i - 1;
        let piece = match encode_entry(&entries[i]) {
            Some(piece) => piece,
            None => {
                assert(!entry_encodable(all[i as int]));
                return None;
            },
        };
        let mut front: Vec<u8> = Vec::new();
        put_bool(&mut front, true);
        front.extend_from_slice(piece.as_slice());
        front.extend_from_slice(out.as_slice());
        proof {
            let now = all.skip(i as int);
            assert(now[0] == all[i as int]);
            assert(now.drop_first() =~= all.skip(i + 1));
        }
        out = front;
    }
    assert(all.skip(0) =~= all);
    Some(out)
}

/// Appends the encoding of what an operation gives to `out` and says whether
/// it can be sent. Where it cannot, `out` holds no more than a part of it.
pub fn put_given(out: &mut Vec<u8>, value: &ResultValue) -> (r: bool)
    ensures
        r == given_encodable(value@),
        r ==> final(out)@ == old(out)@ + given_bytes(value@),
{
    proof {
        reveal(given_bytes);
    }
    match value {
        ResultValue::Done => {
            assert(out@ =~= old(out)@ + given_bytes(value@));
            true
        },
        ResultValue::Handle(handle) => {
            if handle.0.len() > MAX_HANDLE_BYTES as usize {
                return false;
            }
            let _ = put_opaque(out, handle.0.as_slice());
            true
        },
        ResultValue::Attributes(attrs) => put_attributes(out, attrs).is_ok(),
        ResultValue::AttributesSet(words) => put_u32_array(out, words.as_slice()).is_ok(),
        ResultValue::Entries { cookie_verifier, entries, eof } => {
            put_u64(out, *cookie_verifier);
            let list = match encode_entries(entries) {
                Some(list) => list,
                None => { return false; },
            };
            out.extend_from_slice(list.as_slice());
            put_bool(out, *eof);
            assert(out@ =~= old(out)@ + given_bytes(value@));
            true
        },
        ResultValue::Opened { state_id, change, flags, attributes_set } => {
            if attributes_set.len() > u32::MAX as usize {
                return false;
            }
            put_state_id(out, *state_id);
            put_change_info(out, *change);
            put_u32(out, *flags);
            let _ = put_u32_array(out, attributes_set.as_slice());
            put_u32(out, 0);
            assert(out@ =~= old(out)@ + given_bytes(value@));
            true
        },
        ResultValue::Closed(state_id) => {
            put_state_id(out, *state_id);
            true
        },
        ResultValue::Removed(change) => {
            put_change_info(out, *change);
            true
        },
        ResultValue::Data { eof, data } => {
            if data.len() > u32::MAX as usize {
                return false;
            }
            put_bool(out, *eof);
            let _ = put_opaque(out, data.as_slice());
            assert(out@ =~= old(out)@ + given_bytes(value@));
            true
        },
        ResultValue::Written { count, committed, verifier } => {
            put_u32(out, *count);
            put_u32(out, *committed);
            put_u64(out, *verifier);
            assert(out@ =~= old(out)@ + given_bytes(value@));
            true
        },
        ResultValue::Committed { verifier } => {
            put_u64(out, *verifier);
            true
        },
    }
}

/// Whether `value` is of the kind that the operation `code` gives.
pub fn is_given_by(code: OpCode, value: &ResultValue) -> (r: bool)
    ensures
        r == given_by(code, value@),
{
    match (code, value) {
        (OpCode::PutFh, ResultValue::Done) => true,
        (OpCode::PutRootFh, ResultValue::Done) => true,
        (OpCode::LookUp, ResultValue::Done) => true,
        (OpCode::GetFh, ResultValue::Handle(_)) => true,
        (OpCode::GetAttr, ResultValue::Attributes(_)) => true,
        (OpCode::SetAttr, ResultValue::AttributesSet(_)) => true,
        (OpCode::ReadDir, ResultValue::Entries { .. }) => true,
        (OpCode::Open, ResultValue::Opened { .. }) => true,
        (OpCode::Close, ResultValue::Closed(_)) => true,
        (OpCode::Remove, ResultValue::Removed(_)) => true,
        (OpCode::Read, ResultValue::Data { .. }) => true,
        (OpCode::Write, ResultValue::Written { .. }) => true,
        (OpCode::Commit, ResultValue::Committed { .. }) => true,
        _ => false,
    }
}

/// The encoding of a result, unless it cannot be sent.
pub fn encode_result(result: &OperationResult) -> (r: Option<Vec<u8>>)
    ensures
        match r {
            Some(bytes) => result_encodable(result@) && bytes@ == result_bytes(result@),
            None => !result_encodable(result@),
        },
{
    proof {
        reveal(result_bytes);
    }
    let sets = match result.code {
        OpCode::SetAttr => true,
        _ => false,
    };
    let mut out: Vec<u8> = Vec::new();
    put_u32(&mut out, result.code.to_number());
    put_u32(&mut out, result.status);
    match &result.value {
        Some(value) => {
            if !(result.status == 0 || sets) || !is_given_by(result.code, value) {
                return None;
            }
            if !put_given(&mut out, value) {
                return None;
            }
            assert(out@ =~= result_bytes(result@));
            Some(out)
        },
        None => {
            if result.status == 0 || sets {
                return None;
            }
            assert(out@ =~= result_bytes(result@));
            Some(out)
        },
    }
}

/// The encoding of a reply, unless it cannot be sent.
pub fn encode_response(response: &Response) -> (r: Option<Vec<u8>>)
    ensures
        match r {
            Some(bytes) => response_encodable(response@) && bytes@ == response_bytes(response@),
            None => !response_encodable(response@),
        },
{
    let ghost all = result_models(response.results@);
    if response.tag.len() > u32::MAX as usize || response.results.len() > u32::MAX as usize {
        return None;
    }
    let mut tail: Vec<u8> = Vec::new();
    let mut i: usize = response.results.len();
    assert(all.skip(i as int) =~= Seq::<ResultModel>::empty());
    // the results are put together from the last
    while i > 0
        invariant
            i <= response.results.len(),
            all == result_models(response.results@),
            all.len() == response.results@.len(),
            tail@ == results_bytes(all.skip(i as int)),
            forall|j: int| i <= j < all.len() ==> result_encodable(#[trigger] all[j]),
        decreases i,
    {
        i = i - 1;
        let piece = match encode_result(&response.results[i]) {
            Some(piece) => piece,
            None => {
                assert(!result_encodable(all[i as int]));
                return None;
            },
        };
        let mut front = piece;
        front.extend_from_slice(tail.as_slice());
        proof {
            let now = all.skip(i as int);
            assert(now[0] == all[i as int]);
            assert(now.drop_first() =~= all.skip(i + 1));
        }
        tail = front;
    }
    assert(all.skip(0) =~= all);
    let mut out: Vec<u8> = Vec::new();
    put_u32(&mut out, response.status);
    let _ = put_opaque(&mut out, response.tag.as_slice());
    put_u32(&mut out, response.results.len() as u32);
    out.extend_from_slice(tail.as_slice());
    assert(out@ =~= response_bytes(response@));
    Some(out)
}

/// The change of a directory is whole words.
proof fn lemma_change_aligned(change: ChangeInfo)
    ensures
        change_bytes(change).len() % 4 == 0,
{
    reveal(change_bytes);
    let a = bool_bytes(change.atomic);
    lemma_bool_round_trip(change.atomic, Seq::empty());
    lemma_u64_aligned(change.before);
    lemma_u64_aligned(change.after);
    lemma_concat_aligned(a, u64_bytes(change.before));
    lemma_concat_aligned(a + u64_bytes(change.before), u64_bytes(change.after));
}

/// A list of directory entries is whole words.
proof fn lemma_entries_aligned(entries: Seq<EntryModel>)
    ensures
        entries_bytes(entries).len() % 4 == 0,
    decreases entries.len(),
{
    if entries.len() == 0 {
        lemma_bool_round_trip(false, Seq::empty());
    } else {
        reveal(entry_bytes);
        let first = entries[0];
        let a = bool_bytes(true);
        let b = u64_bytes(first.cookie);
        let c = text_bytes(first.name);
        let d = attributes_bytes(first.attrs);
        lemma_bool_round_trip(true, Seq::empty());
        lemma_u64_aligned(first.cookie);
        lemma_opaque_aligned(vstd::utf8::encode_utf8(first.name));
        lemma_attributes_aligned(first.attrs);
        lemma_concat_aligned(b, c);
        lemma_concat_aligned(b + c, d);
        lemma_concat_aligned(a, entry_bytes(first));
        lemma_entries_aligned(entries.drop_first());
        lemma_concat_aligned(a + entry_bytes(first), entries_bytes(entries.drop_first()));
    }
}

/// The encoding of what an operation gives is a multiple of four bytes long.
pub proof fn lemma_given_aligned(value: ValueModel)
    ensures
        given_bytes(value).len() % 4 == 0,
{
    reveal(given_bytes);
    match value {
        ValueModel::Done => {},
        ValueModel::Handle(handle) => {
            lemma_opaque_aligned(handle);
        },
        ValueModel::Attributes(attrs) => {
            lemma_attributes_aligned(attrs);
        },
        ValueModel::AttributesSet(words) => {
            lemma_words_aligned(words);
        },
        ValueModel::Entries { cookie_verifier, entries, eof } => {
            let a = u64_bytes(cookie_verifier);
            let b = entries_bytes(entries);
            lemma_u64_aligned(cookie_verifier);
            lemma_entries_aligned(entries);
            lemma_bool_round_trip(eof, Seq::empty());
            lemma_concat_aligned(a, b);
            lemma_concat_aligned(a + b, bool_bytes(eof));
        },
        ValueModel::Opened { state_id, change, flags, attributes_set } => {
            let a = state_id_bytes(state_id);
            let b = change_bytes(change);
            let c = u32_bytes(flags);
            let d = u32_array_bytes(attributes_set);
            lemma_state_id_aligned(state_id);
            lemma_change_aligned(change);
            lemma_u32_aligned(flags);
            lemma_words_aligned(attributes_set);
            lemma_u32_aligned(0);
            lemma_concat_aligned(a, b);
            lemma_concat_aligned(a + b, c);
            lemma_concat_aligned(a + b + c, d);
            lemma_concat_aligned(a + b + c + d, u32_bytes(0));
        },
        ValueModel::Closed(state_id) => {
            lemma_state_id_aligned(state_id);
        },
        ValueModel::Removed(change) => {
            lemma_change_aligned(change);
        },
        ValueModel::Data { eof, data } => {
            lemma_bool_round_trip(eof, Seq::empty());
            lemma_opaque_aligned(data);
            lemma_concat_aligned(bool_bytes(eof), opaque_bytes(data));
        },
        ValueModel::Written { count, committed, verifier } => {
            lemma_u32_aligned(count);
            lemma_u32_aligned(committed);
            lemma_u64_aligned(verifier);
            lemma_concat_aligned(u32_bytes(count), u32_bytes(committed));
            lemma_concat_aligned(u32_bytes(count) + u32_bytes(committed), u64_bytes(verifier));
        },
        ValueModel::Committed { verifier } => {
            lemma_u64_aligned(verifier);
        },
    }
}

/// A counted array of numbers is whole words.
proof fn lemma_words_aligned(words: Seq<u32>)
    ensures
        u32_array_bytes(words).len() % 4 == 0,
{
    reveal(crate::xdr::u32_array_bytes);
    reveal(crate::xdr::u32s_bytes);
    let count = words.len() as int;
    let len = u32_array_bytes(words).len() as int;
    lemma_u32_aligned(words.len() as u32);
    lemma_u32_round_trip(words.len() as u32, Seq::empty());
    assert(len == 4 + 4 * count);
    assert(len % 4 == 0) by (nonlinear_arith)
        requires
            len == 4 + 4 * count,
    ;
}

/// The encoding of a reply is a multiple of four bytes long.
pub proof fn lemma_response_aligned(response: ResponseModel)
    ensures
        response_bytes(response).len() % 4 == 0,
{
    let a = u32_bytes(response.status);
    let b = opaque_bytes(response.tag);
    let c = u32_bytes(response.results.len() as u32);
    lemma_u32_aligned(response.status);
    lemma_opaque_aligned(response.tag);
    lemma_u32_aligned(response.results.len() as u32);
    lemma_results_aligned(response.results);
    lemma_concat_aligned(a, b);
    lemma_concat_aligned(a + b, c);
    lemma_concat_aligned(a + b + c, results_bytes(response.results));
}

/// The encodings of results are whole words.
pub proof fn lemma_results_aligned(results: Seq<ResultModel>)
    ensures
        results_bytes(results).len() % 4 == 0,
    decreases results.len(),
{
    if results.len() > 0 {
        reveal(result_bytes);
        let first = results[0];
        let a = u32_bytes(first.code.number());
        let b = u32_bytes(first.status);
        let c = match first.value {
            Some(value) => given_bytes(value),
            None => Seq::empty(),
        };
        lemma_u32_aligned(first.code.number());
        lemma_u32_aligned(first.status);
        match first.value {
            Some(value) => {
                lemma_given_aligned(value);
            },
            None => {},
        }
        lemma_concat_aligned(a, b);
        lemma_concat_aligned(a + b, c);
        lemma_results_aligned(results.drop_first());
        lemma_concat_aligned(result_bytes(first), results_bytes(results.drop_first()));
    }
}

} // verus!
