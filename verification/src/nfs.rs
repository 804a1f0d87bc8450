//! The NFS client: how it sends one COMPOUND request over the RPC client and
//! judges the reply, and its calls that take one request.

use crate::attrs::{
    AttrModel, AttributeSet, DirectoryEntry, FileAttributeId, FileAttributes, FileHandle,
};
use crate::auth::OpaqueAuthModel;
use crate::client::{
    call_frame, lemma_listened_to_nothing, listened, reply_outcome, send_refusal, Error,
    RpcClient, Transport, NULL_PROCEDURE, PROGRAM_VERSION, RECORD_BUDGET,
};
use crate::record::{hearing, Hearing};
use crate::compound::{
    check_reply, codes, create_file_compound, get_attr_compound, look_up_compound, models, numbers,
    path_components, remove_compound, reply_verdict, set_attr_compound, Operation, OperationModel,
    ReplyFault, COMPOUND_PROCEDURE, NFS_PROGRAM,
};
use crate::journal::{of_a_request, only_wanted, Outcome};
use crate::request::{encode_request, request_bytes, request_fault, RequestFault};
use crate::response::{
    decode_response, entry_models, parse_response, result_models, Response, ResponseFault,
    ResponseModel, ResultModel, ResultValue, ValueModel,
};
use crate::status::NfsError;
use crate::transfer::TransferFault;
use crate::wire::{all_bytes, hand_over, handing, take_from, taking, Call, Tally};
use crate::xdr::XdrError;
use vstd::prelude::*;
use vstd::slice::slice_to_vec;

verus! {

/// Why a call to the NFS client failed.
#[derive(Clone, Debug, PartialEq, Eq)]
pub enum ClientError {
    /// The call could not be sent, or no reply to it could be had.
    Rpc(Error),
    /// The request cannot be put on the wire.
    Request(RequestFault),
    /// The reply cannot be read.
    Response(ResponseFault),
    /// The reply does not fit the request.
    Reply(ReplyFault),
    /// The server refused an operation.
    Nfs(NfsError),
    /// A result lacks what its operation gives.
    MissingValue,
    /// A transfer cannot go on.
    Transfer(TransferFault),
    /// The place that the bytes of a file go to failed; the text is its own.
    Sink(String),
    /// The place that the bytes of a file come from failed; the text is its
    /// own.
    Source(String),
}

/// A place that the bytes of a file go to.
pub trait Sink {
    /// Takes all of `bytes`, or says why it could not.
    fn write_all(&mut self, bytes: &[u8]) -> Result<(), String>;
}

/// A place that the bytes of a file come from.
pub trait Source {
    /// Gives the next bytes, `max` at most and none at the end, or says why
    /// it could not.
    fn read(&mut self, max: usize) -> Result<Vec<u8>, String>;
}

/// The numbers of the operations whose results these are, in order.
pub open spec fn result_numbers(results: Seq<ResultModel>) -> Seq<u32> {
    results.map_values(|result: ResultModel| result.code.number())
}

/// What the results of a call to the COMPOUND procedure mean for the request
/// with the operations `ops`: the reply, where it can be read and holds the
/// results of all operations of the request, all with the status `NFS4_OK`;
/// else why not.
pub open spec fn response_verdict(ops: Seq<OperationModel>, payload: Seq<u8>) -> Result<
    ResponseModel,
    ClientError,
> {
    match parse_response(payload) {
        Err(e) => Err(ClientError::Response(e)),
        Ok(response) => match reply_verdict(
            numbers(codes(ops)),
            result_numbers(response.results),
            response.status,
        ) {
            Ok(_) => Ok(response),
            Err(ReplyFault::Nfs(e)) => Err(ClientError::Nfs(e)),
            Err(fault) => Err(ClientError::Reply(fault)),
        },
    }
}

/// What a result of the RPC client means for the request with the operations
/// `ops`.
pub open spec fn exchange_verdict(ops: Seq<OperationModel>, results: Result<Seq<u8>, Error>) -> Result<
    ResponseModel,
    ClientError,
> {
    match results {
        Err(e) => Err(ClientError::Rpc(e)),
        Ok(payload) => response_verdict(ops, payload),
    }
}

/// Whether `r` is what `outcome` says, replies being compared by what they
/// hold.
pub open spec fn response_is(r: Result<Response, ClientError>, outcome: Result<
    ResponseModel,
    ClientError,
>) -> bool {
    match r {
        Ok(response) => outcome == Ok::<ResponseModel, ClientError>(response@),
        Err(e) => outcome == Err::<ResponseModel, ClientError>(e),
    }
}

/// The reply that the results `payload` of a call to the COMPOUND procedure
/// hold for the request with the operations `ops`, or why there is none.
pub fn judge_response(ops: &[Operation], payload: &[u8]) -> (r: Result<Response, ClientError>)
    ensures
        response_is(r, response_verdict(models(ops@), payload@)),
{
    let response = match decode_response(payload) {
        Ok(response) => response,
        Err(e) => { return Err(ClientError::Response(e)); },
    };
    let mut seen: Vec<u32> = Vec::new();
    let mut i: usize = 0;
    assert(seen@ =~= result_numbers(result_models(response.results@).take(0)));
    while i < response.results.len()
        invariant
            i <= response.results.len(),
            seen@ == result_numbers(result_models(response.results@).take(i as int)),
        decreases response.results.len() - i,
    {
        seen.push(response.results[i].code.to_number());
        i += 1;
        assert(seen@ =~= result_numbers(result_models(response.results@).take(i as int)));
    }
    assert(result_models(response.results@).take(i as int) =~= result_models(response.results@));
    match check_reply(ops, seen.as_slice(), response.status) {
        Ok(_) => Ok(response),
        Err(ReplyFault::Nfs(e)) => Err(ClientError::Nfs(e)),
        Err(fault) => Err(ClientError::Reply(fault)),
    }
}

/// What the last result of a reply gives, if the reply has a result and the
/// result gives something.
pub open spec fn last_given(response: ResponseModel) -> Option<ValueModel> {
    if response.results.len() == 0 {
        None
    } else {
        response.results.last().value
    }
}

/// What the last result of a reply gives.
pub fn take_last(response: Response) -> (r: Option<ResultValue>)
    ensures
        match r {
            Some(value) => last_given(response@) == Some(value@),
            None => last_given(response@) is None,
        },
{
    let mut results = response.results;
    let ghost all = results@;
    match results.pop() {
        None => None,
        Some(result) => {
            assert(result_models(all).last() == result@);
            result.value
        },
    }
}

/// The handle that a reply ends with.
pub open spec fn handle_verdict(response: ResponseModel) -> Result<Seq<u8>, ClientError> {
    match last_given(response) {
        Some(ValueModel::Handle(handle)) => Ok(handle),
        _ => Err(ClientError::MissingValue),
    }
}

/// The handle that a reply ends with.
pub fn handle_of(response: Response) -> (r: Result<FileHandle, ClientError>)
    ensures
        match r {
            Ok(handle) => handle_verdict(response@) == Ok::<Seq<u8>, ClientError>(handle@),
            Err(e) => handle_verdict(response@) == Err::<Seq<u8>, ClientError>(e),
        },
{
    match take_last(response) {
        Some(ResultValue::Handle(handle)) => Ok(handle),
        _ => Err(ClientError::MissingValue),
    }
}

/// The handle that a reply to the creation of a file holds: what the result
/// before the last gives.
pub open spec fn created_verdict(response: ResponseModel) -> Result<Seq<u8>, ClientError> {
    if response.results.len() < 2 {
        Err(ClientError::MissingValue)
    } else {
        match response.results[response.results.len() - 2].value {
            Some(ValueModel::Handle(handle)) => Ok(handle),
            _ => Err(ClientError::MissingValue),
        }
    }
}

/// The handle that a reply to the creation of a file holds.
pub fn created_handle(response: Response) -> (r: Result<FileHandle, ClientError>)
    ensures
        match r {
            Ok(handle) => created_verdict(response@) == Ok::<Seq<u8>, ClientError>(handle@),
            Err(e) => created_verdict(response@) == Err::<Seq<u8>, ClientError>(e),
        },
{
    let mut results = response.results;
    let ghost all = results@;
    if results.len() < 2 {
        return Err(ClientError::MissingValue);
    }
    let _ = results.pop();
    match results.pop() {
        Some(result) => {
            assert(result_models(all)[all.len() - 2] == result@);
            match result.value {
                Some(ResultValue::Handle(handle)) => Ok(handle),
                _ => Err(ClientError::MissingValue),
            }
        },
        None => Err(ClientError::MissingValue),
    }
}

/// The attributes that a reply ends with, which must all be among the
/// attributes `asked` for.
pub open spec fn attributes_verdict(response: ResponseModel, asked: Set<FileAttributeId>) -> Result<
    Map<FileAttributeId, AttrModel>,
    ClientError,
> {
    match last_given(response) {
        Some(ValueModel::Attributes(attrs)) => if attrs.dom().subset_of(asked) {
            Ok(attrs)
        } else {
            Err(ClientError::Reply(ReplyFault::Mismatch))
        },
        _ => Err(ClientError::MissingValue),
    }
}

/// Whether all attributes of `attrs` are among those of `asked`.
pub fn only_asked(attrs: &FileAttributes, asked: &AttributeSet) -> (r: bool)
    ensures
        r == attrs@.dom().subset_of(asked@),
{
    let keys = attrs.keys();
    let mut stray: Option<FileAttributeId> = None;
    if keys.file_type && !asked.file_type {
        stray = Some(FileAttributeId::Type);
    } else if keys.size && !asked.size {
        stray = Some(FileAttributeId::Size);
    } else if keys.fs_id && !asked.fs_id {
        stray = Some(FileAttributeId::FsId);
    } else if keys.lease_time && !asked.lease_time {
        stray = Some(FileAttributeId::LeaseTime);
    } else if keys.file_handle && !asked.file_handle {
        stray = Some(FileAttributeId::FileHandle);
    } else if keys.file_id && !asked.file_id {
        stray = Some(FileAttributeId::FileId);
    } else if keys.mode && !asked.mode {
        stray = Some(FileAttributeId::Mode);
    } else if keys.num_links && !asked.num_links {
        stray = Some(FileAttributeId::NumLinks);
    } else if keys.owner && !asked.owner {
        stray = Some(FileAttributeId::Owner);
    } else if keys.owner_group && !asked.owner_group {
        stray = Some(FileAttributeId::OwnerGroup);
    } else if keys.time_modify && !asked.time_modify {
        stray = Some(FileAttributeId::TimeModify);
    }
    proof {
        match stray {
            Some(id) => {
                assert(keys.has(id) && !asked.has(id));
                assert(keys@.contains(id) && !asked@.contains(id));
            },
            None => {
                assert forall|id: FileAttributeId| keys@.contains(id) implies asked@.contains(
                    id,
                ) by {
                    assert(keys.has(id) ==> asked.has(id));
                }
            },
        }
    }
    stray.is_none()
}

/// The attributes that a reply ends with, which must all be among the
/// attributes `asked` for.
pub fn attributes_of(response: Response, asked: &AttributeSet) -> (r: Result<
    FileAttributes,
    ClientError,
>)
    ensures
        match r {
            Ok(attrs) => attributes_verdict(response@, asked@) == Ok::<
                Map<FileAttributeId, AttrModel>,
                ClientError,
            >(attrs@),
            Err(e) => attributes_verdict(response@, asked@) == Err::<
                Map<FileAttributeId, AttrModel>,
                ClientError,
            >(e),
        },
{
    match take_last(response) {
        Some(ResultValue::Attributes(attrs)) => if only_asked(&attrs, asked) {
            Ok(attrs)
        } else {
            Err(ClientError::Reply(ReplyFault::Mismatch))
        },
        _ => Err(ClientError::MissingValue),
    }
}

/// What goes on the stream for a request is whole words: the mark of the
/// record, the call, and the request in it.
pub proof fn lemma_compound_frame_aligned(
    xid: u32,
    program: u32,
    credential: OpaqueAuthModel,
    ops: Seq<OperationModel>,
)
    ensures
        call_frame(
            xid,
            program,
            PROGRAM_VERSION,
            COMPOUND_PROCEDURE,
            credential,
            request_bytes(tag(), ops),
        ).len() % 4 == 0,
{
    let args = request_bytes(tag(), ops);
    let message = crate::client::call_message(
        xid,
        program,
        PROGRAM_VERSION,
        COMPOUND_PROCEDURE,
        credential,
        args,
    );
    let payload = message.bytes();
    assert(args.len() % 4 == 0) by {
        crate::request::lemma_request_aligned(tag(), ops);
    }
    assert(payload.len() % 4 == 0) by {
        message.lemma_aligned();
    }
    let mark = crate::record::RecordMark { last: true, len: payload.len() as u32 };
    crate::xdr::lemma_word_prefix_len(crate::xdr::u32_bytes(mark.word()), payload, 0);
}

/// The tag of every request of this client: none.
pub open spec fn tag() -> Seq<u8> {
    Seq::empty()
}

/// A client of one NFS server over one transport.
pub struct Client<TransportT> {
    rpc: RpcClient<TransportT>,
    client_id: u64,
    owner: Vec<u8>,
    seqid: u32,
    outcomes: Ghost<Seq<Outcome>>,
    delivered: Tally,
    taken: Tally,
    requests: Ghost<Seq<Seq<OperationModel>>>,
}

impl<TransportT: Transport> Client<TransportT> {
    /// The transaction id that the next call gets.
    pub closed spec fn next_xid(&self) -> u32 {
        self.rpc.next_xid()
    }

    /// The credential that calls carry.
    pub closed spec fn credential(&self) -> OpaqueAuthModel {
        self.rpc.credential()
    }

    /// The program that calls are made to.
    pub closed spec fn program(&self) -> u32 {
        self.rpc.program()
    }

    /// The byte strings that were handed to the transport, oldest first.
    pub closed spec fn sent(&self) -> Seq<Seq<u8>> {
        self.rpc.sent()
    }

    /// The reply records that were read from the transport, oldest first.
    pub closed spec fn received(&self) -> Seq<Seq<u8>> {
        self.rpc.received()
    }

    /// All bytes that the transport handed over, in order.
    pub closed spec fn heard(&self) -> Seq<u8> {
        self.rpc.heard()
    }

    /// All readings that were asked of the transport, in order: each as the
    /// number of bytes heard before it, and the number of bytes asked for.
    pub closed spec fn asked(&self) -> Seq<(nat, nat)> {
        self.rpc.asked()
    }

    /// How the last request ended, if there was one.
    pub closed spec fn last_outcome(&self) -> Option<Result<ResponseModel, ClientError>> {
        if self.outcomes@.len() == 0 {
            None
        } else {
            Some(self.outcomes@.last())
        }
    }

    /// How the requests that the client made ended, oldest first.
    pub closed spec fn outcomes(&self) -> Seq<Outcome> {
        self.outcomes@
    }

    /// The calls that were made to sinks, oldest first.
    pub closed spec fn handed(&self) -> Seq<Call> {
        self.delivered.calls()
    }

    /// The calls that were made to sources, oldest first.
    pub closed spec fn drawn(&self) -> Seq<Call> {
        self.taken.calls()
    }

    /// All bytes that were handed to sinks, in order.
    pub open spec fn delivered(&self) -> Seq<u8> {
        all_bytes(self.handed())
    }

    /// All bytes that sources gave, in order.
    pub open spec fn taken(&self) -> Seq<u8> {
        all_bytes(self.drawn())
    }

    /// The requests that the client made, as their operations, oldest
    /// first.
    pub closed spec fn requests(&self) -> Seq<Seq<OperationModel>> {
        self.requests@
    }

    /// The transport that the client holds, as it is now.
    pub closed spec fn stream(&self) -> TransportT {
        self.rpc.stream()
    }

    /// The number of the client's next open.
    pub closed spec fn next_seqid(&self) -> u32 {
        self.seqid
    }

    /// The client id and the owner that opens are made under.
    pub closed spec fn open_owner(&self) -> (u64, Seq<u8>) {
        (self.client_id, self.owner@)
    }

    /// Whether `after` is `before` after one request with the operations
    /// `ops` that ended as `outcome` says.
    ///
    /// A request that cannot be put on the wire, or for which no transaction
    /// id is left, fails before anything reaches the transport. Any other
    /// request is handed to the transport, once, as a call of the COMPOUND
    /// procedure. Where the transport does not take it, the error is its
    /// own and the transaction id stays. Else the id is used up and one
    /// record is asked of the transport, fragment by fragment: the outcome
    /// is what the record means for the request where the bytes heard hold
    /// one, `LengthOutOfRange` where they announce too much, and else the
    /// transport's own error. The request and its outcome go on record;
    /// no sink and no source is called.
    pub open spec fn exchanged(
        before: &Self,
        after: &Self,
        ops: Seq<OperationModel>,
        outcome: Result<ResponseModel, ClientError>,
    ) -> bool {
        let xid = before.next_xid();
        &&& after.credential() == before.credential()
        &&& after.program() == before.program()
        &&& after.open_owner() == before.open_owner()
        &&& after.handed() == before.handed()
        &&& after.drawn() == before.drawn()
        &&& after.requests() == before.requests().push(ops)
        &&& after.outcomes() == before.outcomes().push(outcome)
        &&& after.last_outcome() == Some(outcome)
        &&& listened(
            before.heard(),
            after.heard(),
            before.asked(),
            after.asked(),
            before.received(),
            after.received(),
        )
        &&& match request_fault(tag(), ops) {
            Some(fault) => {
                &&& outcome == Err::<ResponseModel, ClientError>(ClientError::Request(fault))
                &&& after.sent() == before.sent()
                &&& after.received() == before.received()
                &&& after.heard() == before.heard()
                &&& after.asked() == before.asked()
                &&& after.next_xid() == xid
                &&& after.stream() == before.stream()
            },
            None => match send_refusal(xid, before.credential(), request_bytes(tag(), ops)) {
                Some(e) => {
                    &&& outcome == Err::<ResponseModel, ClientError>(ClientError::Rpc(e))
                    &&& after.sent() == before.sent()
                    &&& after.received() == before.received()
                    &&& after.heard() == before.heard()
                    &&& after.asked() == before.asked()
                    &&& after.next_xid() == xid
                    &&& after.stream() == before.stream()
                },
                None => {
                    &&& after.sent() == before.sent().push(
                        call_frame(
                            xid,
                            before.program(),
                            PROGRAM_VERSION,
                            COMPOUND_PROCEDURE,
                            before.credential(),
                            request_bytes(tag(), ops),
                        ),
                    )
                    &&& if after.next_xid() == xid {
                        &&& outcome matches Err(ClientError::Rpc(e)) && e is Io
                        &&& after.received() == before.received()
                        &&& after.heard() == before.heard()
                        &&& after.asked() == before.asked()
                    } else {
                        &&& after.next_xid() == xid + 1
                        &&& after.asked().len() > before.asked().len()
                        &&& match hearing(
                            after.heard().skip(before.heard().len() as int),
                            RECORD_BUDGET as nat,
                        ) {
                            Hearing::Done(record) => outcome == exchange_verdict(
                                ops,
                                reply_outcome(xid, record),
                            ),
                            Hearing::TooLong => outcome == Err::<ResponseModel, ClientError>(
                                ClientError::Rpc(
                                    Error::Deseralization(XdrError::LengthOutOfRange),
                                ),
                            ),
                            _ => outcome matches Err(ClientError::Rpc(e)) && e is Io,
                        }
                    }
                },
            },
        }
    }

    /// A client over `transport` that opens files as the owner `owner` of the
    /// client `client_id`.
    pub fn new(transport: TransportT, client_id: u64, owner: Vec<u8>) -> (r: Self)
        ensures
            r.next_xid() == 1,
            r.program() == NFS_PROGRAM,
            r.sent() == Seq::<Seq<u8>>::empty(),
            r.received() == Seq::<Seq<u8>>::empty(),
            r.last_outcome() is None,
            r.next_seqid() == 0,
            r.open_owner() == (client_id, owner@),
            r.handed() == Seq::<Call>::empty(),
            r.drawn() == Seq::<Call>::empty(),
            r.requests() == Seq::<Seq<OperationModel>>::empty(),
            r.outcomes() == Seq::<Outcome>::empty(),
            r.heard() == Seq::<u8>::empty(),
            r.asked() == Seq::<(nat, nat)>::empty(),
            r.stream() == transport,
    {
        Client {
            rpc: RpcClient::new(transport, NFS_PROGRAM),
            client_id,
            owner,
            seqid: 0,
            outcomes: Ghost(Seq::empty()),
            delivered: Tally::new(),
            taken: Tally::new(),
            requests: Ghost(Seq::empty()),
        }
    }

    /// The transport, for a look at it.
    pub fn transport(&self) -> (r: &TransportT)
        ensures
            *r == self.stream(),
    {
        self.rpc.transport()
    }

    /// Gives the transport back and ends the client.
    pub fn into_transport(self) -> (r: TransportT)
        ensures
            r == self.stream(),
    {
        self.rpc.into_transport()
    }

    /// Calls the procedure of the server that does nothing, to see whether
    /// the server is there and speaks this version.
    ///
    /// The call has no arguments. Nothing reaches the transport where it
    /// cannot be sent. Otherwise the transport is handed the call's frame,
    /// once. Where it does not take it, the error is its own and the
    /// transaction id stays. Else the id is used up and one record is asked
    /// of the transport, fragment by fragment: the result is what the
    /// record means for the call where the bytes heard hold one,
    /// `LengthOutOfRange` where they announce too much, and else the
    /// transport's own error.
    pub fn ping(&mut self) -> (r: Result<(), ClientError>)
        ensures
            final(self).credential() == old(self).credential(),
            final(self).program() == old(self).program(),
            final(self).next_seqid() == old(self).next_seqid(),
            final(self).open_owner() == old(self).open_owner(),
            r is Ok ==> final(self).received().len() == old(self).received().len() + 1
                && reply_outcome(old(self).next_xid(), final(self).received().last()) is Ok,
            r matches Err(e) ==> e is Rpc,
            final(self).requests() == old(self).requests(),
            final(self).outcomes() == old(self).outcomes(),
            final(self).handed() == old(self).handed(),
            final(self).drawn() == old(self).drawn(),
            listened(
                old(self).heard(),
                final(self).heard(),
                old(self).asked(),
                final(self).asked(),
                old(self).received(),
                final(self).received(),
            ),
            match send_refusal(old(self).next_xid(), old(self).credential(), Seq::<u8>::empty()) {
                Some(e) => {
                    &&& r == Err::<(), ClientError>(ClientError::Rpc(e))
                    &&& final(self).sent() == old(self).sent()
                    &&& final(self).received() == old(self).received()
                    &&& final(self).heard() == old(self).heard()
                    &&& final(self).asked() == old(self).asked()
                    &&& final(self).next_xid() == old(self).next_xid()
                    &&& final(self).stream() == old(self).stream()
                },
                None => {
                    &&& final(self).sent() == old(self).sent().push(
                        call_frame(
                            old(self).next_xid(),
                            old(self).program(),
                            PROGRAM_VERSION,
                            NULL_PROCEDURE,
                            old(self).credential(),
                            Seq::<u8>::empty(),
                        ),
                    )
                    &&& if final(self).next_xid() == old(self).next_xid() {
                        &&& r matches Err(ClientError::Rpc(e)) && e is Io
                        &&& final(self).received() == old(self).received()
                        &&& final(self).heard() == old(self).heard()
                        &&& final(self).asked() == old(self).asked()
                    } else {
                        &&& final(self).next_xid() == old(self).next_xid() + 1
                        &&& final(self).asked().len() > old(self).asked().len()
                        &&& match hearing(
                            final(self).heard().skip(old(self).heard().len() as int),
                            RECORD_BUDGET as nat,
                        ) {
                            Hearing::Done(record) => r == (match reply_outcome(
                                old(self).next_xid(),
                                record,
                            ) {
                                Ok(_) => Ok::<(), ClientError>(()),
                                Err(e) => Err::<(), ClientError>(ClientError::Rpc(e)),
                            }),
                            Hearing::TooLong => r == Err::<(), ClientError>(
                                ClientError::Rpc(
                                    Error::Deseralization(XdrError::LengthOutOfRange),
                                ),
                            ),
                            _ => r matches Err(ClientError::Rpc(e)) && e is Io,
                        }
                    }
                },
            },
    {
        let empty: Vec<u8> = Vec::new();
        assert(empty@ =~= Seq::<u8>::empty());
        match self.rpc.send_request(NULL_PROCEDURE, empty.as_slice()) {
            Ok(_) => {},
            Err(e) => {
                proof {
                    lemma_listened_to_nothing(self.heard(), self.asked(), self.received());
                }
                return Err(ClientError::Rpc(e));
            },
        }
        match self.rpc.receive_reply() {
            Ok(_) => Ok(()),
            Err(e) => Err(ClientError::Rpc(e)),
        }
    }

    /// Sends the request with the operations `ops` and gives the reply,
    /// where it holds the results of all operations of the request, all with
    /// the status `NFS4_OK`.
    #[verifier::rlimit(60)]
    pub fn exchange(&mut self, ops: &[Operation]) -> (r: Result<Response, ClientError>)
        ensures
            final(self).last_outcome() is Some,
            response_is(r, final(self).last_outcome()->0),
            Self::exchanged(old(self), final(self), models(ops@), final(self).last_outcome()->0),
            of_a_request(final(self).last_outcome()->0),
            final(self).next_seqid() == old(self).next_seqid(),
    {
        self.requests = Ghost(self.requests@.push(models(ops@)));
        let ghost all = models(ops@);
        let ghost xid = self.rpc.next_xid();
        let empty: Vec<u8> = Vec::new();
        assert(empty@ =~= tag());
        let bytes = match encode_request(empty.as_slice(), ops) {
            Ok(bytes) => bytes,
            Err(fault) => {
                self.outcomes = Ghost(self.outcomes@.push(Err(ClientError::Request(fault))));
                proof {
                    lemma_listened_to_nothing(self.heard(), self.asked(), self.received());
                }
                return Err(ClientError::Request(fault));
            },
        };
        assert(request_fault(tag(), all) is None);
        assert(bytes@ == request_bytes(tag(), all));
        match self.rpc.send_request(COMPOUND_PROCEDURE, bytes.as_slice()) {
            Ok(_) => {},
            Err(e) => {
                self.outcomes = Ghost(self.outcomes@.push(Err(ClientError::Rpc(e))));
                proof {
                    lemma_listened_to_nothing(self.heard(), self.asked(), self.received());
                }
                return Err(ClientError::Rpc(e));
            },
        }
        assert(send_refusal(xid, old(self).credential(), request_bytes(tag(), all)) is None);
        let payload = match self.rpc.receive_reply() {
            Ok(payload) => payload,
            Err(e) => {
                self.outcomes = Ghost(self.outcomes@.push(Err(ClientError::Rpc(e))));
                return Err(ClientError::Rpc(e));
            },
        };
        let r = judge_response(ops, payload.as_slice());
        self.outcomes = Ghost(self.outcomes@.push(response_verdict(all, payload@)));
        r
    }

    /// Whether `after` is as `before` in all but the calls to sinks and to
    /// sources.
    pub open spec fn same_calls(before: &Self, after: &Self) -> bool {
        &&& after.next_xid() == before.next_xid()
        &&& after.credential() == before.credential()
        &&& after.program() == before.program()
        &&& after.sent() == before.sent()
        &&& after.received() == before.received()
        &&& after.heard() == before.heard()
        &&& after.asked() == before.asked()
        &&& after.last_outcome() == before.last_outcome()
        &&& after.requests() == before.requests()
        &&& after.outcomes() == before.outcomes()
        &&& after.stream() == before.stream()
        &&& after.next_seqid() == before.next_seqid()
        &&& after.open_owner() == before.open_owner()
    }

    /// Hands `bytes` to `sink`, once, as bytes of a file that the client has
    /// read, and gives what the sink gave.
    pub fn hand_over<SinkT: Sink>(&mut self, sink: &mut SinkT, bytes: &[u8]) -> (r: Result<
        (),
        String,
    >)
        ensures
            final(self).handed() == old(self).handed().push(handing(bytes@, r)),
            final(self).drawn() == old(self).drawn(),
            Self::same_calls(old(self), final(self)),
    {
        hand_over(sink, &mut self.delivered, bytes)
    }

    /// Asks `source` for `max` bytes at most, once, as bytes of a file that
    /// the client is to write, and gives what the source gave.
    pub fn take_from<SourceT: Source>(&mut self, source: &mut SourceT, max: usize) -> (r: Result<
        Vec<u8>,
        String,
    >)
        ensures
            final(self).drawn() == old(self).drawn().push(taking(max, r)),
            final(self).handed() == old(self).handed(),
            Self::same_calls(old(self), final(self)),
    {
        take_from(source, &mut self.taken, max)
    }

    /// Finds the file at the end of `path` and gives its handle. Sends one
    /// request: from the root through each name of the path.
    pub fn look_up(&mut self, path: &str) -> (r: Result<FileHandle, ClientError>)
        ensures
            final(self).next_seqid() == old(self).next_seqid(),
            final(self).last_outcome() is Some,
            Self::exchanged(
                old(self),
                final(self),
                crate::compound::look_up_operations(crate::compound::path_names(path@)),
                final(self).last_outcome()->0,
            ),
            match (final(self).last_outcome()->0, r) {
                (Ok(response), Ok(handle)) => handle_verdict(response) == Ok::<
                    Seq<u8>,
                    ClientError,
                >(handle@),
                (Ok(response), Err(e)) => handle_verdict(response) == Err::<Seq<u8>, ClientError>(
                    e,
                ),
                (Err(fault), Ok(_)) => false,
                (Err(fault), Err(e)) => e == fault,
            },
    {
        let names = path_components(path);
        let ops = look_up_compound(&names);
        let response = self.exchange(ops.as_slice())?;
        handle_of(response)
    }

    /// Gives the attributes of the file `handle`: the basic ones, and those
    /// of `wanted`. Sends one request.
    pub fn get_attr(&mut self, handle: FileHandle, wanted: AttributeSet) -> (r: Result<
        FileAttributes,
        ClientError,
    >)
        ensures
            final(self).next_seqid() == old(self).next_seqid(),
            final(self).last_outcome() is Some,
            Self::exchanged(
                old(self),
                final(self),
                seq![
                    OperationModel::PutFh(handle@),
                    OperationModel::GetAttr(crate::compound::basic_attributes().union(wanted@)),
                ],
                final(self).last_outcome()->0,
            ),
            match (final(self).last_outcome()->0, r) {
                (Ok(response), Ok(attrs)) => attributes_verdict(
                    response,
                    crate::compound::basic_attributes().union(wanted@),
                ) == Ok::<Map<FileAttributeId, AttrModel>, ClientError>(attrs@),
                (Ok(response), Err(e)) => attributes_verdict(
                    response,
                    crate::compound::basic_attributes().union(wanted@),
                ) == Err::<Map<FileAttributeId, AttrModel>, ClientError>(e),
                (Err(fault), Ok(_)) => false,
                (Err(fault), Err(e)) => e == fault,
            },
    {
        let asked = crate::compound::basic_request().union(wanted);
        let ops = get_attr_compound(handle, wanted);
        let response = self.exchange(ops.as_slice())?;
        attributes_of(response, &asked)
    }

    /// Sets the attributes `attrs` of the file `handle`. Sends one request.
    pub fn set_attr(&mut self, handle: FileHandle, attrs: FileAttributes) -> (r: Result<
        (),
        ClientError,
    >)
        ensures
            final(self).next_seqid() == old(self).next_seqid(),
            final(self).last_outcome() is Some,
            Self::exchanged(
                old(self),
                final(self),
                seq![OperationModel::PutFh(handle@), OperationModel::SetAttr(attrs@)],
                final(self).last_outcome()->0,
            ),
            match final(self).last_outcome()->0 {
                Ok(_) => r is Ok,
                Err(fault) => r == Err::<(), ClientError>(fault),
            },
    {
        let ops = set_attr_compound(handle, attrs);
        let _ = self.exchange(ops.as_slice())?;
        Ok(())
    }

    /// Removes the entry `name` from the directory `parent`. Sends one
    /// request.
    pub fn remove(&mut self, parent: FileHandle, name: &str) -> (r: Result<(), ClientError>)
        ensures
            final(self).next_seqid() == old(self).next_seqid(),
            final(self).last_outcome() is Some,
            Self::exchanged(
                old(self),
                final(self),
                seq![OperationModel::PutFh(parent@), OperationModel::Remove(name@)],
                final(self).last_outcome()->0,
            ),
            match final(self).last_outcome()->0 {
                Ok(_) => r is Ok,
                Err(fault) => r == Err::<(), ClientError>(fault),
            },
    {
        let ops = remove_compound(parent, name.to_owned());
        let _ = self.exchange(ops.as_slice())?;
        Ok(())
    }

    /// Creates the file `name` in the directory `parent`, or opens it where
    /// it is there already, and gives its handle. Sends one request. Where
    /// the request was handed to the transport, two operations of the open
    /// owner are counted, whatever comes of them; where it was refused
    /// before, none is.
    pub fn create_file(&mut self, parent: FileHandle, name: &str) -> (r: Result<
        FileHandle,
        ClientError,
    >)
        ensures
            final(self).last_outcome() is Some,
            final(self).next_seqid() == (if final(self).sent() == old(self).sent() {
                old(self).next_seqid()
            } else {
                old(self).next_seqid().wrapping_add(2)
            }),
            Self::exchanged(
                old(self),
                final(self),
                seq![
                    OperationModel::PutFh(parent@),
                    OperationModel::Open {
                        seqid: old(self).next_seqid(),
                        client_id: old(self).open_owner().0,
                        owner: old(self).open_owner().1,
                        name: name@,
                        attrs: crate::compound::create_attributes(),
                    },
                    OperationModel::GetFh,
                    OperationModel::Close {
                        seqid: old(self).next_seqid().wrapping_add(1),
                        state_id: crate::compound::StateId::current_id(),
                    },
                ],
                final(self).last_outcome()->0,
            ),
            match (final(self).last_outcome()->0, r) {
                (Ok(response), Ok(handle)) => created_verdict(response) == Ok::<
                    Seq<u8>,
                    ClientError,
                >(handle@),
                (Ok(response), Err(e)) => created_verdict(response) == Err::<Seq<u8>, ClientError>(
                    e,
                ),
                (Err(fault), Ok(_)) => false,
                (Err(fault), Err(e)) => e == fault,
            },
    {
        let owner = slice_to_vec(self.owner.as_slice());
        let seqid = self.seqid;
        let ops = create_file_compound(parent, name.to_owned(), self.client_id, owner, seqid);
        let answer = self.exchange(ops.as_slice());
        proof {
            Self::lemma_refused_unsent(old(self), self, models(ops@), self.last_outcome()->0);
        }
        if !refused(&answer) {
            self.seqid = seqid.wrapping_add(2);
        }
        created_handle(answer?)
    }
}

/// Whether `outcome` is a refusal of a request before it reached the
/// transport.
pub open spec fn is_refusal(outcome: Result<ResponseModel, ClientError>) -> bool {
    match outcome {
        Err(ClientError::Request(_)) => true,
        Err(ClientError::Rpc(Error::Serialization(_))) => true,
        Err(ClientError::Rpc(Error::XidExhausted)) => true,
        _ => false,
    }
}

/// Whether `answer` is a refusal of a request before it reached the
/// transport.
pub fn refused(answer: &Result<Response, ClientError>) -> (r: bool)
    ensures
        r == match *answer {
            Err(ClientError::Request(_)) => true,
            Err(ClientError::Rpc(Error::Serialization(_))) => true,
            Err(ClientError::Rpc(Error::XidExhausted)) => true,
            _ => false,
        },
{
    match answer {
        Err(ClientError::Request(_)) => true,
        Err(ClientError::Rpc(Error::Serialization(_))) => true,
        Err(ClientError::Rpc(Error::XidExhausted)) => true,
        _ => false,
    }
}

impl<TransportT: Transport> Client<TransportT> {
    /// A request ends as a refusal exactly where nothing was handed to the
    /// transport for it.
    pub proof fn lemma_refused_unsent(
        before: &Self,
        after: &Self,
        ops: Seq<OperationModel>,
        outcome: Result<ResponseModel, ClientError>,
    )
        requires
            Self::exchanged(before, after, ops, outcome),
        ensures
            is_refusal(outcome) == (after.sent() == before.sent()),
    {
        if request_fault(tag(), ops) is None && send_refusal(
            before.next_xid(),
            before.credential(),
            request_bytes(tag(), ops),
        ) is None {
            assert(after.sent().len() == before.sent().len() + 1);
        }
    }
}

/// The most requests that one listing of a directory may take.
pub const MAX_DIR_REQUESTS: u32 = 0x10_0000;

/// The cookie of the last of the entries, if there is any.
pub fn last_cookie(entries: &Vec<DirectoryEntry>) -> (r: Option<u64>)
    ensures
        r == (if entries@.len() == 0 {
            None
        } else {
            Some(entries@.last().cookie)
        }),
{
    if entries.len() == 0 {
        None
    } else {
        Some(entries[entries.len() - 1].cookie)
    }
}

/// Entries hold only wanted attributes exactly where what they hold does.
pub proof fn lemma_entries_only_wanted(entries: Seq<DirectoryEntry>, wanted: Set<FileAttributeId>)
    ensures
        only_wanted(entry_models(entries), wanted) == (forall|i: int|
            0 <= i < entries.len() ==> (#[trigger] entries[i]).attrs@.dom().subset_of(wanted)),
{
    let models = entry_models(entries);
    if only_wanted(models, wanted) {
        assert forall|i: int| 0 <= i < entries.len() implies (
        #[trigger] entries[i]).attrs@.dom().subset_of(wanted) by {
            assert(models[i].attrs == entries[i].attrs@);
        }
    }
    if forall|i: int|
        0 <= i < entries.len() ==> (#[trigger] entries[i]).attrs@.dom().subset_of(wanted) {
        assert forall|i: int| 0 <= i < models.len() implies (
        #[trigger] models[i]).attrs.dom().subset_of(wanted) by {
            assert(models[i].attrs == entries[i].attrs@);
        }
    }
}

/// Whether every entry has only attributes that are among those of `asked`.
pub fn entries_only_asked(entries: &Vec<DirectoryEntry>, asked: &AttributeSet) -> (r: bool)
    ensures
        r == (forall|i: int|
            0 <= i < entries@.len() ==> (#[trigger] entries@[i]).attrs@.dom().subset_of(asked@)),
{
    let mut i: usize = 0;
    while i < entries.len()
        invariant
            i <= entries.len(),
            forall|j: int|
                0 <= j < i ==> (#[trigger] entries@[j]).attrs@.dom().subset_of(asked@),
        decreases entries.len() - i,
    {
        if !only_asked(&entries[i].attrs, asked) {
            return false;
        }
        i += 1;
    }
    true
}

} // verus!
