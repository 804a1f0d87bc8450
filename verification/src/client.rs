//! The RPC client: it numbers calls, frames them for a byte stream, reads
//! the reply record and says what the reply means.

use crate::auth::{AuthFlavor, AuthSysModel, AuthSysParameters, OpaqueAuth, OpaqueAuthModel};
use crate::message::{
    AcceptedBodyModel, AcceptedReplyBody, BodyModel, CallBody, CallModel, Message, MessageBody,
    MessageModel, RejectedReply, ReplyBody, ReplyModel, RPC_VERSION,
};
use crate::record::{
    frame, hearing, lemma_frame_heard, lemma_heard_fragment, lemma_heard_header,
    lemma_hearing_done, record_bytes, take_record, wanted, Hearing, RecordMark,
    MAX_FRAGMENT_BYTES,
};
use crate::wire::Wire;
use crate::xdr::{get_u32, lemma_take_u32_len, take_u32, XdrError};
use vstd::prelude::*;
use vstd::slice::slice_to_vec;

verus! {

/// The program number of the port mapper.
pub const PORT_MAPPER: u32 = 100000;

/// The port that the port mapper listens on.
pub const PORT_MAPPER_PORT: u16 = 111;

/// The procedure that every program has and that does nothing.
pub const NULL_PROCEDURE: u32 = 0;

/// The program version that calls are made to.
pub const PROGRAM_VERSION: u32 = 4;

/// The most bytes that a reply record may hold: as many as one fragment can
/// hold.
pub const MAX_RECORD_BYTES: usize = 0x7fff_ffff;

/// What the reading of one reply record may cost, where each fragment costs
/// its length and the four bytes of its mark: as much as a record of
/// `MAX_RECORD_BYTES` bytes in one fragment. A reply that needs more is
/// refused, so that a peer cannot keep the client reading for ever.
pub const RECORD_BUDGET: u64 = 0x8000_0003;

/// What was wrong with a message that came where a reply was due.
#[derive(Clone, Copy, Debug, PartialEq, Eq, Structural)]
pub enum Unexpected {
    /// No call was waiting for a reply.
    NoCallOutstanding,
    /// The message answers another call than the last one sent.
    XidMismatch { expected: u32, found: u32 },
    /// The message is itself a call.
    CallReceived,
    /// The message is neither a call nor a reply.
    UnknownMessageType(u32),
}

/// Why a call could not be sent, or did not bring back results.
#[derive(Clone, Debug, PartialEq, Eq)]
pub enum Error {
    /// The reply is not a well-formed message.
    Deseralization(XdrError),
    /// The call cannot be put into a record.
    Serialization(XdrError),
    /// The transport failed; the text is the transport's own.
    Io(String),
    ProgramUnavailable,
    ProgramMismatch,
    ProcedureUnavailable,
    GarbageArguments,
    SystemError,
    UnexpectedReply(Unexpected),
    /// The server denied the call before running any procedure.
    RpcDenied(RejectedReply),
    /// Every transaction id has been used.
    XidExhausted,
}

/// A byte stream to a server, in both directions.
pub trait Transport {
    /// Writes all of `bytes` to the stream, or says why it could not.
    fn write_all(&mut self, bytes: &[u8]) -> Result<(), String>;

    /// Reads the next `len` bytes from the stream, or says why it could not.
    fn read_exact(&mut self, len: usize) -> Result<Vec<u8>, String>;
}

/// The identity that a client presents unless it is given another.
pub open spec fn default_identity() -> AuthSysModel {
    AuthSysModel {
        stamp: 0,
        machine_name: seq![116u8, 101, 115, 116, 45, 109, 97, 99, 104, 105, 110, 101],
        uid: 1337,
        gid: 42,
        gids: seq![1337u32],
    }
}

/// The identity that a client presents unless it is given another: machine
/// `test-machine`, user 1337, group 42, with 1337 as its one further group.
pub fn default_credential() -> (r: AuthSysParameters)
    ensures
        r@ == default_identity(),
        r@.encodable(),
{
    let mut machine_name: Vec<u8> = Vec::new();
    machine_name.push(116u8);
    machine_name.push(101u8);
    machine_name.push(115u8);
    machine_name.push(116u8);
    machine_name.push(45u8);
    machine_name.push(109u8);
    machine_name.push(97u8);
    machine_name.push(99u8);
    machine_name.push(104u8);
    machine_name.push(105u8);
    machine_name.push(110u8);
    machine_name.push(101u8);
    let mut gids: Vec<u32> = Vec::new();
    gids.push(1337u32);
    let r = AuthSysParameters { stamp: 0, machine_name, uid: 1337, gid: 42, gids };
    assert(r@.machine_name =~= default_identity().machine_name);
    assert(r@.gids =~= default_identity().gids);
    r
}

/// The message that calls `procedure` of `program` with the encoded
/// arguments `args`: RPC version 2, the credential given, no verifier.
pub open spec fn call_message(
    xid: u32,
    program: u32,
    version: u32,
    procedure: u32,
    credential: OpaqueAuthModel,
    args: Seq<u8>,
) -> MessageModel {
    MessageModel {
        xid,
        body: BodyModel::Call(
            CallModel {
                rpc_version: RPC_VERSION,
                program,
                version,
                procedure,
                credential,
                verifier: OpaqueAuthModel { flavor: AuthFlavor::Null, body: Seq::<u8>::empty() },
                call_args: args,
            },
        ),
    }
}

/// Whether a call can be sent as one fragment: the credential is short
/// enough, and the message fits in 31 bits of length.
pub open spec fn call_fits(credential: OpaqueAuthModel, args: Seq<u8>) -> bool {
    credential.encodable() && call_message(0, 0, 0, 0, credential, args).bytes().len()
        <= MAX_FRAGMENT_BYTES
}

/// The bytes that go on the stream for a call: the message as a record of
/// one fragment.
pub open spec fn call_frame(
    xid: u32,
    program: u32,
    version: u32,
    procedure: u32,
    credential: OpaqueAuthModel,
    args: Seq<u8>,
) -> Seq<u8> {
    record_bytes(call_message(xid, program, version, procedure, credential, args).bytes())
}

/// The length of a call message does not depend on the numbers in it.
pub proof fn lemma_call_len(
    xid: u32,
    program: u32,
    version: u32,
    procedure: u32,
    credential: OpaqueAuthModel,
    args: Seq<u8>,
)
    ensures
        call_message(xid, program, version, procedure, credential, args).bytes().len()
            == call_message(0, 0, 0, 0, credential, args).bytes().len(),
{
}

/// What goes on the stream for a call is as far from a multiple of four
/// bytes as the arguments: with encoded arguments, which are a multiple of
/// four bytes long, the stream stays at a word's border.
pub proof fn lemma_call_frame_aligned(
    xid: u32,
    program: u32,
    version: u32,
    procedure: u32,
    credential: OpaqueAuthModel,
    args: Seq<u8>,
)
    ensures
        call_frame(xid, program, version, procedure, credential, args).len() % 4 == args.len()
            % 4,
{
    let message = call_message(xid, program, version, procedure, credential, args);
    let payload = message.bytes();
    assert(payload.len() % 4 == args.len() % 4) by {
        message.lemma_aligned();
    }
    let mark = RecordMark { last: true, len: payload.len() as u32 };
    crate::xdr::lemma_word_prefix_len(crate::xdr::u32_bytes(mark.word()), payload, args.len());
}

/// The bytes that go on the stream for a call. Fails with
/// `Serialization(LengthOutOfRange)` where the call does not fit.
pub fn encode_call(
    xid: u32,
    program: u32,
    version: u32,
    procedure: u32,
    credential: &OpaqueAuth,
    call_args: &[u8],
) -> (r: Result<Vec<u8>, Error>)
    ensures
        call_fits(credential@, call_args@) ==> r is Ok && r->Ok_0@ == call_frame(
            xid,
            program,
            version,
            procedure,
            credential@,
            call_args@,
        ),
        !call_fits(credential@, call_args@) ==> r == Err::<Vec<u8>, Error>(
            Error::Serialization(XdrError::LengthOutOfRange),
        ),
{
    let message = Message {
        xid,
        body: MessageBody::Call(
            CallBody {
                rpc_version: RPC_VERSION,
                program,
                version,
                procedure,
                credential: OpaqueAuth {
                    flavor: credential.flavor,
                    body: slice_to_vec(credential.body.as_slice()),
                },
                verifier: OpaqueAuth::none(),
                call_args: slice_to_vec(call_args),
            },
        ),
    };
    proof {
        lemma_call_len(xid, program, version, procedure, credential@, call_args@);
        assert(message@ == call_message(
            xid,
            program,
            version,
            procedure,
            credential@,
            call_args@,
        ));
    }
    let bytes = match message.encode() {
        Ok(bytes) => bytes,
        Err(e) => { return Err(Error::Serialization(e)); },
    };
    match frame(bytes.as_slice()) {
        Ok(framed) => Ok(framed),
        Err(e) => Err(Error::Serialization(e)),
    }
}

/// What a message means to a client that waits for the reply to call
/// `expected_xid`: the results of the call, or why there are none.
pub open spec fn message_outcome(expected_xid: u32, message: MessageModel) -> Result<
    Seq<u8>,
    Error,
> {
    if message.xid != expected_xid {
        Err(
            Error::UnexpectedReply(
                Unexpected::XidMismatch { expected: expected_xid, found: message.xid },
            ),
        )
    } else {
        match message.body {
            BodyModel::Call(_) => Err(Error::UnexpectedReply(Unexpected::CallReceived)),
            BodyModel::Reply(ReplyModel::Denied(denial)) => Err(Error::RpcDenied(denial)),
            BodyModel::Reply(ReplyModel::Accepted(accepted)) => match accepted.body {
                AcceptedBodyModel::Success(results) => Ok(results),
                AcceptedBodyModel::ProgramUnavailable => Err(Error::ProgramUnavailable),
                AcceptedBodyModel::ProgramMismatch { .. } => Err(Error::ProgramMismatch),
                AcceptedBodyModel::ProcedureUnavailable => Err(Error::ProcedureUnavailable),
                AcceptedBodyModel::GarbageArguments => Err(Error::GarbageArguments),
                AcceptedBodyModel::SystemError => Err(Error::SystemError),
            },
        }
    }
}

/// What a reply record means to a client that waits for the reply to call
/// `expected_xid`. A record whose message type is neither call nor reply is
/// unexpected; any other record that is no message is malformed.
pub open spec fn reply_outcome(expected_xid: u32, record: Seq<u8>) -> Result<Seq<u8>, Error> {
    match take_u32(record) {
        Err(e) => Err(Error::Deseralization(e)),
        Ok((_, rest)) => match take_u32(rest) {
            Err(e) => Err(Error::Deseralization(e)),
            Ok((message_type, _)) => if message_type != 0 && message_type != 1 {
                Err(Error::UnexpectedReply(Unexpected::UnknownMessageType(message_type)))
            } else {
                match MessageModel::parse(record) {
                    Err(e) => Err(Error::Deseralization(e)),
                    Ok(message) => message_outcome(expected_xid, message),
                }
            },
        },
    }
}

/// The results that `message` brings to the call `expected_xid`, or why it
/// brings none.
pub fn message_result(expected_xid: u32, message: Message) -> (r: Result<Vec<u8>, Error>)
    ensures
        match r {
            Ok(results) => message_outcome(expected_xid, message@) == Ok::<Seq<u8>, Error>(
                results@,
            ),
            Err(e) => message_outcome(expected_xid, message@) == Err::<Seq<u8>, Error>(e),
        },
{
    if message.xid != expected_xid {
        return Err(
            Error::UnexpectedReply(
                Unexpected::XidMismatch { expected: expected_xid, found: message.xid },
            ),
        );
    }
    match message.body {
        MessageBody::Call(_) => Err(Error::UnexpectedReply(Unexpected::CallReceived)),
        MessageBody::Reply(ReplyBody::Denied(denial)) => Err(Error::RpcDenied(denial)),
        MessageBody::Reply(ReplyBody::Accepted(accepted)) => match accepted.body {
            AcceptedReplyBody::Success(results) => Ok(results),
            AcceptedReplyBody::ProgramUnavailable => Err(Error::ProgramUnavailable),
            AcceptedReplyBody::ProgramMismatch { .. } => Err(Error::ProgramMismatch),
            AcceptedReplyBody::ProcedureUnavailable => Err(Error::ProcedureUnavailable),
            AcceptedReplyBody::GarbageArguments => Err(Error::GarbageArguments),
            AcceptedReplyBody::SystemError => Err(Error::SystemError),
        },
    }
}

/// The results that the reply record `record` brings to the call
/// `expected_xid`, or why it brings none.
pub fn reply_result(expected_xid: u32, record: &[u8]) -> (r: Result<Vec<u8>, Error>)
    ensures
        match r {
            Ok(results) => reply_outcome(expected_xid, record@) == Ok::<Seq<u8>, Error>(results@),
            Err(e) => reply_outcome(expected_xid, record@) == Err::<Seq<u8>, Error>(e),
        },
{
    let (_, rest) = match get_u32(record) {
        Ok(pair) => pair,
        Err(e) => { return Err(Error::Deseralization(e)); },
    };
    let (message_type, _) = match get_u32(rest) {
        Ok(pair) => pair,
        Err(e) => { return Err(Error::Deseralization(e)); },
    };
    if message_type != 0 && message_type != 1 {
        return Err(Error::UnexpectedReply(Unexpected::UnknownMessageType(message_type)));
    }
    match Message::decode(record) {
        Err(e) => Err(Error::Deseralization(e)),
        Ok(message) => message_result(expected_xid, message),
    }
}

/// Whether `r` is what `outcome` says, results being compared by what they
/// hold.
pub open spec fn result_is(r: Result<Vec<u8>, Error>, outcome: Result<Seq<u8>, Error>) -> bool {
    match r {
        Ok(results) => outcome == Ok::<Seq<u8>, Error>(results@),
        Err(e) => outcome == Err::<Seq<u8>, Error>(e),
    }
}

/// Why a client refuses to send a call before anything reaches the
/// transport, if it does: the call does not fit in one fragment, or, where it
/// fits, no transaction id is left for it.
pub open spec fn send_refusal(xid: u32, credential: OpaqueAuthModel, args: Seq<u8>) -> Option<
    Error,
> {
    if !call_fits(credential, args) {
        Some(Error::Serialization(XdrError::LengthOutOfRange))
    } else if xid == u32::MAX {
        Some(Error::XidExhausted)
    } else {
        None
    }
}

/// Every record that can be sent as one fragment can be read: it is within
/// the budget of a reader, whatever its length.
pub proof fn lemma_longest_frame_heard(payload: Seq<u8>)
    requires
        payload.len() <= MAX_FRAGMENT_BYTES,
    ensures
        hearing(record_bytes(payload), RECORD_BUDGET as nat) == Hearing::Done(payload),
{
    lemma_frame_heard(payload, RECORD_BUDGET as nat);
}

/// Whether the reading `ask`, a place in `heard` and a number of bytes, asks
/// at that place for what a reader wants who began a record at `base` and
/// has heard the bytes from there to that place.
pub open spec fn asked_for(heard: Seq<u8>, base: nat, ask: (nat, nat)) -> bool {
    &&& base <= ask.0 <= heard.len()
    &&& wanted(hearing(heard.subrange(base as int, ask.0 as int), RECORD_BUDGET as nat)) == Some(
        ask.1,
    )
}

/// Whether, from the logs `heard`, `asked` and `received` of before to
/// those of after, one record at most was asked of the transport, as
/// [`read_record_from`] asks for it, and was received where it came whole:
/// what was heard before stays, every new reading asks for what a reader of
/// one record wants at its place, and the record that the bytes heard hold,
/// if they hold one, is the one record received.
pub open spec fn listened(
    heard: Seq<u8>,
    heard_after: Seq<u8>,
    asked: Seq<(nat, nat)>,
    asked_after: Seq<(nat, nat)>,
    received: Seq<Seq<u8>>,
    received_after: Seq<Seq<u8>>,
) -> bool {
    &&& heard_after.len() >= heard.len()
    &&& heard_after.take(heard.len() as int) == heard
    &&& asked_after.len() >= asked.len()
    &&& asked_after.take(asked.len() as int) == asked
    &&& forall|k: int|
        asked.len() <= k < asked_after.len() ==> asked_for(
            heard_after,
            heard.len(),
            #[trigger] asked_after[k],
        )
    &&& match hearing(heard_after.skip(heard.len() as int), RECORD_BUDGET as nat) {
        Hearing::Done(record) => received_after == received.push(record),
        Hearing::Broken => false,
        _ => received_after == received,
    }
}

/// Where nothing was asked, nothing was heard and nothing received, a
/// record at most was listened to.
pub proof fn lemma_listened_to_nothing(
    heard: Seq<u8>,
    asked: Seq<(nat, nat)>,
    received: Seq<Seq<u8>>,
)
    ensures
        listened(heard, heard, asked, asked, received, received),
{
    assert(heard.take(heard.len() as int) =~= heard);
    assert(asked.take(asked.len() as int) =~= asked);
    assert(heard.skip(heard.len() as int) =~= Seq::<u8>::empty());
}

/// What was asked rightly is still asked rightly when more has been heard.
proof fn lemma_asked_kept(heard: Seq<u8>, more: Seq<u8>, base: nat, ask: (nat, nat))
    requires
        asked_for(heard, base, ask),
    ensures
        asked_for(heard + more, base, ask),
{
    assert((heard + more).subrange(base as int, ask.0 as int) =~= heard.subrange(
        base as int,
        ask.0 as int,
    ));
}

/// Reads one record from `wire`, fragment by fragment, up to and with the
/// first fragment that is marked last.
///
/// It asks for the four bytes of a mark, then for the bytes of the fragment
/// that the mark announces, and so on. What the transport hands over decides
/// the result: the record, where the bytes heard are the fragments of one;
/// `Deseralization(LengthOutOfRange)`, and nothing more is asked, where a
/// mark announces more than is left of `RECORD_BUDGET`; else the
/// transport's own fault (`Io`). At least the first mark is asked for.
pub fn read_record_from<TransportT: Transport>(wire: &mut Wire<TransportT>) -> (r: Result<
    Vec<u8>,
    Error,
>)
    ensures
        final(wire).written() == old(wire).written(),
        final(wire).heard().len() >= old(wire).heard().len(),
        final(wire).heard().take(old(wire).heard().len() as int) == old(wire).heard(),
        match hearing(
            final(wire).heard().skip(old(wire).heard().len() as int),
            RECORD_BUDGET as nat,
        ) {
            Hearing::Done(record) => r matches Ok(bytes) && bytes@ == record,
            Hearing::TooLong => r == Err::<Vec<u8>, Error>(
                Error::Deseralization(XdrError::LengthOutOfRange),
            ),
            Hearing::Header { .. } => r matches Err(e) && e is Io,
            Hearing::Body { .. } => r matches Err(e) && e is Io,
            Hearing::Broken => false,
        },
        r matches Ok(bytes) ==> take_record(
            final(wire).heard().skip(old(wire).heard().len() as int),
        ) == Ok::<(Seq<u8>, Seq<u8>), XdrError>((bytes@, Seq::empty())),
        final(wire).asked().len() > old(wire).asked().len(),
        final(wire).asked().take(old(wire).asked().len() as int) == old(wire).asked(),
        forall|k: int|
            old(wire).asked().len() <= k < final(wire).asked().len() ==> asked_for(
                final(wire).heard(),
                old(wire).heard().len(),
                #[trigger] final(wire).asked()[k],
            ),
        match r {
            Ok(record) => record@.len() <= MAX_RECORD_BYTES,
            Err(e) => e is Io || e == Error::Deseralization(XdrError::LengthOutOfRange),
        },
{
    let ghost base = wire.heard().len();
    let ghost first = wire.asked().len();
    let mut record: Vec<u8> = Vec::new();
    let mut budget: u64 = RECORD_BUDGET;
    let ghost mut fragments: nat = 0;
    assert(wire.heard().skip(base as int) =~= Seq::<u8>::empty());
    assert(wire.heard().take(base as int) =~= wire.heard());
    assert(wire.asked().take(first as int) =~= wire.asked());
    loop
        invariant
            wire.written() == old(wire).written(),
            base == old(wire).heard().len(),
            first == old(wire).asked().len(),
            budget <= RECORD_BUDGET,
            record@.len() + 4 * fragments + budget == RECORD_BUDGET,
            wire.heard().len() >= base,
            wire.heard().take(base as int) == old(wire).heard(),
            hearing(wire.heard().skip(base as int), RECORD_BUDGET as nat) == (Hearing::Header {
                record: record@,
                left: budget as nat,
            }),
            wire.asked().len() >= first,
            wire.asked().take(first as int) == old(wire).asked(),
            forall|k: int|
                first <= k < wire.asked().len() ==> asked_for(
                    wire.heard(),
                    base,
                    #[trigger] wire.asked()[k],
                ),
        decreases budget,
    {
        let ghost heard = wire.heard();
        let ghost asks = wire.asked();
        let ghost so_far = heard.skip(base as int);
        let answer = wire.read(4);
        proof {
            assert(heard.subrange(base as int, heard.len() as int) =~= so_far);
            assert(asked_for(wire.heard(), base, wire.asked()[asks.len() as int])) by {
                assert(wire.heard().subrange(base as int, heard.len() as int) =~= so_far);
            }
            assert(wire.asked().take(first as int) =~= asks.take(first as int));
            assert forall|k: int| first <= k < wire.asked().len() implies asked_for(
                wire.heard(),
                base,
                #[trigger] wire.asked()[k],
            ) by {
                if k < asks.len() {
                    assert(wire.asked()[k] == asks[k]);
                    if answer is Ok {
                        lemma_asked_kept(heard, answer->Ok_0@, base, asks[k]);
                    }
                }
            }
        }
        let header = match answer {
            Ok(header) => header,
            Err(e) => {
                return Err(e);
            },
        };
        proof {
            lemma_take_u32_len(header@);
            lemma_heard_header(so_far, header@, RECORD_BUDGET as nat);
            assert(wire.heard().skip(base as int) =~= so_far + header@);
            assert(wire.heard().take(base as int) =~= heard.take(base as int));
        }
        let mark = match RecordMark::decode(header.as_slice()) {
            Ok(mark) => mark,
            Err(_) => {
                return Err(Error::Io("transport returned a wrong number of bytes".to_owned()));
            },
        };
        let len: usize = mark.len as usize;
        if budget < 4 || budget - 4 < len as u64 {
            return Err(Error::Deseralization(XdrError::LengthOutOfRange));
        }
        let ghost heard_mark = wire.heard();
        let ghost asks_mark = wire.asked();
        let data = if len > 0 {
            let answer = wire.read(len);
            proof {
                assert(asked_for(wire.heard(), base, wire.asked()[asks_mark.len() as int])) by {
                    assert(wire.heard().subrange(base as int, heard_mark.len() as int) =~= so_far
                        + header@);
                }
                assert(wire.asked().take(first as int) =~= asks_mark.take(first as int));
                assert forall|k: int| first <= k < wire.asked().len() implies asked_for(
                    wire.heard(),
                    base,
                    #[trigger] wire.asked()[k],
                ) by {
                    if k < asks_mark.len() {
                        assert(wire.asked()[k] == asks_mark[k]);
                        if answer is Ok {
                            lemma_asked_kept(heard_mark, answer->Ok_0@, base, asks_mark[k]);
                        }
                    }
                }
            }
            match answer {
                Ok(data) => data,
                Err(e) => {
                    return Err(e);
                },
            }
        } else {
            let none: Vec<u8> = Vec::new();
            assert(heard_mark + none@ =~= heard_mark);
            none
        };
        proof {
            lemma_heard_fragment(so_far, header@, data@, RECORD_BUDGET as nat);
            assert(wire.heard() =~= heard_mark + data@);
            assert(wire.heard().skip(base as int) =~= so_far + header@ + data@);
            assert(wire.heard().take(base as int) =~= heard.take(base as int));
        }
        let ghost before = record@;
        record.extend_from_slice(data.as_slice());
        budget = budget - 4 - len as u64;
        proof {
            fragments = fragments + 1;
        }
        assert(record@ == before + data@);
        assert(hearing(so_far, RECORD_BUDGET as nat)->Header_record == before);
        if mark.last {
            proof {
                lemma_hearing_done(wire.heard().skip(base as int), RECORD_BUDGET as nat);
            }
            return Ok(record);
        }
    }
}

/// The counter that transaction ids come from. Each id is given out once,
/// and each is one above the id before it.
pub struct XidCounter {
    next: u32,
    issued: Ghost<Seq<u32>>,
}

impl XidCounter {
    #[verifier::type_invariant]
    spec fn ordered(self) -> bool {
        &&& forall|i: int| 0 <= i < self.issued@.len() ==> self.issued@[i] < self.next
        &&& forall|i: int, j: int|
            0 <= i < j < self.issued@.len() ==> self.issued@[i] < self.issued@[j]
    }

    /// The id that is given out next.
    pub closed spec fn next(&self) -> u32 {
        self.next
    }

    /// The ids given out so far, oldest first.
    pub closed spec fn issued(&self) -> Seq<u32> {
        self.issued@
    }

    /// Whether the ids given out grow strictly, and stay below the id that
    /// is given out next.
    pub open spec fn in_order(&self) -> bool {
        &&& forall|i: int| 0 <= i < self.issued().len() ==> self.issued()[i] < self.next()
        &&& forall|i: int, j: int|
            0 <= i < j < self.issued().len() ==> self.issued()[i] < self.issued()[j]
    }

    /// A counter whose first id is `seed`.
    pub fn starting_at(seed: u32) -> (r: XidCounter)
        ensures
            r.next() == seed,
            r.issued() == Seq::<u32>::empty(),
            r.in_order(),
    {
        XidCounter { next: seed, issued: Ghost(Seq::empty()) }
    }

    /// The id that is given out next. The ids given out so far are in order:
    /// this holds of every counter, whatever was done with it.
    pub fn peek(&self) -> (r: u32)
        ensures
            r == self.next(),
            self.in_order(),
    {
        proof {
            use_type_invariant(self);
        }
        self.next
    }

    /// Gives out the next id, unless the last id of all has been reached.
    pub fn issue(&mut self) -> (r: Option<u32>)
        ensures
            final(self).in_order(),
            old(self).next() == u32::MAX ==> r is None && final(self).next() == old(self).next()
                && final(self).issued() == old(self).issued(),
            old(self).next() < u32::MAX ==> r == Some(old(self).next()) && final(self).next()
                == old(self).next() + 1 && final(self).issued() == old(self).issued().push(
                old(self).next(),
            ),
    {
        proof {
            use_type_invariant(&*self);
        }
        if self.next == u32::MAX {
            return None;
        }
        let xid = self.next;
        let ghost issued = self.issued@.push(xid);
        *self = XidCounter { next: xid + 1, issued: Ghost(issued) };
        Some(xid)
    }
}

/// A client of one RPC program over one transport.
///
/// It gives each call the next transaction id, starting from 1, and keeps in
/// mind the id of the call that it last sent, until it has read a reply.
pub struct RpcClient<TransportT> {
    counter: XidCounter,
    program: u32,
    credential: OpaqueAuth,
    outstanding: Option<u32>,
    wire: Wire<TransportT>,
    received: Ghost<Seq<Seq<u8>>>,
}

impl<TransportT: Transport> RpcClient<TransportT> {

    /// The transaction id that the next call gets.
    pub closed spec fn next_xid(&self) -> u32 {
        self.counter.next()
    }

    /// The program that calls are made to.
    pub closed spec fn program(&self) -> u32 {
        self.program
    }

    /// The credential that calls carry.
    pub closed spec fn credential(&self) -> OpaqueAuthModel {
        self.credential@
    }

    /// The id of the call that a reply is due to, if any.
    pub closed spec fn outstanding(&self) -> Option<u32> {
        self.outstanding
    }

    /// The transaction ids of the calls that were sent, oldest first.
    pub closed spec fn issued(&self) -> Seq<u32> {
        self.counter.issued()
    }

    /// The byte strings that were handed to the transport, oldest first.
    pub closed spec fn sent(&self) -> Seq<Seq<u8>> {
        self.wire.written()
    }

    /// The reply records that were read from the transport, oldest first.
    pub closed spec fn received(&self) -> Seq<Seq<u8>> {
        self.received@
    }

    /// The transport that the client holds, as it is now.
    pub closed spec fn stream(&self) -> TransportT {
        self.wire.stream()
    }

    /// All bytes that the transport handed over, in order.
    pub closed spec fn heard(&self) -> Seq<u8> {
        self.wire.heard()
    }

    /// All readings that were asked of the transport, in order: each as the
    /// number of bytes heard before it, and the number of bytes asked for.
    pub closed spec fn asked(&self) -> Seq<(nat, nat)> {
        self.wire.asked()
    }

    /// Whether the ids of the calls sent grow strictly, and stay below the
    /// id that the next call gets.
    pub open spec fn issued_in_order(&self) -> bool {
        &&& forall|i: int| 0 <= i < self.issued().len() ==> self.issued()[i] < self.next_xid()
        &&& forall|i: int, j: int|
            0 <= i < j < self.issued().len() ==> self.issued()[i] < self.issued()[j]
    }

    /// A client of `program` over `transport`, with the default identity and
    /// 1 as its first transaction id.
    pub fn new(transport: TransportT, program: u32) -> (r: Self)
        ensures
            r.next_xid() == 1,
            r.program() == program,
            r.credential() == (OpaqueAuthModel {
                flavor: AuthFlavor::Sys,
                body: default_identity().bytes(),
            }),
            r.outstanding() is None,
            r.issued() == Seq::<u32>::empty(),
            r.sent() == Seq::<Seq<u8>>::empty(),
            r.received() == Seq::<Seq<u8>>::empty(),
            r.stream() == transport,
            r.heard() == Seq::<u8>::empty(),
            r.asked() == Seq::<(nat, nat)>::empty(),
    {
        Self::with_xid(transport, program, 1)
    }

    /// A client of `program` over `transport`, with the default identity and
    /// `seed` as its first transaction id.
    pub fn with_xid(transport: TransportT, program: u32, seed: u32) -> (r: Self)
        ensures
            r.next_xid() == seed,
            r.program() == program,
            r.credential() == (OpaqueAuthModel {
                flavor: AuthFlavor::Sys,
                body: default_identity().bytes(),
            }),
            r.outstanding() is None,
            r.issued() == Seq::<u32>::empty(),
            r.sent() == Seq::<Seq<u8>>::empty(),
            r.received() == Seq::<Seq<u8>>::empty(),
            r.stream() == transport,
            r.heard() == Seq::<u8>::empty(),
            r.asked() == Seq::<(nat, nat)>::empty(),
    {
        let credential = OpaqueAuth {
            flavor: AuthFlavor::Sys,
            body: default_credential().encode_bounded(),
        };
        RpcClient {
            counter: XidCounter::starting_at(seed),
            program,
            credential,
            outstanding: None,
            wire: Wire::new(transport),
            received: Ghost(Seq::empty()),
        }
    }

    /// Makes the client present the identity `params` from now on. Fails with
    /// `Serialization(LengthOutOfRange)`, and changes nothing, where the
    /// machine name or the group list is longer than the protocol allows.
    pub fn set_credential(&mut self, params: &AuthSysParameters) -> (r: Result<(), Error>)
        ensures
            final(self).next_xid() == old(self).next_xid(),
            final(self).program() == old(self).program(),
            final(self).outstanding() == old(self).outstanding(),
            final(self).issued() == old(self).issued(),
            final(self).sent() == old(self).sent(),
            final(self).received() == old(self).received(),
            final(self).stream() == old(self).stream(),
            final(self).heard() == old(self).heard(),
            final(self).asked() == old(self).asked(),
            params@.encodable() ==> r is Ok && final(self).credential() == (OpaqueAuthModel {
                flavor: AuthFlavor::Sys,
                body: params@.bytes(),
            }),
            !params@.encodable() ==> r == Err::<(), Error>(
                Error::Serialization(XdrError::LengthOutOfRange),
            ) && final(self).credential() == old(self).credential(),
    {
        match OpaqueAuth::auth_sys(params) {
            Ok(credential) => {
                self.credential = credential;
                Ok(())
            },
            Err(e) => Err(Error::Serialization(e)),
        }
    }

    /// The transaction id that the next call gets. The ids of the calls sent
    /// so far are all below it, and each is above the one before.
    pub fn xid(&self) -> (r: u32)
        ensures
            r == self.next_xid(),
            self.issued_in_order(),
    {
        self.counter.peek()
    }

    /// The transport, for a look at it.
    pub fn transport(&self) -> (r: &TransportT)
        ensures
            *r == self.stream(),
    {
        self.wire.transport()
    }

    /// Gives the transport back and ends the client.
    pub fn into_transport(self) -> (r: TransportT)
        ensures
            r == self.stream(),
    {
        self.wire.into_transport()
    }

    /// Sends a call of `procedure` with the encoded arguments `call_args`.
    ///
    /// Nothing reaches the transport where the call does not fit in one
    /// fragment (`Serialization`) or, where it fits, no transaction id is left
    /// (`XidExhausted`). Otherwise the transport is handed the call's frame,
    /// once, which is a multiple of four bytes long where the arguments are.
    /// If it takes it, the call has the id that was next, the id after
    /// it is next, and a reply to the call is due. If it fails, the error is
    /// `Io` and the client is as before.
    pub fn send_request(&mut self, procedure: u32, call_args: &[u8]) -> (r: Result<(), Error>)
        ensures
            final(self).program() == old(self).program(),
            final(self).credential() == old(self).credential(),
            final(self).received() == old(self).received(),
            final(self).heard() == old(self).heard(),
            final(self).asked() == old(self).asked(),
            final(self).issued_in_order(),
            match send_refusal(old(self).next_xid(), old(self).credential(), call_args@) {
                Some(e) => {
                    &&& r == Err::<(), Error>(e)
                    &&& final(self).next_xid() == old(self).next_xid()
                    &&& final(self).outstanding() == old(self).outstanding()
                    &&& final(self).issued() == old(self).issued()
                    &&& final(self).sent() == old(self).sent()
                    &&& final(self).stream() == old(self).stream()
                },
                None => {
                    &&& final(self).sent() == old(self).sent().push(
                        call_frame(
                            old(self).next_xid(),
                            old(self).program(),
                            PROGRAM_VERSION,
                            procedure,
                            old(self).credential(),
                            call_args@,
                        ),
                    )
                    &&& final(self).sent().last().len() % 4 == call_args@.len() % 4
                    &&& match r {
                        Ok(_) => {
                            &&& final(self).next_xid() == old(self).next_xid() + 1
                            &&& final(self).outstanding() == Some(old(self).next_xid())
                            &&& final(self).issued() == old(self).issued().push(
                                old(self).next_xid(),
                            )
                        },
                        Err(e) => {
                            &&& e is Io
                            &&& final(self).next_xid() == old(self).next_xid()
                            &&& final(self).outstanding() == old(self).outstanding()
                            &&& final(self).issued() == old(self).issued()
                        },
                    }
                },
            },
    {
        let xid = self.counter.peek();
        let frame = encode_call(
            xid,
            self.program,
            PROGRAM_VERSION,
            procedure,
            &self.credential,
            call_args,
        )?;
        if xid == u32::MAX {
            return Err(Error::XidExhausted);
        }
        proof {
            lemma_call_frame_aligned(
                xid,
                self.program,
                PROGRAM_VERSION,
                procedure,
                self.credential@,
                call_args@,
            );
        }
        self.wire.write(frame.as_slice())?;
        let _ = self.counter.issue();
        self.outstanding = Some(xid);
        Ok(())
    }

    /// Reads the reply to the call that was last sent and gives the call's
    /// encoded results.
    ///
    /// Where no reply is due, nothing is read and the error is
    /// `UnexpectedReply(NoCallOutstanding)`. Otherwise no reply is due any
    /// more afterwards, and the transport is asked for one record as
    /// [`read_record_from`] asks for it: fragment by fragment, up to and with
    /// the first that is marked last. Either no whole record came, with the
    /// error of [`read_record_from`], or the record is what the fragments
    /// heard hold, put together in order, and the result is what
    /// [`reply_outcome`] says of it.
    pub fn receive_reply(&mut self) -> (r: Result<Vec<u8>, Error>)
        ensures
            final(self).next_xid() == old(self).next_xid(),
            final(self).program() == old(self).program(),
            final(self).credential() == old(self).credential(),
            final(self).issued() == old(self).issued(),
            final(self).sent() == old(self).sent(),
            final(self).outstanding() is None,
            listened(
                old(self).heard(),
                final(self).heard(),
                old(self).asked(),
                final(self).asked(),
                old(self).received(),
                final(self).received(),
            ),
            match old(self).outstanding() {
                None => {
                    &&& r == Err::<Vec<u8>, Error>(
                        Error::UnexpectedReply(Unexpected::NoCallOutstanding),
                    )
                    &&& final(self).received() == old(self).received()
                    &&& final(self).stream() == old(self).stream()
                    &&& final(self).heard() == old(self).heard()
                    &&& final(self).asked() == old(self).asked()
                },
                Some(xid) => {
                    &&& final(self).asked().len() > old(self).asked().len()
                    &&& match hearing(
                        final(self).heard().skip(old(self).heard().len() as int),
                        RECORD_BUDGET as nat,
                    ) {
                        Hearing::Done(record) => {
                            &&& result_is(r, reply_outcome(xid, record))
                            &&& take_record(
                                final(self).heard().skip(old(self).heard().len() as int),
                            ) == Ok::<(Seq<u8>, Seq<u8>), XdrError>((record, Seq::empty()))
                        },
                        Hearing::TooLong => r == Err::<Vec<u8>, Error>(
                            Error::Deseralization(XdrError::LengthOutOfRange),
                        ),
                        Hearing::Header { .. } => r matches Err(e) && e is Io,
                        Hearing::Body { .. } => r matches Err(e) && e is Io,
                        Hearing::Broken => false,
                    }
                    &&& {
                    ||| {
                        &&& final(self).received() == old(self).received()
                        &&& r is Err
                        &&& (r->Err_0 is Io || r->Err_0 == Error::Deseralization(
                            XdrError::LengthOutOfRange,
                        ))
                    }
                    ||| {
                        &&& final(self).received().len() == old(self).received().len() + 1
                        &&& final(self).received().drop_last() == old(self).received()
                        &&& result_is(r, reply_outcome(xid, final(self).received().last()))
                    }
                    }
                },
            },
    {
        let xid = match self.outstanding {
            Some(xid) => xid,
            None => {
                proof {
                    lemma_listened_to_nothing(self.heard(), self.asked(), self.received());
                }
                return Err(Error::UnexpectedReply(Unexpected::NoCallOutstanding));
            },
        };
        self.outstanding = None;
        let record = read_record_from(&mut self.wire)?;
        self.received = Ghost(self.received@.push(record@));
        assert(self.received@.drop_last() =~= old(self).received@);
        reply_result(xid, record.as_slice())
    }
}

} // verus!
