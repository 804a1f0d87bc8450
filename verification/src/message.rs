//! RPC messages: calls, and the replies that accept or deny them.
//!
//! The arguments of a call and the results of a successful reply are carried
//! as the bytes of their own encoding: they fill the message to its end.

use crate::auth::{OpaqueAuth, OpaqueAuthModel};
use crate::xdr::{
    expect_end, get_u32, lemma_concat_assoc, lemma_sum_aligned, lemma_u32_round_trip,
    lemma_word_prefix_len,
    put_u32,
    take_u32, u32_bytes, XdrError,
};
use vstd::prelude::*;
use vstd::slice::slice_to_vec;

verus! {

/// The version of the RPC protocol that this library speaks.
pub const RPC_VERSION: u32 = 2;

/// Why a server refused a credential or verifier.
#[derive(Clone, Copy, Debug, PartialEq, Eq, Structural)]
pub enum AuthStat {
    /// Nothing was wrong (`AUTH_OK`).
    AuthOk,
    BadCred,
    RejectedCred,
    BadVerf,
    RejectedVerf,
    TooWeak,
    InvalidResp,
    Failed,
}

impl AuthStat {
    /// The number that stands for the status on the wire.
    pub open spec fn wire(self) -> u32 {
        match self {
            AuthStat::AuthOk => 0,
            AuthStat::BadCred => 1,
            AuthStat::RejectedCred => 2,
            AuthStat::BadVerf => 3,
            AuthStat::RejectedVerf => 4,
            AuthStat::TooWeak => 5,
            AuthStat::InvalidResp => 6,
            AuthStat::Failed => 7,
        }
    }

    /// The status that `v` stands for, if any.
    pub open spec fn of_wire(v: u32) -> Option<AuthStat> {
        if v == 0 {
            Some(AuthStat::AuthOk)
        } else if v == 1 {
            Some(AuthStat::BadCred)
        } else if v == 2 {
            Some(AuthStat::RejectedCred)
        } else if v == 3 {
            Some(AuthStat::BadVerf)
        } else if v == 4 {
            Some(AuthStat::RejectedVerf)
        } else if v == 5 {
            Some(AuthStat::TooWeak)
        } else if v == 6 {
            Some(AuthStat::InvalidResp)
        } else if v == 7 {
            Some(AuthStat::Failed)
        } else {
            None
        }
    }

    pub fn to_wire(self) -> (r: u32)
        ensures
            r == self.wire(),
    {
        match self {
            AuthStat::AuthOk => 0,
            AuthStat::BadCred => 1,
            AuthStat::RejectedCred => 2,
            AuthStat::BadVerf => 3,
            AuthStat::RejectedVerf => 4,
            AuthStat::TooWeak => 5,
            AuthStat::InvalidResp => 6,
            AuthStat::Failed => 7,
        }
    }

    pub fn from_wire(v: u32) -> (r: Option<AuthStat>)
        ensures
            r == Self::of_wire(v),
    {
        if v == 0 {
            Some(AuthStat::AuthOk)
        } else if v == 1 {
            Some(AuthStat::BadCred)
        } else if v == 2 {
            Some(AuthStat::RejectedCred)
        } else if v == 3 {
            Some(AuthStat::BadVerf)
        } else if v == 4 {
            Some(AuthStat::RejectedVerf)
        } else if v == 5 {
            Some(AuthStat::TooWeak)
        } else if v == 6 {
            Some(AuthStat::InvalidResp)
        } else if v == 7 {
            Some(AuthStat::Failed)
        } else {
            None
        }
    }
}

/// A reply that denies the call before any procedure ran.
#[derive(Clone, Copy, Debug, PartialEq, Eq, Structural)]
pub enum RejectedReply {
    /// The server speaks other versions of RPC, from `low` to `high`.
    RpcMismatch { low: u32, high: u32 },
    /// The server did not accept who the caller says it is.
    AuthError(AuthStat),
}

impl RejectedReply {
    /// The encoding: the arm's tag, then its fields.
    pub open spec fn bytes(self) -> Seq<u8> {
        match self {
            RejectedReply::RpcMismatch { low, high } => u32_bytes(0) + u32_bytes(low) + u32_bytes(
                high,
            ),
            RejectedReply::AuthError(stat) => u32_bytes(1) + u32_bytes(stat.wire()),
        }
    }

    /// Reads a denial that fills `s` to its end.
    pub open spec fn parse(s: Seq<u8>) -> Result<RejectedReply, XdrError> {
        match take_u32(s) {
            Err(e) => Err(e),
            Ok((tag, rest)) => if tag == 0 {
                match take_u32(rest) {
                    Err(e) => Err(e),
                    Ok((low, rest)) => match take_u32(rest) {
                        Err(e) => Err(e),
                        Ok((high, rest)) => if rest.len() == 0 {
                            Ok(RejectedReply::RpcMismatch { low, high })
                        } else {
                            Err(XdrError::TrailingBytes)
                        },
                    },
                }
            } else if tag == 1 {
                match take_u32(rest) {
                    Err(e) => Err(e),
                    Ok((stat, rest)) => match AuthStat::of_wire(stat) {
                        None => Err(XdrError::InvalidDiscriminant),
                        Some(stat) => if rest.len() == 0 {
                            Ok(RejectedReply::AuthError(stat))
                        } else {
                            Err(XdrError::TrailingBytes)
                        },
                    },
                }
            } else {
                Err(XdrError::InvalidDiscriminant)
            },
        }
    }

    /// The encoding is a multiple of four bytes long.
    pub proof fn lemma_aligned(self)
        ensures
            self.bytes().len() % 4 == 0,
    {
        match self {
            RejectedReply::RpcMismatch { low, high } => {
                assert(self.bytes().len() == 12);
            },
            RejectedReply::AuthError(stat) => {
                assert(self.bytes().len() == 8);
            },
        }
    }

    /// Decoding undoes encoding.
    pub proof fn lemma_round_trip(self)
        ensures
            Self::parse(self.bytes()) == Ok::<RejectedReply, XdrError>(self),
    {
        let e = Seq::<u8>::empty();
        match self {
            RejectedReply::RpcMismatch { low, high } => {
                lemma_u32_round_trip(0, u32_bytes(low) + (u32_bytes(high) + e));
                lemma_u32_round_trip(low, u32_bytes(high) + e);
                lemma_u32_round_trip(high, e);
                assert(self.bytes() =~= u32_bytes(0) + (u32_bytes(low) + (u32_bytes(high) + e)));
            },
            RejectedReply::AuthError(stat) => {
                lemma_u32_round_trip(1, u32_bytes(stat.wire()) + e);
                lemma_u32_round_trip(stat.wire(), e);
                assert(self.bytes() =~= u32_bytes(1) + (u32_bytes(stat.wire()) + e));
            },
        }
    }

    /// Appends the encoding to `out`.
    pub fn put(&self, out: &mut Vec<u8>)
        ensures
            final(out)@ == old(out)@ + self.bytes(),
    {
        match self {
            RejectedReply::RpcMismatch { low, high } => {
                put_u32(out, 0);
                put_u32(out, *low);
                put_u32(out, *high);
            },
            RejectedReply::AuthError(stat) => {
                put_u32(out, 1);
                put_u32(out, stat.to_wire());
            },
        }
        assert(out@ =~= old(out)@ + self.bytes());
    }

    /// Reads a denial that fills `input` to its end.
    pub fn decode(input: &[u8]) -> (r: Result<RejectedReply, XdrError>)
        ensures
            r == Self::parse(input@),
    {
        let (tag, rest) = get_u32(input)?;
        if tag == 0 {
            let (low, rest) = get_u32(rest)?;
            let (high, rest) = get_u32(rest)?;
            expect_end(rest)?;
            Ok(RejectedReply::RpcMismatch { low, high })
        } else if tag == 1 {
            let (stat, rest) = get_u32(rest)?;
            match AuthStat::from_wire(stat) {
                None => Err(XdrError::InvalidDiscriminant),
                Some(stat) => {
                    expect_end(rest)?;
                    Ok(RejectedReply::AuthError(stat))
                },
            }
        } else {
            Err(XdrError::InvalidDiscriminant)
        }
    }
}

/// A call of one procedure of one program.
#[derive(Clone, Debug, PartialEq, Eq)]
pub struct CallBody {
    pub rpc_version: u32,
    pub program: u32,
    pub version: u32,
    pub procedure: u32,
    pub credential: OpaqueAuth,
    pub verifier: OpaqueAuth,
    /// The encoded arguments of the procedure.
    pub call_args: Vec<u8>,
}

/// What a [`CallBody`] holds.
pub struct CallModel {
    pub rpc_version: u32,
    pub program: u32,
    pub version: u32,
    pub procedure: u32,
    pub credential: OpaqueAuthModel,
    pub verifier: OpaqueAuthModel,
    pub call_args: Seq<u8>,
}

impl View for CallBody {
    type V = CallModel;

    open spec fn view(&self) -> CallModel {
        CallModel {
            rpc_version: self.rpc_version,
            program: self.program,
            version: self.version,
            procedure: self.procedure,
            credential: self.credential@,
            verifier: self.verifier@,
            call_args: self.call_args@,
        }
    }
}

impl CallModel {
    /// Whether the credential and the verifier are short enough to be sent.
    pub open spec fn encodable(self) -> bool {
        self.credential.encodable() && self.verifier.encodable()
    }

    /// The six fields before the arguments.
    pub open spec fn header_bytes(self) -> Seq<u8> {
        u32_bytes(self.rpc_version) + u32_bytes(self.program) + u32_bytes(self.version) + u32_bytes(
            self.procedure,
        ) + self.credential.bytes() + self.verifier.bytes()
    }

    /// The encoding: the fields in order, the arguments last.
    pub open spec fn bytes(self) -> Seq<u8> {
        self.header_bytes() + self.call_args
    }

    /// Reads a call that fills `s` to its end.
    pub open spec fn parse(s: Seq<u8>) -> Result<CallModel, XdrError> {
        match take_u32(s) {
            Err(e) => Err(e),
            Ok((rpc_version, rest)) => match take_u32(rest) {
                Err(e) => Err(e),
                Ok((program, rest)) => match take_u32(rest) {
                    Err(e) => Err(e),
                    Ok((version, rest)) => match take_u32(rest) {
                        Err(e) => Err(e),
                        Ok((procedure, rest)) => match OpaqueAuthModel::take(rest) {
                            Err(e) => Err(e),
                            Ok((credential, rest)) => match OpaqueAuthModel::take(rest) {
                                Err(e) => Err(e),
                                Ok((verifier, rest)) => Ok(
                                    CallModel {
                                        rpc_version,
                                        program,
                                        version,
                                        procedure,
                                        credential,
                                        verifier,
                                        call_args: rest,
                                    },
                                ),
                            },
                        },
                    },
                },
            },
        }
    }

    /// The header is a multiple of four bytes long.
    pub proof fn lemma_header_aligned(self)
        ensures
            self.header_bytes().len() % 4 == 0,
            self.bytes().len() == self.header_bytes().len() + self.call_args.len(),
    {
        let c = self.credential.bytes().len() as int;
        let v = self.verifier.bytes().len() as int;
        assert(c % 4 == 0) by {
            self.credential.lemma_aligned();
        }
        assert(v % 4 == 0) by {
            self.verifier.lemma_aligned();
        }
        assert(self.header_bytes().len() == c + (v + 16));
        lemma_sum_aligned(c, v + 16);
        lemma_sum_aligned(v, 16);
    }

    /// Decoding undoes encoding.
    pub proof fn lemma_round_trip(self)
        requires
            self.encodable(),
        ensures
            Self::parse(self.bytes()) == Ok::<CallModel, XdrError>(self),
    {
        let h0 = u32_bytes(self.rpc_version);
        let h1 = u32_bytes(self.program);
        let h2 = u32_bytes(self.version);
        let h3 = u32_bytes(self.procedure);
        let c = self.credential.bytes();
        let v = self.verifier.bytes();
        let r6 = self.call_args;
        let r5 = v + r6;
        let r4 = c + r5;
        let r3 = h3 + r4;
        let r2 = h2 + r3;
        let r1 = h1 + r2;
        assert(self.bytes() == h0 + r1) by {
            lemma_concat_assoc(h0 + h1 + h2 + h3 + c, v, r6);
            lemma_concat_assoc(h0 + h1 + h2 + h3, c, r5);
            lemma_concat_assoc(h0 + h1 + h2, h3, r4);
            lemma_concat_assoc(h0 + h1, h2, r3);
            lemma_concat_assoc(h0, h1, r2);
        }
        lemma_u32_round_trip(self.rpc_version, r1);
        lemma_u32_round_trip(self.program, r2);
        lemma_u32_round_trip(self.version, r3);
        lemma_u32_round_trip(self.procedure, r4);
        self.credential.lemma_round_trip(r5);
        self.verifier.lemma_round_trip(r6);
    }
}

impl CallBody {
    /// Appends the encoding to `out`, unless the credential or the verifier
    /// is too long.
    pub fn put(&self, out: &mut Vec<u8>) -> (r: Result<(), XdrError>)
        ensures
            r is Ok <==> self@.encodable(),
            r is Ok ==> final(out)@ == old(out)@ + self@.bytes(),
            r is Err ==> r == Err::<(), XdrError>(XdrError::LengthOutOfRange) && final(out)@ == old(
                out,
            )@,
    {
        if self.credential.body.len() > crate::auth::MAX_AUTH_BYTES as usize
            || self.verifier.body.len() > crate::auth::MAX_AUTH_BYTES as usize {
            return Err(XdrError::LengthOutOfRange);
        }
        put_u32(out, self.rpc_version);
        put_u32(out, self.program);
        put_u32(out, self.version);
        put_u32(out, self.procedure);
        let _ = self.credential.put(out);
        let _ = self.verifier.put(out);
        out.extend_from_slice(self.call_args.as_slice());
        assert(out@ =~= old(out)@ + self@.bytes());
        Ok(())
    }

    /// Reads a call that fills `input` to its end.
    pub fn decode(input: &[u8]) -> (r: Result<CallBody, XdrError>)
        ensures
            match r {
                Ok(c) => CallModel::parse(input@) == Ok::<CallModel, XdrError>(c@),
                Err(e) => CallModel::parse(input@) == Err::<CallModel, XdrError>(e),
            },
    {
        let (rpc_version, rest) = get_u32(input)?;
        let (program, rest) = get_u32(rest)?;
        let (version, rest) = get_u32(rest)?;
        let (procedure, rest) = get_u32(rest)?;
        let (credential, rest) = OpaqueAuth::get(rest)?;
        let (verifier, rest) = OpaqueAuth::get(rest)?;
        let call_args = slice_to_vec(rest);
        Ok(CallBody { rpc_version, program, version, procedure, credential, verifier, call_args })
    }
}

/// What became of a call that the server accepted.
#[derive(Clone, Debug, PartialEq, Eq)]
pub enum AcceptedReplyBody {
    /// The procedure ran; these are its encoded results.
    Success(Vec<u8>),
    ProgramUnavailable,
    /// The program is there, in versions `low` to `high` only.
    ProgramMismatch { low: u32, high: u32 },
    ProcedureUnavailable,
    GarbageArguments,
    SystemError,
}

/// What an [`AcceptedReplyBody`] holds.
pub enum AcceptedBodyModel {
    Success(Seq<u8>),
    ProgramUnavailable,
    ProgramMismatch { low: u32, high: u32 },
    ProcedureUnavailable,
    GarbageArguments,
    SystemError,
}

impl View for AcceptedReplyBody {
    type V = AcceptedBodyModel;

    open spec fn view(&self) -> AcceptedBodyModel {
        match *self {
            AcceptedReplyBody::Success(results) => AcceptedBodyModel::Success(results@),
            AcceptedReplyBody::ProgramUnavailable => AcceptedBodyModel::ProgramUnavailable,
            AcceptedReplyBody::ProgramMismatch { low, high } => AcceptedBodyModel::ProgramMismatch {
                low,
                high,
            },
            AcceptedReplyBody::ProcedureUnavailable => AcceptedBodyModel::ProcedureUnavailable,
            AcceptedReplyBody::GarbageArguments => AcceptedBodyModel::GarbageArguments,
            AcceptedReplyBody::SystemError => AcceptedBodyModel::SystemError,
        }
    }
}

impl AcceptedBodyModel {
    /// The length of the results, 0 where there are none.
    pub open spec fn results_len(self) -> nat {
        match self {
            AcceptedBodyModel::Success(results) => results.len(),
            _ => 0,
        }
    }

    /// The encoding: the arm's tag, then its fields.
    pub open spec fn bytes(self) -> Seq<u8> {
        match self {
            AcceptedBodyModel::Success(results) => u32_bytes(0) + results,
            AcceptedBodyModel::ProgramUnavailable => u32_bytes(1),
            AcceptedBodyModel::ProgramMismatch { low, high } => u32_bytes(2) + u32_bytes(low)
                + u32_bytes(high),
            AcceptedBodyModel::ProcedureUnavailable => u32_bytes(3),
            AcceptedBodyModel::GarbageArguments => u32_bytes(4),
            AcceptedBodyModel::SystemError => u32_bytes(5),
        }
    }

    /// The arm without fields that `tag` stands for.
    pub open spec fn plain_arm(tag: u32) -> Option<AcceptedBodyModel> {
        if tag == 1 {
            Some(AcceptedBodyModel::ProgramUnavailable)
        } else if tag == 3 {
            Some(AcceptedBodyModel::ProcedureUnavailable)
        } else if tag == 4 {
            Some(AcceptedBodyModel::GarbageArguments)
        } else if tag == 5 {
            Some(AcceptedBodyModel::SystemError)
        } else {
            None
        }
    }

    /// Reads the outcome of an accepted call that fills `s` to its end.
    pub open spec fn parse(s: Seq<u8>) -> Result<AcceptedBodyModel, XdrError> {
        match take_u32(s) {
            Err(e) => Err(e),
            Ok((tag, rest)) => if tag == 0 {
                Ok(AcceptedBodyModel::Success(rest))
            } else if tag == 2 {
                match take_u32(rest) {
                    Err(e) => Err(e),
                    Ok((low, rest)) => match take_u32(rest) {
                        Err(e) => Err(e),
                        Ok((high, rest)) => if rest.len() == 0 {
                            Ok(AcceptedBodyModel::ProgramMismatch { low, high })
                        } else {
                            Err(XdrError::TrailingBytes)
                        },
                    },
                }
            } else {
                match Self::plain_arm(tag) {
                    None => Err(XdrError::InvalidDiscriminant),
                    Some(arm) => if rest.len() == 0 {
                        Ok(arm)
                    } else {
                        Err(XdrError::TrailingBytes)
                    },
                }
            },
        }
    }

    /// The encoding is as far from a multiple of four bytes as the results.
    pub proof fn lemma_aligned(self)
        ensures
            self.bytes().len() % 4 == self.results_len() % 4,
    {
        match self {
            AcceptedBodyModel::Success(results) => {
                assert(self.bytes().len() == 4 + results.len());
                lemma_sum_aligned(4, results.len() as int);
            },
            AcceptedBodyModel::ProgramMismatch { low, high } => {
                assert(self.bytes().len() == 12);
            },
            _ => {
                assert(self.bytes().len() == 4);
            },
        }
    }

    /// Decoding undoes encoding.
    pub proof fn lemma_round_trip(self)
        ensures
            Self::parse(self.bytes()) == Ok::<AcceptedBodyModel, XdrError>(self),
    {
        let e = Seq::<u8>::empty();
        match self {
            AcceptedBodyModel::Success(results) => {
                lemma_u32_round_trip(0, results);
            },
            AcceptedBodyModel::ProgramUnavailable => {
                lemma_u32_round_trip(1, e);
                assert(self.bytes() =~= u32_bytes(1) + e);
            },
            AcceptedBodyModel::ProgramMismatch { low, high } => {
                lemma_u32_round_trip(2, u32_bytes(low) + (u32_bytes(high) + e));
                lemma_u32_round_trip(low, u32_bytes(high) + e);
                lemma_u32_round_trip(high, e);
                assert(self.bytes() =~= u32_bytes(2) + (u32_bytes(low) + (u32_bytes(high) + e)));
            },
            AcceptedBodyModel::ProcedureUnavailable => {
                lemma_u32_round_trip(3, e);
                assert(self.bytes() =~= u32_bytes(3) + e);
            },
            AcceptedBodyModel::GarbageArguments => {
                lemma_u32_round_trip(4, e);
                assert(self.bytes() =~= u32_bytes(4) + e);
            },
            AcceptedBodyModel::SystemError => {
                lemma_u32_round_trip(5, e);
                assert(self.bytes() =~= u32_bytes(5) + e);
            },
        }
    }
}

impl AcceptedReplyBody {
    /// Appends the encoding to `out`.
    pub fn put(&self, out: &mut Vec<u8>)
        ensures
            final(out)@ == old(out)@ + self@.bytes(),
    {
        match self {
            AcceptedReplyBody::Success(results) => {
                put_u32(out, 0);
                out.extend_from_slice(results.as_slice());
            },
            AcceptedReplyBody::ProgramUnavailable => {
                put_u32(out, 1);
            },
            AcceptedReplyBody::ProgramMismatch { low, high } => {
                put_u32(out, 2);
                put_u32(out, *low);
                put_u32(out, *high);
            },
            AcceptedReplyBody::ProcedureUnavailable => {
                put_u32(out, 3);
            },
            AcceptedReplyBody::GarbageArguments => {
                put_u32(out, 4);
            },
            AcceptedReplyBody::SystemError => {
                put_u32(out, 5);
            },
        }
        assert(out@ =~= old(out)@ + self@.bytes());
    }

    /// Reads the outcome of an accepted call that fills `input` to its end.
    pub fn decode(input: &[u8]) -> (r: Result<AcceptedReplyBody, XdrError>)
        ensures
            match r {
                Ok(b) => AcceptedBodyModel::parse(input@) == Ok::<AcceptedBodyModel, XdrError>(b@),
                Err(e) => AcceptedBodyModel::parse(input@) == Err::<AcceptedBodyModel, XdrError>(
                    e,
                ),
            },
    {
        let (tag, rest) = get_u32(input)?;
        if tag == 0 {
            Ok(AcceptedReplyBody::Success(slice_to_vec(rest)))
        } else if tag == 2 {
            let (low, rest) = get_u32(rest)?;
            let (high, rest) = get_u32(rest)?;
            expect_end(rest)?;
            Ok(AcceptedReplyBody::ProgramMismatch { low, high })
        } else if tag == 1 || tag == 3 || tag == 4 || tag == 5 {
            expect_end(rest)?;
            if tag == 1 {
                Ok(AcceptedReplyBody::ProgramUnavailable)
            } else if tag == 3 {
                Ok(AcceptedReplyBody::ProcedureUnavailable)
            } else if tag == 4 {
                Ok(AcceptedReplyBody::GarbageArguments)
            } else {
                Ok(AcceptedReplyBody::SystemError)
            }
        } else {
            Err(XdrError::InvalidDiscriminant)
        }
    }
}

/// A reply to a call that the server accepted.
#[derive(Clone, Debug, PartialEq, Eq)]
pub struct AcceptedReply {
    pub verifier: OpaqueAuth,
    pub body: AcceptedReplyBody,
}

/// What an [`AcceptedReply`] holds.
pub struct AcceptedModel {
    pub verifier: OpaqueAuthModel,
    pub body: AcceptedBodyModel,
}

impl View for AcceptedReply {
    type V = AcceptedModel;

    open spec fn view(&self) -> AcceptedModel {
        AcceptedModel { verifier: self.verifier@, body: self.body@ }
    }
}

impl AcceptedModel {
    /// Whether the verifier is short enough to be sent.
    pub open spec fn encodable(self) -> bool {
        self.verifier.encodable()
    }

    /// The encoding: the verifier, then the outcome.
    pub open spec fn bytes(self) -> Seq<u8> {
        self.verifier.bytes() + self.body.bytes()
    }

    /// Reads an accepted reply that fills `s` to its end.
    pub open spec fn parse(s: Seq<u8>) -> Result<AcceptedModel, XdrError> {
        match OpaqueAuthModel::take(s) {
            Err(e) => Err(e),
            Ok((verifier, rest)) => match AcceptedBodyModel::parse(rest) {
                Err(e) => Err(e),
                Ok(body) => Ok(AcceptedModel { verifier, body }),
            },
        }
    }

    /// The encoding is as far from a multiple of four bytes as the results.
    pub proof fn lemma_aligned(self)
        ensures
            self.bytes().len() % 4 == self.body.results_len() % 4,
    {
        let v = self.verifier.bytes().len() as int;
        let b = self.body.bytes().len() as int;
        assert(v % 4 == 0) by {
            self.verifier.lemma_aligned();
        }
        assert(b % 4 == self.body.results_len() % 4) by {
            self.body.lemma_aligned();
        }
        assert(self.bytes().len() == v + b);
        lemma_sum_aligned(v, b);
    }

    /// Decoding undoes encoding.
    pub proof fn lemma_round_trip(self)
        requires
            self.encodable(),
        ensures
            Self::parse(self.bytes()) == Ok::<AcceptedModel, XdrError>(self),
    {
        self.verifier.lemma_round_trip(self.body.bytes());
        self.body.lemma_round_trip();
    }
}

impl AcceptedReply {
    /// Appends the encoding to `out`, unless the verifier is too long.
    pub fn put(&self, out: &mut Vec<u8>) -> (r: Result<(), XdrError>)
        ensures
            r is Ok <==> self@.encodable(),
            r is Ok ==> final(out)@ == old(out)@ + self@.bytes(),
            r is Err ==> r == Err::<(), XdrError>(XdrError::LengthOutOfRange) && final(out)@ == old(
                out,
            )@,
    {
        self.verifier.put(out)?;
        self.body.put(out);
        proof {
            lemma_concat_assoc(old(out)@, self@.verifier.bytes(), self@.body.bytes());
        }
        Ok(())
    }

    /// Reads an accepted reply that fills `input` to its end.
    pub fn decode(input: &[u8]) -> (r: Result<AcceptedReply, XdrError>)
        ensures
            match r {
                Ok(a) => AcceptedModel::parse(input@) == Ok::<AcceptedModel, XdrError>(a@),
                Err(e) => AcceptedModel::parse(input@) == Err::<AcceptedModel, XdrError>(e),
            },
    {
        let (verifier, rest) = OpaqueAuth::get(input)?;
        let body = AcceptedReplyBody::decode(rest)?;
        Ok(AcceptedReply { verifier, body })
    }
}

/// A reply: the call was accepted, or denied.
#[derive(Clone, Debug, PartialEq, Eq)]
pub enum ReplyBody {
    Accepted(AcceptedReply),
    Denied(RejectedReply),
}

/// What a [`ReplyBody`] holds.
pub enum ReplyModel {
    Accepted(AcceptedModel),
    Denied(RejectedReply),
}

impl View for ReplyBody {
    type V = ReplyModel;

    open spec fn view(&self) -> ReplyModel {
        match *self {
            ReplyBody::Accepted(a) => ReplyModel::Accepted(a@),
            ReplyBody::Denied(d) => ReplyModel::Denied(d),
        }
    }
}

impl ReplyModel {
    /// Whether the reply can be sent.
    pub open spec fn encodable(self) -> bool {
        match self {
            ReplyModel::Accepted(a) => a.encodable(),
            ReplyModel::Denied(_) => true,
        }
    }

    /// The length of the results, 0 where there are none.
    pub open spec fn results_len(self) -> nat {
        match self {
            ReplyModel::Accepted(a) => a.body.results_len(),
            ReplyModel::Denied(_) => 0,
        }
    }

    /// The encoding: the arm's tag, then the arm.
    pub open spec fn bytes(self) -> Seq<u8> {
        match self {
            ReplyModel::Accepted(a) => u32_bytes(0) + a.bytes(),
            ReplyModel::Denied(d) => u32_bytes(1) + d.bytes(),
        }
    }

    /// Reads a reply that fills `s` to its end.
    pub open spec fn parse(s: Seq<u8>) -> Result<ReplyModel, XdrError> {
        match take_u32(s) {
            Err(e) => Err(e),
            Ok((tag, rest)) => if tag == 0 {
                match AcceptedModel::parse(rest) {
                    Err(e) => Err(e),
                    Ok(a) => Ok(ReplyModel::Accepted(a)),
                }
            } else if tag == 1 {
                match RejectedReply::parse(rest) {
                    Err(e) => Err(e),
                    Ok(d) => Ok(ReplyModel::Denied(d)),
                }
            } else {
                Err(XdrError::InvalidDiscriminant)
            },
        }
    }

    /// The encoding is as far from a multiple of four bytes as the results.
    pub proof fn lemma_aligned(self)
        ensures
            self.bytes().len() % 4 == self.results_len() % 4,
    {
        match self {
            ReplyModel::Accepted(a) => {
                assert(a.bytes().len() % 4 == a.body.results_len() % 4) by {
                    a.lemma_aligned();
                }
                lemma_word_prefix_len(u32_bytes(0), a.bytes(), a.body.results_len());
            },
            ReplyModel::Denied(d) => {
                assert(d.bytes().len() % 4 == 0) by {
                    d.lemma_aligned();
                }
                lemma_word_prefix_len(u32_bytes(1), d.bytes(), 0);
            },
        }
    }

    /// Decoding undoes encoding.
    pub proof fn lemma_round_trip(self)
        requires
            self.encodable(),
        ensures
            Self::parse(self.bytes()) == Ok::<ReplyModel, XdrError>(self),
    {
        match self {
            ReplyModel::Accepted(a) => {
                lemma_u32_round_trip(0, a.bytes());
                a.lemma_round_trip();
            },
            ReplyModel::Denied(d) => {
                lemma_u32_round_trip(1, d.bytes());
                d.lemma_round_trip();
            },
        }
    }
}

impl ReplyBody {
    /// Appends the encoding to `out`, unless a verifier in it is too long.
    pub fn put(&self, out: &mut Vec<u8>) -> (r: Result<(), XdrError>)
        ensures
            r is Ok <==> self@.encodable(),
            r is Ok ==> final(out)@ == old(out)@ + self@.bytes(),
            r is Err ==> r == Err::<(), XdrError>(XdrError::LengthOutOfRange) && final(out)@ == old(
                out,
            )@,
    {
        match self {
            ReplyBody::Accepted(a) => {
                if a.verifier.body.len() > crate::auth::MAX_AUTH_BYTES as usize {
                    return Err(XdrError::LengthOutOfRange);
                }
                put_u32(out, 0);
                let _ = a.put(out);
                proof {
                    lemma_concat_assoc(old(out)@, u32_bytes(0), a@.bytes());
                }
            },
            ReplyBody::Denied(d) => {
                put_u32(out, 1);
                d.put(out);
                proof {
                    lemma_concat_assoc(old(out)@, u32_bytes(1), d.bytes());
                }
            },
        }
        Ok(())
    }

    /// Reads a reply that fills `input` to its end.
    pub fn decode(input: &[u8]) -> (r: Result<ReplyBody, XdrError>)
        ensures
            match r {
                Ok(b) => ReplyModel::parse(input@) == Ok::<ReplyModel, XdrError>(b@),
                Err(e) => ReplyModel::parse(input@) == Err::<ReplyModel, XdrError>(e),
            },
    {
        let (tag, rest) = get_u32(input)?;
        if tag == 0 {
            let a = AcceptedReply::decode(rest)?;
            Ok(ReplyBody::Accepted(a))
        } else if tag == 1 {
            let d = RejectedReply::decode(rest)?;
            Ok(ReplyBody::Denied(d))
        } else {
            Err(XdrError::InvalidDiscriminant)
        }
    }
}

/// What a message says: a call, or a reply to one.
#[derive(Clone, Debug, PartialEq, Eq)]
pub enum MessageBody {
    Call(CallBody),
    Reply(ReplyBody),
}

/// What a [`MessageBody`] holds.
pub enum BodyModel {
    Call(CallModel),
    Reply(ReplyModel),
}

impl View for MessageBody {
    type V = BodyModel;

    open spec fn view(&self) -> BodyModel {
        match *self {
            MessageBody::Call(c) => BodyModel::Call(c@),
            MessageBody::Reply(r) => BodyModel::Reply(r@),
        }
    }
}

impl BodyModel {
    /// Whether the body can be sent.
    pub open spec fn encodable(self) -> bool {
        match self {
            BodyModel::Call(c) => c.encodable(),
            BodyModel::Reply(r) => r.encodable(),
        }
    }

    /// The length of the arguments or results that the body carries.
    pub open spec fn payload_len(self) -> nat {
        match self {
            BodyModel::Call(c) => c.call_args.len(),
            BodyModel::Reply(r) => r.results_len(),
        }
    }

    /// The encoding: the arm's tag, then the arm.
    pub open spec fn bytes(self) -> Seq<u8> {
        match self {
            BodyModel::Call(c) => u32_bytes(0) + c.bytes(),
            BodyModel::Reply(r) => u32_bytes(1) + r.bytes(),
        }
    }

    /// Reads a body that fills `s` to its end.
    pub open spec fn parse(s: Seq<u8>) -> Result<BodyModel, XdrError> {
        match take_u32(s) {
            Err(e) => Err(e),
            Ok((tag, rest)) => if tag == 0 {
                match CallModel::parse(rest) {
                    Err(e) => Err(e),
                    Ok(c) => Ok(BodyModel::Call(c)),
                }
            } else if tag == 1 {
                match ReplyModel::parse(rest) {
                    Err(e) => Err(e),
                    Ok(r) => Ok(BodyModel::Reply(r)),
                }
            } else {
                Err(XdrError::InvalidDiscriminant)
            },
        }
    }

    /// The encoding is as far from a multiple of four bytes as the payload.
    pub proof fn lemma_aligned(self)
        ensures
            self.bytes().len() % 4 == self.payload_len() % 4,
    {
        match self {
            BodyModel::Call(c) => {
                let n = c.bytes().len();
                let h = c.header_bytes().len();
                let a = c.call_args.len();
                assert(n == h + a && h % 4 == 0) by {
                    c.lemma_header_aligned();
                }
                lemma_sum_aligned(h as int, a as int);
                lemma_word_prefix_len(u32_bytes(0), c.bytes(), a);
            },
            BodyModel::Reply(r) => {
                assert(r.bytes().len() % 4 == r.results_len() % 4) by {
                    r.lemma_aligned();
                }
                lemma_word_prefix_len(u32_bytes(1), r.bytes(), r.results_len());
            },
        }
    }

    /// Decoding undoes encoding.
    pub proof fn lemma_round_trip(self)
        requires
            self.encodable(),
        ensures
            Self::parse(self.bytes()) == Ok::<BodyModel, XdrError>(self),
    {
        match self {
            BodyModel::Call(c) => {
                lemma_u32_round_trip(0, c.bytes());
                c.lemma_round_trip();
            },
            BodyModel::Reply(r) => {
                lemma_u32_round_trip(1, r.bytes());
                r.lemma_round_trip();
            },
        }
    }
}

impl MessageBody {
    /// Appends the encoding to `out`, unless a credential or verifier in it
    /// is too long.
    pub fn put(&self, out: &mut Vec<u8>) -> (r: Result<(), XdrError>)
        ensures
            r is Ok <==> self@.encodable(),
            r is Ok ==> final(out)@ == old(out)@ + self@.bytes(),
            r is Err ==> r == Err::<(), XdrError>(XdrError::LengthOutOfRange) && final(out)@ == old(
                out,
            )@,
    {
        match self {
            MessageBody::Call(c) => {
                if c.credential.body.len() > crate::auth::MAX_AUTH_BYTES as usize
                    || c.verifier.body.len() > crate::auth::MAX_AUTH_BYTES as usize {
                    return Err(XdrError::LengthOutOfRange);
                }
                put_u32(out, 0);
                let _ = c.put(out);
                proof {
                    lemma_concat_assoc(old(out)@, u32_bytes(0), c@.bytes());
                }
            },
            MessageBody::Reply(r) => {
                let fits = match r {
                    ReplyBody::Accepted(a) => a.verifier.body.len()
                        <= crate::auth::MAX_AUTH_BYTES as usize,
                    ReplyBody::Denied(_) => true,
                };
                if !fits {
                    return Err(XdrError::LengthOutOfRange);
                }
                put_u32(out, 1);
                let _ = r.put(out);
                proof {
                    lemma_concat_assoc(old(out)@, u32_bytes(1), r@.bytes());
                }
            },
        }
        Ok(())
    }

    /// Reads a body that fills `input` to its end.
    pub fn decode(input: &[u8]) -> (r: Result<MessageBody, XdrError>)
        ensures
            match r {
                Ok(b) => BodyModel::parse(input@) == Ok::<BodyModel, XdrError>(b@),
                Err(e) => BodyModel::parse(input@) == Err::<BodyModel, XdrError>(e),
            },
    {
        let (tag, rest) = get_u32(input)?;
        if tag == 0 {
            let c = CallBody::decode(rest)?;
            Ok(MessageBody::Call(c))
        } else if tag == 1 {
            let r = ReplyBody::decode(rest)?;
            Ok(MessageBody::Reply(r))
        } else {
            Err(XdrError::InvalidDiscriminant)
        }
    }
}

/// One RPC message: a transaction id, and a call or a reply.
#[derive(Clone, Debug, PartialEq, Eq)]
pub struct Message {
    /// The transaction id that ties a reply to its call.
    pub xid: u32,
    pub body: MessageBody,
}

/// What a [`Message`] holds.
pub struct MessageModel {
    pub xid: u32,
    pub body: BodyModel,
}

impl View for Message {
    type V = MessageModel;

    open spec fn view(&self) -> MessageModel {
        MessageModel { xid: self.xid, body: self.body@ }
    }
}

impl MessageModel {
    /// Whether the message can be sent: no credential or verifier in it is
    /// longer than the protocol allows.
    pub open spec fn encodable(self) -> bool {
        self.body.encodable()
    }

    /// The length of the arguments or results that the message carries.
    pub open spec fn payload_len(self) -> nat {
        self.body.payload_len()
    }

    /// The encoding: the transaction id, then the body.
    pub open spec fn bytes(self) -> Seq<u8> {
        u32_bytes(self.xid) + self.body.bytes()
    }

    /// Reads a message that fills `s` to its end.
    pub open spec fn parse(s: Seq<u8>) -> Result<MessageModel, XdrError> {
        match take_u32(s) {
            Err(e) => Err(e),
            Ok((xid, rest)) => match BodyModel::parse(rest) {
                Err(e) => Err(e),
                Ok(body) => Ok(MessageModel { xid, body }),
            },
        }
    }

    /// Decoding undoes encoding: a message that can be sent is read back as
    /// it was.
    pub proof fn lemma_round_trip(self)
        requires
            self.encodable(),
        ensures
            Self::parse(self.bytes()) == Ok::<MessageModel, XdrError>(self),
    {
        lemma_u32_round_trip(self.xid, self.body.bytes());
        self.body.lemma_round_trip();
    }

    /// The encoding of a message is as far from a multiple of four bytes as
    /// the payload it carries: with an encoded payload, which is a multiple of
    /// four bytes long, so is the message.
    pub proof fn lemma_aligned(self)
        ensures
            self.bytes().len() % 4 == self.payload_len() % 4,
            self.payload_len() % 4 == 0 ==> self.bytes().len() % 4 == 0,
    {
        let word = u32_bytes(self.xid);
        let rest = self.body.bytes();
        let k = self.body.payload_len();
        assert(rest.len() % 4 == k % 4) by {
            self.body.lemma_aligned();
        }
        assert((word + rest).len() % 4 == k % 4) by {
            lemma_word_prefix_len(word, rest, k);
        }
    }
}

impl Message {
    /// The encoding of the message. Fails with `LengthOutOfRange` where a
    /// credential or verifier in it is longer than the protocol allows.
    pub fn encode(&self) -> (r: Result<Vec<u8>, XdrError>)
        ensures
            self@.encodable() ==> r is Ok && r->Ok_0@ == self@.bytes(),
            !self@.encodable() ==> r == Err::<Vec<u8>, XdrError>(XdrError::LengthOutOfRange),
    {
        let mut out: Vec<u8> = Vec::new();
        put_u32(&mut out, self.xid);
        self.body.put(&mut out)?;
        assert(out@ =~= self@.bytes());
        Ok(out)
    }

    /// Reads a message that fills `input` to its end.
    pub fn decode(input: &[u8]) -> (r: Result<Message, XdrError>)
        ensures
            match r {
                Ok(m) => MessageModel::parse(input@) == Ok::<MessageModel, XdrError>(m@),
                Err(e) => MessageModel::parse(input@) == Err::<MessageModel, XdrError>(e),
            },
    {
        let (xid, rest) = get_u32(input)?;
        let body = MessageBody::decode(rest)?;
        Ok(Message { xid, body })
    }
}

} // verus!
