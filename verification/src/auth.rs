//! Authentication fields of RPC messages: the flavor-tagged opaque
//! credential and verifier, and the body of an `AUTH_SYS` credential.

use crate::xdr::{
    get_opaque, get_u32, get_u32_array, expect_end, lemma_concat_assoc, lemma_opaque_aligned,
    lemma_opaque_round_trip, lemma_padded, lemma_sum_aligned,
    lemma_u32_array_round_trip, lemma_u32_round_trip, opaque_bytes, put_opaque, put_u32,
    put_u32_array, take_opaque, take_u32, take_u32_array, u32_array_bytes, u32_bytes, XdrError,
};
use vstd::prelude::*;

verus! {

/// The most bytes the body of a credential or verifier may have.
pub const MAX_AUTH_BYTES: u32 = 400;

/// The most bytes a machine name may have.
pub const MAX_MACHINE_NAME_BYTES: u32 = 255;

/// The most supplementary group ids a credential may list.
pub const MAX_GIDS: u32 = 16;

/// How a credential or verifier is to be understood.
#[derive(Clone, Copy, Debug, PartialEq, Eq, Structural)]
pub enum AuthFlavor {
    /// No authentication (`AUTH_NONE`).
    Null,
    Sys,
    Short,
    Dh,
    RpcSecGss,
}

impl AuthFlavor {
    /// The number that stands for the flavor on the wire.
    pub open spec fn wire(self) -> u32 {
        match self {
            AuthFlavor::Null => 0,
            AuthFlavor::Sys => 1,
            AuthFlavor::Short => 2,
            AuthFlavor::Dh => 3,
            AuthFlavor::RpcSecGss => 6,
        }
    }

    /// The flavor that `v` stands for, if any.
    pub open spec fn of_wire(v: u32) -> Option<AuthFlavor> {
        if v == 0 {
            Some(AuthFlavor::Null)
        } else if v == 1 {
            Some(AuthFlavor::Sys)
        } else if v == 2 {
            Some(AuthFlavor::Short)
        } else if v == 3 {
            Some(AuthFlavor::Dh)
        } else if v == 6 {
            Some(AuthFlavor::RpcSecGss)
        } else {
            None
        }
    }

    pub fn to_wire(self) -> (r: u32)
        ensures
            r == self.wire(),
    {
        match self {
            AuthFlavor::Null => 0,
            AuthFlavor::Sys => 1,
            AuthFlavor::Short => 2,
            AuthFlavor::Dh => 3,
            AuthFlavor::RpcSecGss => 6,
        }
    }

    pub fn from_wire(v: u32) -> (r: Option<AuthFlavor>)
        ensures
            r == Self::of_wire(v),
    {
        if v == 0 {
            Some(AuthFlavor::Null)
        } else if v == 1 {
            Some(AuthFlavor::Sys)
        } else if v == 2 {
            Some(AuthFlavor::Short)
        } else if v == 3 {
            Some(AuthFlavor::Dh)
        } else if v == 6 {
            Some(AuthFlavor::RpcSecGss)
        } else {
            None
        }
    }
}

/// A credential or a verifier: a flavor and bytes that only the flavor
/// explains.
#[derive(Clone, Debug, PartialEq, Eq)]
pub struct OpaqueAuth {
    pub flavor: AuthFlavor,
    pub body: Vec<u8>,
}

/// What an [`OpaqueAuth`] holds.
pub struct OpaqueAuthModel {
    pub flavor: AuthFlavor,
    pub body: Seq<u8>,
}

impl View for OpaqueAuth {
    type V = OpaqueAuthModel;

    open spec fn view(&self) -> OpaqueAuthModel {
        OpaqueAuthModel { flavor: self.flavor, body: self.body@ }
    }
}

impl OpaqueAuthModel {
    /// Whether the body is short enough to be sent.
    pub open spec fn encodable(self) -> bool {
        self.body.len() <= MAX_AUTH_BYTES
    }

    /// The encoding: the flavor's number, then the body as opaque data.
    pub open spec fn bytes(self) -> Seq<u8> {
        u32_bytes(self.flavor.wire()) + opaque_bytes(self.body)
    }

    /// Splits `s` into the credential or verifier at its front and the rest.
    pub open spec fn take(s: Seq<u8>) -> Result<(OpaqueAuthModel, Seq<u8>), XdrError> {
        match take_u32(s) {
            Err(e) => Err(e),
            Ok((tag, rest)) => match AuthFlavor::of_wire(tag) {
                None => Err(XdrError::InvalidDiscriminant),
                Some(flavor) => match take_opaque(rest, MAX_AUTH_BYTES as nat) {
                    Err(e) => Err(e),
                    Ok((body, rest)) => Ok((OpaqueAuthModel { flavor, body }, rest)),
                },
            },
        }
    }

    /// The encoding is a multiple of four bytes long.
    pub proof fn lemma_aligned(self)
        ensures
            self.bytes().len() % 4 == 0,
    {
        let inner = opaque_bytes(self.body).len() as int;
        assert(inner % 4 == 0) by {
            lemma_opaque_aligned(self.body);
        }
        assert(self.bytes().len() == inner + 4);
        lemma_sum_aligned(inner, 4);
    }

    /// Decoding undoes encoding, whatever follows.
    pub proof fn lemma_round_trip(self, rest: Seq<u8>)
        requires
            self.encodable(),
        ensures
            Self::take(self.bytes() + rest) == Ok::<(OpaqueAuthModel, Seq<u8>), XdrError>(
                (self, rest),
            ),
    {
        lemma_u32_round_trip(self.flavor.wire(), opaque_bytes(self.body) + rest);
        lemma_opaque_round_trip(self.body, rest, MAX_AUTH_BYTES as nat);
        lemma_concat_assoc(u32_bytes(self.flavor.wire()), opaque_bytes(self.body), rest);
    }
}

impl OpaqueAuth {
    /// The empty `AUTH_NONE` credential or verifier.
    pub fn none() -> (r: OpaqueAuth)
        ensures
            r@ == (OpaqueAuthModel { flavor: AuthFlavor::Null, body: Seq::<u8>::empty() }),
    {
        OpaqueAuth { flavor: AuthFlavor::Null, body: Vec::new() }
    }

    /// An `AUTH_SYS` credential with `params` as its body. Fails with
    /// `LengthOutOfRange` where the machine name or the group list is longer
    /// than the protocol allows.
    pub fn auth_sys(params: &AuthSysParameters) -> (r: Result<OpaqueAuth, XdrError>)
        ensures
            params@.encodable() ==> r is Ok && r->Ok_0@ == (OpaqueAuthModel {
                flavor: AuthFlavor::Sys,
                body: params@.bytes(),
            }) && r->Ok_0@.encodable(),
            !params@.encodable() ==> r == Err::<OpaqueAuth, XdrError>(XdrError::LengthOutOfRange),
    {
        let body = params.encode()?;
        proof {
            params@.lemma_length();
        }
        Ok(OpaqueAuth { flavor: AuthFlavor::Sys, body })
    }

    /// Appends the encoding to `out`, unless the body is too long.
    pub fn put(&self, out: &mut Vec<u8>) -> (r: Result<(), XdrError>)
        ensures
            r is Ok <==> self@.encodable(),
            r is Ok ==> final(out)@ == old(out)@ + self@.bytes(),
            r is Err ==> r == Err::<(), XdrError>(XdrError::LengthOutOfRange) && final(out)@ == old(
                out,
            )@,
    {
        if self.body.len() > MAX_AUTH_BYTES as usize {
            return Err(XdrError::LengthOutOfRange);
        }
        put_u32(out, self.flavor.to_wire());
        let r = put_opaque(out, self.body.as_slice());
        assert(out@ =~= old(out)@ + self@.bytes());
        r
    }

    /// Reads the credential or verifier at the front of `input`.
    pub fn get(input: &[u8]) -> (r: Result<(OpaqueAuth, &[u8]), XdrError>)
        ensures
            match r {
                Ok((a, rest)) => OpaqueAuthModel::take(input@) == Ok::<
                    (OpaqueAuthModel, Seq<u8>),
                    XdrError,
                >((a@, rest@)),
                Err(e) => OpaqueAuthModel::take(input@) == Err::<
                    (OpaqueAuthModel, Seq<u8>),
                    XdrError,
                >(e),
            },
    {
        let (tag, rest) = get_u32(input)?;
        let flavor = match AuthFlavor::from_wire(tag) {
            Some(f) => f,
            None => { return Err(XdrError::InvalidDiscriminant); },
        };
        let (body, rest) = get_opaque(rest, MAX_AUTH_BYTES)?;
        Ok((OpaqueAuth { flavor, body }, rest))
    }
}

/// The body of an `AUTH_SYS` credential: who the caller says it is.
#[derive(Clone, Debug, PartialEq, Eq)]
pub struct AuthSysParameters {
    pub stamp: u32,
    /// The caller's machine name, as bytes.
    pub machine_name: Vec<u8>,
    pub uid: u32,
    pub gid: u32,
    pub gids: Vec<u32>,
}

/// What an [`AuthSysParameters`] holds.
pub struct AuthSysModel {
    pub stamp: u32,
    pub machine_name: Seq<u8>,
    pub uid: u32,
    pub gid: u32,
    pub gids: Seq<u32>,
}

impl View for AuthSysParameters {
    type V = AuthSysModel;

    open spec fn view(&self) -> AuthSysModel {
        AuthSysModel {
            stamp: self.stamp,
            machine_name: self.machine_name@,
            uid: self.uid,
            gid: self.gid,
            gids: self.gids@,
        }
    }
}

impl AuthSysModel {
    /// Whether the name and the group list are within the protocol's bounds.
    pub open spec fn encodable(self) -> bool {
        self.machine_name.len() <= MAX_MACHINE_NAME_BYTES && self.gids.len() <= MAX_GIDS
    }

    /// The encoding: the fields in order.
    pub open spec fn bytes(self) -> Seq<u8> {
        u32_bytes(self.stamp) + opaque_bytes(self.machine_name) + u32_bytes(self.uid) + u32_bytes(
            self.gid,
        ) + u32_array_bytes(self.gids)
    }

    /// Reads a credential body that fills `s` to its end.
    pub open spec fn parse(s: Seq<u8>) -> Result<AuthSysModel, XdrError> {
        match take_u32(s) {
            Err(e) => Err(e),
            Ok((stamp, rest)) => match take_opaque(rest, MAX_MACHINE_NAME_BYTES as nat) {
                Err(e) => Err(e),
                Ok((machine_name, rest)) => match take_u32(rest) {
                    Err(e) => Err(e),
                    Ok((uid, rest)) => match take_u32(rest) {
                        Err(e) => Err(e),
                        Ok((gid, rest)) => match take_u32_array(rest, MAX_GIDS as nat) {
                            Err(e) => Err(e),
                            Ok((gids, rest)) => if rest.len() == 0 {
                                Ok(AuthSysModel { stamp, machine_name, uid, gid, gids })
                            } else {
                                Err(XdrError::TrailingBytes)
                            },
                        },
                    },
                },
            },
        }
    }

    /// An encodable body is a multiple of four bytes long and fits in a
    /// credential.
    pub proof fn lemma_length(self)
        requires
            self.encodable(),
        ensures
            self.bytes().len() % 4 == 0,
            self.bytes().len() <= MAX_AUTH_BYTES,
    {
        let name = opaque_bytes(self.machine_name).len() as int;
        let groups = u32_array_bytes(self.gids).len() as int;
        assert(name % 4 == 0 && name <= 4 + 255 + 3) by {
            lemma_opaque_aligned(self.machine_name);
            lemma_padded(self.machine_name.len());
        }
        assert(groups == 4 + 4 * self.gids.len()) by {
            lemma_u32_array_round_trip(self.gids, Seq::<u8>::empty(), MAX_GIDS as nat);
        }
        assert(self.bytes().len() == 12 + name + groups);
        lemma_sum_aligned(name, 12 + groups);
        let count = self.gids.len() as int;
        assert((12 + groups) % 4 == 0) by (nonlinear_arith)
            requires
                groups == 4 + 4 * count,
        ;
    }

    /// Decoding undoes encoding.
    pub proof fn lemma_round_trip(self)
        requires
            self.encodable(),
        ensures
            Self::parse(self.bytes()) == Ok::<AuthSysModel, XdrError>(self),
    {
        let e = Seq::<u8>::empty();
        let r4 = u32_array_bytes(self.gids) + e;
        let r3 = u32_bytes(self.gid) + r4;
        let r2 = u32_bytes(self.uid) + r3;
        let r1 = opaque_bytes(self.machine_name) + r2;
        let h0 = u32_bytes(self.stamp);
        let h1 = opaque_bytes(self.machine_name);
        let h2 = u32_bytes(self.uid);
        let h3 = u32_bytes(self.gid);
        let h4 = u32_array_bytes(self.gids);
        assert(self.bytes() == h0 + r1) by {
            assert(h4 + e =~= h4);
            lemma_concat_assoc(h0 + h1 + h2, h3, r4);
            lemma_concat_assoc(h0 + h1, h2, r3);
            lemma_concat_assoc(h0, h1, r2);
        }
        lemma_u32_round_trip(self.stamp, r1);
        lemma_opaque_round_trip(self.machine_name, r2, MAX_MACHINE_NAME_BYTES as nat);
        lemma_u32_round_trip(self.uid, r3);
        lemma_u32_round_trip(self.gid, r4);
        lemma_u32_array_round_trip(self.gids, e, MAX_GIDS as nat);
    }
}

impl AuthSysParameters {
    /// The encoding of the body, unless the name or the group list is too
    /// long.
    pub fn encode(&self) -> (r: Result<Vec<u8>, XdrError>)
        ensures
            self@.encodable() ==> r is Ok && r->Ok_0@ == self@.bytes(),
            !self@.encodable() ==> r == Err::<Vec<u8>, XdrError>(XdrError::LengthOutOfRange),
    {
        if self.machine_name.len() > MAX_MACHINE_NAME_BYTES as usize || self.gids.len()
            > MAX_GIDS as usize {
            return Err(XdrError::LengthOutOfRange);
        }
        Ok(self.encode_bounded())
    }

    /// The encoding of a body whose name and group list are within bounds.
    pub(crate) fn encode_bounded(&self) -> (r: Vec<u8>)
        requires
            self@.encodable(),
        ensures
            r@ == self@.bytes(),
    {
        let mut out: Vec<u8> = Vec::new();
        put_u32(&mut out, self.stamp);
        let _ = put_opaque(&mut out, self.machine_name.as_slice());
        put_u32(&mut out, self.uid);
        put_u32(&mut out, self.gid);
        let _ = put_u32_array(&mut out, self.gids.as_slice());
        assert(out@ =~= self@.bytes());
        out
    }

    /// Reads a credential body that fills `input` to its end.
    pub fn decode(input: &[u8]) -> (r: Result<AuthSysParameters, XdrError>)
        ensures
            match r {
                Ok(p) => AuthSysModel::parse(input@) == Ok::<AuthSysModel, XdrError>(p@),
                Err(e) => AuthSysModel::parse(input@) == Err::<AuthSysModel, XdrError>(e),
            },
    {
        let (stamp, rest) = get_u32(input)?;
        let (machine_name, rest) = get_opaque(rest, MAX_MACHINE_NAME_BYTES)?;
        let (uid, rest) = get_u32(rest)?;
        let (gid, rest) = get_u32(rest)?;
        let (gids, rest) = get_u32_array(rest, MAX_GIDS)?;
        expect_end(rest)?;
        Ok(AuthSysParameters { stamp, machine_name, uid, gid, gids })
    }
}

} // verus!
