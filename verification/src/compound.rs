//! COMPOUND requests: the operations that one call to an NFS server carries,
//! in the order in which the server runs them.
//!
//! The operations share the current filehandle, which the server keeps for
//! the length of one request. A request is well sequenced where no operation
//! that works on the current filehandle stands before the first operation
//! that sets it. Every request built here is.

use crate::attrs::{
    AttrModel, AttributeSet, FileAttribute, FileAttributeId, FileAttributes, FileHandle,
};
use crate::status::{status_error, status_meaning, NfsError};
use crate::text::{find_char, index_of, is_first};
use vstd::prelude::*;
use vstd::string::*;

verus! {

/// The program number of NFS.
pub const NFS_PROGRAM: u32 = 100003;

/// The version of NFS that the requests are for.
pub const NFS_VERSION: u32 = 4;

/// The port that an NFS server listens on.
pub const NFS_PORT: u16 = 2049;

/// The procedure that carries a COMPOUND request.
pub const COMPOUND_PROCEDURE: u32 = 1;

/// How many bytes of directory entries one directory read asks for.
pub const DIR_COUNT: u32 = 8192;

/// How many bytes the whole reply to one directory read may have.
pub const MAX_COUNT: u32 = 32768;

/// The mode that a new file gets: read and write for the owner, read for all
/// others.
pub const CREATE_MODE: u32 = 0o644;

/// The name of a piece of state that a server keeps for a client: a sequence
/// number and twelve bytes, held as three words in their order, that only the
/// server understands.
#[derive(Clone, Copy, Debug, PartialEq, Eq, Structural)]
pub struct StateId {
    pub sequence_id: u32,
    pub first: u32,
    pub second: u32,
    pub third: u32,
}

impl StateId {
    /// The state id of all zeros, for reading and writing without state of
    /// one's own.
    pub open spec fn anonymous_id() -> StateId {
        StateId { sequence_id: 0, first: 0, second: 0, third: 0 }
    }

    /// The state id that stands for the one that an operation before it in
    /// the same request gave.
    pub open spec fn current_id() -> StateId {
        StateId { sequence_id: 1, first: 0, second: 0, third: 0 }
    }

    /// The state id of all zeros.
    pub fn anonymous() -> (r: StateId)
        ensures
            r == Self::anonymous_id(),
    {
        StateId { sequence_id: 0, first: 0, second: 0, third: 0 }
    }

    /// The state id that stands for the one that an operation before it in
    /// the same request gave.
    pub fn current() -> (r: StateId)
        ensures
            r == Self::current_id(),
    {
        StateId { sequence_id: 1, first: 0, second: 0, third: 0 }
    }
}

/// The operations that this library sends.
#[derive(Clone, Copy, Debug, PartialEq, Eq, Structural)]
pub enum OpCode {
    Close,
    Commit,
    GetAttr,
    GetFh,
    LookUp,
    Open,
    PutFh,
    PutRootFh,
    Read,
    ReadDir,
    Remove,
    SetAttr,
    Write,
}

impl OpCode {
    /// The number that stands for the operation on the wire.
    pub open spec fn number(self) -> u32 {
        match self {
            OpCode::Close => 4,
            OpCode::Commit => 5,
            OpCode::GetAttr => 9,
            OpCode::GetFh => 10,
            OpCode::LookUp => 15,
            OpCode::Open => 18,
            OpCode::PutFh => 22,
            OpCode::PutRootFh => 24,
            OpCode::Read => 25,
            OpCode::ReadDir => 26,
            OpCode::Remove => 28,
            OpCode::SetAttr => 34,
            OpCode::Write => 38,
        }
    }

    /// The number that stands for the operation on the wire.
    pub fn to_number(self) -> (r: u32)
        ensures
            r == self.number(),
    {
        match self {
            OpCode::Close => 4,
            OpCode::Commit => 5,
            OpCode::GetAttr => 9,
            OpCode::GetFh => 10,
            OpCode::LookUp => 15,
            OpCode::Open => 18,
            OpCode::PutFh => 22,
            OpCode::PutRootFh => 24,
            OpCode::Read => 25,
            OpCode::ReadDir => 26,
            OpCode::Remove => 28,
            OpCode::SetAttr => 34,
            OpCode::Write => 38,
        }
    }

    /// The operation that the number `n` stands for, if this library sends
    /// it.
    pub open spec fn of_number(n: u32) -> Option<OpCode> {
        if n == 4 {
            Some(OpCode::Close)
        } else if n == 5 {
            Some(OpCode::Commit)
        } else if n == 9 {
            Some(OpCode::GetAttr)
        } else if n == 10 {
            Some(OpCode::GetFh)
        } else if n == 15 {
            Some(OpCode::LookUp)
        } else if n == 18 {
            Some(OpCode::Open)
        } else if n == 22 {
            Some(OpCode::PutFh)
        } else if n == 24 {
            Some(OpCode::PutRootFh)
        } else if n == 25 {
            Some(OpCode::Read)
        } else if n == 26 {
            Some(OpCode::ReadDir)
        } else if n == 28 {
            Some(OpCode::Remove)
        } else if n == 34 {
            Some(OpCode::SetAttr)
        } else if n == 38 {
            Some(OpCode::Write)
        } else {
            None
        }
    }

    /// The operation that the number `n` stands for, if this library sends
    /// it.
    pub fn from_number(n: u32) -> (r: Option<OpCode>)
        ensures
            r == Self::of_number(n),
    {
        if n == 4 {
            Some(OpCode::Close)
        } else if n == 5 {
            Some(OpCode::Commit)
        } else if n == 9 {
            Some(OpCode::GetAttr)
        } else if n == 10 {
            Some(OpCode::GetFh)
        } else if n == 15 {
            Some(OpCode::LookUp)
        } else if n == 18 {
            Some(OpCode::Open)
        } else if n == 22 {
            Some(OpCode::PutFh)
        } else if n == 24 {
            Some(OpCode::PutRootFh)
        } else if n == 25 {
            Some(OpCode::Read)
        } else if n == 26 {
            Some(OpCode::ReadDir)
        } else if n == 28 {
            Some(OpCode::Remove)
        } else if n == 34 {
            Some(OpCode::SetAttr)
        } else if n == 38 {
            Some(OpCode::Write)
        } else {
            None
        }
    }

    /// An operation is found again from its number, and no two operations
    /// share one.
    pub proof fn lemma_number_round_trip(self, n: u32)
        ensures
            Self::of_number(self.number()) == Some(self),
            Self::of_number(n) matches Some(code) ==> code.number() == n,
    {
    }

    /// Whether the operation sets the current filehandle without reading
    /// it.
    pub open spec fn sets_cfh(self) -> bool {
        self == OpCode::PutFh || self == OpCode::PutRootFh
    }

    /// Whether the operation works on the current filehandle, and fails
    /// where there is none.
    pub open spec fn needs_cfh(self) -> bool {
        !self.sets_cfh()
    }

    /// Whether the operation sets the current filehandle without reading
    /// it.
    pub fn puts_handle(self) -> (r: bool)
        ensures
            r == self.sets_cfh(),
    {
        match self {
            OpCode::PutFh => true,
            OpCode::PutRootFh => true,
            _ => false,
        }
    }
}

/// One operation with its arguments.
#[derive(Clone, Debug, PartialEq, Eq)]
pub enum Operation {
    /// Make the root of the server's files the current filehandle.
    PutRootFh,
    /// Make the handle given the current filehandle.
    PutFh(FileHandle),
    /// Go from the current directory to the entry of this name.
    LookUp(String),
    /// Give the current filehandle.
    GetFh,
    /// Give these attributes of the current file.
    GetAttr(AttributeSet),
    /// Set these attributes of the current file, under the anonymous state
    /// id.
    SetAttr(FileAttributes),
    /// Give entries of the current directory, from after `cookie` on.
    ReadDir { cookie: u64, cookie_verifier: u64, dir_count: u32, max_count: u32, request: AttributeSet },
    /// Open the file of this name in the current directory for writing, and
    /// create it with these attributes where it is not there.
    Open { seqid: u32, client_id: u64, owner: Vec<u8>, name: String, attrs: FileAttributes },
    /// Give up the state that an open left.
    Close { seqid: u32, state_id: StateId },
    /// Remove the entry of this name from the current directory.
    Remove(String),
    /// Give `count` bytes of the current file from `offset` on, under the
    /// anonymous state id.
    Read { offset: u64, count: u32 },
    /// Write these bytes to the current file from `offset` on, to stable
    /// storage, under the anonymous state id.
    Write { offset: u64, data: Vec<u8> },
    /// Bring what was written to stable storage.
    Commit { offset: u64, count: u32 },
}

/// What an [`Operation`] holds.
pub enum OperationModel {
    PutRootFh,
    PutFh(Seq<u8>),
    LookUp(Seq<char>),
    GetFh,
    GetAttr(Set<FileAttributeId>),
    SetAttr(Map<FileAttributeId, AttrModel>),
    ReadDir {
        cookie: u64,
        cookie_verifier: u64,
        dir_count: u32,
        max_count: u32,
        request: Set<FileAttributeId>,
    },
    Open {
        seqid: u32,
        client_id: u64,
        owner: Seq<u8>,
        name: Seq<char>,
        attrs: Map<FileAttributeId, AttrModel>,
    },
    Close { seqid: u32, state_id: StateId },
    Remove(Seq<char>),
    Read { offset: u64, count: u32 },
    Write { offset: u64, data: Seq<u8> },
    Commit { offset: u64, count: u32 },
}

impl View for Operation {
    type V = OperationModel;

    open spec fn view(&self) -> OperationModel {
        match *self {
            Operation::PutRootFh => OperationModel::PutRootFh,
            Operation::PutFh(handle) => OperationModel::PutFh(handle@),
            Operation::LookUp(name) => OperationModel::LookUp(name@),
            Operation::GetFh => OperationModel::GetFh,
            Operation::GetAttr(request) => OperationModel::GetAttr(request@),
            Operation::SetAttr(attrs) => OperationModel::SetAttr(attrs@),
            Operation::ReadDir { cookie, cookie_verifier, dir_count, max_count, request } => {
                OperationModel::ReadDir {
                    cookie,
                    cookie_verifier,
                    dir_count,
                    max_count,
                    request: request@,
                }
            },
            Operation::Open { seqid, client_id, owner, name, attrs } => OperationModel::Open {
                seqid,
                client_id,
                owner: owner@,
                name: name@,
                attrs: attrs@,
            },
            Operation::Close { seqid, state_id } => OperationModel::Close { seqid, state_id },
            Operation::Remove(name) => OperationModel::Remove(name@),
            Operation::Read { offset, count } => OperationModel::Read { offset, count },
            Operation::Write { offset, data } => OperationModel::Write { offset, data: data@ },
            Operation::Commit { offset, count } => OperationModel::Commit { offset, count },
        }
    }
}

impl OperationModel {
    /// Which operation this is.
    pub open spec fn code(self) -> OpCode {
        match self {
            OperationModel::PutRootFh => OpCode::PutRootFh,
            OperationModel::PutFh(_) => OpCode::PutFh,
            OperationModel::LookUp(_) => OpCode::LookUp,
            OperationModel::GetFh => OpCode::GetFh,
            OperationModel::GetAttr(_) => OpCode::GetAttr,
            OperationModel::SetAttr(_) => OpCode::SetAttr,
            OperationModel::ReadDir { .. } => OpCode::ReadDir,
            OperationModel::Open { .. } => OpCode::Open,
            OperationModel::Close { .. } => OpCode::Close,
            OperationModel::Remove(_) => OpCode::Remove,
            OperationModel::Read { .. } => OpCode::Read,
            OperationModel::Write { .. } => OpCode::Write,
            OperationModel::Commit { .. } => OpCode::Commit,
        }
    }
}

impl Operation {
    /// Which operation this is.
    pub fn code(&self) -> (r: OpCode)
        ensures
            r == self@.code(),
    {
        match self {
            Operation::PutRootFh => OpCode::PutRootFh,
            Operation::PutFh(_) => OpCode::PutFh,
            Operation::LookUp(_) => OpCode::LookUp,
            Operation::GetFh => OpCode::GetFh,
            Operation::GetAttr(_) => OpCode::GetAttr,
            Operation::SetAttr(_) => OpCode::SetAttr,
            Operation::ReadDir { .. } => OpCode::ReadDir,
            Operation::Open { .. } => OpCode::Open,
            Operation::Close { .. } => OpCode::Close,
            Operation::Remove(_) => OpCode::Remove,
            Operation::Read { .. } => OpCode::Read,
            Operation::Write { .. } => OpCode::Write,
            Operation::Commit { .. } => OpCode::Commit,
        }
    }
}

/// What the operations of a request hold, in order.
pub open spec fn models(ops: Seq<Operation>) -> Seq<OperationModel> {
    ops.map_values(|op: Operation| op@)
}

/// Which operations a request is made of, in order.
pub open spec fn codes(ops: Seq<OperationModel>) -> Seq<OpCode> {
    ops.map_values(|op: OperationModel| op.code())
}

/// The numbers of the operations, in order.
pub open spec fn numbers(codes: Seq<OpCode>) -> Seq<u32> {
    codes.map_values(|code: OpCode| code.number())
}

/// Whether an operation before place `i` sets the current filehandle.
pub open spec fn set_before(codes: Seq<OpCode>, i: int) -> bool {
    exists|j: int| 0 <= j < i && j < codes.len() && #[trigger] codes[j].sets_cfh()
}

/// Whether no operation reads the current filehandle before one has set it.
pub open spec fn well_sequenced(codes: Seq<OpCode>) -> bool {
    forall|i: int| 0 <= i < codes.len() && #[trigger] codes[i].needs_cfh() ==> set_before(codes, i)
}

/// A request that begins by setting the current filehandle is well
/// sequenced.
pub proof fn lemma_put_first(codes: Seq<OpCode>)
    requires
        codes.len() > 0,
        codes[0].sets_cfh(),
    ensures
        well_sequenced(codes),
{
    assert forall|i: int| 0 <= i < codes.len() && #[trigger] codes[i].needs_cfh() implies set_before(
        codes,
        i,
    ) by {
        assert(i > 0);
        assert(codes[0].sets_cfh());
    }
}

/// Whether no operation of `ops` reads the current filehandle before one has
/// set it.
pub fn is_well_sequenced(ops: &[Operation]) -> (r: bool)
    ensures
        r == well_sequenced(codes(models(ops@))),
{
    let ghost all = codes(models(ops@));
    let mut set = false;
    let mut i: usize = 0;
    while i < ops.len()
        invariant
            i <= ops.len(),
            all == codes(models(ops@)),
            all.len() == ops.len(),
            set == set_before(all, i as int),
            forall|k: int| 0 <= k < i && #[trigger] all[k].needs_cfh() ==> set_before(all, k),
        decreases ops.len() - i,
    {
        let code = ops[i].code();
        assert(code == all[i as int]);
        if code.puts_handle() {
            set = true;
        } else if !set {
            assert(all[i as int].needs_cfh() && !set_before(all, i as int));
            return false;
        }
        proof {
            if set_before(all, i as int) {
                let j = choose|j: int| 0 <= j < i && j < all.len() && #[trigger] all[j].sets_cfh();
                assert(all[j].sets_cfh());
            }
            if set_before(all, i + 1) && !set {
                let j = choose|j: int|
                    0 <= j < i + 1 && j < all.len() && #[trigger] all[j].sets_cfh();
                assert(j < i);
            }
        }
        i += 1;
    }
    true
}

/// The request that finds the file at the end of a path: from the root,
/// through each name in turn, to the handle of what is reached.
pub open spec fn look_up_operations(names: Seq<Seq<char>>) -> Seq<OperationModel> {
    seq![OperationModel::PutRootFh] + names.map_values(|name: Seq<char>| OperationModel::LookUp(name))
        + seq![OperationModel::GetFh]
}

/// The request that finds the file at the end of the path with these names.
/// For the root itself, which has no names, nothing is looked up.
pub fn look_up_compound(names: &Vec<String>) -> (r: Vec<Operation>)
    ensures
        models(r@) == look_up_operations(names@.map_values(|name: String| name@)),
        well_sequenced(codes(models(r@))),
        r@.len() == names@.len() + 2,
{
    let ghost all = names@.map_values(|name: String| name@);
    let mut ops: Vec<Operation> = Vec::new();
    ops.push(Operation::PutRootFh);
    let mut i: usize = 0;
    assert(models(ops@) =~= seq![OperationModel::PutRootFh] + all.take(0).map_values(
        |name: Seq<char>| OperationModel::LookUp(name),
    ));
    while i < names.len()
        invariant
            i <= names.len(),
            all == names@.map_values(|name: String| name@),
            ops@.len() == i + 1,
            models(ops@) == seq![OperationModel::PutRootFh] + all.take(i as int).map_values(
                |name: Seq<char>| OperationModel::LookUp(name),
            ),
        decreases names.len() - i,
    {
        let ghost before = ops@;
        let name = names[i].clone();
        assert(name@ == all[i as int]);
        ops.push(Operation::LookUp(name));
        i += 1;
        proof {
            let looked = all.take(i as int).map_values(
                |name: Seq<char>| OperationModel::LookUp(name),
            );
            let wanted = seq![OperationModel::PutRootFh] + looked;
            assert(models(ops@).len() == wanted.len());
            assert forall|k: int| 0 <= k < wanted.len() implies models(ops@)[k] == wanted[k] by {
                if k < i {
                    assert(ops@[k] == before[k]);
                    assert(models(before)[k] == before[k]@);
                    if k > 0 {
                        assert(all.take(i - 1)[k - 1] == all.take(i as int)[k - 1]);
                    }
                } else {
                    assert(ops@[k]@ == OperationModel::LookUp(all[i - 1]));
                    assert(looked[k - 1] == OperationModel::LookUp(all.take(i as int)[k - 1]));
                }
            }
        }
        assert(models(ops@) =~= seq![OperationModel::PutRootFh] + all.take(i as int).map_values(
            |name: Seq<char>| OperationModel::LookUp(name),
        ));
    }
    ops.push(Operation::GetFh);
    assert(all.take(i as int) =~= all);
    assert(models(ops@) =~= look_up_operations(all));
    proof {
        lemma_put_first(codes(models(ops@)));
    }
    ops
}

/// The attributes that every request for attributes asks for, whatever else
/// the caller wants.
pub open spec fn basic_attributes() -> Set<FileAttributeId> {
    set![
        FileAttributeId::Size,
        FileAttributeId::FileHandle,
        FileAttributeId::Mode,
        FileAttributeId::NumLinks,
        FileAttributeId::Owner,
        FileAttributeId::TimeModify,
        FileAttributeId::Type,
    ]
}

/// The attributes that every request for attributes asks for.
pub fn basic_request() -> (r: AttributeSet)
    ensures
        r@ == basic_attributes(),
{
    let r = AttributeSet::empty().with(FileAttributeId::Size).with(FileAttributeId::FileHandle).with(
        FileAttributeId::Mode,
    ).with(FileAttributeId::NumLinks).with(FileAttributeId::Owner).with(
        FileAttributeId::TimeModify,
    ).with(FileAttributeId::Type);
    assert(r@ =~= basic_attributes());
    r
}

/// The request for the attributes of the file `handle`: the basic ones and
/// those of `wanted`.
pub fn get_attr_compound(handle: FileHandle, wanted: AttributeSet) -> (r: Vec<Operation>)
    ensures
        models(r@) == seq![
            OperationModel::PutFh(handle@),
            OperationModel::GetAttr(basic_attributes().union(wanted@)),
        ],
        well_sequenced(codes(models(r@))),
{
    let mut ops: Vec<Operation> = Vec::new();
    let request = basic_request().union(wanted);
    ops.push(Operation::PutFh(handle));
    ops.push(Operation::GetAttr(request));
    assert(models(ops@) =~= seq![
        OperationModel::PutFh(handle@),
        OperationModel::GetAttr(basic_attributes().union(wanted@)),
    ]);
    proof {
        lemma_put_first(codes(models(ops@)));
    }
    ops
}

/// The request that sets the attributes `attrs` of the file `handle`.
pub fn set_attr_compound(handle: FileHandle, attrs: FileAttributes) -> (r: Vec<Operation>)
    ensures
        models(r@) == seq![OperationModel::PutFh(handle@), OperationModel::SetAttr(attrs@)],
        well_sequenced(codes(models(r@))),
{
    let mut ops: Vec<Operation> = Vec::new();
    ops.push(Operation::PutFh(handle));
    ops.push(Operation::SetAttr(attrs));
    assert(models(ops@) =~= seq![OperationModel::PutFh(handle@), OperationModel::SetAttr(attrs@)]);
    proof {
        lemma_put_first(codes(models(ops@)));
    }
    ops
}

/// The request for the entries of the directory `handle` that follow
/// `cookie`, with the attributes of `request` for each.
pub fn read_dir_compound(
    handle: FileHandle,
    cookie: u64,
    cookie_verifier: u64,
    request: AttributeSet,
) -> (r: Vec<Operation>)
    ensures
        models(r@) == seq![
            OperationModel::PutFh(handle@),
            OperationModel::ReadDir {
                cookie,
                cookie_verifier,
                dir_count: DIR_COUNT,
                max_count: MAX_COUNT,
                request: request@,
            },
        ],
        well_sequenced(codes(models(r@))),
{
    let mut ops: Vec<Operation> = Vec::new();
    ops.push(Operation::PutFh(handle));
    ops.push(
        Operation::ReadDir {
            cookie,
            cookie_verifier,
            dir_count: DIR_COUNT,
            max_count: MAX_COUNT,
            request,
        },
    );
    assert(models(ops@) =~= seq![
        OperationModel::PutFh(handle@),
        OperationModel::ReadDir {
            cookie,
            cookie_verifier,
            dir_count: DIR_COUNT,
            max_count: MAX_COUNT,
            request: request@,
        },
    ]);
    proof {
        lemma_put_first(codes(models(ops@)));
    }
    ops
}

/// The attributes that a new file is created with: its mode.
pub open spec fn create_attributes() -> Map<FileAttributeId, AttrModel> {
    Map::<FileAttributeId, AttrModel>::empty().insert(
        FileAttributeId::Mode,
        AttrModel::Mode(CREATE_MODE),
    )
}

/// The request that creates the file `name` in the directory `parent`, or
/// opens it where it is there already, gives its handle, and closes it
/// again. The open is the client's operation number `seqid` under the owner
/// `owner` of the client `client_id`; the close is the next.
pub fn create_file_compound(
    parent: FileHandle,
    name: String,
    client_id: u64,
    owner: Vec<u8>,
    seqid: u32,
) -> (r: Vec<Operation>)
    ensures
        models(r@) == seq![
            OperationModel::PutFh(parent@),
            OperationModel::Open {
                seqid,
                client_id,
                owner: owner@,
                name: name@,
                attrs: create_attributes(),
            },
            OperationModel::GetFh,
            OperationModel::Close {
                seqid: seqid.wrapping_add(1),
                state_id: StateId::current_id(),
            },
        ],
        well_sequenced(codes(models(r@))),
{
    let mut attrs = FileAttributes::new();
    attrs.insert(FileAttribute::Mode(CREATE_MODE));
    let mut ops: Vec<Operation> = Vec::new();
    ops.push(Operation::PutFh(parent));
    ops.push(Operation::Open { seqid, client_id, owner, name, attrs });
    ops.push(Operation::GetFh);
    ops.push(Operation::Close { seqid: seqid.wrapping_add(1), state_id: StateId::current() });
    assert(models(ops@) =~= seq![
        OperationModel::PutFh(parent@),
        OperationModel::Open {
            seqid,
            client_id,
            owner: owner@,
            name: name@,
            attrs: create_attributes(),
        },
        OperationModel::GetFh,
        OperationModel::Close { seqid: seqid.wrapping_add(1), state_id: StateId::current_id() },
    ]);
    proof {
        lemma_put_first(codes(models(ops@)));
    }
    ops
}

/// The request that removes the entry `name` from the directory `parent`.
pub fn remove_compound(parent: FileHandle, name: String) -> (r: Vec<Operation>)
    ensures
        models(r@) == seq![OperationModel::PutFh(parent@), OperationModel::Remove(name@)],
        well_sequenced(codes(models(r@))),
{
    let mut ops: Vec<Operation> = Vec::new();
    ops.push(Operation::PutFh(parent));
    ops.push(Operation::Remove(name));
    assert(models(ops@) =~= seq![OperationModel::PutFh(parent@), OperationModel::Remove(name@)]);
    proof {
        lemma_put_first(codes(models(ops@)));
    }
    ops
}

/// The request for `count` bytes of the file `handle` from `offset` on.
pub fn read_compound(handle: FileHandle, offset: u64, count: u32) -> (r: Vec<Operation>)
    ensures
        models(r@) == seq![OperationModel::PutFh(handle@), OperationModel::Read { offset, count }],
        well_sequenced(codes(models(r@))),
{
    let mut ops: Vec<Operation> = Vec::new();
    ops.push(Operation::PutFh(handle));
    ops.push(Operation::Read { offset, count });
    assert(models(ops@) =~= seq![
        OperationModel::PutFh(handle@),
        OperationModel::Read { offset, count },
    ]);
    proof {
        lemma_put_first(codes(models(ops@)));
    }
    ops
}

/// The request that writes `data` to the file `handle` from `offset` on.
pub fn write_compound(handle: FileHandle, offset: u64, data: Vec<u8>) -> (r: Vec<Operation>)
    ensures
        models(r@) == seq![
            OperationModel::PutFh(handle@),
            OperationModel::Write { offset, data: data@ },
        ],
        well_sequenced(codes(models(r@))),
{
    let mut ops: Vec<Operation> = Vec::new();
    ops.push(Operation::PutFh(handle));
    ops.push(Operation::Write { offset, data });
    assert(models(ops@) =~= seq![
        OperationModel::PutFh(handle@),
        OperationModel::Write { offset, data: data@ },
    ]);
    proof {
        lemma_put_first(codes(models(ops@)));
    }
    ops
}

/// The request that brings all of the file `handle` to stable storage.
pub fn commit_compound(handle: FileHandle) -> (r: Vec<Operation>)
    ensures
        models(r@) == seq![
            OperationModel::PutFh(handle@),
            OperationModel::Commit { offset: 0, count: 0 },
        ],
        well_sequenced(codes(models(r@))),
{
    let mut ops: Vec<Operation> = Vec::new();
    ops.push(Operation::PutFh(handle));
    ops.push(Operation::Commit { offset: 0, count: 0 });
    assert(models(ops@) =~= seq![
        OperationModel::PutFh(handle@),
        OperationModel::Commit { offset: 0, count: 0 },
    ]);
    proof {
        lemma_put_first(codes(models(ops@)));
    }
    ops
}

/// What is wrong with the reply to a request.
#[derive(Clone, Copy, Debug, PartialEq, Eq, Structural)]
pub enum ReplyFault {
    /// The results are not those of the request's operations, in order.
    Mismatch,
    /// The reply claims success but holds fewer results than the request has
    /// operations.
    Incomplete,
    /// An operation failed with this error.
    Nfs(NfsError),
}

/// What a reply says of a request with the operations `request`, when its
/// results are those of the operations `response` and its status is
/// `status`. The results must be those of the first operations of the
/// request, in order; with the status `NFS4_OK`, of all of them.
pub open spec fn reply_verdict(request: Seq<u32>, response: Seq<u32>, status: u32) -> Result<
    (),
    ReplyFault,
> {
    if !response.is_prefix_of(request) {
        Err(ReplyFault::Mismatch)
    } else {
        match status_meaning(status) {
            Some(e) => Err(ReplyFault::Nfs(e)),
            None => if response.len() == request.len() {
                Ok(())
            } else {
                Err(ReplyFault::Incomplete)
            },
        }
    }
}

/// Whether the operations with the numbers `response` are the first
/// operations of `request`, in order.
pub fn response_follows(request: &[Operation], response: &[u32]) -> (r: bool)
    ensures
        r == response@.is_prefix_of(numbers(codes(models(request@)))),
{
    let ghost all = numbers(codes(models(request@)));
    if response.len() > request.len() {
        return false;
    }
    let mut i: usize = 0;
    while i < response.len()
        invariant
            i <= response.len() <= request.len(),
            all == numbers(codes(models(request@))),
            all.len() == request.len(),
            forall|k: int| 0 <= k < i ==> response@[k] == all[k],
        decreases response.len() - i,
    {
        let expected = request[i].code().to_number();
        assert(expected == all[i as int]);
        if response[i] != expected {
            assert(response@[i as int] != all.subrange(0, response@.len() as int)[i as int]);
            return false;
        }
        i += 1;
    }
    assert(response@ =~= all.subrange(0, response@.len() as int));
    true
}

/// Checks the reply to `request` whose results are those of the operations
/// with the numbers `response` and whose status is `status`.
pub fn check_reply(request: &[Operation], response: &[u32], status: u32) -> (r: Result<
    (),
    ReplyFault,
>)
    ensures
        r == reply_verdict(numbers(codes(models(request@))), response@, status),
{
    if !response_follows(request, response) {
        return Err(ReplyFault::Mismatch);
    }
    match status_error(status) {
        Some(e) => Err(ReplyFault::Nfs(e)),
        None => if response.len() == request.len() {
            Ok(())
        } else {
            Err(ReplyFault::Incomplete)
        },
    }
}

/// A reply is accepted, or refused for the error of an operation, only where
/// its results are those of the first operations of the request, in order:
/// the reply never holds more results than the request has operations.
pub proof fn lemma_accepted_reply_is_prefix(request: Seq<u32>, response: Seq<u32>, status: u32)
    requires
        reply_verdict(request, response, status) != Err::<(), ReplyFault>(ReplyFault::Mismatch),
    ensures
        response.len() <= request.len(),
        forall|i: int| 0 <= i < response.len() ==> response[i] == request[i],
        reply_verdict(request, response, status) is Ok ==> response == request && status == 0,
{
    assert(response.is_prefix_of(request));
    assert forall|i: int| 0 <= i < response.len() implies response[i] == request[i] by {
        assert(response[i] == request.subrange(0, response.len() as int)[i]);
    }
    if reply_verdict(request, response, status) is Ok {
        assert(response =~= request);
    }
}

/// The text `s` as a name, unless it is empty.
pub open spec fn name_of(s: Seq<char>) -> Seq<Seq<char>> {
    if s.len() == 0 {
        Seq::empty()
    } else {
        seq![s]
    }
}

/// The names that the path `s` is made of: what stands between its slashes,
/// without what is empty.
pub open spec fn path_names(s: Seq<char>) -> Seq<Seq<char>>
    decreases s.len(),
{
    match index_of(s, '/') {
        None => name_of(s),
        Some(i) => if 0 <= i < s.len() {
            name_of(s.take(i)) + path_names(s.skip(i + 1))
        } else {
            name_of(s)
        },
    }
}

/// The names that the path `path` is made of.
pub fn path_components(path: &str) -> (r: Vec<String>)
    ensures
        r@.map_values(|name: String| name@) == path_names(path@),
{
    let mut names: Vec<String> = Vec::new();
    let mut rest: &str = path;
    assert(names@.map_values(|name: String| name@) + path_names(rest@) =~= path_names(path@));
    loop
        invariant
            names@.map_values(|name: String| name@) + path_names(rest@) == path_names(path@),
        decreases rest@.len(),
    {
        let ghost before = names@.map_values(|name: String| name@);
        let n: usize = rest.unicode_len();
        match find_char(rest, '/') {
            None => {
                if n > 0 {
                    names.push(rest.to_owned());
                }
                assert(names@.map_values(|name: String| name@) =~= before + name_of(rest@));
                return names;
            },
            Some(i) => {
                proof {
                    assert(is_first(rest@, '/', i as int));
                }
                let name = rest.substring_char(0, i);
                assert(name@ =~= rest@.take(i as int));
                if i > 0 {
                    names.push(name.to_owned());
                }
                let next = rest.substring_char(i + 1, n);
                assert(next@ =~= rest@.skip(i + 1));
                assert(names@.map_values(|name: String| name@) =~= before + name_of(name@));
                assert(before + name_of(name@) + path_names(next@) =~= before + (name_of(name@)
                    + path_names(next@)));
                rest = next;
            },
        }
    }
}

} // verus!
