//! File attributes: the values that describe a file, each under its own
//! number, and sets of them.

use vstd::prelude::*;
use vstd::slice::slice_to_vec;

verus! {

/// The attributes that this library knows, in the order of their numbers.
#[derive(Clone, Copy, Debug, PartialEq, Eq, Hash, Structural)]
pub enum FileAttributeId {
    Type,
    Size,
    FsId,
    LeaseTime,
    FileHandle,
    FileId,
    Mode,
    NumLinks,
    Owner,
    OwnerGroup,
    TimeModify,
}

impl FileAttributeId {
    /// The attribute's number: the place of its bit in an attribute bitmap.
    pub open spec fn number(self) -> u32 {
        match self {
            FileAttributeId::Type => 1,
            FileAttributeId::Size => 4,
            FileAttributeId::FsId => 8,
            FileAttributeId::LeaseTime => 10,
            FileAttributeId::FileHandle => 19,
            FileAttributeId::FileId => 20,
            FileAttributeId::Mode => 33,
            FileAttributeId::NumLinks => 35,
            FileAttributeId::Owner => 36,
            FileAttributeId::OwnerGroup => 37,
            FileAttributeId::TimeModify => 53,
        }
    }

    /// The attribute with the number `n`, if this library knows it.
    pub open spec fn of_number(n: u32) -> Option<FileAttributeId> {
        if n == 1 {
            Some(FileAttributeId::Type)
        } else if n == 4 {
            Some(FileAttributeId::Size)
        } else if n == 8 {
            Some(FileAttributeId::FsId)
        } else if n == 10 {
            Some(FileAttributeId::LeaseTime)
        } else if n == 19 {
            Some(FileAttributeId::FileHandle)
        } else if n == 20 {
            Some(FileAttributeId::FileId)
        } else if n == 33 {
            Some(FileAttributeId::Mode)
        } else if n == 35 {
            Some(FileAttributeId::NumLinks)
        } else if n == 36 {
            Some(FileAttributeId::Owner)
        } else if n == 37 {
            Some(FileAttributeId::OwnerGroup)
        } else if n == 53 {
            Some(FileAttributeId::TimeModify)
        } else {
            None
        }
    }

    pub fn to_number(self) -> (r: u32)
        ensures
            r == self.number(),
    {
        match self {
            FileAttributeId::Type => 1,
            FileAttributeId::Size => 4,
            FileAttributeId::FsId => 8,
            FileAttributeId::LeaseTime => 10,
            FileAttributeId::FileHandle => 19,
            FileAttributeId::FileId => 20,
            FileAttributeId::Mode => 33,
            FileAttributeId::NumLinks => 35,
            FileAttributeId::Owner => 36,
            FileAttributeId::OwnerGroup => 37,
            FileAttributeId::TimeModify => 53,
        }
    }

    pub fn from_number(n: u32) -> (r: Option<FileAttributeId>)
        ensures
            r == Self::of_number(n),
    {
        if n == 1 {
            Some(FileAttributeId::Type)
        } else if n == 4 {
            Some(FileAttributeId::Size)
        } else if n == 8 {
            Some(FileAttributeId::FsId)
        } else if n == 10 {
            Some(FileAttributeId::LeaseTime)
        } else if n == 19 {
            Some(FileAttributeId::FileHandle)
        } else if n == 20 {
            Some(FileAttributeId::FileId)
        } else if n == 33 {
            Some(FileAttributeId::Mode)
        } else if n == 35 {
            Some(FileAttributeId::NumLinks)
        } else if n == 36 {
            Some(FileAttributeId::Owner)
        } else if n == 37 {
            Some(FileAttributeId::OwnerGroup)
        } else if n == 53 {
            Some(FileAttributeId::TimeModify)
        } else {
            None
        }
    }

    /// An attribute is found again from its number, and no two attributes
    /// share one.
    pub proof fn lemma_number_round_trip(self, n: u32)
        ensures
            Self::of_number(self.number()) == Some(self),
            Self::of_number(n) matches Some(id) ==> id.number() == n,
    {
    }
}

/// What kind of thing a file is.
#[derive(Clone, Copy, Debug, PartialEq, Eq, Structural)]
pub enum FileType {
    Regular,
    Directory,
    Block,
    Character,
    Link,
    Socket,
    Fifo,
    AttrDir,
}

impl FileType {
    /// The number that stands for the kind on the wire.
    pub open spec fn wire(self) -> u32 {
        match self {
            FileType::Regular => 1,
            FileType::Directory => 2,
            FileType::Block => 3,
            FileType::Character => 4,
            FileType::Link => 5,
            FileType::Socket => 6,
            FileType::Fifo => 7,
            FileType::AttrDir => 8,
        }
    }

    /// The kind that `v` stands for, if any.
    pub open spec fn of_wire(v: u32) -> Option<FileType> {
        if v == 1 {
            Some(FileType::Regular)
        } else if v == 2 {
            Some(FileType::Directory)
        } else if v == 3 {
            Some(FileType::Block)
        } else if v == 4 {
            Some(FileType::Character)
        } else if v == 5 {
            Some(FileType::Link)
        } else if v == 6 {
            Some(FileType::Socket)
        } else if v == 7 {
            Some(FileType::Fifo)
        } else if v == 8 {
            Some(FileType::AttrDir)
        } else {
            None
        }
    }

    pub fn to_wire(self) -> (r: u32)
        ensures
            r == self.wire(),
    {
        match self {
            FileType::Regular => 1,
            FileType::Directory => 2,
            FileType::Block => 3,
            FileType::Character => 4,
            FileType::Link => 5,
            FileType::Socket => 6,
            FileType::Fifo => 7,
            FileType::AttrDir => 8,
        }
    }

    pub fn from_wire(v: u32) -> (r: Option<FileType>)
        ensures
            r == Self::of_wire(v),
    {
        if v == 1 {
            Some(FileType::Regular)
        } else if v == 2 {
            Some(FileType::Directory)
        } else if v == 3 {
            Some(FileType::Block)
        } else if v == 4 {
            Some(FileType::Character)
        } else if v == 5 {
            Some(FileType::Link)
        } else if v == 6 {
            Some(FileType::Socket)
        } else if v == 7 {
            Some(FileType::Fifo)
        } else if v == 8 {
            Some(FileType::AttrDir)
        } else {
            None
        }
    }
}

/// The file system that a file is on.
#[derive(Clone, Copy, Debug, PartialEq, Eq, Structural)]
pub struct FsId {
    pub major: u64,
    pub minor: u64,
}

/// A point in time: seconds since the epoch, and nanoseconds within the
/// second.
#[derive(Clone, Copy, Debug, PartialEq, Eq, Structural)]
pub struct Time {
    pub seconds: i64,
    pub nseconds: u32,
}

impl Time {
    /// Whether the nanoseconds stay within one second.
    pub open spec fn valid(self) -> bool {
        self.nseconds < 1_000_000_000
    }
}

/// The name that a server gives a file: bytes that only the server
/// understands, compared byte by byte.
#[derive(Clone, Debug, PartialEq, Eq)]
pub struct FileHandle(pub Vec<u8>);

impl View for FileHandle {
    type V = Seq<u8>;

    open spec fn view(&self) -> Seq<u8> {
        self.0@
    }
}

impl FileHandle {
    /// Whether two handles name the same file: whether they hold the same
    /// bytes.
    pub fn same(&self, other: &FileHandle) -> (r: bool)
        ensures
            r == (self@ == other@),
    {
        if self.0.len() != other.0.len() {
            return false;
        }
        let mut i: usize = 0;
        while i < self.0.len()
            invariant
                i <= self.0.len(),
                self.0.len() == other.0.len(),
                forall|j: int| 0 <= j < i ==> self.0@[j] == other.0@[j],
            decreases self.0.len() - i,
        {
            if self.0[i] != other.0[i] {
                return false;
            }
            i += 1;
        }
        assert(self@ =~= other@);
        true
    }

    /// A copy of the handle.
    pub fn duplicate(&self) -> (r: FileHandle)
        ensures
            r@ == self@,
    {
        FileHandle(slice_to_vec(self.0.as_slice()))
    }
}

/// One attribute with its value.
#[derive(Clone, Debug, PartialEq, Eq)]
pub enum FileAttribute {
    Type(FileType),
    Size(u64),
    FsId(FsId),
    LeaseTime(u32),
    FileHandle(FileHandle),
    FileId(u64),
    Mode(u32),
    NumLinks(u32),
    Owner(String),
    OwnerGroup(String),
    TimeModify(Time),
}

/// What a [`FileAttribute`] holds.
pub enum AttrModel {
    Type(FileType),
    Size(u64),
    FsId(FsId),
    LeaseTime(u32),
    FileHandle(Seq<u8>),
    FileId(u64),
    Mode(u32),
    NumLinks(u32),
    Owner(Seq<char>),
    OwnerGroup(Seq<char>),
    TimeModify(Time),
}

impl AttrModel {
    /// Which attribute this is a value of.
    pub open spec fn id(self) -> FileAttributeId {
        match self {
            AttrModel::Type(_) => FileAttributeId::Type,
            AttrModel::Size(_) => FileAttributeId::Size,
            AttrModel::FsId(_) => FileAttributeId::FsId,
            AttrModel::LeaseTime(_) => FileAttributeId::LeaseTime,
            AttrModel::FileHandle(_) => FileAttributeId::FileHandle,
            AttrModel::FileId(_) => FileAttributeId::FileId,
            AttrModel::Mode(_) => FileAttributeId::Mode,
            AttrModel::NumLinks(_) => FileAttributeId::NumLinks,
            AttrModel::Owner(_) => FileAttributeId::Owner,
            AttrModel::OwnerGroup(_) => FileAttributeId::OwnerGroup,
            AttrModel::TimeModify(_) => FileAttributeId::TimeModify,
        }
    }
}

impl View for FileAttribute {
    type V = AttrModel;

    open spec fn view(&self) -> AttrModel {
        match *self {
            FileAttribute::Type(v) => AttrModel::Type(v),
            FileAttribute::Size(v) => AttrModel::Size(v),
            FileAttribute::FsId(v) => AttrModel::FsId(v),
            FileAttribute::LeaseTime(v) => AttrModel::LeaseTime(v),
            FileAttribute::FileHandle(v) => AttrModel::FileHandle(v@),
            FileAttribute::FileId(v) => AttrModel::FileId(v),
            FileAttribute::Mode(v) => AttrModel::Mode(v),
            FileAttribute::NumLinks(v) => AttrModel::NumLinks(v),
            FileAttribute::Owner(v) => AttrModel::Owner(v@),
            FileAttribute::OwnerGroup(v) => AttrModel::OwnerGroup(v@),
            FileAttribute::TimeModify(v) => AttrModel::TimeModify(v),
        }
    }
}

impl FileAttribute {
    /// Which attribute this is a value of.
    pub fn id(&self) -> (r: FileAttributeId)
        ensures
            r == self@.id(),
    {
        match self {
            FileAttribute::Type(_) => FileAttributeId::Type,
            FileAttribute::Size(_) => FileAttributeId::Size,
            FileAttribute::FsId(_) => FileAttributeId::FsId,
            FileAttribute::LeaseTime(_) => FileAttributeId::LeaseTime,
            FileAttribute::FileHandle(_) => FileAttributeId::FileHandle,
            FileAttribute::FileId(_) => FileAttributeId::FileId,
            FileAttribute::Mode(_) => FileAttributeId::Mode,
            FileAttribute::NumLinks(_) => FileAttributeId::NumLinks,
            FileAttribute::Owner(_) => FileAttributeId::Owner,
            FileAttribute::OwnerGroup(_) => FileAttributeId::OwnerGroup,
            FileAttribute::TimeModify(_) => FileAttributeId::TimeModify,
        }
    }
}

/// A set of attributes with their values, at most one value for each
/// attribute.
#[derive(Clone, Debug, PartialEq, Eq)]
pub struct FileAttributes {
    pub file_type: Option<FileType>,
    pub size: Option<u64>,
    pub fs_id: Option<FsId>,
    pub lease_time: Option<u32>,
    pub file_handle: Option<FileHandle>,
    pub file_id: Option<u64>,
    pub mode: Option<u32>,
    pub num_links: Option<u32>,
    pub owner: Option<String>,
    pub owner_group: Option<String>,
    pub time_modify: Option<Time>,
}

impl FileAttributes {
    /// The value that the set has for the attribute `id`, if it has one.
    pub open spec fn slot(&self, id: FileAttributeId) -> Option<AttrModel> {
        match id {
            FileAttributeId::Type => match self.file_type {
                Some(v) => Some(AttrModel::Type(v)),
                None => None,
            },
            FileAttributeId::Size => match self.size {
                Some(v) => Some(AttrModel::Size(v)),
                None => None,
            },
            FileAttributeId::FsId => match self.fs_id {
                Some(v) => Some(AttrModel::FsId(v)),
                None => None,
            },
            FileAttributeId::LeaseTime => match self.lease_time {
                Some(v) => Some(AttrModel::LeaseTime(v)),
                None => None,
            },
            FileAttributeId::FileHandle => match self.file_handle {
                Some(v) => Some(AttrModel::FileHandle(v@)),
                None => None,
            },
            FileAttributeId::FileId => match self.file_id {
                Some(v) => Some(AttrModel::FileId(v)),
                None => None,
            },
            FileAttributeId::Mode => match self.mode {
                Some(v) => Some(AttrModel::Mode(v)),
                None => None,
            },
            FileAttributeId::NumLinks => match self.num_links {
                Some(v) => Some(AttrModel::NumLinks(v)),
                None => None,
            },
            FileAttributeId::Owner => match self.owner {
                Some(v) => Some(AttrModel::Owner(v@)),
                None => None,
            },
            FileAttributeId::OwnerGroup => match self.owner_group {
                Some(v) => Some(AttrModel::OwnerGroup(v@)),
                None => None,
            },
            FileAttributeId::TimeModify => match self.time_modify {
                Some(v) => Some(AttrModel::TimeModify(v)),
                None => None,
            },
        }
    }
}

impl View for FileAttributes {
    type V = Map<FileAttributeId, AttrModel>;

    /// The set as a map from attributes to their values.
    open spec fn view(&self) -> Map<FileAttributeId, AttrModel> {
        Map::new(|id: FileAttributeId| self.slot(id) is Some, |id: FileAttributeId| self.slot(id)->0)
    }
}

impl FileAttributes {
    /// The empty set.
    pub fn new() -> (r: FileAttributes)
        ensures
            r@ == Map::<FileAttributeId, AttrModel>::empty(),
    {
        let r = FileAttributes {
            file_type: None,
            size: None,
            fs_id: None,
            lease_time: None,
            file_handle: None,
            file_id: None,
            mode: None,
            num_links: None,
            owner: None,
            owner_group: None,
            time_modify: None,
        };
        assert(r@ =~= Map::<FileAttributeId, AttrModel>::empty());
        r
    }

    /// Every value in the set is a value of the attribute it stands under.
    pub proof fn lemma_values_match_ids(&self)
        ensures
            forall|id: FileAttributeId| #[trigger] self@.contains_key(id) ==> self@[id].id() == id,
    {
    }

    /// Puts `attr` into the set, in place of the value that the set had for
    /// the same attribute, if it had one.
    pub fn insert(&mut self, attr: FileAttribute)
        ensures
            final(self)@ == old(self)@.insert(attr@.id(), attr@),
    {
        match attr {
            FileAttribute::Type(v) => { self.file_type = Some(v); },
            FileAttribute::Size(v) => { self.size = Some(v); },
            FileAttribute::FsId(v) => { self.fs_id = Some(v); },
            FileAttribute::LeaseTime(v) => { self.lease_time = Some(v); },
            FileAttribute::FileHandle(v) => { self.file_handle = Some(v); },
            FileAttribute::FileId(v) => { self.file_id = Some(v); },
            FileAttribute::Mode(v) => { self.mode = Some(v); },
            FileAttribute::NumLinks(v) => { self.num_links = Some(v); },
            FileAttribute::Owner(v) => { self.owner = Some(v); },
            FileAttribute::OwnerGroup(v) => { self.owner_group = Some(v); },
            FileAttribute::TimeModify(v) => { self.time_modify = Some(v); },
        }
        assert(self@ =~= old(self)@.insert(attr@.id(), attr@));
    }

    /// The attributes that the set has values for.
    pub fn keys(&self) -> (r: AttributeSet)
        ensures
            r@ == self@.dom(),
    {
        let r = AttributeSet {
            file_type: self.file_type.is_some(),
            size: self.size.is_some(),
            fs_id: self.fs_id.is_some(),
            lease_time: self.lease_time.is_some(),
            file_handle: self.file_handle.is_some(),
            file_id: self.file_id.is_some(),
            mode: self.mode.is_some(),
            num_links: self.num_links.is_some(),
            owner: self.owner.is_some(),
            owner_group: self.owner_group.is_some(),
            time_modify: self.time_modify.is_some(),
        };
        assert(r@ =~= self@.dom());
        r
    }

    /// Whether the set has a value for the attribute `id`.
    pub fn contains(&self, id: FileAttributeId) -> (r: bool)
        ensures
            r == self@.contains_key(id),
    {
        match id {
            FileAttributeId::Type => self.file_type.is_some(),
            FileAttributeId::Size => self.size.is_some(),
            FileAttributeId::FsId => self.fs_id.is_some(),
            FileAttributeId::LeaseTime => self.lease_time.is_some(),
            FileAttributeId::FileHandle => self.file_handle.is_some(),
            FileAttributeId::FileId => self.file_id.is_some(),
            FileAttributeId::Mode => self.mode.is_some(),
            FileAttributeId::NumLinks => self.num_links.is_some(),
            FileAttributeId::Owner => self.owner.is_some(),
            FileAttributeId::OwnerGroup => self.owner_group.is_some(),
            FileAttributeId::TimeModify => self.time_modify.is_some(),
        }
    }
}

/// A set of attributes, without values: what a request asks for.
#[derive(Clone, Copy, Debug, PartialEq, Eq, Structural)]
pub struct AttributeSet {
    pub file_type: bool,
    pub size: bool,
    pub fs_id: bool,
    pub lease_time: bool,
    pub file_handle: bool,
    pub file_id: bool,
    pub mode: bool,
    pub num_links: bool,
    pub owner: bool,
    pub owner_group: bool,
    pub time_modify: bool,
}

impl AttributeSet {
    /// Whether the attribute `id` is in the set.
    pub open spec fn has(&self, id: FileAttributeId) -> bool {
        match id {
            FileAttributeId::Type => self.file_type,
            FileAttributeId::Size => self.size,
            FileAttributeId::FsId => self.fs_id,
            FileAttributeId::LeaseTime => self.lease_time,
            FileAttributeId::FileHandle => self.file_handle,
            FileAttributeId::FileId => self.file_id,
            FileAttributeId::Mode => self.mode,
            FileAttributeId::NumLinks => self.num_links,
            FileAttributeId::Owner => self.owner,
            FileAttributeId::OwnerGroup => self.owner_group,
            FileAttributeId::TimeModify => self.time_modify,
        }
    }
}

impl View for AttributeSet {
    type V = Set<FileAttributeId>;

    open spec fn view(&self) -> Set<FileAttributeId> {
        Set::new(|id: FileAttributeId| self.has(id))
    }
}

impl AttributeSet {
    /// The empty set.
    pub fn empty() -> (r: AttributeSet)
        ensures
            r@ == Set::<FileAttributeId>::empty(),
    {
        let r = AttributeSet {
            file_type: false,
            size: false,
            fs_id: false,
            lease_time: false,
            file_handle: false,
            file_id: false,
            mode: false,
            num_links: false,
            owner: false,
            owner_group: false,
            time_modify: false,
        };
        assert(r@ =~= Set::<FileAttributeId>::empty());
        r
    }

    /// Whether the attribute `id` is in the set.
    pub fn contains(&self, id: FileAttributeId) -> (r: bool)
        ensures
            r == self@.contains(id),
    {
        match id {
            FileAttributeId::Type => self.file_type,
            FileAttributeId::Size => self.size,
            FileAttributeId::FsId => self.fs_id,
            FileAttributeId::LeaseTime => self.lease_time,
            FileAttributeId::FileHandle => self.file_handle,
            FileAttributeId::FileId => self.file_id,
            FileAttributeId::Mode => self.mode,
            FileAttributeId::NumLinks => self.num_links,
            FileAttributeId::Owner => self.owner,
            FileAttributeId::OwnerGroup => self.owner_group,
            FileAttributeId::TimeModify => self.time_modify,
        }
    }

    /// The set with the attribute `id` as well.
    pub fn with(self, id: FileAttributeId) -> (r: AttributeSet)
        ensures
            r@ == self@.insert(id),
    {
        let mut r = self;
        match id {
            FileAttributeId::Type => { r.file_type = true; },
            FileAttributeId::Size => { r.size = true; },
            FileAttributeId::FsId => { r.fs_id = true; },
            FileAttributeId::LeaseTime => { r.lease_time = true; },
            FileAttributeId::FileHandle => { r.file_handle = true; },
            FileAttributeId::FileId => { r.file_id = true; },
            FileAttributeId::Mode => { r.mode = true; },
            FileAttributeId::NumLinks => { r.num_links = true; },
            FileAttributeId::Owner => { r.owner = true; },
            FileAttributeId::OwnerGroup => { r.owner_group = true; },
            FileAttributeId::TimeModify => { r.time_modify = true; },
        }
        assert(r@ =~= self@.insert(id));
        r
    }

    /// The attributes that are in this set or in `other`.
    pub fn union(self, other: AttributeSet) -> (r: AttributeSet)
        ensures
            r@ == self@.union(other@),
    {
        let r = AttributeSet {
            file_type: self.file_type || other.file_type,
            size: self.size || other.size,
            fs_id: self.fs_id || other.fs_id,
            lease_time: self.lease_time || other.lease_time,
            file_handle: self.file_handle || other.file_handle,
            file_id: self.file_id || other.file_id,
            mode: self.mode || other.mode,
            num_links: self.num_links || other.num_links,
            owner: self.owner || other.owner,
            owner_group: self.owner_group || other.owner_group,
            time_modify: self.time_modify || other.time_modify,
        };
        assert(r@ =~= self@.union(other@));
        r
    }

    /// The attributes of `ids`.
    pub fn of(ids: &[FileAttributeId]) -> (r: AttributeSet)
        ensures
            r@ == ids@.to_set(),
    {
        let mut r = AttributeSet::empty();
        let mut i: usize = 0;
        assert(ids@.take(0).to_set() =~= Set::<FileAttributeId>::empty());
        while i < ids.len()
            invariant
                i <= ids.len(),
                r@ == ids@.take(i as int).to_set(),
            decreases ids.len() - i,
        {
            r = r.with(ids[i]);
            i += 1;
            assert(ids@.take(i as int) =~= ids@.take(i - 1).push(ids@[i - 1]));
            proof {
                ids@.take(i - 1).lemma_push_to_set_commute(ids@[i - 1]);
            }
        }
        assert(ids@.take(i as int) =~= ids@);
        r
    }
}

/// One entry of a directory: where it stands in the listing, its name, and
/// the attributes that were asked for.
#[derive(Clone, Debug, PartialEq, Eq)]
pub struct DirectoryEntry {
    /// The server's mark for the place after this entry.
    pub cookie: u64,
    pub name: String,
    pub attrs: FileAttributes,
}

/// What a [`DirectoryEntry`] holds.
pub struct EntryModel {
    pub cookie: u64,
    pub name: Seq<char>,
    pub attrs: Map<FileAttributeId, AttrModel>,
}

impl View for DirectoryEntry {
    type V = EntryModel;

    open spec fn view(&self) -> EntryModel {
        EntryModel { cookie: self.cookie, name: self.name@, attrs: self.attrs@ }
    }
}

} // verus!
