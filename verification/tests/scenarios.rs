//! The client against a small NFS server that lives in memory, reads the
//! requests with the `nfs4` crate and writes its replies with it.

use nfs4::StatusResult::{Err as Fails, Ok as Done};
use std::collections::{BTreeMap, BTreeSet};
use sun_rpc_client::attrs::{AttributeSet, FileAttribute, FileAttributeId, FileAttributes, FileHandle};
use sun_rpc_client::client::{Error, Transport};
use sun_rpc_client::message::{Message, MessageBody};
use sun_rpc_client::nfs::{Client, ClientError, Sink, Source};
use sun_rpc_client::status::NfsError;
use sun_rpc_client::transfer::TransferFault;

struct Server {
    dirs: BTreeSet<String>,
    files: BTreeMap<String, Vec<u8>>,
    inbox: Vec<u8>,
    outbox: Vec<u8>,
    page: usize,
    max_read: usize,
    max_write: usize,
    fragment: usize,
    forget_cookies: usize,
    compounds: usize,
    reads: usize,
    writes: usize,
    readdirs: usize,
    pings: usize,
}

fn pad4(n: usize) -> usize {
    (n + 3) / 4 * 4
}

fn word(bytes: &[u8], at: usize) -> u32 {
    u32::from_be_bytes([bytes[at], bytes[at + 1], bytes[at + 2], bytes[at + 3]])
}

fn accepted<T>(xid: u32, results: T) -> sun_rpc::Message<T> {
    sun_rpc::Message {
        xid: sun_rpc::Xid(xid),
        body: sun_rpc::MessageBody::Reply(sun_rpc::ReplyBody::Accepted(sun_rpc::AcceptedReply {
            verifier: sun_rpc::OpaqueAuth::none(),
            body: sun_rpc::AcceptedReplyBody::Success(results),
        })),
    }
}

fn join(dir: &str, name: &str) -> String {
    if dir == "/" {
        format!("/{name}")
    } else {
        format!("{dir}/{name}")
    }
}

impl Server {
    fn new() -> Server {
        Server {
            dirs: ["/", "/files"].into_iter().map(String::from).collect(),
            files: BTreeMap::new(),
            inbox: vec![],
            outbox: vec![],
            page: 1000,
            max_read: 1 << 20,
            max_write: 1 << 20,
            fragment: usize::MAX,
            forget_cookies: 0,
            compounds: 0,
            reads: 0,
            writes: 0,
            readdirs: 0,
            pings: 0,
        }
    }

    fn children(&self, dir: &str) -> Vec<String> {
        let prefix = if dir == "/" { String::from("/") } else { format!("{dir}/") };
        let mut names: Vec<String> = self
            .files
            .keys()
            .chain(self.dirs.iter())
            .filter(|p| p.starts_with(&prefix) && p.len() > prefix.len())
            .map(|p| p[prefix.len()..].to_string())
            .filter(|n| !n.contains('/'))
            .collect();
        names.sort();
        names
    }

    fn attrs_of(&self, path: &str, request: nfs4::EnumSet<nfs4::FileAttributeId>) -> nfs4::FileAttributes {
        let is_dir = self.dirs.contains(path);
        let size = self.files.get(path).map(|f| f.len() as u64).unwrap_or(4096);
        request
            .into_iter()
            .filter_map(|id| match id {
                nfs4::FileAttributeId::Type => Some(nfs4::FileAttribute::Type(if is_dir {
                    nfs4::FileType::Directory
                } else {
                    nfs4::FileType::Regular
                })),
                nfs4::FileAttributeId::Size => Some(nfs4::FileAttribute::Size(size)),
                nfs4::FileAttributeId::FileHandle => {
                    Some(nfs4::FileAttribute::FileHandle(nfs4::FileHandle(path.as_bytes().to_vec())))
                }
                nfs4::FileAttributeId::Mode => {
                    Some(nfs4::FileAttribute::Mode(nfs4::Mode(if is_dir { 0o755 } else { 0o644 })))
                }
                nfs4::FileAttributeId::NumLinks => Some(nfs4::FileAttribute::NumLinks(1)),
                nfs4::FileAttributeId::Owner => Some(nfs4::FileAttribute::Owner(String::from("1337"))),
                nfs4::FileAttributeId::TimeModify => Some(nfs4::FileAttribute::TimeModify(nfs4::Time {
                    seconds: 1_700_000_000,
                    nseconds: 5,
                })),
                _ => None,
            })
            .collect()
    }

    /// Turns the unchecked creation that the client asks for into the
    /// guarded one that this version of `nfs4` can read.
    fn guard(args: &mut [u8]) {
        let mut at = 4 + pad4(word(args, 0) as usize) + 8;
        if args.len() > at + 8 && word(args, at) == 22 {
            at += 8 + pad4(word(args, at + 4) as usize);
            if args.len() > at + 32 && word(args, at) == 18 {
                at += 4 + 12 + 8;
                at += 4 + pad4(word(args, at) as usize);
                assert_eq!(word(args, at), 1);
                assert_eq!(word(args, at + 4), 0);
                args[at + 7] = 1;
            }
        }
    }

    fn run(&mut self, op: nfs4::ArgOp, cfh: &mut Option<String>) -> nfs4::ResOp {
        let change = || serde_xdr::from_bytes::<_, nfs4::ChangeInfo>(&[0u8; 20][..]).unwrap();
        let state = nfs4::StateId { sequence_id: 1, other: [7; 12] };
        let here = cfh.clone();
        match op {
            nfs4::ArgOp::PutRootFh => {
                *cfh = Some(String::from("/"));
                nfs4::ResOp::PutRootFh(Done(()))
            }
            nfs4::ArgOp::PutFh(args) => {
                let path = String::from_utf8(args.object.0).unwrap();
                if self.dirs.contains(&path) || self.files.contains_key(&path) {
                    *cfh = Some(path);
                    nfs4::ResOp::PutFh(Done(()))
                } else {
                    nfs4::ResOp::PutFh(Fails(nfs4::StatusError::Stale))
                }
            }
            nfs4::ArgOp::LookUp(args) => {
                let dir = here.unwrap();
                let child = join(&dir, &args.object_name);
                if !self.dirs.contains(&dir) {
                    nfs4::ResOp::LookUp(Fails(nfs4::StatusError::NotDir))
                } else if self.dirs.contains(&child) || self.files.contains_key(&child) {
                    *cfh = Some(child);
                    nfs4::ResOp::LookUp(Done(()))
                } else {
                    nfs4::ResOp::LookUp(Fails(nfs4::StatusError::NoEnt))
                }
            }
            nfs4::ArgOp::GetFh => nfs4::ResOp::GetFh(Done(nfs4::GetFhRes {
                object: nfs4::FileHandle(here.unwrap().into_bytes()),
            })),
            nfs4::ArgOp::GetAttr(args) => nfs4::ResOp::GetAttr(Done(nfs4::GetAttrRes {
                object_attributes: self.attrs_of(&here.unwrap(), args.attr_request),
            })),
            nfs4::ArgOp::SetAttr(args) => {
                assert_eq!(args.state_id, nfs4::StateId::anonymous());
                let path = here.unwrap();
                let size = args.object_attributes.get_as::<u64>(nfs4::FileAttributeId::Size).copied();
                match (self.files.get_mut(&path), size) {
                    (Some(file), Some(size)) => {
                        file.resize(size as usize, 0);
                        nfs4::ResOp::SetAttr(nfs4::SetAttrStatusResult {
                            status: Done(()),
                            res: nfs4::SetAttrRes {
                                attr_set: [nfs4::FileAttributeId::Size].into_iter().collect(),
                            },
                        })
                    }
                    _ => nfs4::ResOp::SetAttr(nfs4::SetAttrStatusResult {
                        status: Fails(nfs4::StatusError::Inval),
                        res: nfs4::SetAttrRes { attr_set: [].into_iter().collect() },
                    }),
                }
            }
            nfs4::ArgOp::ReadDir(args) => {
                self.readdirs += 1;
                assert_eq!((args.directory_count, args.max_count), (8192, 32768));
                let dir = here.unwrap();
                if !self.dirs.contains(&dir) {
                    return nfs4::ResOp::ReadDir(Fails(nfs4::StatusError::NotDir));
                }
                if args.cookie.0 != 0 && self.forget_cookies > 0 {
                    self.forget_cookies -= 1;
                    return nfs4::ResOp::ReadDir(Fails(nfs4::StatusError::BadCookie));
                }
                if args.cookie.0 != 0 {
                    assert_eq!(args.cookie_verifier.0, 0xfeed);
                } else {
                    assert_eq!(args.cookie_verifier.0, 0);
                }
                let names = self.children(&dir);
                let from = args.cookie.0 as usize;
                let to = (from + self.page).min(names.len());
                let entries = (from..to)
                    .map(|i| nfs4::DirectoryEntry {
                        cookie: nfs4::Cookie(i as u64 + 1),
                        name: names[i].clone(),
                        attrs: self.attrs_of(&join(&dir, &names[i]), args.attr_request.clone()),
                    })
                    .collect();
                nfs4::ResOp::ReadDir(Done(nfs4::ReadDirRes {
                    cookie_verifier: nfs4::Verifier(0xfeed),
                    reply: nfs4::DirectoryList { entries, eof: to == names.len() },
                }))
            }
            nfs4::ArgOp::Open(args) => {
                assert_eq!(args.share_access, nfs4::ShareAccess::WRITE);
                assert_eq!(args.share_deny, nfs4::ShareDeny::NONE);
                let name = match args.claim {
                    nfs4::OpenClaim::Null { file } => file,
                    other => panic!("{:?}", other),
                };
                match args.open_how {
                    nfs4::OpenFlag::OpenCreate(nfs4::CreateHow::Guarded { create_attrs }) => {
                        let mode = create_attrs.get_as::<nfs4::Mode>(nfs4::FileAttributeId::Mode);
                        assert_eq!(mode, Some(&nfs4::Mode(0o644)));
                    }
                    other => panic!("{:?}", other),
                }
                let path = join(&here.unwrap(), &name);
                self.files.entry(path.clone()).or_default();
                *cfh = Some(path);
                nfs4::ResOp::Open(Done(nfs4::OpenRes {
                    state_id: state,
                    change_info: change(),
                    result_flags: nfs4::OpenResult::empty(),
                    attribute_set: [nfs4::FileAttributeId::Mode].into_iter().collect(),
                    delegation: nfs4::OpenDelegation::None,
                }))
            }
            nfs4::ArgOp::Close(args) => {
                assert_eq!(args.open_stateid, nfs4::StateId { sequence_id: 1, other: [0; 12] });
                nfs4::ResOp::Close(Done(nfs4::CloseRes { open_state_id: state }))
            }
            nfs4::ArgOp::Remove(args) => {
                let path = join(&here.unwrap(), &args.target);
                if self.files.remove(&path).is_some() {
                    nfs4::ResOp::Remove(Done(nfs4::RemoveRes { change_info: change() }))
                } else {
                    nfs4::ResOp::Remove(Fails(nfs4::StatusError::NoEnt))
                }
            }
            nfs4::ArgOp::Read(args) => {
                self.reads += 1;
                assert_eq!(args.state_id, nfs4::StateId::anonymous());
                let file = &self.files[&here.unwrap()];
                let from = (args.offset as usize).min(file.len());
                let to = (from + (args.count as usize).min(self.max_read)).min(file.len());
                nfs4::ResOp::Read(Done(nfs4::ReadRes { eof: to == file.len(), data: file[from..to].to_vec() }))
            }
            nfs4::ArgOp::Write(args) => {
                self.writes += 1;
                assert_eq!(args.stable, nfs4::StableHow::FileSync);
                let count = args.data.len().min(self.max_write);
                let file = self.files.get_mut(&here.unwrap()).unwrap();
                let from = args.offset as usize;
                if file.len() < from + count {
                    file.resize(from + count, 0);
                }
                file[from..from + count].copy_from_slice(&args.data[..count]);
                nfs4::ResOp::Write(Done(nfs4::WriteRes {
                    count: count as u32,
                    committed: nfs4::StableHow::FileSync,
                    write_veritifer: nfs4::Verifier(1),
                }))
            }
            nfs4::ArgOp::Commit(_) => {
                nfs4::ResOp::Commit(Done(nfs4::CommitRes { write_verifier: nfs4::Verifier(1) }))
            }
            other => panic!("{:?}", other),
        }
    }

    fn status_of(result: &nfs4::ResOp) -> nfs4::StatusResult<()> {
        let bytes = serde_xdr::to_bytes(result).unwrap();
        match word(&bytes, 4) {
            0 => nfs4::StatusResult::Ok(()),
            code => nfs4::StatusResult::Err(serde_xdr::from_bytes(&code.to_be_bytes()[..]).unwrap()),
        }
    }

    fn serve(&mut self, record: &[u8]) -> Vec<u8> {
        let call = match Message::decode(record).unwrap() {
            Message { xid, body: MessageBody::Call(call) } => (xid, call),
            other => panic!("{:?}", other),
        };
        let (xid, call) = call;
        assert_eq!((call.rpc_version, call.program, call.version), (2, 100003, 4));
        if call.procedure == 0 {
            self.pings += 1;
            assert!(call.call_args.is_empty());
            return serde_xdr::to_bytes(&accepted(xid, ())).unwrap();
        }
        assert_eq!(call.procedure, 1);
        self.compounds += 1;
        let mut args = call.call_args;
        Server::guard(&mut args);
        let request: nfs4::CompoundArgs = serde_xdr::from_bytes(&args[..]).unwrap();
        assert_eq!(request.minor_version, 0);
        let mut cfh = None;
        let mut results = vec![];
        let mut status = nfs4::StatusResult::Ok(());
        for op in request.arg_array {
            let result = self.run(op, &mut cfh);
            status = Server::status_of(&result);
            results.push(result);
            if status != nfs4::StatusResult::Ok(()) {
                break;
            }
        }
        let reply = nfs4::CompoundRes { status, tag: request.tag, res_array: results };
        serde_xdr::to_bytes(&accepted(xid, reply)).unwrap()
    }
}

impl Transport for Server {
    fn write_all(&mut self, bytes: &[u8]) -> Result<(), String> {
        self.inbox.extend_from_slice(bytes);
        while self.inbox.len() >= 4 {
            let mark = word(&self.inbox, 0);
            assert_eq!(mark >> 31, 1);
            let len = (mark & 0x7fff_ffff) as usize;
            if self.inbox.len() < 4 + len {
                break;
            }
            let record: Vec<u8> = self.inbox.drain(..4 + len).skip(4).collect();
            let reply = self.serve(&record);
            let mut pieces = reply.chunks(self.fragment.max(1)).peekable();
            if reply.is_empty() {
                self.outbox.extend_from_slice(&0x8000_0000u32.to_be_bytes());
            }
            while let Some(piece) = pieces.next() {
                let last = if pieces.peek().is_none() { 0x8000_0000 } else { 0 };
                self.outbox.extend_from_slice(&(piece.len() as u32 | last).to_be_bytes());
                self.outbox.extend_from_slice(piece);
            }
        }
        Ok(())
    }

    fn read_exact(&mut self, len: usize) -> Result<Vec<u8>, String> {
        if self.outbox.len() < len {
            return Err(String::from("failed to fill whole buffer"));
        }
        Ok(self.outbox.drain(..len).collect())
    }
}

struct Pieces {
    data: Vec<u8>,
    at: usize,
    piece: usize,
}

impl Source for Pieces {
    fn read(&mut self, max: usize) -> Result<Vec<u8>, String> {
        let to = (self.at + self.piece.min(max)).min(self.data.len());
        let out = self.data[self.at..to].to_vec();
        self.at = to;
        Ok(out)
    }
}

struct Buffer(Vec<u8>);

impl Sink for Buffer {
    fn write_all(&mut self, bytes: &[u8]) -> Result<(), String> {
        self.0.extend_from_slice(bytes);
        Ok(())
    }
}

struct Full;

impl Sink for Full {
    fn write_all(&mut self, _: &[u8]) -> Result<(), String> {
        Err(String::from("no space left on device"))
    }
}

fn client(server: Server) -> Client<Server> {
    Client::new(server, 42, b"owner".to_vec())
}

fn create(client: &mut Client<Server>, path: &str) -> FileHandle {
    let (dir, name) = path.rsplit_once('/').unwrap();
    let parent = client.look_up(if dir.is_empty() { "/" } else { dir }).unwrap();
    client.create_file(parent, name).unwrap()
}

fn size_of(client: &mut Client<Server>, path: &str) -> u64 {
    let handle = client.look_up(path).unwrap();
    client.get_attr(handle, AttributeSet::empty()).unwrap().size.unwrap()
}

fn contents() -> Vec<u8> {
    (0..100_000u32).map(|v| (v % 255) as u8).collect()
}

#[test]
fn ping_the_server() {
    let mut client = client(Server::new());
    client.ping().unwrap();
    assert_eq!(client.transport().pings, 1);
    assert_eq!(client.transport().compounds, 0);
    assert!(client.transport().outbox.is_empty());
}

fn create_file_scenario(client: &mut Client<Server>) {
    let created = create(client, "/files/a_file");
    let found = client.look_up("/files/a_file").unwrap();
    assert!(!found.0.is_empty());
    assert!(found.same(&created));
}

#[test]
fn create_file_test() {
    let mut client = client(Server::new());
    create_file_scenario(&mut client);
    let created = client.look_up("/files/a_file").unwrap();
    assert_eq!(client.transport().compounds, 4);
    // creating it again opens the file that is there
    let parent = client.look_up("/files").unwrap();
    let again = client.create_file(parent, "a_file").unwrap();
    assert!(again.same(&created));
}

fn read_write_scenario(client: &mut Client<Server>) {
    let handle = create(client, "/files/a_file");
    let test_contents = contents();
    let mut source = Pieces { data: test_contents.clone(), at: 0, piece: usize::MAX };
    assert_eq!(client.write_all(&handle, &mut source), Ok(100_000));
    let mut read_data = Buffer(vec![]);
    assert_eq!(client.read_all(&handle, &mut read_data), Ok(100_000));
    assert_eq!(read_data.0, test_contents);
    assert_eq!(size_of(client, "/files/a_file"), read_data.0.len() as u64);
}

#[test]
fn read_write_test() {
    let mut client = client(Server::new());
    read_write_scenario(&mut client);
    assert_eq!(client.transport().files["/files/a_file"], contents());
    assert_eq!((client.transport().writes, client.transport().reads), (1, 1));
}

#[test]
fn writes_across_chunk_boundaries_leave_the_same_file() {
    for (piece, max_write, max_read) in [(7777, 1 << 20, 1 << 20), (1 << 20, 4096, 4096), (4096, 1000, 65_536), (99_999, 99_998, 3333), (1, 1, 100_000)] {
        let mut server = Server::new();
        server.max_write = max_write;
        server.max_read = max_read;
        let mut client = client(server);
        let handle = create(&mut client, "/files/a_file");
        let data: Vec<u8> = if piece == 1 { contents()[..300].to_vec() } else { contents() };
        let mut source = Pieces { data: data.clone(), at: 0, piece };
        assert_eq!(client.write_all(&handle, &mut source), Ok(data.len() as u64));
        assert_eq!(client.transport().files["/files/a_file"], data);
        let mut back = Buffer(vec![]);
        assert_eq!(client.read_all(&handle, &mut back), Ok(data.len() as u64));
        assert_eq!(back.0, data);
        assert_eq!(client.transport().reads, (data.len() + max_read - 1) / max_read);
        assert!(client.transport().writes >= (data.len() + max_write - 1) / max_write);
    }
}

#[test]
fn empty_file_is_read_with_one_request() {
    let mut client = client(Server::new());
    let handle = create(&mut client, "/files/empty");
    let mut back = Buffer(vec![1]);
    assert_eq!(client.read_all(&handle, &mut back), Ok(0));
    assert_eq!(back.0, vec![1]);
    assert_eq!(client.transport().reads, 1);
    let mut nothing = Pieces { data: vec![], at: 0, piece: 10 };
    assert_eq!(client.write_all(&handle, &mut nothing), Ok(0));
    assert_eq!(client.transport().writes, 0);
    assert_eq!(size_of(&mut client, "/files/empty"), 0);
}

fn set_attr_scenario(client: &mut Client<Server>) {
    let handle = create(client, "/files/a_file");
    let mut attrs = FileAttributes::new();
    attrs.insert(FileAttribute::Size(100));
    client.set_attr(handle, attrs).unwrap();
    let found = client.look_up("/files/a_file").unwrap();
    let reply = client.get_attr(found, AttributeSet::empty()).unwrap();
    assert_eq!(reply.size, Some(100));
}

#[test]
fn set_attr_test() {
    let mut client = client(Server::new());
    set_attr_scenario(&mut client);
    let handle = client.look_up("/files/a_file").unwrap();
    let reply = client.get_attr(handle.duplicate(), AttributeSet::empty()).unwrap();
    assert_eq!(reply.mode, Some(0o644));
    assert_eq!(reply.owner, Some(String::from("1337")));
    assert_eq!(reply.file_handle, Some(handle));
    assert_eq!(reply.fs_id, None);
    assert_eq!(client.transport().files["/files/a_file"], vec![0; 100]);
    // the server refuses to set the size of a directory
    let dir = client.look_up("/files").unwrap();
    let mut attrs = FileAttributes::new();
    attrs.insert(FileAttribute::Size(1));
    assert_eq!(client.set_attr(dir, attrs), Err(ClientError::Nfs(NfsError::InvalidArgument)));
}

fn read_dir_scenario(client: &mut Client<Server>) {
    let parent = client.look_up("/files").unwrap();

    let mut expected = BTreeSet::new();

    for i in 0..100 {
        let name = format!("a_file{i}");
        client.create_file(parent.duplicate(), &name).unwrap();
        expected.insert(name);
    }

    let request = AttributeSet::of(&[FileAttributeId::Mode, FileAttributeId::Size]);
    let entries = client.read_dir(&parent, request).unwrap();
    let actual: BTreeSet<String> = entries.iter().map(|e| e.name.clone()).collect();
    assert_eq!(entries.len(), 100);
    assert_eq!(actual, expected);
    assert!(entries.iter().all(|e| e.attrs.mode == Some(0o644) && e.attrs.size == Some(0)));
    assert!(entries.iter().all(|e| e.attrs.keys() == request));
}

#[test]
fn read_dir_test() {
    for page in [1000usize, 100, 33, 7, 1] {
        let mut server = Server::new();
        server.page = page;
        let mut client = client(server);
        read_dir_scenario(&mut client);
        assert_eq!(client.transport().readdirs, (100 + page - 1) / page);
    }
}

#[test]
fn an_empty_directory_is_listed() {
    let mut client = client(Server::new());
    let parent = client.look_up("/files").unwrap();
    assert_eq!(client.read_dir(&parent, AttributeSet::empty()), Ok(vec![]));
    let root = client.look_up("/").unwrap();
    let entries = client.read_dir(&root, AttributeSet::empty()).unwrap();
    assert_eq!(entries.len(), 1);
    assert_eq!(entries[0].name, "files");
    assert_eq!(entries[0].attrs, FileAttributes::new());
}

#[test]
fn a_forgotten_cookie_starts_the_listing_again_once() {
    let mut server = Server::new();
    server.page = 4;
    server.forget_cookies = 1;
    let mut client1 = client(server);
    let parent = client1.look_up("/files").unwrap();
    for i in 0..10 {
        client1.create_file(parent.duplicate(), &format!("f{i}")).unwrap();
    }
    let entries = client1.read_dir(&parent, AttributeSet::empty()).unwrap();
    let names: Vec<&str> = entries.iter().map(|e| e.name.as_str()).collect();
    assert_eq!(names, vec!["f0", "f1", "f2", "f3", "f4", "f5", "f6", "f7", "f8", "f9"]);
    assert_eq!(client1.transport().readdirs, 5);
    let mut server = client1.into_transport();
    server.forget_cookies = 2;
    server.readdirs = 0;
    let mut client2 = client(server);
    assert_eq!(
        client2.read_dir(&parent, AttributeSet::empty()),
        Err(ClientError::Nfs(NfsError::Other(10003)))
    );
    assert_eq!(client2.transport().readdirs, 4);
}

fn remove_scenario(client: &mut Client<Server>) {
    create(client, "/files/a_file");
    let parent = client.look_up("/files").unwrap();

    client.remove(parent, "a_file").unwrap();
    client.look_up("/files/a_file").unwrap_err();
}

#[test]
fn remove_test() {
    let mut client = client(Server::new());
    remove_scenario(&mut client);
    let parent = client.look_up("/files").unwrap();
    assert_eq!(client.look_up("/files/a_file"), Err(ClientError::Nfs(NfsError::NotFound)));
    assert_eq!(client.remove(parent, "a_file"), Err(ClientError::Nfs(NfsError::NotFound)));
}

/// All scenarios one after the other against one server, whose files are
/// removed after each.
#[test]
fn linux_server() {
    let tests: [fn(&mut Client<Server>); 5] = [
        create_file_scenario,
        read_write_scenario,
        set_attr_scenario,
        read_dir_scenario,
        remove_scenario,
    ];
    let mut server = Server::new();
    server.page = 16;
    server.max_read = 32_768;
    server.max_write = 32_768;
    for test in tests {
        let mut fixture = client(server);
        fixture.ping().unwrap();
        test(&mut fixture);
        server = fixture.into_transport();
        server.files.clear();
        assert!(server.outbox.is_empty());
    }
    assert_eq!(server.pings, 5);
}

#[test]
fn look_up_faults() {
    let mut client = client(Server::new());
    assert_eq!(client.look_up("/nowhere/a_file"), Err(ClientError::Nfs(NfsError::NotFound)));
    create(&mut client, "/files/a_file");
    assert_eq!(client.look_up("/files/a_file/below"), Err(ClientError::Nfs(NfsError::NotDirectory)));
    assert_eq!(client.look_up("/").unwrap(), FileHandle(b"/".to_vec()));
    assert_eq!(client.look_up("files").unwrap(), FileHandle(b"/files".to_vec()));
    let stale = FileHandle(b"/files/gone".to_vec());
    assert_eq!(
        client.get_attr(stale, AttributeSet::empty()),
        Err(ClientError::Nfs(NfsError::StaleHandle))
    );
}

#[test]
fn replies_in_fragments_are_read() {
    let mut server = Server::new();
    server.fragment = 5;
    let mut client = client(server);
    let handle = create(&mut client, "/files/a_file");
    let mut source = Pieces { data: contents(), at: 0, piece: 50_000 };
    assert_eq!(client.write_all(&handle, &mut source), Ok(100_000));
    let mut back = Buffer(vec![]);
    assert_eq!(client.read_all(&handle, &mut back), Ok(100_000));
    assert_eq!(back.0, contents());
}

#[test]
fn a_full_sink_ends_the_reading() {
    let mut client = client(Server::new());
    let handle = create(&mut client, "/files/a_file");
    let mut source = Pieces { data: vec![1, 2, 3], at: 0, piece: 3 };
    client.write_all(&handle, &mut source).unwrap();
    assert_eq!(
        client.read_all(&handle, &mut Full),
        Err(ClientError::Sink(String::from("no space left on device")))
    );
    assert_eq!(client.transport().reads, 1);
}

#[test]
fn a_server_that_takes_nothing_ends_the_writing() {
    let mut server = Server::new();
    server.max_write = 0;
    let mut client = client(server);
    let handle = create(&mut client, "/files/a_file");
    let mut source = Pieces { data: vec![1, 2, 3], at: 0, piece: 3 };
    assert_eq!(
        client.write_all(&handle, &mut source),
        Err(ClientError::Transfer(TransferFault::NoProgress))
    );
}

#[test]
fn a_silent_server_is_an_error_of_the_transport() {
    let mut server = Server::new();
    server.fragment = usize::MAX;
    let mut client = client(server);
    client.ping().unwrap();
    let mut server = client.into_transport();
    // the reply is lost on its way
    struct Lossy(Server);
    impl Transport for Lossy {
        fn write_all(&mut self, bytes: &[u8]) -> Result<(), String> {
            self.0.write_all(bytes)?;
            self.0.outbox.clear();
            Ok(())
        }
        fn read_exact(&mut self, len: usize) -> Result<Vec<u8>, String> {
            self.0.read_exact(len)
        }
    }
    server.pings = 0;
    let mut client = Client::new(Lossy(server), 1, vec![]);
    assert_eq!(
        client.look_up("/files"),
        Err(ClientError::Rpc(Error::Io(String::from("failed to fill whole buffer"))))
    );
}

struct Broken;

impl Source for Broken {
    fn read(&mut self, _: usize) -> Result<Vec<u8>, String> {
        Err(String::from("input/output error"))
    }
}

#[test]
fn a_broken_source_ends_the_writing() {
    let mut client = client(Server::new());
    let handle = create(&mut client, "/files/a_file");
    assert_eq!(
        client.write_all(&handle, &mut Broken),
        Err(ClientError::Source(String::from("input/output error")))
    );
    assert_eq!(client.transport().writes, 0);
}

#[test]
fn requests_that_cannot_be_sent_reach_no_server() {
    let mut client = client(Server::new());
    let long = FileHandle(vec![b'a'; 129]);
    assert_eq!(
        client.get_attr(long.duplicate(), AttributeSet::empty()),
        Err(ClientError::Request(sun_rpc_client::request::RequestFault::Operation(0)))
    );
    assert_eq!(
        client.remove(long, "a_file"),
        Err(ClientError::Request(sun_rpc_client::request::RequestFault::Operation(0)))
    );
    assert_eq!(client.transport().compounds, 0);
    assert!(client.transport().inbox.is_empty());
}
