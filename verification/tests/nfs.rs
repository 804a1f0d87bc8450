use sun_rpc_client::attrs::{
    AttributeSet, DirectoryEntry, FileAttribute, FileAttributeId, FileAttributes, FileHandle,
};
use sun_rpc_client::auth::OpaqueAuth;
use sun_rpc_client::client::{Error, Transport, Unexpected};
use sun_rpc_client::compound::{
    get_attr_compound, look_up_compound, path_components, read_dir_compound, OpCode, ReplyFault,
};
use sun_rpc_client::message::{AcceptedReply, AcceptedReplyBody, Message, MessageBody, ReplyBody};
use sun_rpc_client::compound::Operation;
use sun_rpc_client::nfs::{
    attributes_of, created_handle, entries_only_asked, handle_of, judge_response, last_cookie,
    only_asked, refused, take_last, Client, ClientError, Sink, Source,
};
use sun_rpc_client::request::decode_request;
use sun_rpc_client::record::frame;
use sun_rpc_client::response::{
    encode_response, OperationResult, Response, ResponseFault, ResultValue,
};
use sun_rpc_client::status::NfsError;
use sun_rpc_client::transfer::TransferFault;
use sun_rpc_client::wire::{hand_over, take_from, Tally};
use sun_rpc_client::xdr::XdrError;

fn ok(code: OpCode, value: ResultValue) -> OperationResult {
    OperationResult { code, status: 0, value: Some(value) }
}

fn reply(status: u32, results: Vec<OperationResult>) -> Response {
    Response { status, tag: vec![], results }
}

fn handle() -> FileHandle {
    FileHandle(vec![9, 8, 7])
}

fn found() -> Response {
    reply(
        0,
        vec![
            ok(OpCode::PutRootFh, ResultValue::Done),
            ok(OpCode::LookUp, ResultValue::Done),
            ok(OpCode::GetFh, ResultValue::Handle(handle())),
        ],
    )
}

/// A server that answers every call with the next of the replies that it
/// was given.
struct Canned {
    replies: Vec<Vec<u8>>,
    outbox: Vec<u8>,
    other_xid: bool,
    calls: Vec<Vec<u8>>,
}

impl Canned {
    fn new(replies: Vec<Response>) -> Canned {
        let replies = replies.iter().rev().map(|r| encode_response(r).unwrap()).collect();
        Canned { replies, outbox: vec![], other_xid: false, calls: vec![] }
    }
}

impl Transport for Canned {
    fn write_all(&mut self, bytes: &[u8]) -> Result<(), String> {
        let xid = u32::from_be_bytes([bytes[4], bytes[5], bytes[6], bytes[7]]);
        self.calls.push(bytes.to_vec());
        let results = self.replies.pop().ok_or(String::from("connection reset"))?;
        let message = Message {
            xid: if self.other_xid { xid + 1 } else { xid },
            body: MessageBody::Reply(ReplyBody::Accepted(AcceptedReply {
                verifier: OpaqueAuth::none(),
                body: AcceptedReplyBody::Success(results),
            })),
        };
        self.outbox.extend_from_slice(&frame(&message.encode().unwrap()).unwrap());
        Ok(())
    }

    fn read_exact(&mut self, len: usize) -> Result<Vec<u8>, String> {
        if self.outbox.len() < len {
            return Err(String::from("failed to fill whole buffer"));
        }
        Ok(self.outbox.drain(..len).collect())
    }
}

fn client(replies: Vec<Response>) -> Client<Canned> {
    Client::new(Canned::new(replies), 1, vec![])
}

#[test]
fn a_reply_is_judged_against_its_request() {
    let ops = look_up_compound(&path_components("/files"));
    let bytes = encode_response(&found()).unwrap();
    assert_eq!(judge_response(&ops, &bytes), Ok(found()));
    // the reply to a longer request
    let longer = look_up_compound(&path_components("/files/a_file"));
    assert_eq!(judge_response(&longer, &bytes), Err(ClientError::Reply(ReplyFault::Mismatch)));
    // a reply that stops early and claims success
    let mut early = found();
    early.results.pop();
    let bytes = encode_response(&early).unwrap();
    assert_eq!(judge_response(&ops, &bytes), Err(ClientError::Reply(ReplyFault::Incomplete)));
    // a reply that stops at the operation that failed
    early.status = 2;
    early.results[1] = OperationResult { code: OpCode::LookUp, status: 2, value: None };
    let bytes = encode_response(&early).unwrap();
    assert_eq!(judge_response(&ops, &bytes), Err(ClientError::Nfs(NfsError::NotFound)));
    // more results than operations
    let mut more = found();
    more.results.push(ok(OpCode::GetFh, ResultValue::Handle(handle())));
    let bytes = encode_response(&more).unwrap();
    assert_eq!(judge_response(&ops, &bytes), Err(ClientError::Reply(ReplyFault::Mismatch)));
    assert_eq!(
        judge_response(&ops, &[1, 2, 3]),
        Err(ClientError::Response(ResponseFault::Malformed(XdrError::UnexpectedEnd)))
    );
}

#[test]
fn what_a_reply_gives_is_taken_from_its_end() {
    assert_eq!(take_last(found()), Some(ResultValue::Handle(handle())));
    assert_eq!(take_last(reply(0, vec![])), None);
    assert_eq!(handle_of(found()), Ok(handle()));
    assert_eq!(handle_of(reply(0, vec![ok(OpCode::LookUp, ResultValue::Done)])), Err(ClientError::MissingValue));
    assert_eq!(handle_of(reply(0, vec![])), Err(ClientError::MissingValue));
    let created = reply(
        0,
        vec![
            ok(OpCode::PutFh, ResultValue::Done),
            ok(OpCode::GetFh, ResultValue::Handle(handle())),
            ok(OpCode::LookUp, ResultValue::Done),
        ],
    );
    assert_eq!(created_handle(created), Ok(handle()));
    assert_eq!(created_handle(found()), Err(ClientError::MissingValue));
    assert_eq!(created_handle(reply(0, vec![ok(OpCode::GetFh, ResultValue::Handle(handle()))])), Err(ClientError::MissingValue));
}

#[test]
fn attributes_that_were_not_asked_for_are_refused() {
    let mut attrs = FileAttributes::new();
    attrs.insert(FileAttribute::Size(1));
    attrs.insert(FileAttribute::Mode(2));
    let asked = AttributeSet::of(&[FileAttributeId::Size, FileAttributeId::Mode, FileAttributeId::Owner]);
    let fewer = AttributeSet::of(&[FileAttributeId::Size]);
    assert!(only_asked(&attrs, &asked));
    assert!(!only_asked(&attrs, &fewer));
    assert!(only_asked(&FileAttributes::new(), &AttributeSet::empty()));
    let given = || reply(0, vec![ok(OpCode::PutFh, ResultValue::Done), ok(OpCode::GetAttr, ResultValue::Attributes(attrs.clone()))]);
    assert_eq!(attributes_of(given(), &asked), Ok(attrs.clone()));
    assert_eq!(attributes_of(given(), &fewer), Err(ClientError::Reply(ReplyFault::Mismatch)));
    assert_eq!(attributes_of(found(), &asked), Err(ClientError::MissingValue));
    let entries = vec![
        DirectoryEntry { cookie: 3, name: String::from("a"), attrs: FileAttributes::new() },
        DirectoryEntry { cookie: 5, name: String::from("b"), attrs: attrs.clone() },
    ];
    assert_eq!(last_cookie(&entries), Some(5));
    assert_eq!(last_cookie(&vec![]), None);
    assert!(entries_only_asked(&entries, &asked));
    assert!(!entries_only_asked(&entries, &fewer));
    assert!(entries_only_asked(&vec![], &fewer));
}

#[test]
fn a_server_that_sends_more_than_was_asked_for_is_refused() {
    let mut attrs = FileAttributes::new();
    attrs.insert(FileAttribute::FileId(7));
    let given = reply(0, vec![ok(OpCode::PutFh, ResultValue::Done), ok(OpCode::GetAttr, ResultValue::Attributes(attrs.clone()))]);
    let mut one = client(vec![given.clone(), given]);
    assert_eq!(
        one.get_attr(handle(), AttributeSet::empty()),
        Err(ClientError::Reply(ReplyFault::Mismatch))
    );
    assert_eq!(one.get_attr(handle(), AttributeSet::of(&[FileAttributeId::FileId])), Ok(attrs.clone()));
    let page = ResultValue::Entries {
        cookie_verifier: 1,
        entries: vec![DirectoryEntry { cookie: 1, name: String::from("a"), attrs }],
        eof: true,
    };
    let listing = reply(0, vec![ok(OpCode::PutFh, ResultValue::Done), ok(OpCode::ReadDir, page)]);
    let mut two = client(vec![listing]);
    assert_eq!(
        two.read_dir(&handle(), AttributeSet::of(&[FileAttributeId::Size])),
        Err(ClientError::Reply(ReplyFault::Mismatch))
    );
}

#[test]
fn a_reply_to_another_request_is_refused() {
    let mut wrong = client(vec![found()]);
    assert_eq!(
        wrong.get_attr(handle(), AttributeSet::empty()),
        Err(ClientError::Reply(ReplyFault::Mismatch))
    );
    let mut canned = Canned::new(vec![found()]);
    canned.other_xid = true;
    let mut late = Client::new(canned, 1, vec![]);
    assert_eq!(
        late.look_up("/files"),
        Err(ClientError::Rpc(Error::UnexpectedReply(Unexpected::XidMismatch { expected: 1, found: 2 })))
    );
    let mut gone = client(vec![]);
    assert_eq!(
        gone.look_up("/files"),
        Err(ClientError::Rpc(Error::Io(String::from("connection reset"))))
    );
}

#[test]
fn a_listing_that_never_ends_is_given_up() {
    let page = |cookie| {
        reply(
            0,
            vec![
                ok(OpCode::PutFh, ResultValue::Done),
                ok(
                    OpCode::ReadDir,
                    ResultValue::Entries {
                        cookie_verifier: 1,
                        entries: vec![DirectoryEntry {
                            cookie,
                            name: String::from("a"),
                            attrs: FileAttributes::new(),
                        }],
                        eof: false,
                    },
                ),
            ],
        )
    };
    // the server runs out of replies before the listing ends
    let mut some = client(vec![page(1), page(2), page(1)]);
    assert_eq!(
        some.read_dir(&handle(), AttributeSet::empty()),
        Err(ClientError::Rpc(Error::Io(String::from("connection reset"))))
    );
    // a part without entries that is not the end
    let empty = reply(
        0,
        vec![
            ok(OpCode::PutFh, ResultValue::Done),
            ok(OpCode::ReadDir, ResultValue::Entries { cookie_verifier: 1, entries: vec![], eof: false }),
        ],
    );
    let mut none = client(vec![page(1), empty]);
    assert_eq!(
        none.read_dir(&handle(), AttributeSet::empty()),
        Err(ClientError::Transfer(TransferFault::NoProgress))
    );
    let ops = read_dir_compound(handle(), 0, 0, AttributeSet::empty());
    assert_eq!(ops.len(), 2);
    assert_eq!(get_attr_compound(handle(), AttributeSet::empty()).len(), 2);
}

/// The operations of each call that the server got: the arguments of a call
/// follow the mark of the record and the 76 bytes of the call's header.
fn asked(client: &Client<Canned>) -> Vec<Vec<Operation>> {
    client.transport().calls.iter().map(|call| decode_request(&call[80..]).unwrap().1).collect()
}

struct Kept(Vec<Vec<u8>>);

impl Sink for Kept {
    fn write_all(&mut self, bytes: &[u8]) -> Result<(), String> {
        self.0.push(bytes.to_vec());
        Ok(())
    }
}

struct Given(Vec<Vec<u8>>);

impl Source for Given {
    fn read(&mut self, _: usize) -> Result<Vec<u8>, String> {
        Ok(if self.0.is_empty() { vec![] } else { self.0.remove(0) })
    }
}

fn data(eof: bool, bytes: &[u8]) -> Response {
    reply(
        0,
        vec![
            ok(OpCode::PutFh, ResultValue::Done),
            ok(OpCode::Read, ResultValue::Data { eof, data: bytes.to_vec() }),
        ],
    )
}

fn written(count: u32) -> Response {
    reply(
        0,
        vec![
            ok(OpCode::PutFh, ResultValue::Done),
            ok(OpCode::Write, ResultValue::Written { count, committed: 2, verifier: 0 }),
        ],
    )
}

fn entry(cookie: u64, name: &str) -> DirectoryEntry {
    DirectoryEntry { cookie, name: String::from(name), attrs: FileAttributes::new() }
}

fn entries(cookie_verifier: u64, entries: Vec<DirectoryEntry>, eof: bool) -> Response {
    reply(
        0,
        vec![
            ok(OpCode::PutFh, ResultValue::Done),
            ok(OpCode::ReadDir, ResultValue::Entries { cookie_verifier, entries, eof }),
        ],
    )
}

#[test]
fn a_download_is_what_the_replies_bring_in_order() {
    let mut client = client(vec![data(false, &[1, 2, 3]), data(false, &[4]), data(true, &[5, 6])]);
    let mut sink = Kept(vec![]);
    assert_eq!(client.read_all(&handle(), &mut sink), Ok(6));
    assert_eq!(sink.0, vec![vec![1, 2, 3], vec![4], vec![5, 6]]);
    let read = |offset| vec![Operation::PutFh(handle()), Operation::Read { offset, count: 0x10_0000 }];
    assert_eq!(asked(&client), vec![read(0), read(3), read(4)]);
}

#[test]
fn a_download_ends_with_the_first_reply_that_says_so() {
    let mut client = client(vec![data(true, &[1]), data(true, &[2])]);
    let mut sink = Kept(vec![]);
    assert_eq!(client.read_all(&handle(), &mut sink), Ok(1));
    assert_eq!(sink.0, vec![vec![1]]);
    assert_eq!(asked(&client).len(), 1);
    // no bytes and no end: what came is handed on, and the reading fails
    let mut stuck = crate::client(vec![data(false, &[7]), data(false, &[])]);
    let mut sink = Kept(vec![]);
    assert_eq!(
        stuck.read_all(&handle(), &mut sink),
        Err(ClientError::Transfer(TransferFault::NoProgress))
    );
    assert_eq!(sink.0, vec![vec![7], vec![]]);
    // a reply that is no reply to a read
    let mut odd = crate::client(vec![written(1)]);
    assert_eq!(
        odd.read_all(&handle(), &mut Kept(vec![])),
        Err(ClientError::Reply(ReplyFault::Mismatch))
    );
}

#[test]
fn an_upload_goes_on_from_what_the_server_took() {
    let mut client = client(vec![written(2), written(3), written(3)]);
    let mut source = Given(vec![vec![1, 2, 3, 4, 5], vec![6, 7, 8]]);
    assert_eq!(client.write_all(&handle(), &mut source), Ok(8));
    let write =
        |offset, data: &[u8]| vec![Operation::PutFh(handle()), Operation::Write { offset, data: data.to_vec() }];
    assert_eq!(
        asked(&client),
        vec![write(0, &[1, 2, 3, 4, 5]), write(2, &[3, 4, 5]), write(5, &[6, 7, 8])]
    );
}

#[test]
fn an_upload_ends_where_the_server_takes_too_much_or_nothing() {
    let mut greedy = client(vec![written(4)]);
    assert_eq!(
        greedy.write_all(&handle(), &mut Given(vec![vec![1, 2, 3]])),
        Err(ClientError::Transfer(TransferFault::TooMuch))
    );
    let mut idle = client(vec![written(1), written(0)]);
    assert_eq!(
        idle.write_all(&handle(), &mut Given(vec![vec![1, 2, 3]])),
        Err(ClientError::Transfer(TransferFault::NoProgress))
    );
    assert_eq!(asked(&idle).len(), 2);
    let mut nothing = client(vec![]);
    assert_eq!(nothing.write_all(&handle(), &mut Given(vec![])), Ok(0));
    assert_eq!(asked(&nothing).len(), 0);
}

#[test]
fn a_listing_is_its_pages_in_order() {
    let mut client = client(vec![
        entries(7, vec![entry(10, "a"), entry(11, "b")], false),
        entries(8, vec![entry(20, "c")], false),
        entries(9, vec![], true),
    ]);
    assert_eq!(
        client.read_dir(&handle(), AttributeSet::empty()),
        Ok(vec![entry(10, "a"), entry(11, "b"), entry(20, "c")])
    );
    let list = |cookie, cookie_verifier| {
        vec![
            Operation::PutFh(handle()),
            Operation::ReadDir {
                cookie,
                cookie_verifier,
                dir_count: 8192,
                max_count: 32768,
                request: AttributeSet::empty(),
            },
        ]
    };
    assert_eq!(asked(&client), vec![list(0, 0), list(11, 7), list(20, 8)]);
}

#[test]
fn a_listing_that_is_started_again_drops_what_it_held() {
    let stale = reply(10003, vec![
        ok(OpCode::PutFh, ResultValue::Done),
        OperationResult { code: OpCode::ReadDir, status: 10003, value: None },
    ]);
    let mut client = client(vec![
        entries(7, vec![entry(10, "a")], false),
        stale.clone(),
        entries(8, vec![entry(30, "b"), entry(31, "c")], true),
    ]);
    assert_eq!(
        client.read_dir(&handle(), AttributeSet::empty()),
        Ok(vec![entry(30, "b"), entry(31, "c")])
    );
    let cookies: Vec<(u64, u64)> = asked(&client)
        .iter()
        .map(|ops| match &ops[1] {
            Operation::ReadDir { cookie, cookie_verifier, .. } => (*cookie, *cookie_verifier),
            _ => (u64::MAX, u64::MAX),
        })
        .collect();
    assert_eq!(cookies, vec![(0, 0), (10, 7), (0, 0)]);
    // the second time the server's error ends the listing
    let mut again = crate::client(vec![
        entries(7, vec![entry(10, "a")], false),
        stale.clone(),
        entries(8, vec![entry(30, "b")], false),
        stale,
    ]);
    assert_eq!(
        again.read_dir(&handle(), AttributeSet::empty()),
        Err(ClientError::Nfs(NfsError::Other(10003)))
    );
}

#[test]
fn what_is_handed_over_reaches_the_sink() {
    let mut sink = Kept(vec![]);
    let mut tally = Tally::new();
    assert_eq!(hand_over(&mut sink, &mut tally, &[1, 2]), Ok(()));
    assert_eq!(hand_over(&mut sink, &mut tally, &[]), Ok(()));
    assert_eq!(hand_over(&mut sink, &mut tally, &[3]), Ok(()));
    assert_eq!(sink.0, vec![vec![1, 2], vec![], vec![3]]);
    let mut client = client(vec![]);
    assert_eq!(client.hand_over(&mut sink, &[4, 5]), Ok(()));
    assert_eq!(sink.0.last(), Some(&vec![4, 5]));
}

#[test]
fn what_is_taken_comes_from_the_source() {
    let mut source = Given(vec![vec![1, 2, 3], vec![4]]);
    let mut tally = Tally::new();
    assert_eq!(take_from(&mut source, &mut tally, 8), Ok(vec![1, 2, 3]));
    let mut client = client(vec![]);
    assert_eq!(client.take_from(&mut source, 8), Ok(vec![4]));
    assert_eq!(client.take_from(&mut source, 8), Ok(vec![]));
    struct Asked(Vec<usize>);
    impl Source for Asked {
        fn read(&mut self, max: usize) -> Result<Vec<u8>, String> {
            self.0.push(max);
            Err(String::from("input/output error"))
        }
    }
    let mut asked = Asked(vec![]);
    assert_eq!(
        take_from(&mut asked, &mut tally, 7),
        Err(String::from("input/output error"))
    );
    assert_eq!(
        client.write_all(&handle(), &mut asked),
        Err(ClientError::Source(String::from("input/output error")))
    );
    assert_eq!(asked.0, vec![7, 0x10_0000]);
}

#[test]
fn a_request_that_was_refused_counts_no_operation_of_the_owner() {
    let mut client = client(vec![found(), found()]);
    let long = FileHandle(vec![b'a'; 129]);
    assert!(matches!(client.create_file(long, "a_file"), Err(ClientError::Request(_))));
    assert_eq!(asked(&client).len(), 0);
    // the server's answers fit no create: the requests count all the same
    assert!(client.create_file(handle(), "a_file").is_err());
    assert!(client.create_file(handle(), "b_file").is_err());
    let seqids: Vec<(u32, u32)> = asked(&client)
        .iter()
        .map(|ops| match (&ops[1], &ops[3]) {
            (Operation::Open { seqid: open, .. }, Operation::Close { seqid: close, .. }) => {
                (*open, *close)
            },
            _ => (u32::MAX, u32::MAX),
        })
        .collect();
    assert_eq!(seqids, vec![(0, 1), (2, 3)]);
    assert!(refused(&Err(ClientError::Request(
        sun_rpc_client::request::RequestFault::Operation(0)
    ))));
    assert!(refused(&Err(ClientError::Rpc(Error::XidExhausted))));
    assert!(refused(&Err(ClientError::Rpc(Error::Serialization(XdrError::LengthOutOfRange)))));
    assert!(!refused(&Err(ClientError::Rpc(Error::Io(String::new())))));
    assert!(!refused(&Err(ClientError::MissingValue)));
    assert!(!refused(&Ok(found())));
}

/// A source that keeps how much it was asked for.
struct Counted {
    pieces: Vec<Vec<u8>>,
    asked: Vec<usize>,
}

impl Source for Counted {
    fn read(&mut self, max: usize) -> Result<Vec<u8>, String> {
        self.asked.push(max);
        Ok(if self.pieces.is_empty() { vec![] } else { self.pieces.remove(0) })
    }
}

#[test]
fn the_source_is_asked_until_it_gives_nothing() {
    let mut none = client(vec![]);
    let mut source = Counted { pieces: vec![], asked: vec![] };
    assert_eq!(none.write_all(&handle(), &mut source), Ok(0));
    assert_eq!(source.asked, vec![0x10_0000]);
    let mut client = client(vec![written(2), written(1), written(3), written(4)]);
    let mut source = Counted { pieces: vec![vec![1, 2, 3], vec![4, 5, 6]], asked: vec![] };
    assert_eq!(client.write_all(&handle(), &mut source), Ok(6));
    assert_eq!(source.asked, vec![0x10_0000; 3]);
    assert_eq!(asked(&client).len(), 3);
    // after a request that failed the source is not asked again
    let mut gone = crate::client(vec![written(3)]);
    let mut source = Counted { pieces: vec![vec![1, 2, 3], vec![4]], asked: vec![] };
    assert_eq!(
        gone.write_all(&handle(), &mut source),
        Err(ClientError::Rpc(Error::Io(String::from("connection reset"))))
    );
    assert_eq!(source.asked, vec![0x10_0000; 2]);
}

#[test]
fn a_sink_that_fails_ends_the_reading_with_its_own_error() {
    struct Once(usize);
    impl Sink for Once {
        fn write_all(&mut self, _: &[u8]) -> Result<(), String> {
            self.0 += 1;
            if self.0 > 1 {
                Err(String::from("no space left on device"))
            } else {
                Ok(())
            }
        }
    }
    let mut client = client(vec![data(false, &[1]), data(false, &[2]), data(true, &[3])]);
    let mut sink = Once(0);
    assert_eq!(
        client.read_all(&handle(), &mut sink),
        Err(ClientError::Sink(String::from("no space left on device")))
    );
    assert_eq!(sink.0, 2);
    assert_eq!(asked(&client).len(), 2);
}
