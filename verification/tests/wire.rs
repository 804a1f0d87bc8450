use sun_rpc_client::attrs::{
    AttributeSet, DirectoryEntry, FileAttribute, FileAttributeId, FileAttributes, FileHandle,
};
use sun_rpc_client::compound::{
    commit_compound, create_file_compound, get_attr_compound, look_up_compound, path_components,
    read_compound, read_dir_compound, remove_compound, set_attr_compound, write_compound, OpCode,
    Operation, StateId,
};
use sun_rpc_client::attr_codec::AttrFault;
use sun_rpc_client::request::{
    decode_request, encode_operation, encode_request, ParseFault, RequestFault,
};
use sun_rpc_client::response::{
    decode_response, encode_response, encode_result, get_result, ChangeInfo, OperationResult,
    Response, ResponseFault, ResultValue,
};
use sun_rpc_client::xdr::XdrError;

fn handle() -> FileHandle {
    FileHandle(vec![0xde, 0xad, 0xbe, 0xef, 0x01])
}

fn their_handle() -> nfs4::FileHandle {
    nfs4::FileHandle(vec![0xde, 0xad, 0xbe, 0xef, 0x01])
}

fn their_request(ops: Vec<nfs4::ArgOp>) -> Vec<u8> {
    serde_xdr::to_bytes(&nfs4::CompoundArgs {
        tag: String::from("tag"),
        minor_version: 0,
        arg_array: ops,
    })
    .unwrap()
}

fn their_set(ids: &[nfs4::FileAttributeId]) -> nfs4::EnumSet<nfs4::FileAttributeId> {
    ids.iter().copied().collect()
}

fn their_reply(status: nfs4::StatusResult<()>, results: Vec<nfs4::ResOp>) -> Vec<u8> {
    serde_xdr::to_bytes(&nfs4::CompoundRes { status, tag: String::from("tag"), res_array: results })
        .unwrap()
}

fn ok(code: OpCode, value: ResultValue) -> OperationResult {
    OperationResult { code, status: 0, value: Some(value) }
}

#[test]
fn look_up_is_exact() {
    let ops = look_up_compound(&path_components("/files"));
    let bytes = encode_request(b"tag", &ops).unwrap();
    let mut expected = vec![0, 0, 0, 3, b't', b'a', b'g', 0, 0, 0, 0, 0, 0, 0, 0, 3];
    expected.extend_from_slice(&[0, 0, 0, 24]);
    expected.extend_from_slice(&[0, 0, 0, 15, 0, 0, 0, 5, b'f', b'i', b'l', b'e', b's', 0, 0, 0]);
    expected.extend_from_slice(&[0, 0, 0, 10]);
    assert_eq!(bytes, expected);
}

#[test]
fn requests_match_nfs4() {
    let names = path_components("/files/a_file");
    assert_eq!(
        encode_request(b"tag", &look_up_compound(&names)).unwrap(),
        their_request(vec![
            nfs4::ArgOp::PutRootFh,
            nfs4::ArgOp::LookUp(nfs4::LookUpArgs { object_name: String::from("files") }),
            nfs4::ArgOp::LookUp(nfs4::LookUpArgs { object_name: String::from("a_file") }),
            nfs4::ArgOp::GetFh,
        ])
    );
    assert_eq!(
        encode_request(b"tag", &get_attr_compound(handle(), AttributeSet::empty())).unwrap(),
        their_request(vec![
            nfs4::ArgOp::PutFh(nfs4::PutFhArgs { object: their_handle() }),
            nfs4::ArgOp::GetAttr(nfs4::GetAttrArgs {
                attr_request: their_set(&[
                    nfs4::FileAttributeId::Size,
                    nfs4::FileAttributeId::FileHandle,
                    nfs4::FileAttributeId::Mode,
                    nfs4::FileAttributeId::NumLinks,
                    nfs4::FileAttributeId::Owner,
                    nfs4::FileAttributeId::TimeModify,
                    nfs4::FileAttributeId::Type,
                ]),
            }),
        ])
    );
    let mut attrs = FileAttributes::new();
    attrs.insert(FileAttribute::Size(100));
    assert_eq!(
        encode_request(b"tag", &set_attr_compound(handle(), attrs)).unwrap(),
        their_request(vec![
            nfs4::ArgOp::PutFh(nfs4::PutFhArgs { object: their_handle() }),
            nfs4::ArgOp::SetAttr(nfs4::SetAttrArgs {
                state_id: nfs4::StateId::anonymous(),
                object_attributes: [nfs4::FileAttribute::Size(100)].into_iter().collect(),
            }),
        ])
    );
    let request = AttributeSet::of(&[FileAttributeId::Mode, FileAttributeId::FileHandle]);
    assert_eq!(
        encode_request(b"tag", &read_dir_compound(handle(), 7, 0x0102_0304_0506_0708, request)).unwrap(),
        their_request(vec![
            nfs4::ArgOp::PutFh(nfs4::PutFhArgs { object: their_handle() }),
            nfs4::ArgOp::ReadDir(nfs4::ReadDirArgs {
                cookie: nfs4::Cookie(7),
                cookie_verifier: nfs4::Verifier(0x0102_0304_0506_0708),
                directory_count: 8192,
                max_count: 32768,
                attr_request: their_set(&[
                    nfs4::FileAttributeId::Mode,
                    nfs4::FileAttributeId::FileHandle,
                ]),
            }),
        ])
    );
    assert_eq!(
        encode_request(b"tag", &remove_compound(handle(), String::from("a_file"))).unwrap(),
        their_request(vec![
            nfs4::ArgOp::PutFh(nfs4::PutFhArgs { object: their_handle() }),
            nfs4::ArgOp::Remove(nfs4::RemoveArgs { target: String::from("a_file") }),
        ])
    );
    assert_eq!(
        encode_request(b"tag", &read_compound(handle(), 1 << 40, 4096)).unwrap(),
        their_request(vec![
            nfs4::ArgOp::PutFh(nfs4::PutFhArgs { object: their_handle() }),
            nfs4::ArgOp::Read(nfs4::ReadArgs {
                state_id: nfs4::StateId::anonymous(),
                offset: 1 << 40,
                count: 4096,
            }),
        ])
    );
    assert_eq!(
        encode_request(b"tag", &write_compound(handle(), 9, vec![1, 2, 3, 4, 5])).unwrap(),
        their_request(vec![
            nfs4::ArgOp::PutFh(nfs4::PutFhArgs { object: their_handle() }),
            nfs4::ArgOp::Write(nfs4::WriteArgs {
                state_id: nfs4::StateId::anonymous(),
                offset: 9,
                stable: nfs4::StableHow::FileSync,
                data: vec![1, 2, 3, 4, 5],
            }),
        ])
    );
    assert_eq!(
        encode_request(b"tag", &commit_compound(handle())).unwrap(),
        their_request(vec![
            nfs4::ArgOp::PutFh(nfs4::PutFhArgs { object: their_handle() }),
            nfs4::ArgOp::Commit(nfs4::CommitArgs { offset: 0, count: 0 }),
        ])
    );
}

#[test]
fn create_file_matches_nfs4_but_for_the_way_of_creating() {
    let ours = encode_request(
        b"tag",
        &create_file_compound(handle(), String::from("a_file"), 77, vec![1, 2, 3], 5),
    )
    .unwrap();
    let mut other = [0u8; 12];
    other[..0].copy_from_slice(&[]);
    let mut theirs = their_request(vec![
        nfs4::ArgOp::PutFh(nfs4::PutFhArgs { object: their_handle() }),
        nfs4::ArgOp::Open(nfs4::OpenArgs {
            sequence_id: nfs4::SequenceId(5),
            share_access: nfs4::ShareAccess::WRITE,
            share_deny: nfs4::ShareDeny::NONE,
            owner: nfs4::StateOwner { client_id: nfs4::ClientId(77), opaque: vec![1, 2, 3] },
            open_how: nfs4::OpenFlag::OpenCreate(nfs4::CreateHow::Guarded {
                create_attrs: [nfs4::FileAttribute::Mode(nfs4::Mode(0o644))].into_iter().collect(),
            }),
            claim: nfs4::OpenClaim::Null { file: String::from("a_file") },
        }),
        nfs4::ArgOp::GetFh,
        nfs4::ArgOp::Close(nfs4::CloseArgs {
            sequence_id: nfs4::SequenceId(6),
            open_stateid: nfs4::StateId { sequence_id: 1, other },
        }),
    ]);
    // theirs creates guarded, ours unchecked: the one word that differs
    let at = 16 + 4 + 12 + 4 + 4 + 4 + 4 + 8 + 8 + 4;
    assert_eq!(&theirs[at..at + 4], &[0, 0, 0, 1]);
    theirs[at + 3] = 0;
    assert_eq!(ours, theirs);
}

#[test]
fn requests_are_whole_words() {
    let all = [
        look_up_compound(&path_components("/a/bc/def/ghij/klmno")),
        get_attr_compound(handle(), AttributeSet::empty()),
        set_attr_compound(handle(), FileAttributes::new()),
        read_dir_compound(handle(), 0, 0, AttributeSet::empty()),
        create_file_compound(handle(), String::from("größe"), 1, vec![1], 0),
        remove_compound(handle(), String::from("n")),
        read_compound(handle(), 0, 1),
        write_compound(handle(), 0, vec![1, 2, 3]),
        commit_compound(handle()),
    ];
    for ops in all {
        for tag in [&b""[..], b"t", b"tag", b"tags!"] {
            assert_eq!(encode_request(tag, &ops).unwrap().len() % 4, 0);
        }
        for op in &ops {
            let bytes = encode_operation(op).unwrap();
            assert_eq!(bytes.len() % 4, 0);
            assert_eq!(&bytes[..4], &op.code().to_number().to_be_bytes());
        }
    }
}

#[test]
fn requests_that_cannot_be_sent() {
    let long = FileHandle(vec![0; 129]);
    assert_eq!(encode_operation(&Operation::PutFh(long.clone())), None);
    let mut ops = vec![Operation::PutRootFh, Operation::PutFh(long.clone()), Operation::PutFh(long)];
    assert_eq!(encode_request(b"", &ops), Err(RequestFault::Operation(1)));
    ops.remove(1);
    ops.remove(1);
    ops.push(Operation::Open {
        seqid: 0,
        client_id: 0,
        owner: vec![0; 1025],
        name: String::new(),
        attrs: FileAttributes::new(),
    });
    assert_eq!(encode_request(b"", &ops), Err(RequestFault::Operation(1)));
    let mut attrs = FileAttributes::new();
    attrs.insert(FileAttribute::FileHandle(FileHandle(vec![0; 200])));
    assert_eq!(encode_operation(&Operation::SetAttr(attrs)), None);
    assert_eq!(encode_request(b"", &[]).unwrap(), vec![0, 0, 0, 0, 0, 0, 0, 0, 0, 0, 0, 0]);
}

#[test]
fn replies_of_nfs4_are_read() {
    let attrs: nfs4::FileAttributes = [nfs4::FileAttribute::Size(100)].into_iter().collect();
    let mut ours = FileAttributes::new();
    ours.insert(FileAttribute::Size(100));
    let bytes = their_reply(
        nfs4::StatusResult::Ok(()),
        vec![
            nfs4::ResOp::PutRootFh(nfs4::StatusResult::Ok(())),
            nfs4::ResOp::PutFh(nfs4::StatusResult::Ok(())),
            nfs4::ResOp::LookUp(nfs4::StatusResult::Ok(())),
            nfs4::ResOp::GetFh(nfs4::StatusResult::Ok(nfs4::GetFhRes { object: their_handle() })),
            nfs4::ResOp::GetAttr(nfs4::StatusResult::Ok(nfs4::GetAttrRes {
                object_attributes: attrs.clone(),
            })),
            nfs4::ResOp::SetAttr(nfs4::SetAttrStatusResult {
                status: nfs4::StatusResult::Ok(()),
                res: nfs4::SetAttrRes { attr_set: their_set(&[nfs4::FileAttributeId::Size]) },
            }),
            nfs4::ResOp::ReadDir(nfs4::StatusResult::Ok(nfs4::ReadDirRes {
                cookie_verifier: nfs4::Verifier(9),
                reply: nfs4::DirectoryList {
                    entries: vec![
                        nfs4::DirectoryEntry {
                            cookie: nfs4::Cookie(1),
                            name: String::from("a_file0"),
                            attrs: attrs.clone(),
                        },
                        nfs4::DirectoryEntry {
                            cookie: nfs4::Cookie(2),
                            name: String::from("a_file1"),
                            attrs: [].into_iter().collect(),
                        },
                    ],
                    eof: true,
                },
            })),
            nfs4::ResOp::Close(nfs4::StatusResult::Ok(nfs4::CloseRes {
                open_state_id: nfs4::StateId { sequence_id: 3, other: [0, 0, 0, 1, 0, 0, 0, 2, 0, 0, 0, 3] },
            })),
            nfs4::ResOp::Read(nfs4::StatusResult::Ok(nfs4::ReadRes { eof: false, data: vec![1, 2, 3] })),
            nfs4::ResOp::Write(nfs4::StatusResult::Ok(nfs4::WriteRes {
                count: 3,
                committed: nfs4::StableHow::FileSync,
                write_veritifer: nfs4::Verifier(11),
            })),
            nfs4::ResOp::Commit(nfs4::StatusResult::Ok(nfs4::CommitRes {
                write_verifier: nfs4::Verifier(12),
            })),
        ],
    );
    let expected = Response {
        status: 0,
        tag: b"tag".to_vec(),
        results: vec![
            ok(OpCode::PutRootFh, ResultValue::Done),
            ok(OpCode::PutFh, ResultValue::Done),
            ok(OpCode::LookUp, ResultValue::Done),
            ok(OpCode::GetFh, ResultValue::Handle(handle())),
            ok(OpCode::GetAttr, ResultValue::Attributes(ours.clone())),
            ok(OpCode::SetAttr, ResultValue::AttributesSet(vec![0x10])),
            ok(
                OpCode::ReadDir,
                ResultValue::Entries {
                    cookie_verifier: 9,
                    entries: vec![
                        DirectoryEntry { cookie: 1, name: String::from("a_file0"), attrs: ours },
                        DirectoryEntry {
                            cookie: 2,
                            name: String::from("a_file1"),
                            attrs: FileAttributes::new(),
                        },
                    ],
                    eof: true,
                },
            ),
            ok(OpCode::Close, ResultValue::Closed(StateId { sequence_id: 3, first: 1, second: 2, third: 3 })),
            ok(OpCode::Read, ResultValue::Data { eof: false, data: vec![1, 2, 3] }),
            ok(OpCode::Write, ResultValue::Written { count: 3, committed: 2, verifier: 11 }),
            ok(OpCode::Commit, ResultValue::Committed { verifier: 12 }),
        ],
    };
    assert_eq!(decode_response(&bytes), Ok(expected));
}

#[test]
fn failed_operations_give_nothing() {
    let bytes = their_reply(
        nfs4::StatusResult::Err(nfs4::StatusError::NoEnt),
        vec![
            nfs4::ResOp::PutRootFh(nfs4::StatusResult::Ok(())),
            nfs4::ResOp::LookUp(nfs4::StatusResult::Err(nfs4::StatusError::NoEnt)),
        ],
    );
    let response = decode_response(&bytes).unwrap();
    assert_eq!(response.status, 2);
    assert_eq!(
        response.results,
        vec![
            ok(OpCode::PutRootFh, ResultValue::Done),
            OperationResult { code: OpCode::LookUp, status: 2, value: None },
        ]
    );
    // a failed setting of attributes still says which attributes were set
    let bytes = their_reply(
        nfs4::StatusResult::Err(nfs4::StatusError::Inval),
        vec![nfs4::ResOp::SetAttr(nfs4::SetAttrStatusResult {
            status: nfs4::StatusResult::Err(nfs4::StatusError::Inval),
            res: nfs4::SetAttrRes { attr_set: their_set(&[]) },
        })],
    );
    assert_eq!(
        decode_response(&bytes).unwrap().results,
        vec![OperationResult {
            code: OpCode::SetAttr,
            status: 22,
            value: Some(ResultValue::AttributesSet(vec![])),
        }]
    );
    for failed in [9u32, 10, 18, 25, 26, 28, 38, 4, 5] {
        let mut bytes = failed.to_be_bytes().to_vec();
        bytes.extend_from_slice(&[0, 0, 0, 13, 0xaa]);
        let (result, rest) = get_result(&bytes).unwrap();
        assert_eq!(result.status, 13);
        assert_eq!(result.value, None);
        assert_eq!(rest, &[0xaa]);
    }
}

#[test]
fn open_and_remove_are_read() {
    let mut bytes = vec![0, 0, 0, 0, 0, 0, 0, 0, 0, 0, 0, 2];
    // OPEN: state id, change, flags, attributes set, no delegation
    bytes.extend_from_slice(&[0, 0, 0, 18, 0, 0, 0, 0]);
    bytes.extend_from_slice(&[0, 0, 0, 1, 0, 0, 0, 2, 0, 0, 0, 3, 0, 0, 0, 4]);
    bytes.extend_from_slice(&[0, 0, 0, 1, 0, 0, 0, 0, 0, 0, 0, 5, 0, 0, 0, 0, 0, 0, 0, 6]);
    bytes.extend_from_slice(&[0, 0, 0, 4]);
    bytes.extend_from_slice(&[0, 0, 0, 2, 0, 0, 0, 0, 0, 0, 0, 2]);
    bytes.extend_from_slice(&[0, 0, 0, 0]);
    // REMOVE: change
    bytes.extend_from_slice(&[0, 0, 0, 28, 0, 0, 0, 0]);
    bytes.extend_from_slice(&[0, 0, 0, 0, 0, 0, 0, 0, 0, 0, 0, 7, 0, 0, 0, 0, 0, 0, 0, 8]);
    let response = decode_response(&bytes).unwrap();
    assert_eq!(
        response.results,
        vec![
            ok(
                OpCode::Open,
                ResultValue::Opened {
                    state_id: StateId { sequence_id: 1, first: 2, second: 3, third: 4 },
                    change: ChangeInfo { atomic: true, before: 5, after: 6 },
                    flags: 4,
                    attributes_set: vec![0, 2],
                },
            ),
            ok(OpCode::Remove, ResultValue::Removed(ChangeInfo { atomic: false, before: 7, after: 8 })),
        ]
    );
    // and nfs4 reads the same
    let theirs: nfs4::CompoundRes = serde_xdr::from_bytes(&bytes).unwrap();
    assert_eq!(theirs.res_array.len(), 2);
    match &theirs.res_array[0] {
        nfs4::ResOp::Open(nfs4::StatusResult::Ok(res)) => {
            assert_eq!(res.state_id.sequence_id, 1);
            assert_eq!(res.state_id.other, [0, 0, 0, 2, 0, 0, 0, 3, 0, 0, 0, 4]);
            assert!(res.change_info.atomic);
            assert_eq!(res.delegation, nfs4::OpenDelegation::None);
        }
        other => panic!("{:?}", other),
    }
    // a delegation cannot be read
    let at = 12 + 8 + 16 + 20 + 4 + 12;
    assert_eq!(&bytes[at..at + 4], &[0, 0, 0, 0]);
    bytes[at + 3] = 1;
    assert_eq!(decode_response(&bytes), Err(ResponseFault::UnsupportedDelegation(1)));
}

#[test]
fn malformed_replies_are_refused() {
    assert_eq!(decode_response(&[]), Err(ResponseFault::Malformed(XdrError::UnexpectedEnd)));
    let good = their_reply(
        nfs4::StatusResult::Ok(()),
        vec![nfs4::ResOp::GetFh(nfs4::StatusResult::Ok(nfs4::GetFhRes { object: their_handle() }))],
    );
    assert!(decode_response(&good).is_ok());
    for cut in 0..good.len() {
        assert_eq!(
            decode_response(&good[..cut]),
            Err(ResponseFault::Malformed(XdrError::UnexpectedEnd)),
            "{}",
            cut
        );
    }
    let mut more = good.clone();
    more.push(0);
    assert_eq!(decode_response(&more), Err(ResponseFault::Malformed(XdrError::TrailingBytes)));
    // an operation that this library does not send: ACCESS
    let mut unknown = good.clone();
    unknown[19] = 3;
    assert_eq!(decode_response(&unknown), Err(ResponseFault::UnknownOperation(3)));
    // more results announced than there are
    let mut count = good.clone();
    count[15] = 2;
    assert_eq!(decode_response(&count), Err(ResponseFault::Malformed(XdrError::UnexpectedEnd)));
    // a directory entry whose word on what follows is no boolean
    let mut bytes = vec![0, 0, 0, 0, 0, 0, 0, 0, 0, 0, 0, 1, 0, 0, 0, 26, 0, 0, 0, 0];
    bytes.extend_from_slice(&[0; 8]);
    bytes.extend_from_slice(&[0, 0, 0, 2]);
    assert_eq!(decode_response(&bytes), Err(ResponseFault::Malformed(XdrError::InvalidBool)));
}

#[test]
fn requests_are_read_back_as_they_were() {
    let mut attrs = FileAttributes::new();
    attrs.insert(FileAttribute::Size(100));
    attrs.insert(FileAttribute::Owner(String::from("bob")));
    let request = AttributeSet::of(&[FileAttributeId::Mode, FileAttributeId::FileHandle]);
    let all = [
        look_up_compound(&path_components("/files/a_file")),
        look_up_compound(&vec![]),
        get_attr_compound(handle(), request),
        set_attr_compound(handle(), attrs),
        read_dir_compound(handle(), 7, 9, request),
        create_file_compound(handle(), String::from("größe"), 77, vec![1, 2, 3], 5),
        remove_compound(handle(), String::from("a_file")),
        read_compound(handle(), 1 << 40, 4096),
        write_compound(handle(), 9, vec![1, 2, 3, 4, 5]),
        commit_compound(handle()),
        vec![],
    ];
    for ops in all {
        for tag in [&b""[..], b"tag"] {
            let bytes = encode_request(tag, &ops).unwrap();
            assert_eq!(decode_request(&bytes), Ok((tag.to_vec(), ops.clone())));
            for cut in 0..bytes.len() {
                assert!(decode_request(&bytes[..cut]).is_err());
            }
        }
    }
}

#[test]
fn requests_of_nfs4_are_read() {
    let bytes = their_request(vec![
        nfs4::ArgOp::PutRootFh,
        nfs4::ArgOp::LookUp(nfs4::LookUpArgs { object_name: String::from("files") }),
        nfs4::ArgOp::GetAttr(nfs4::GetAttrArgs {
            attr_request: their_set(&[nfs4::FileAttributeId::Size, nfs4::FileAttributeId::Owner]),
        }),
        nfs4::ArgOp::Close(nfs4::CloseArgs {
            sequence_id: nfs4::SequenceId(6),
            open_stateid: nfs4::StateId { sequence_id: 1, other: [0; 12] },
        }),
    ]);
    assert_eq!(
        decode_request(&bytes),
        Ok((
            b"tag".to_vec(),
            vec![
                Operation::PutRootFh,
                Operation::LookUp(String::from("files")),
                Operation::GetAttr(AttributeSet::of(&[FileAttributeId::Size, FileAttributeId::Owner])),
                Operation::Close { seqid: 6, state_id: StateId::current() },
            ]
        ))
    );
}

#[test]
fn requests_that_this_library_does_not_send() {
    // ACCESS
    let bytes = their_request(vec![nfs4::ArgOp::Access(nfs4::AccessArgs { access: nfs4::Access::empty() })]);
    assert_eq!(decode_request(&bytes), Err(ParseFault::UnknownOperation(3)));
    // an attribute that this library does not know
    let bytes = their_request(vec![nfs4::ArgOp::GetAttr(nfs4::GetAttrArgs {
        attr_request: their_set(&[nfs4::FileAttributeId::Change]),
    })]);
    assert_eq!(decode_request(&bytes), Err(ParseFault::Attribute(AttrFault::UnknownAttribute(3))));
    // a read under a state id of its own
    let bytes = their_request(vec![nfs4::ArgOp::Read(nfs4::ReadArgs {
        state_id: nfs4::StateId { sequence_id: 1, other: [0; 12] },
        offset: 0,
        count: 1,
    })]);
    assert_eq!(decode_request(&bytes), Err(ParseFault::Unsupported));
    // an unstable write
    let bytes = their_request(vec![nfs4::ArgOp::Write(nfs4::WriteArgs {
        state_id: nfs4::StateId::anonymous(),
        offset: 0,
        stable: nfs4::StableHow::Unstable,
        data: vec![],
    })]);
    assert_eq!(decode_request(&bytes), Err(ParseFault::Unsupported));
    // another minor version
    let mut bytes = their_request(vec![]);
    bytes[11] = 1;
    assert_eq!(decode_request(&bytes), Err(ParseFault::Unsupported));
    let mut more = their_request(vec![nfs4::ArgOp::GetFh]);
    more.push(0);
    assert_eq!(decode_request(&more), Err(ParseFault::Malformed(XdrError::TrailingBytes)));
}

#[test]
fn replies_are_written_as_nfs4_writes_them() {
    let attrs: nfs4::FileAttributes = [nfs4::FileAttribute::Size(100)].into_iter().collect();
    let mut ours = FileAttributes::new();
    ours.insert(FileAttribute::Size(100));
    let theirs = their_reply(
        nfs4::StatusResult::Err(nfs4::StatusError::NoEnt),
        vec![
            nfs4::ResOp::PutFh(nfs4::StatusResult::Ok(())),
            nfs4::ResOp::GetFh(nfs4::StatusResult::Ok(nfs4::GetFhRes { object: their_handle() })),
            nfs4::ResOp::GetAttr(nfs4::StatusResult::Ok(nfs4::GetAttrRes { object_attributes: attrs.clone() })),
            nfs4::ResOp::ReadDir(nfs4::StatusResult::Ok(nfs4::ReadDirRes {
                cookie_verifier: nfs4::Verifier(9),
                reply: nfs4::DirectoryList {
                    entries: vec![nfs4::DirectoryEntry {
                        cookie: nfs4::Cookie(1),
                        name: String::from("a_file0"),
                        attrs,
                    }],
                    eof: false,
                },
            })),
            nfs4::ResOp::Read(nfs4::StatusResult::Ok(nfs4::ReadRes { eof: true, data: vec![1, 2, 3] })),
            nfs4::ResOp::Write(nfs4::StatusResult::Ok(nfs4::WriteRes {
                count: 3,
                committed: nfs4::StableHow::FileSync,
                write_veritifer: nfs4::Verifier(11),
            })),
            nfs4::ResOp::LookUp(nfs4::StatusResult::Err(nfs4::StatusError::NoEnt)),
        ],
    );
    let response = Response {
        status: 2,
        tag: b"tag".to_vec(),
        results: vec![
            ok(OpCode::PutFh, ResultValue::Done),
            ok(OpCode::GetFh, ResultValue::Handle(handle())),
            ok(OpCode::GetAttr, ResultValue::Attributes(ours.clone())),
            ok(
                OpCode::ReadDir,
                ResultValue::Entries {
                    cookie_verifier: 9,
                    entries: vec![DirectoryEntry { cookie: 1, name: String::from("a_file0"), attrs: ours }],
                    eof: false,
                },
            ),
            ok(OpCode::Read, ResultValue::Data { eof: true, data: vec![1, 2, 3] }),
            ok(OpCode::Write, ResultValue::Written { count: 3, committed: 2, verifier: 11 }),
            OperationResult { code: OpCode::LookUp, status: 2, value: None },
        ],
    };
    let bytes = encode_response(&response).unwrap();
    assert_eq!(bytes, theirs);
    assert_eq!(decode_response(&bytes), Ok(response));
}

#[test]
fn replies_are_read_back_as_they_were() {
    let opened = ResultValue::Opened {
        state_id: StateId { sequence_id: 1, first: 2, second: 3, third: 4 },
        change: ChangeInfo { atomic: true, before: 5, after: 6 },
        flags: 4,
        attributes_set: vec![0, 2],
    };
    let response = Response {
        status: 0,
        tag: vec![],
        results: vec![
            ok(OpCode::PutRootFh, ResultValue::Done),
            ok(OpCode::Open, opened),
            ok(OpCode::Close, ResultValue::Closed(StateId::current())),
            ok(OpCode::Remove, ResultValue::Removed(ChangeInfo { atomic: false, before: 0, after: 1 })),
            ok(OpCode::SetAttr, ResultValue::AttributesSet(vec![0x10])),
            ok(OpCode::Commit, ResultValue::Committed { verifier: 12 }),
            ok(OpCode::ReadDir, ResultValue::Entries { cookie_verifier: 0, entries: vec![], eof: true }),
        ],
    };
    let bytes = encode_response(&response).unwrap();
    assert_eq!(bytes.len() % 4, 0);
    assert_eq!(decode_response(&bytes), Ok(response));
}

#[test]
fn replies_that_cannot_be_sent() {
    let reply = |result| Response { status: 0, tag: vec![], results: vec![result] };
    // a result that gives what its operation does not give
    assert_eq!(encode_response(&reply(ok(OpCode::GetFh, ResultValue::Done))), None);
    // a failed operation that gives something
    let failed = OperationResult { code: OpCode::GetFh, status: 2, value: Some(ResultValue::Handle(handle())) };
    assert_eq!(encode_response(&reply(failed)), None);
    // an operation that did what it was asked and gives nothing
    let empty = OperationResult { code: OpCode::GetFh, status: 0, value: None };
    assert_eq!(encode_response(&reply(empty)), None);
    // a handle that is too long
    let long = ok(OpCode::GetFh, ResultValue::Handle(FileHandle(vec![0; 129])));
    assert_eq!(encode_response(&reply(long)), None);
    assert_eq!(encode_result(&ok(OpCode::GetFh, ResultValue::Handle(handle()))).unwrap().len(), 20);
}

#[test]
fn attributes_in_replies_that_cannot_be_read() {
    // GETATTR with the bit of an attribute that this library does not know
    let mut bytes = vec![0, 0, 0, 0, 0, 0, 0, 0, 0, 0, 0, 1, 0, 0, 0, 9, 0, 0, 0, 0];
    bytes.extend_from_slice(&[0, 0, 0, 1, 0, 0, 0, 8 + 1, 0, 0, 0, 0]);
    assert_eq!(
        decode_response(&bytes),
        Err(ResponseFault::Attribute(AttrFault::UnknownAttribute(0)))
    );
}
