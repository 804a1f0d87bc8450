use sun_rpc_client::attrs::{
    AttributeSet, FileAttribute, FileAttributeId, FileAttributes, FileHandle,
};
use sun_rpc_client::compound::{
    basic_request, check_reply, commit_compound, create_file_compound, get_attr_compound,
    is_well_sequenced, look_up_compound, path_components, read_compound, read_dir_compound,
    remove_compound, response_follows, set_attr_compound, write_compound, OpCode, Operation,
    ReplyFault, StateId, COMPOUND_PROCEDURE, CREATE_MODE, DIR_COUNT, MAX_COUNT, NFS_PORT, NFS_PROGRAM,
    NFS_VERSION,
};
use sun_rpc_client::status::{status_error, NfsError, NFS4ERR_BAD_COOKIE, NFS4_OK};

fn handle() -> FileHandle {
    FileHandle(vec![1, 2, 3])
}

fn numbers(ops: &[Operation]) -> Vec<u32> {
    ops.iter().map(|op| op.code().to_number()).collect()
}

#[test]
fn constants_of_nfs() {
    assert_eq!(NFS_PROGRAM, 100003);
    assert_eq!(NFS_VERSION, 4);
    assert_eq!(NFS_PORT, 2049);
    assert_eq!(COMPOUND_PROCEDURE, 1);
    assert_eq!(DIR_COUNT, 8192);
    assert_eq!(MAX_COUNT, 32768);
    assert_eq!(CREATE_MODE, 0o644);
}

#[test]
fn operations_have_the_numbers_of_nfs4() {
    let ours = [
        (OpCode::Close, nfs4::OperationId::Close as u32),
        (OpCode::Commit, nfs4::OperationId::Commit as u32),
        (OpCode::GetAttr, nfs4::OperationId::GetAttr as u32),
        (OpCode::GetFh, nfs4::OperationId::GetFh as u32),
        (OpCode::LookUp, nfs4::OperationId::LookUp as u32),
        (OpCode::Open, nfs4::OperationId::Open as u32),
        (OpCode::PutFh, nfs4::OperationId::PutFh as u32),
        (OpCode::PutRootFh, nfs4::OperationId::PutRootFh as u32),
        (OpCode::Read, nfs4::OperationId::Read as u32),
        (OpCode::ReadDir, nfs4::OperationId::ReadDir as u32),
        (OpCode::Remove, nfs4::OperationId::Remove as u32),
        (OpCode::SetAttr, nfs4::OperationId::SetAttr as u32),
        (OpCode::Write, nfs4::OperationId::Write as u32),
    ];
    for (code, number) in ours {
        assert_eq!(code.to_number(), number);
        assert_eq!(code.puts_handle(), matches!(code, OpCode::PutFh | OpCode::PutRootFh));
    }
    assert_eq!(
        ours.map(|(c, _)| c.to_number()),
        [4, 5, 9, 10, 15, 18, 22, 24, 25, 26, 28, 34, 38]
    );
}

#[test]
fn look_up_walks_from_the_root() {
    let names = path_components("/files/a_file");
    assert_eq!(names, vec![String::from("files"), String::from("a_file")]);
    let ops = look_up_compound(&names);
    assert_eq!(
        ops,
        vec![
            Operation::PutRootFh,
            Operation::LookUp(String::from("files")),
            Operation::LookUp(String::from("a_file")),
            Operation::GetFh,
        ]
    );
    assert!(is_well_sequenced(&ops));
    assert_eq!(numbers(&ops), vec![24, 15, 15, 10]);
}

#[test]
fn look_up_of_the_root_looks_nothing_up() {
    for root in ["/", "", "//", "///"] {
        assert_eq!(path_components(root), Vec::<String>::new());
    }
    assert_eq!(look_up_compound(&vec![]), vec![Operation::PutRootFh, Operation::GetFh]);
}

#[test]
fn paths_are_split_on_slashes() {
    let split = |p: &str| path_components(p);
    assert_eq!(split("a"), vec!["a"]);
    assert_eq!(split("a/b"), vec!["a", "b"]);
    assert_eq!(split("/a//b/"), vec!["a", "b"]);
    assert_eq!(split("//files///größe/日本//"), vec!["files", "größe", "日本"]);
    assert_eq!(split("/a b/.. /."), vec!["a b", ".. ", "."]);
    for p in ["/x/y/z", "x//y", "/", "a/", "/a", "ab/cd/ef/"] {
        let expected: Vec<String> = p.split('/').filter(|c| !c.is_empty()).map(String::from).collect();
        assert_eq!(split(p), expected);
    }
}

#[test]
fn requests_are_as_specified() {
    let wanted = AttributeSet::empty().with(FileAttributeId::FileId);
    let basic = AttributeSet::of(&[
        FileAttributeId::Size,
        FileAttributeId::FileHandle,
        FileAttributeId::Mode,
        FileAttributeId::NumLinks,
        FileAttributeId::Owner,
        FileAttributeId::TimeModify,
        FileAttributeId::Type,
    ]);
    assert_eq!(basic_request(), basic);
    assert_eq!(
        get_attr_compound(handle(), wanted),
        vec![Operation::PutFh(handle()), Operation::GetAttr(basic.with(FileAttributeId::FileId))]
    );
    assert_eq!(
        get_attr_compound(handle(), AttributeSet::empty()),
        vec![Operation::PutFh(handle()), Operation::GetAttr(basic)]
    );
    let mut attrs = FileAttributes::new();
    attrs.insert(FileAttribute::Size(100));
    assert_eq!(
        set_attr_compound(handle(), attrs.clone()),
        vec![Operation::PutFh(handle()), Operation::SetAttr(attrs)]
    );
    assert_eq!(
        read_dir_compound(handle(), 7, 9, wanted),
        vec![
            Operation::PutFh(handle()),
            Operation::ReadDir { cookie: 7, cookie_verifier: 9, dir_count: 8192, max_count: 32768, request: wanted },
        ]
    );
    let mut mode = FileAttributes::new();
    mode.insert(FileAttribute::Mode(0o644));
    assert_eq!(
        create_file_compound(handle(), String::from("a_file"), 77, vec![9], u32::MAX),
        vec![
            Operation::PutFh(handle()),
            Operation::Open {
                seqid: u32::MAX,
                client_id: 77,
                owner: vec![9],
                name: String::from("a_file"),
                attrs: mode,
            },
            Operation::GetFh,
            Operation::Close { seqid: 0, state_id: StateId { sequence_id: 1, first: 0, second: 0, third: 0 } },
        ]
    );
    assert_eq!(
        remove_compound(handle(), String::from("a_file")),
        vec![Operation::PutFh(handle()), Operation::Remove(String::from("a_file"))]
    );
    assert_eq!(
        read_compound(handle(), 5, 6),
        vec![Operation::PutFh(handle()), Operation::Read { offset: 5, count: 6 }]
    );
    assert_eq!(
        write_compound(handle(), 5, vec![1, 2]),
        vec![Operation::PutFh(handle()), Operation::Write { offset: 5, data: vec![1, 2] }]
    );
    assert_eq!(
        commit_compound(handle()),
        vec![Operation::PutFh(handle()), Operation::Commit { offset: 0, count: 0 }]
    );
}

#[test]
fn every_request_sets_the_handle_first() {
    let all = [
        look_up_compound(&path_components("/a/b/c")),
        look_up_compound(&vec![]),
        get_attr_compound(handle(), AttributeSet::empty()),
        set_attr_compound(handle(), FileAttributes::new()),
        read_dir_compound(handle(), 0, 0, AttributeSet::empty()),
        create_file_compound(handle(), String::from("n"), 0, vec![], 0),
        remove_compound(handle(), String::from("n")),
        read_compound(handle(), 0, 1),
        write_compound(handle(), 0, vec![]),
        commit_compound(handle()),
    ];
    for ops in all {
        assert!(is_well_sequenced(&ops));
    }
    assert!(is_well_sequenced(&[]));
    assert!(!is_well_sequenced(&[Operation::GetFh]));
    assert!(!is_well_sequenced(&[Operation::LookUp(String::from("a")), Operation::PutRootFh]));
    assert!(!is_well_sequenced(&[
        Operation::Close { seqid: 0, state_id: StateId::anonymous() },
        Operation::PutFh(handle()),
        Operation::GetFh,
    ]));
    assert!(is_well_sequenced(&[Operation::PutRootFh, Operation::PutFh(handle()), Operation::GetFh]));
}

#[test]
fn replies_follow_their_requests() {
    let ops = look_up_compound(&path_components("/files/a_file"));
    assert!(response_follows(&ops, &[24, 15, 15, 10]));
    assert!(response_follows(&ops, &[24, 15]));
    assert!(response_follows(&ops, &[]));
    assert!(!response_follows(&ops, &[24, 15, 15, 10, 10]));
    assert!(!response_follows(&ops, &[24, 10]));
    assert!(!response_follows(&ops, &[15]));
    assert_eq!(check_reply(&ops, &[24, 15, 15, 10], NFS4_OK), Ok(()));
    assert_eq!(check_reply(&ops, &[24, 15, 15], NFS4_OK), Err(ReplyFault::Incomplete));
    assert_eq!(check_reply(&ops, &[24, 15, 15], 2), Err(ReplyFault::Nfs(NfsError::NotFound)));
    assert_eq!(check_reply(&ops, &[24, 15, 15, 10], 2), Err(ReplyFault::Nfs(NfsError::NotFound)));
    assert_eq!(check_reply(&ops, &[24, 15, 10], 2), Err(ReplyFault::Mismatch));
    assert_eq!(check_reply(&ops, &[24, 15, 15, 10, 9], NFS4_OK), Err(ReplyFault::Mismatch));
    let remove = remove_compound(handle(), String::from("a_file"));
    assert_eq!(check_reply(&remove, &[22, 28], 2), Err(ReplyFault::Nfs(NfsError::NotFound)));
    assert_eq!(check_reply(&remove, &[22, 28], 13), Err(ReplyFault::Nfs(NfsError::AccessDenied)));
}

#[test]
fn statuses_have_their_meaning() {
    assert_eq!(status_error(NFS4_OK), None);
    let known = [
        (2, NfsError::NotFound),
        (13, NfsError::AccessDenied),
        (17, NfsError::Exists),
        (20, NfsError::NotDirectory),
        (21, NfsError::IsDirectory),
        (22, NfsError::InvalidArgument),
        (70, NfsError::StaleHandle),
        (1, NfsError::Other(1)),
        (10008, NfsError::Other(10008)),
        (10013, NfsError::Other(10013)),
        (NFS4ERR_BAD_COOKIE, NfsError::Other(10003)),
    ];
    for (code, error) in known {
        assert_eq!(status_error(code), Some(error));
        assert_eq!(error.to_code(), code);
    }
    for code in 0..200u32 {
        assert_eq!(status_error(code).map(|e| e.to_code()).unwrap_or(0), code);
    }
    assert_eq!(nfs4::StatusError::NoEnt as u32, 2);
    assert_eq!(nfs4::StatusError::BadCookie as u32, NFS4ERR_BAD_COOKIE);
}
