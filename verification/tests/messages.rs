use sun_rpc_client::auth::{AuthFlavor, AuthSysParameters, OpaqueAuth};
use sun_rpc_client::message::{
    AcceptedReply, AcceptedReplyBody, AuthStat, CallBody, Message, MessageBody, RejectedReply,
    ReplyBody,
};
use sun_rpc_client::record::{frame, read_fragment, read_record, RecordMark};
use sun_rpc_client::xdr::XdrError;

fn identity() -> AuthSysParameters {
    AuthSysParameters {
        stamp: 0,
        machine_name: b"test-machine".to_vec(),
        uid: 1337,
        gid: 42,
        gids: vec![1337],
    }
}

fn their_identity() -> sun_rpc::AuthSysParameters {
    sun_rpc::AuthSysParameters {
        stamp: 0,
        machine_name: "test-machine".into(),
        uid: sun_rpc::Uid(1337),
        gid: sun_rpc::Gid(42),
        gids: vec![sun_rpc::Gid(1337)],
    }
}

fn call(xid: u32, args: Vec<u8>) -> Message {
    Message {
        xid,
        body: MessageBody::Call(CallBody {
            rpc_version: 2,
            program: 100003,
            version: 4,
            procedure: 1,
            credential: OpaqueAuth::auth_sys(&identity()).unwrap(),
            verifier: OpaqueAuth::none(),
            call_args: args,
        }),
    }
}

fn replies() -> Vec<Message> {
    let verifier = OpaqueAuth { flavor: AuthFlavor::Short, body: vec![1, 2, 3] };
    let accepted = |body| Message {
        xid: 77,
        body: MessageBody::Reply(ReplyBody::Accepted(AcceptedReply {
            verifier: verifier.clone(),
            body,
        })),
    };
    let denied = |d| Message { xid: 78, body: MessageBody::Reply(ReplyBody::Denied(d)) };
    vec![
        accepted(AcceptedReplyBody::Success(vec![])),
        accepted(AcceptedReplyBody::Success(vec![0, 0, 0, 9, 1, 2, 3, 4])),
        accepted(AcceptedReplyBody::ProgramUnavailable),
        accepted(AcceptedReplyBody::ProgramMismatch { low: 2, high: 4 }),
        accepted(AcceptedReplyBody::ProcedureUnavailable),
        accepted(AcceptedReplyBody::GarbageArguments),
        accepted(AcceptedReplyBody::SystemError),
        denied(RejectedReply::RpcMismatch { low: 2, high: 2 }),
        denied(RejectedReply::AuthError(AuthStat::AuthOk)),
        denied(RejectedReply::AuthError(AuthStat::BadCred)),
        denied(RejectedReply::AuthError(AuthStat::RejectedCred)),
        denied(RejectedReply::AuthError(AuthStat::BadVerf)),
        denied(RejectedReply::AuthError(AuthStat::RejectedVerf)),
        denied(RejectedReply::AuthError(AuthStat::TooWeak)),
        denied(RejectedReply::AuthError(AuthStat::InvalidResp)),
        denied(RejectedReply::AuthError(AuthStat::Failed)),
    ]
}

#[test]
fn auth_sys_body_is_exact() {
    let body = identity().encode().unwrap();
    let mut expected = vec![0, 0, 0, 0, 0, 0, 0, 12];
    expected.extend_from_slice(b"test-machine");
    expected.extend_from_slice(&[0, 0, 0x05, 0x39, 0, 0, 0, 42, 0, 0, 0, 1, 0, 0, 0x05, 0x39]);
    assert_eq!(body, expected);
    assert_eq!(AuthSysParameters::decode(&body), Ok(identity()));
}

#[test]
fn auth_sys_matches_sun_rpc() {
    let ours = OpaqueAuth::auth_sys(&identity()).unwrap();
    let theirs = sun_rpc::OpaqueAuth::auth_sys(their_identity());
    assert_eq!(ours.flavor, AuthFlavor::Sys);
    assert_eq!(ours.body, theirs.body);
    let none = OpaqueAuth::none();
    assert_eq!(none.flavor, AuthFlavor::Null);
    assert!(none.body.is_empty());
}

#[test]
fn auth_sys_bounds() {
    let mut long_name = identity();
    long_name.machine_name = vec![b'a'; 256];
    assert_eq!(long_name.encode(), Err(XdrError::LengthOutOfRange));
    assert_eq!(OpaqueAuth::auth_sys(&long_name), Err(XdrError::LengthOutOfRange));
    long_name.machine_name = vec![b'a'; 255];
    let body = long_name.encode().unwrap();
    assert_eq!(body.len() % 4, 0);
    assert_eq!(AuthSysParameters::decode(&body), Ok(long_name));
    let mut many = identity();
    many.gids = vec![7; 17];
    assert_eq!(many.encode(), Err(XdrError::LengthOutOfRange));
    many.gids = vec![7; 16];
    let body = many.encode().unwrap();
    assert!(body.len() <= 400);
    assert_eq!(AuthSysParameters::decode(&body), Ok(many));
}

#[test]
fn auth_sys_decode_faults() {
    let body = identity().encode().unwrap();
    assert_eq!(AuthSysParameters::decode(&body[..body.len() - 1]), Err(XdrError::UnexpectedEnd));
    let mut more = body.clone();
    more.push(0);
    assert_eq!(AuthSysParameters::decode(&more), Err(XdrError::TrailingBytes));
}

#[test]
fn opaque_auth_bounds_and_flavors() {
    let mut out = vec![];
    let long = OpaqueAuth { flavor: AuthFlavor::Dh, body: vec![0; 401] };
    assert_eq!(long.put(&mut out), Err(XdrError::LengthOutOfRange));
    assert!(out.is_empty());
    let gss = OpaqueAuth { flavor: AuthFlavor::RpcSecGss, body: vec![9; 400] };
    gss.put(&mut out).unwrap();
    assert_eq!(&out[..8], &[0, 0, 0, 6, 0, 0, 1, 0x90]);
    let (back, rest) = OpaqueAuth::get(&out).unwrap();
    assert_eq!(back, gss);
    assert!(rest.is_empty());
    assert!(matches!(OpaqueAuth::get(&[0, 0, 0, 4, 0, 0, 0, 0]), Err(XdrError::InvalidDiscriminant)));
    assert!(matches!(OpaqueAuth::get(&[0, 0, 0, 5, 0, 0, 0, 0]), Err(XdrError::InvalidDiscriminant)));
    let mut too_long = vec![0, 0, 0, 1, 0, 0, 1, 0x91];
    too_long.extend_from_slice(&[0; 404]);
    assert!(matches!(OpaqueAuth::get(&too_long), Err(XdrError::LengthOutOfRange)));
}

#[test]
fn call_matches_sun_rpc() {
    let ours = call(5, vec![]).encode().unwrap();
    let theirs = serde_xdr::to_bytes(&sun_rpc::Message {
        xid: sun_rpc::Xid(5),
        body: sun_rpc::MessageBody::Call(sun_rpc::CallBody {
            rpc_version: 2,
            program: 100003,
            version: 4,
            procedure: 1,
            credential: sun_rpc::OpaqueAuth::auth_sys(their_identity()),
            verifier: sun_rpc::OpaqueAuth::none(),
            call_args: (),
        }),
    })
    .unwrap();
    assert_eq!(ours, theirs);
}

#[test]
fn call_with_arguments_matches_sun_rpc() {
    let ours = call(6, vec![0, 0, 0, 3, 0xde, 0xad, 0xbe, 0xef]).encode().unwrap();
    let theirs = serde_xdr::to_bytes(&sun_rpc::Message {
        xid: sun_rpc::Xid(6),
        body: sun_rpc::MessageBody::Call(sun_rpc::CallBody {
            rpc_version: 2,
            program: 100003,
            version: 4,
            procedure: 1,
            credential: sun_rpc::OpaqueAuth::auth_sys(their_identity()),
            verifier: sun_rpc::OpaqueAuth::none(),
            call_args: (3u32, 0xdead_beefu32),
        }),
    })
    .unwrap();
    assert_eq!(ours, theirs);
}

#[test]
fn replies_match_sun_rpc() {
    let verifier = || sun_rpc::OpaqueAuth { flavor: sun_rpc::AuthFlavor::Short, body: vec![1, 2, 3] };
    let accepted = |body: sun_rpc::AcceptedReplyBody<()>| sun_rpc::Message {
        xid: sun_rpc::Xid(77),
        body: sun_rpc::MessageBody::Reply(sun_rpc::ReplyBody::Accepted(sun_rpc::AcceptedReply {
            verifier: verifier(),
            body,
        })),
    };
    let denied = |d| sun_rpc::Message::<()> {
        xid: sun_rpc::Xid(78),
        body: sun_rpc::MessageBody::Reply(sun_rpc::ReplyBody::Denied(d)),
    };
    let theirs = vec![
        accepted(sun_rpc::AcceptedReplyBody::Success(())),
        accepted(sun_rpc::AcceptedReplyBody::ProgramUnavailable),
        accepted(sun_rpc::AcceptedReplyBody::ProgramMismatch { low: 2, high: 4 }),
        accepted(sun_rpc::AcceptedReplyBody::ProcedureUnavailable),
        accepted(sun_rpc::AcceptedReplyBody::GarbageArguments),
        accepted(sun_rpc::AcceptedReplyBody::SystemError),
        denied(sun_rpc::RejectedReply::RpcMismatch { low: 2, high: 2 }),
        denied(sun_rpc::RejectedReply::AuthError(sun_rpc::AuthStat::Ok)),
        denied(sun_rpc::RejectedReply::AuthError(sun_rpc::AuthStat::BadCred)),
        denied(sun_rpc::RejectedReply::AuthError(sun_rpc::AuthStat::RejectedCred)),
        denied(sun_rpc::RejectedReply::AuthError(sun_rpc::AuthStat::BadVerf)),
        denied(sun_rpc::RejectedReply::AuthError(sun_rpc::AuthStat::RejectedVerf)),
        denied(sun_rpc::RejectedReply::AuthError(sun_rpc::AuthStat::TooWeak)),
        denied(sun_rpc::RejectedReply::AuthError(sun_rpc::AuthStat::InvalidResp)),
        denied(sun_rpc::RejectedReply::AuthError(sun_rpc::AuthStat::Failed)),
    ];
    let ours: Vec<Message> = replies().into_iter().enumerate().filter(|(i, _)| *i != 1).map(|(_, m)| m).collect();
    assert_eq!(ours.len(), theirs.len());
    for (o, t) in ours.iter().zip(theirs.iter()) {
        let bytes = serde_xdr::to_bytes(t).unwrap();
        assert_eq!(o.encode().unwrap(), bytes);
        assert_eq!(Message::decode(&bytes).as_ref(), Ok(o));
    }
}

#[test]
fn every_message_is_read_back_as_it_was() {
    let mut all = replies();
    all.push(call(1, vec![]));
    all.push(call(u32::MAX, vec![0, 0, 0, 1, 0, 0, 0, 2]));
    all.push(call(9, vec![1, 2, 3]));
    for m in all {
        let bytes = m.encode().unwrap();
        assert_eq!(Message::decode(&bytes), Ok(m));
    }
}

#[test]
fn every_message_with_an_encoded_payload_is_a_multiple_of_four_bytes() {
    let mut all = replies();
    all.push(call(1, vec![]));
    all.push(call(2, vec![0; 8]));
    for m in all {
        assert_eq!(m.encode().unwrap().len() % 4, 0);
    }
    assert_eq!(call(3, vec![0; 5]).encode().unwrap().len() % 4, 1);
}

#[test]
fn messages_with_long_credentials_are_refused() {
    let mut m = call(1, vec![]);
    if let MessageBody::Call(c) = &mut m.body {
        c.verifier = OpaqueAuth { flavor: AuthFlavor::Null, body: vec![0; 401] };
    }
    assert_eq!(m.encode(), Err(XdrError::LengthOutOfRange));
    let reply = Message {
        xid: 1,
        body: MessageBody::Reply(ReplyBody::Accepted(AcceptedReply {
            verifier: OpaqueAuth { flavor: AuthFlavor::Null, body: vec![0; 500] },
            body: AcceptedReplyBody::SystemError,
        })),
    };
    assert_eq!(reply.encode(), Err(XdrError::LengthOutOfRange));
}

#[test]
fn malformed_messages_are_refused() {
    assert_eq!(Message::decode(&[]), Err(XdrError::UnexpectedEnd));
    assert_eq!(Message::decode(&[0, 0, 0, 1]), Err(XdrError::UnexpectedEnd));
    assert_eq!(Message::decode(&[0, 0, 0, 1, 0, 0, 0, 2]), Err(XdrError::InvalidDiscriminant));
    // a reply that is neither accepted nor denied
    assert_eq!(
        Message::decode(&[0, 0, 0, 1, 0, 0, 0, 1, 0, 0, 0, 2]),
        Err(XdrError::InvalidDiscriminant)
    );
    // an accepted reply with an outcome that does not exist
    assert_eq!(
        Message::decode(&[0, 0, 0, 1, 0, 0, 0, 1, 0, 0, 0, 0, 0, 0, 0, 0, 0, 0, 0, 0, 0, 0, 0, 6]),
        Err(XdrError::InvalidDiscriminant)
    );
    // bytes after an outcome that has no fields
    assert_eq!(
        Message::decode(&[
            0, 0, 0, 1, 0, 0, 0, 1, 0, 0, 0, 0, 0, 0, 0, 0, 0, 0, 0, 0, 0, 0, 0, 1, 0, 0, 0, 0
        ]),
        Err(XdrError::TrailingBytes)
    );
    // a denial with an authentication status that does not exist
    assert_eq!(
        Message::decode(&[0, 0, 0, 1, 0, 0, 0, 1, 0, 0, 0, 1, 0, 0, 0, 1, 0, 0, 0, 8]),
        Err(XdrError::InvalidDiscriminant)
    );
    // a program mismatch cut short
    assert_eq!(
        Message::decode(&[
            0, 0, 0, 1, 0, 0, 0, 1, 0, 0, 0, 0, 0, 0, 0, 0, 0, 0, 0, 0, 0, 0, 0, 2, 0, 0, 0, 1
        ]),
        Err(XdrError::UnexpectedEnd)
    );
}

#[test]
fn record_mark_words() {
    assert_eq!(RecordMark { last: true, len: 76 }.to_word(), Ok(0x8000_004c));
    assert_eq!(RecordMark { last: false, len: 76 }.to_word(), Ok(0x0000_004c));
    assert_eq!(RecordMark { last: true, len: 0x7fff_ffff }.to_word(), Ok(0xffff_ffff));
    assert_eq!(RecordMark { last: true, len: 0x8000_0000 }.to_word(), Err(XdrError::LengthOutOfRange));
    assert_eq!(RecordMark::from_word(0x8000_0000), RecordMark { last: true, len: 0 });
    assert_eq!(RecordMark::from_word(0x7fff_ffff), RecordMark { last: false, len: 0x7fff_ffff });
    assert_eq!(RecordMark::decode(&[0x80, 0, 1, 2]), Ok(RecordMark { last: true, len: 258 }));
    assert_eq!(RecordMark::decode(&[0x80, 0, 1]), Err(XdrError::UnexpectedEnd));
    assert_eq!(RecordMark::decode(&[0x80, 0, 1, 2, 3]), Err(XdrError::TrailingBytes));
}

#[test]
fn frame_is_one_last_fragment() {
    let framed = frame(&[1, 2, 3, 4, 5]).unwrap();
    assert_eq!(framed, vec![0x80, 0, 0, 5, 1, 2, 3, 4, 5]);
    let mut stream = framed.clone();
    stream.extend_from_slice(&[9, 9]);
    let (record, rest) = read_record(&stream).unwrap();
    assert_eq!(record, vec![1, 2, 3, 4, 5]);
    assert_eq!(rest, &[9, 9]);
    assert_eq!(frame(&[]).unwrap(), vec![0x80, 0, 0, 0]);
}

#[test]
fn fragments_are_put_together() {
    let stream = [0, 0, 0, 2, 1, 2, 0, 0, 0, 0, 0x80, 0, 0, 3, 3, 4, 5, 0x80, 0, 0, 1, 6];
    let (mark, data, rest) = read_fragment(&stream).unwrap();
    assert_eq!(mark, RecordMark { last: false, len: 2 });
    assert_eq!(data, &[1, 2]);
    assert_eq!(rest.len(), 16);
    let (record, rest) = read_record(&stream).unwrap();
    assert_eq!(record, vec![1, 2, 3, 4, 5]);
    assert_eq!(rest, &[0x80, 0, 0, 1, 6]);
    let (record, rest) = read_record(rest).unwrap();
    assert_eq!(record, vec![6]);
    assert!(rest.is_empty());
}

#[test]
fn unfinished_records_are_refused() {
    assert_eq!(read_record(&[]), Err(XdrError::UnexpectedEnd));
    assert_eq!(read_record(&[0x80, 0, 0, 2, 1]), Err(XdrError::UnexpectedEnd));
    assert_eq!(read_record(&[0, 0, 0, 1, 1]), Err(XdrError::UnexpectedEnd));
    assert_eq!(read_record(&[0, 0, 0, 1, 1, 0x80, 0, 0]), Err(XdrError::UnexpectedEnd));
}
