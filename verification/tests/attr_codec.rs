use sun_rpc_client::attr_codec::{
    attribute_bitmap, attribute_numbered, attribute_of, bit_at, get_attributes, get_value,
    put_attributes, put_value, AttrFault, EncodeFault,
};
use sun_rpc_client::attrs::{
    AttributeSet, FileAttribute, FileAttributeId, FileAttributes, FileHandle, FileType, FsId, Time,
};
use sun_rpc_client::xdr::XdrError;

const ALL: [FileAttributeId; 11] = [
    FileAttributeId::Type,
    FileAttributeId::Size,
    FileAttributeId::FsId,
    FileAttributeId::LeaseTime,
    FileAttributeId::FileHandle,
    FileAttributeId::FileId,
    FileAttributeId::Mode,
    FileAttributeId::NumLinks,
    FileAttributeId::Owner,
    FileAttributeId::OwnerGroup,
    FileAttributeId::TimeModify,
];

fn full() -> FileAttributes {
    let mut attrs = FileAttributes::new();
    attrs.insert(FileAttribute::TimeModify(Time { seconds: -5, nseconds: 999_999_999 }));
    attrs.insert(FileAttribute::OwnerGroup(String::from("staff")));
    attrs.insert(FileAttribute::Owner(String::from("bob@example.org")));
    attrs.insert(FileAttribute::NumLinks(2));
    attrs.insert(FileAttribute::Mode(0o644));
    attrs.insert(FileAttribute::FileId(0x0102_0304_0506_0708));
    attrs.insert(FileAttribute::FileHandle(FileHandle(vec![1, 2, 3, 4, 5])));
    attrs.insert(FileAttribute::LeaseTime(90));
    attrs.insert(FileAttribute::FsId(FsId { major: 7, minor: u64::MAX }));
    attrs.insert(FileAttribute::Size(100_000));
    attrs.insert(FileAttribute::Type(FileType::Directory));
    attrs
}

fn their_full() -> nfs4::FileAttributes {
    [
        nfs4::FileAttribute::TimeModify(nfs4::Time { seconds: -5, nseconds: 999_999_999 }),
        nfs4::FileAttribute::OwnerGroup(String::from("staff")),
        nfs4::FileAttribute::Owner(String::from("bob@example.org")),
        nfs4::FileAttribute::NumLinks(2),
        nfs4::FileAttribute::Mode(nfs4::Mode(0o644)),
        nfs4::FileAttribute::FileId(nfs4::FileId(0x0102_0304_0506_0708)),
        nfs4::FileAttribute::FileHandle(nfs4::FileHandle(vec![1, 2, 3, 4, 5])),
        nfs4::FileAttribute::LeaseTime(nfs4::Lease(90)),
        nfs4::FileAttribute::FsId(nfs4::FsId { major: 7, minor: u64::MAX }),
        nfs4::FileAttribute::Size(100_000),
        nfs4::FileAttribute::Type(nfs4::FileType::Directory),
    ]
    .into_iter()
    .collect()
}

fn encoded(attrs: &FileAttributes) -> Vec<u8> {
    let mut out = vec![];
    put_attributes(&mut out, attrs).unwrap();
    out
}

#[test]
fn size_alone_is_exact() {
    let mut attrs = FileAttributes::new();
    attrs.insert(FileAttribute::Size(100));
    assert_eq!(
        encoded(&attrs),
        vec![0, 0, 0, 1, 0, 0, 0, 0x10, 0, 0, 0, 8, 0, 0, 0, 0, 0, 0, 0, 100]
    );
}

#[test]
fn mode_alone_needs_two_words() {
    let mut attrs = FileAttributes::new();
    attrs.insert(FileAttribute::Mode(0o644));
    assert_eq!(
        encoded(&attrs),
        vec![0, 0, 0, 2, 0, 0, 0, 0, 0, 0, 0, 2, 0, 0, 0, 4, 0, 0, 0x01, 0xa4]
    );
}

#[test]
fn no_attributes_need_no_words() {
    assert_eq!(encoded(&FileAttributes::new()), vec![0, 0, 0, 0, 0, 0, 0, 0]);
    let (attrs, rest) = get_attributes(&[0, 0, 0, 0, 0, 0, 0, 0, 9]).unwrap();
    assert_eq!(attrs, FileAttributes::new());
    assert_eq!(rest, &[9]);
}

#[test]
fn attributes_match_nfs4() {
    assert_eq!(encoded(&full()), serde_xdr::to_bytes(&their_full()).unwrap());
    let one: nfs4::FileAttributes = [nfs4::FileAttribute::Size(100)].into_iter().collect();
    let mut attrs = FileAttributes::new();
    attrs.insert(FileAttribute::Size(100));
    assert_eq!(encoded(&attrs), serde_xdr::to_bytes(&one).unwrap());
}

#[test]
fn attributes_of_nfs4_are_read() {
    let bytes = serde_xdr::to_bytes(&their_full()).unwrap();
    let (attrs, rest) = get_attributes(&bytes).unwrap();
    assert_eq!(attrs, full());
    assert!(rest.is_empty());
}

#[test]
fn attributes_are_read_back_as_they_were() {
    for mask in 0u32..(1 << 11) {
        let mut attrs = FileAttributes::new();
        for (i, id) in ALL.iter().enumerate() {
            if mask & (1 << i) != 0 {
                attrs.insert(attribute_of(&full(), *id).unwrap());
            }
        }
        let mut bytes = encoded(&attrs);
        assert_eq!(bytes.len() % 4, 0);
        bytes.extend_from_slice(&[0xab, 0xcd]);
        let (back, rest) = get_attributes(&bytes).unwrap();
        assert_eq!(back, attrs);
        assert_eq!(rest, &[0xab, 0xcd]);
    }
}

#[test]
fn bits_of_the_bitmap_are_the_keys() {
    for mask in 0u32..(1 << 11) {
        let mut set = AttributeSet::empty();
        for (i, id) in ALL.iter().enumerate() {
            if mask & (1 << i) != 0 {
                set = set.with(*id);
            }
        }
        let words = attribute_bitmap(&set);
        assert!(words.len() <= 2);
        assert!(words.last() != Some(&0));
        for n in 0..96u64 {
            let key = attribute_numbered(n).map(|id| set.contains(id)).unwrap_or(false);
            assert_eq!(bit_at(&words, n), key);
            let plain = words.get((n / 32) as usize).map(|w| w >> (n % 32) & 1 == 1).unwrap_or(false);
            assert_eq!(bit_at(&words, n), plain);
        }
    }
}

#[test]
fn bitmap_matches_nfs4() {
    let set = AttributeSet::of(&[
        FileAttributeId::Mode,
        FileAttributeId::NumLinks,
        FileAttributeId::Owner,
        FileAttributeId::Size,
        FileAttributeId::TimeModify,
    ]);
    let theirs: nfs4::EnumSet<nfs4::FileAttributeId> = [
        nfs4::FileAttributeId::Mode,
        nfs4::FileAttributeId::NumLinks,
        nfs4::FileAttributeId::Owner,
        nfs4::FileAttributeId::Size,
        nfs4::FileAttributeId::TimeModify,
    ]
    .into_iter()
    .collect();
    let words = attribute_bitmap(&set);
    assert_eq!(words, vec![0x10, 0x0020_001a]);
    assert_eq!(serde_xdr::to_bytes(&words).unwrap(), serde_xdr::to_bytes(&theirs).unwrap());
    let low = AttributeSet::of(&[FileAttributeId::FileHandle, FileAttributeId::Type]);
    assert_eq!(attribute_bitmap(&low), vec![0x0008_0002]);
    assert_eq!(attribute_bitmap(&AttributeSet::empty()), Vec::<u32>::new());
}

#[test]
fn unknown_attributes_are_refused() {
    // bit 0, the supported attributes, with a value that cannot be skipped
    let bytes = [0, 0, 0, 1, 0, 0, 0, 1, 0, 0, 0, 4, 0, 0, 0, 0];
    assert_eq!(get_attributes(&bytes), Err(AttrFault::UnknownAttribute(0)));
    // the lowest unknown bit is named, after the known bits before it were read
    let bytes = [0, 0, 0, 1, 0, 0, 0, 0x32, 0, 0, 0, 12, 0, 0, 0, 1, 0, 0, 0, 0, 0, 0, 0, 7];
    assert_eq!(get_attributes(&bytes), Err(AttrFault::UnknownAttribute(5)));
    // a bit in a third word
    let bytes = [0, 0, 0, 3, 0, 0, 0, 0, 0, 0, 0, 0, 0, 0, 0, 4, 0, 0, 0, 0];
    assert_eq!(get_attributes(&bytes), Err(AttrFault::UnknownAttribute(66)));
    // empty words after the last bit do no harm
    let bytes = [0, 0, 0, 3, 0, 0, 0, 0x10, 0, 0, 0, 0, 0, 0, 0, 0, 0, 0, 0, 8, 0, 0, 0, 0, 0, 0, 0, 9];
    assert_eq!(get_attributes(&bytes).unwrap().0.size, Some(9));
}

#[test]
fn values_must_fill_their_blob() {
    let mut attrs = FileAttributes::new();
    attrs.insert(FileAttribute::Size(1));
    let mut bytes = encoded(&attrs);
    bytes[11] = 12;
    bytes.extend_from_slice(&[0, 0, 0, 0]);
    assert_eq!(get_attributes(&bytes), Err(AttrFault::Malformed(XdrError::TrailingBytes)));
    let mut short = encoded(&attrs);
    short[11] = 4;
    short.truncate(16);
    assert_eq!(get_attributes(&short), Err(AttrFault::Malformed(XdrError::UnexpectedEnd)));
    assert_eq!(get_attributes(&[0, 0, 0, 1]), Err(AttrFault::Malformed(XdrError::UnexpectedEnd)));
    assert_eq!(get_attributes(&[]), Err(AttrFault::Malformed(XdrError::UnexpectedEnd)));
}

#[test]
fn values_one_by_one() {
    let mut out = vec![];
    put_value(&mut out, &FileAttribute::TimeModify(Time { seconds: -1, nseconds: 5 })).unwrap();
    assert_eq!(out, vec![255, 255, 255, 255, 255, 255, 255, 255, 0, 0, 0, 5]);
    assert_eq!(
        get_value(FileAttributeId::TimeModify, &out),
        Ok((FileAttribute::TimeModify(Time { seconds: -1, nseconds: 5 }), &[][..]))
    );
    for seconds in [i64::MIN, -1, 0, 1, i64::MAX] {
        let mut out = vec![];
        let attr = FileAttribute::TimeModify(Time { seconds, nseconds: 0 });
        put_value(&mut out, &attr).unwrap();
        assert_eq!(&out[..8], &seconds.to_be_bytes());
        assert_eq!(get_value(FileAttributeId::TimeModify, &out).unwrap().0, attr);
    }
    let mut out = vec![];
    put_value(&mut out, &FileAttribute::Owner(String::from("größe"))).unwrap();
    assert_eq!(out, vec![0, 0, 0, 7, b'g', b'r', 0xc3, 0xb6, 0xc3, 0x9f, b'e', 0]);
    assert_eq!(
        get_value(FileAttributeId::Owner, &out).unwrap().0,
        FileAttribute::Owner(String::from("größe"))
    );
    let mut out = vec![];
    put_value(&mut out, &FileAttribute::Type(FileType::AttrDir)).unwrap();
    assert_eq!(out, vec![0, 0, 0, 8]);
}

#[test]
fn value_faults() {
    assert_eq!(
        get_value(FileAttributeId::TimeModify, &[0, 0, 0, 0, 0, 0, 0, 0, 0x3b, 0x9a, 0xca, 0x00]),
        Err(AttrFault::InvalidTime)
    );
    assert_eq!(get_value(FileAttributeId::Type, &[0, 0, 0, 0]), Err(AttrFault::InvalidFileType(0)));
    assert_eq!(get_value(FileAttributeId::Type, &[0, 0, 0, 9]), Err(AttrFault::InvalidFileType(9)));
    assert_eq!(get_value(FileAttributeId::Owner, &[0, 0, 0, 1, 0xff, 0, 0, 0]), Err(AttrFault::InvalidText));
    assert_eq!(
        get_value(FileAttributeId::Owner, &[0, 0, 0, 9, b'a', 0, 0, 0]),
        Err(AttrFault::Malformed(XdrError::LengthOutOfRange))
    );
    assert_eq!(
        get_value(FileAttributeId::Owner, &[0, 0, 0, 5, b'a', 0, 0, 0]),
        Err(AttrFault::Malformed(XdrError::UnexpectedEnd))
    );
    let mut long = vec![0, 0, 0, 129];
    long.extend_from_slice(&[0; 132]);
    assert_eq!(
        get_value(FileAttributeId::FileHandle, &long),
        Err(AttrFault::Malformed(XdrError::LengthOutOfRange))
    );
    assert_eq!(get_value(FileAttributeId::Size, &[0; 7]), Err(AttrFault::Malformed(XdrError::UnexpectedEnd)));
    let mut out = vec![1];
    assert_eq!(
        put_value(&mut out, &FileAttribute::TimeModify(Time { seconds: 0, nseconds: 1_000_000_000 })),
        Err(AttrFault::InvalidTime)
    );
    assert_eq!(
        put_value(&mut out, &FileAttribute::FileHandle(FileHandle(vec![0; 129]))),
        Err(AttrFault::Malformed(XdrError::LengthOutOfRange))
    );
    assert_eq!(out, vec![1]);
    let mut attrs = FileAttributes::new();
    attrs.insert(FileAttribute::FileHandle(FileHandle(vec![0; 129])));
    assert_eq!(put_attributes(&mut out, &attrs), Err(EncodeFault::Value));
    assert_eq!(out, vec![1]);
    attrs.insert(FileAttribute::FileHandle(FileHandle(vec![0; 128])));
    assert_eq!(put_attributes(&mut out, &attrs), Ok(()));
}

#[test]
fn sets_of_attributes() {
    let a = AttributeSet::of(&[FileAttributeId::Size, FileAttributeId::Mode, FileAttributeId::Size]);
    let b = AttributeSet::empty().with(FileAttributeId::Owner).with(FileAttributeId::Mode);
    let both = a.union(b);
    for id in ALL {
        let wanted = matches!(id, FileAttributeId::Size | FileAttributeId::Mode | FileAttributeId::Owner);
        assert_eq!(both.contains(id), wanted);
    }
    assert_eq!(full().keys(), AttributeSet::of(&ALL));
    assert_eq!(FileAttributes::new().keys(), AttributeSet::empty());
}
