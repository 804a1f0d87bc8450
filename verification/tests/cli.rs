use sun_rpc_client::attrs::{FileAttribute, FileAttributeId, FileAttributes, FileHandle};
use sun_rpc_client::cli::{file_attrs, file_handle, format_handle_line, parse_setting};
use sun_rpc_client::text::find_char;
use sun_rpc_client::decimal::{parse_u64, ParseIntFault};

#[test]
fn file_handle_from_hex() {
    assert_eq!(file_handle("0a1B"), Ok(FileHandle(vec![0x0a, 0x1b])));
    assert_eq!(file_handle(""), Ok(FileHandle(vec![])));
    assert_eq!(file_handle("00ff10"), Ok(FileHandle(vec![0, 255, 16])));
    assert_eq!(
        file_handle("0123456789abcdefABCDEF"),
        Ok(FileHandle(vec![0x01, 0x23, 0x45, 0x67, 0x89, 0xab, 0xcd, 0xef, 0xab, 0xcd, 0xef]))
    );
}

#[test]
fn file_handle_faults() {
    assert_eq!(file_handle("abc"), Err(String::from("Odd number of digits")));
    assert_eq!(file_handle("g0"), Err(String::from("Invalid character 'g' at position 0")));
    assert_eq!(file_handle("0a0x"), Err(String::from("Invalid character 'x' at position 3")));
    assert_eq!(file_handle("0 "), Err(String::from("Invalid character ' ' at position 1")));
}

#[test]
fn handle_line_is_hex_then_name() {
    let handle = FileHandle(vec![0x01, 0xab, 0xff, 0x00]);
    assert_eq!(format_handle_line(&handle, "a_file"), "01abff00 a_file");
    assert_eq!(format_handle_line(&FileHandle(vec![]), ""), " ");
    let all: Vec<u8> = (0..=255).collect();
    let line = format_handle_line(&FileHandle(all.clone()), "x");
    assert_eq!(file_handle(&line[..512]), Ok(FileHandle(all)));
}

#[test]
fn handles_are_compared_by_their_bytes() {
    let a = FileHandle(vec![1, 2, 3]);
    assert!(a.same(&a.duplicate()));
    assert!(!a.same(&FileHandle(vec![1, 2, 4])));
    assert!(!a.same(&FileHandle(vec![1, 2])));
    assert!(FileHandle(vec![]).same(&FileHandle(vec![])));
}

#[test]
fn file_attrs_reads_settings() {
    let attrs = file_attrs("size=100").unwrap();
    assert_eq!(attrs.size, Some(100));
    assert!(attrs.contains(FileAttributeId::Size));
    assert!(!attrs.contains(FileAttributeId::Owner));
    let attrs = file_attrs("size=1,owner=bob,owner_group=staff").unwrap();
    let mut expected = FileAttributes::new();
    expected.insert(FileAttribute::OwnerGroup(String::from("staff")));
    expected.insert(FileAttribute::Size(1));
    expected.insert(FileAttribute::Owner(String::from("bob")));
    assert_eq!(attrs, expected);
}

#[test]
fn file_attrs_later_setting_wins() {
    let attrs = file_attrs("size=1,owner=a,size=2,owner=b").unwrap();
    assert_eq!(attrs.size, Some(2));
    assert_eq!(attrs.owner, Some(String::from("b")));
    assert_eq!(attrs.owner_group, None);
}

#[test]
fn file_attrs_values_are_taken_as_they_are() {
    assert_eq!(file_attrs("owner=").unwrap().owner, Some(String::new()));
    assert_eq!(file_attrs("owner=a=b").unwrap().owner, Some(String::from("a=b")));
    assert_eq!(file_attrs("owner= bob ").unwrap().owner, Some(String::from(" bob ")));
    assert_eq!(file_attrs("owner_group=größe@日本").unwrap().owner_group, Some(String::from("größe@日本")));
    assert_eq!(file_attrs("size=+7").unwrap().size, Some(7));
    assert_eq!(file_attrs("size=18446744073709551615").unwrap().size, Some(u64::MAX));
    assert_eq!(file_attrs("size=007").unwrap().size, Some(7));
}

#[test]
fn file_attrs_faults() {
    assert_eq!(file_attrs(""), Err(String::from("Missing `=`")));
    assert_eq!(file_attrs("size"), Err(String::from("Missing `=`")));
    assert_eq!(file_attrs("size=1,"), Err(String::from("Missing `=`")));
    assert_eq!(file_attrs(",size=1"), Err(String::from("Missing `=`")));
    assert_eq!(file_attrs("mode=644"), Err(String::from("unsupported attribute `mode`")));
    assert_eq!(file_attrs("=5"), Err(String::from("unsupported attribute ``")));
    assert_eq!(file_attrs("Size=5"), Err(String::from("unsupported attribute `Size`")));
    assert_eq!(file_attrs("size=abc"), Err(String::from("invalid digit found in string")));
    assert_eq!(file_attrs("size="), Err(String::from("cannot parse integer from empty string")));
    assert_eq!(file_attrs("size=-1"), Err(String::from("invalid digit found in string")));
    assert_eq!(
        file_attrs("size=18446744073709551616"),
        Err(String::from("number too large to fit in target type"))
    );
    // the first setting that cannot be read decides
    assert_eq!(file_attrs("size=x,mode=1"), Err(String::from("invalid digit found in string")));
    assert_eq!(file_attrs("owner=a,mode=1,size=x"), Err(String::from("unsupported attribute `mode`")));
}

#[test]
fn settings_one_by_one() {
    assert_eq!(parse_setting("size=12"), Ok(FileAttribute::Size(12)));
    assert_eq!(parse_setting("owner=root"), Ok(FileAttribute::Owner(String::from("root"))));
    assert_eq!(parse_setting("owner_group=wheel"), Ok(FileAttribute::OwnerGroup(String::from("wheel"))));
    assert_eq!(parse_setting("owner=a,b"), Ok(FileAttribute::Owner(String::from("a,b"))));
    assert_eq!(find_char("a=b=c", '='), Some(1));
    assert_eq!(find_char("日本=c", '='), Some(2));
    assert_eq!(find_char("abc", '='), None);
    assert_eq!(find_char("", '='), None);
}

#[test]
fn decimal_numbers_are_read_as_std_reads_them() {
    let cases = [
        "", "+", "-", "0", "+0", "-0", "00", "1", "42", "+42", "++42", "4 2", " 42", "42 ", "4_2",
        "18446744073709551615", "18446744073709551616", "18446744073709551620",
        "184467440737095516150", "99999999999999999999", "99999999999999999999x",
        "1844674407370955161x", "18446744073709551615x", "x18446744073709551616", "٣", "1٣",
        "000000000000000000000000000001", "+18446744073709551615",
    ];
    for case in cases {
        let ours = parse_u64(case).map_err(|e| e.message());
        let theirs = case.parse::<u64>().map_err(|e| e.to_string());
        assert_eq!(ours, theirs, "{:?}", case);
    }
    assert_eq!(parse_u64(""), Err(ParseIntFault::Empty));
    assert_eq!(parse_u64("+"), Err(ParseIntFault::InvalidDigit));
    assert_eq!(parse_u64("18446744073709551616"), Err(ParseIntFault::PosOverflow));
    assert_eq!(parse_u64("1234567890"), Ok(1234567890));
}

#[test]
fn attributes_are_kept_under_their_ids() {
    let mut attrs = FileAttributes::new();
    for id in [FileAttributeId::Type, FileAttributeId::Mode, FileAttributeId::TimeModify] {
        assert!(!attrs.contains(id));
    }
    attrs.insert(FileAttribute::Mode(0o644));
    attrs.insert(FileAttribute::Mode(0o600));
    assert_eq!(attrs.mode, Some(0o600));
    assert!(attrs.contains(FileAttributeId::Mode));
    assert_eq!(FileAttribute::Mode(1).id(), FileAttributeId::Mode);
    let numbers: Vec<u32> = [
        FileAttributeId::Type, FileAttributeId::Size, FileAttributeId::FsId,
        FileAttributeId::LeaseTime, FileAttributeId::FileHandle, FileAttributeId::FileId,
        FileAttributeId::Mode, FileAttributeId::NumLinks, FileAttributeId::Owner,
        FileAttributeId::OwnerGroup, FileAttributeId::TimeModify,
    ].into_iter().map(|id| id.to_number()).collect();
    assert_eq!(numbers, vec![1, 4, 8, 10, 19, 20, 33, 35, 36, 37, 53]);
    for n in 0..80 {
        match FileAttributeId::from_number(n) {
            Some(id) => assert_eq!(id.to_number(), n),
            None => assert!(!numbers.contains(&n)),
        }
    }
}
