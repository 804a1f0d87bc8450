//! What the command line needs besides the protocol: reading attribute
//! settings and file handles from arguments, and writing listings.

use crate::attrs::{
    AttrModel, AttributeSet, DirectoryEntry, FileAttribute, FileAttributeId, FileAttributes, FileHandle,
};
use crate::decimal::{
    decimal_text, decimal_u64, format_decimal, format_octal, left_align, left_aligned, octal_text,
    parse_u64, right_align, right_aligned,
};
use crate::hexadecimal::{decode_hex, encode_hex, hex_decoded, hex_error_text, hex_text, is_hex};
use crate::compound::{path_components, path_names};
use crate::text::{find_char, index_of, is_first};
use vstd::prelude::*;
use vstd::string::*;

verus! {

/// Reads a file handle from its hexadecimal form. Fails, with the words of
/// the `hex` crate, where the text is not made of pairs of hexadecimal
/// digits.
pub fn file_handle(s: &str) -> (r: Result<FileHandle, String>)
    ensures
        match r {
            Ok(handle) => is_hex(s.spec_bytes()) && handle@ == hex_decoded(s.spec_bytes()),
            Err(text) => !is_hex(s.spec_bytes()) && text@ == hex_error_text(s.spec_bytes()) && (
            s.spec_bytes().len() % 2 != 0 ==> text@ == "Odd number of digits"@),
        },
{
    match decode_hex(s) {
        Ok(bytes) => Ok(FileHandle(bytes)),
        Err(text) => Err(text),
    }
}

/// The line of a listing that shows a file's handle and name: the handle in
/// hexadecimal, a blank, and the name.
pub open spec fn handle_line(handle: Seq<u8>, name: Seq<char>) -> Seq<char> {
    hex_text(handle) + seq![' '] + name
}

/// The line of a listing that shows a file's handle and name.
pub fn format_handle_line(handle: &FileHandle, name: &str) -> (r: String)
    ensures
        r@ == handle_line(handle@, name@),
{
    let text = encode_hex(handle.0.as_slice());
    proof {
        reveal_strlit(" ");
        assert(" "@ =~= seq![' ']);
    }
    text.concat(" ").concat(name)
}

/// What one setting of the form `key=value` asks for. The keys are `size`,
/// with a decimal number, and `owner` and `owner_group`, with any text.
pub open spec fn setting(item: Seq<char>) -> Result<AttrModel, Seq<char>> {
    match index_of(item, '=') {
        None => Err("Missing `=`"@),
        Some(i) => {
            let key = item.take(i);
            let value = item.skip(i + 1);
            if key == "size"@ {
                match decimal_u64(value) {
                    Ok(v) => Ok(AttrModel::Size(v)),
                    Err(e) => Err(e.text()),
                }
            } else if key == "owner"@ {
                Ok(AttrModel::Owner(value))
            } else if key == "owner_group"@ {
                Ok(AttrModel::OwnerGroup(value))
            } else {
                Err("unsupported attribute `"@ + key + "`"@)
            }
        },
    }
}

/// Reads one setting of the form `key=value`.
pub fn parse_setting(item: &str) -> (r: Result<FileAttribute, String>)
    ensures
        match r {
            Ok(attr) => setting(item@) == Ok::<AttrModel, Seq<char>>(attr@),
            Err(text) => setting(item@) == Err::<AttrModel, Seq<char>>(text@),
        },
{
    let i = match find_char(item, '=') {
        Some(i) => i,
        None => { return Err("Missing `=`".to_owned()); },
    };
    proof {
        assert(is_first(item@, '=', i as int));
    }
    let n: usize = item.unicode_len();
    let key = item.substring_char(0, i);
    let value = item.substring_char(i + 1, n);
    assert(key@ =~= item@.take(i as int));
    assert(value@ =~= item@.skip(i + 1));
    let key_text = key.to_owned();
    if key_text == "size".to_owned() {
        match parse_u64(value) {
            Ok(v) => Ok(FileAttribute::Size(v)),
            Err(e) => Err(e.message()),
        }
    } else if key_text == "owner".to_owned() {
        Ok(FileAttribute::Owner(value.to_owned()))
    } else if key_text == "owner_group".to_owned() {
        Ok(FileAttribute::OwnerGroup(value.to_owned()))
    } else {
        Err("unsupported attribute `".to_owned().concat(key).concat("`"))
    }
}

/// What the settings in `s`, divided by commas, make of the attribute set
/// `acc`, taken from left to right. A later setting of an attribute takes the
/// place of an earlier one. The first setting that cannot be read ends the
/// reading with its error.
pub open spec fn settings_from(acc: Map<FileAttributeId, AttrModel>, s: Seq<char>) -> Result<
    Map<FileAttributeId, AttrModel>,
    Seq<char>,
>
    decreases s.len(),
{
    match index_of(s, ',') {
        None => match setting(s) {
            Err(e) => Err(e),
            Ok(a) => Ok(acc.insert(a.id(), a)),
        },
        Some(i) => match setting(s.take(i)) {
            Err(e) => Err(e),
            Ok(a) => if 0 <= i < s.len() {
                settings_from(acc.insert(a.id(), a), s.skip(i + 1))
            } else {
                Ok(acc.insert(a.id(), a))
            },
        },
    }
}

/// Reads attribute settings of the form `key=value,key=value`.
pub fn file_attrs(s: &str) -> (r: Result<FileAttributes, String>)
    ensures
        match r {
            Ok(attrs) => settings_from(Map::empty(), s@) == Ok::<
                Map<FileAttributeId, AttrModel>,
                Seq<char>,
            >(attrs@),
            Err(text) => settings_from(Map::empty(), s@) == Err::<
                Map<FileAttributeId, AttrModel>,
                Seq<char>,
            >(text@),
        },
{
    let mut attrs = FileAttributes::new();
    let mut rest: &str = s;
    loop
        invariant
            settings_from(Map::empty(), s@) == settings_from(attrs@, rest@),
        decreases rest@.len(),
    {
        match find_char(rest, ',') {
            None => {
                let attr = parse_setting(rest)?;
                attrs.insert(attr);
                return Ok(attrs);
            },
            Some(i) => {
                proof {
                    assert(is_first(rest@, ',', i as int));
                }
                let n: usize = rest.unicode_len();
                let item = rest.substring_char(0, i);
                assert(item@ =~= rest@.take(i as int));
                let attr = parse_setting(item)?;
                attrs.insert(attr);
                let next = rest.substring_char(i + 1, n);
                assert(next@ =~= rest@.skip(i + 1));
                rest = next;
            },
        }
    }
}

/// The line of a long listing: the mode in octal, the number of links in a
/// field of 3, the owner in a field of 5, the size in a field of 10, the time
/// of the last change in a field of 31, and the name, with a blank between
/// each two. Numbers stand at the right of their fields, texts at the left.
pub open spec fn listing_line(
    mode: u32,
    num_links: u32,
    owner: Seq<char>,
    size: u64,
    modified: Seq<char>,
    name: Seq<char>,
) -> Seq<char> {
    "Mode("@ + octal_text(mode as nat) + ") "@ + right_aligned(decimal_text(num_links as nat), 3)
        + " "@ + left_aligned(owner, 5) + " "@ + right_aligned(decimal_text(size as nat), 10)
        + " "@ + left_aligned(modified, 31) + " "@ + name
}

/// The line of a long listing for the values given.
pub fn format_listing_line(
    mode: u32,
    num_links: u32,
    owner: &str,
    size: u64,
    modified: &str,
    name: &str,
) -> (r: String)
    ensures
        r@ == listing_line(mode, num_links, owner@, size, modified@, name@),
{
    let mode_text = format_octal(mode as u64);
    let links_text = format_decimal(num_links as u64);
    let links_field = right_align(links_text.as_str(), 3);
    let owner_field = left_align(owner, 5);
    let size_text = format_decimal(size);
    let size_field = right_align(size_text.as_str(), 10);
    let modified_field = left_align(modified, 31);
    "Mode(".to_owned().concat(mode_text.as_str()).concat(") ").concat(links_field.as_str()).concat(
        " ",
    ).concat(owner_field.as_str()).concat(" ").concat(size_field.as_str()).concat(" ").concat(
        modified_field.as_str(),
    ).concat(" ").concat(name)
}

/// The line of a long listing for `entry`, with `modified` as the text for
/// the time of its last change. There is none where the entry lacks the mode,
/// the number of links, the owner, the size or the time of the last change.
pub fn format_entry(entry: &DirectoryEntry, modified: &str) -> (r: Option<String>)
    ensures
        match (
            entry.attrs.mode,
            entry.attrs.num_links,
            entry.attrs.owner,
            entry.attrs.size,
            entry.attrs.time_modify,
        ) {
            (Some(mode), Some(num_links), Some(owner), Some(size), Some(_)) => r is Some
                && r->0@ == listing_line(mode, num_links, owner@, size, modified@, entry.name@),
            _ => r is None,
        },
{
    let mode = match entry.attrs.mode {
        Some(mode) => mode,
        None => { return None; },
    };
    let num_links = match entry.attrs.num_links {
        Some(num_links) => num_links,
        None => { return None; },
    };
    let owner = match &entry.attrs.owner {
        Some(owner) => owner,
        None => { return None; },
    };
    let size = match entry.attrs.size {
        Some(size) => size,
        None => { return None; },
    };
    if entry.attrs.time_modify.is_none() {
        return None;
    }
    Some(
        format_listing_line(mode, num_links, owner.as_str(), size, modified, entry.name.as_str()),
    )
}

/// The line of a listing of handles for `entry`. There is none where the
/// entry lacks the handle.
pub fn format_handle_entry(entry: &DirectoryEntry) -> (r: Option<String>)
    ensures
        match entry.attrs.file_handle {
            Some(handle) => r is Some && r->0@ == handle_line(handle@, entry.name@),
            None => r is None,
        },
{
    match &entry.attrs.file_handle {
        Some(handle) => Some(format_handle_line(handle, entry.name.as_str())),
        None => None,
    }
}

/// The attributes that a long listing asks for.
pub fn listing_request() -> (r: AttributeSet)
    ensures
        r@ == set![
            FileAttributeId::Mode,
            FileAttributeId::NumLinks,
            FileAttributeId::Owner,
            FileAttributeId::Size,
            FileAttributeId::TimeModify,
        ],
{
    let r = AttributeSet::empty().with(FileAttributeId::Mode).with(FileAttributeId::NumLinks).with(
        FileAttributeId::Owner,
    ).with(FileAttributeId::Size).with(FileAttributeId::TimeModify);
    assert(r@ =~= set![
        FileAttributeId::Mode,
        FileAttributeId::NumLinks,
        FileAttributeId::Owner,
        FileAttributeId::Size,
        FileAttributeId::TimeModify,
    ]);
    r
}

/// The attributes that a listing of handles by path asks for: those of a
/// long listing, and the handle.
pub fn handle_listing_request() -> (r: AttributeSet)
    ensures
        r@ == set![
            FileAttributeId::Mode,
            FileAttributeId::NumLinks,
            FileAttributeId::Owner,
            FileAttributeId::Size,
            FileAttributeId::TimeModify,
            FileAttributeId::FileHandle,
        ],
{
    let r = listing_request().with(FileAttributeId::FileHandle);
    assert(r@ =~= set![
        FileAttributeId::Mode,
        FileAttributeId::NumLinks,
        FileAttributeId::Owner,
        FileAttributeId::Size,
        FileAttributeId::TimeModify,
        FileAttributeId::FileHandle,
    ]);
    r
}

/// The one attribute that a listing of handles by handle asks for.
pub fn handle_request() -> (r: AttributeSet)
    ensures
        r@ == set![FileAttributeId::FileHandle],
{
    let r = AttributeSet::empty().with(FileAttributeId::FileHandle);
    assert(r@ =~= set![FileAttributeId::FileHandle]);
    r
}

/// The texts of the names in `names`.
pub open spec fn texts(names: Seq<String>) -> Seq<Seq<char>> {
    names.map_values(|name: String| name@)
}

/// Whether the path ends in a slash.
pub open spec fn ends_in_slash(path: Seq<char>) -> bool {
    path.len() > 0 && path.last() == '/'
}

/// Whether the path ends in a slash.
pub fn ends_with_slash(path: &str) -> (r: bool)
    ensures
        r == ends_in_slash(path@),
{
    let n: usize = path.unicode_len();
    n > 0 && path.get_char(n - 1) as u32 == 47
}

/// Divides a path into the names of the directory that holds its last name,
/// and that last name. The root, which has no name, cannot be divided.
pub fn split_parent(path: &str) -> (r: Option<(Vec<String>, String)>)
    ensures
        match r {
            Some((parent, name)) => path_names(path@).len() > 0 && texts(parent@) == path_names(
                path@,
            ).drop_last() && name@ == path_names(path@).last(),
            None => path_names(path@).len() == 0,
        },
{
    let mut names = path_components(path);
    let ghost all = names@;
    match names.pop() {
        None => None,
        Some(name) => {
            assert(texts(names@) =~= texts(all).drop_last());
            assert(name@ == texts(all).last());
            Some((names, name))
        },
    }
}

/// Where a download goes: into the local path itself, or, where that ends in
/// a slash and so names a directory, to the last name of the remote path
/// under it. There is no such place where the directory is wanted and the
/// remote path has no name.
pub fn download_target(local: &str, remote: &str) -> (r: Option<String>)
    ensures
        !ends_in_slash(local@) ==> r is Some && r->0@ == local@,
        ends_in_slash(local@) && path_names(remote@).len() == 0 ==> r is None,
        ends_in_slash(local@) && path_names(remote@).len() > 0 ==> r is Some && r->0@ == local@
            + path_names(remote@).last(),
{
    if ends_with_slash(local) {
        match split_parent(remote) {
            None => None,
            Some((_, name)) => Some(local.to_owned().concat(name.as_str())),
        }
    } else {
        Some(local.to_owned())
    }
}

/// Where an upload goes: the names of the remote directory, and the name of
/// the file in it. A remote path that ends in a slash names the directory,
/// and the file keeps the name `local_name` that it has here; any other
/// remote path names the file itself. There is no such place where the name
/// that is needed is missing.
pub fn upload_target(remote: &str, local_name: Option<&str>) -> (r: Option<(Vec<String>, String)>)
    ensures
        ends_in_slash(remote@) ==> match (local_name, r) {
            (Some(wanted), Some((parent, name))) => texts(parent@) == path_names(remote@) && name@
                == wanted@,
            (Some(_), None) => false,
            (None, found) => found is None,
        },
        !ends_in_slash(remote@) ==> match r {
            Some((parent, name)) => path_names(remote@).len() > 0 && texts(parent@) == path_names(
                remote@,
            ).drop_last() && name@ == path_names(remote@).last(),
            None => path_names(remote@).len() == 0,
        },
{
    if ends_with_slash(remote) {
        match local_name {
            Some(name) => Some((path_components(remote), name.to_owned())),
            None => None,
        }
    } else {
        split_parent(remote)
    }
}

} // verus!
