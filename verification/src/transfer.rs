//! The steps of what takes more than one call: reading a file, writing one,
//! and listing a directory. After each reply the caller asks here what to do
//! next.

use crate::status::{status_meaning, NfsError, NFS4ERR_BAD_COOKIE};
use vstd::prelude::*;
use vstd::slice::slice_subrange;

verus! {

/// The most bytes that are asked for or sent in one call, unless the server
/// allows fewer.
pub const CHUNK_BYTES: u32 = 0x10_0000;

/// Why a transfer cannot go on.
#[derive(Clone, Copy, Debug, PartialEq, Eq, Structural)]
pub enum TransferFault {
    /// The server handed over or took nothing, and did not say that the end
    /// was reached.
    NoProgress,
    /// The server says it took more than it was sent.
    TooMuch,
    /// The place in the file does not fit in 64 bits any more.
    OffsetOverflow,
}

/// What to do after a reply to a read.
#[derive(Clone, Copy, Debug, PartialEq, Eq, Structural)]
pub enum ReadNext {
    /// The file is read to its end.
    Done,
    /// Read on from `offset`.
    Continue { offset: u64 },
    /// Give up.
    Fault(TransferFault),
}

/// How many bytes to ask for in one read: a chunk, or what the server allows
/// at most where that is less.
pub fn read_count(max_read: Option<u64>) -> (r: u32)
    ensures
        r == (match max_read {
            Some(max) => if max < CHUNK_BYTES {
                max as u32
            } else {
                CHUNK_BYTES
            },
            None => CHUNK_BYTES,
        }),
        r <= CHUNK_BYTES,
{
    match max_read {
        Some(max) => if max < CHUNK_BYTES as u64 {
            max as u32
        } else {
            CHUNK_BYTES
        },
        None => CHUNK_BYTES,
    }
}

/// What to do after a read at `offset` brought `received` bytes and the word
/// `eof` on whether the end was reached.
pub open spec fn read_next(offset: u64, received: u64, eof: bool) -> ReadNext {
    if eof {
        ReadNext::Done
    } else if received == 0 {
        ReadNext::Fault(TransferFault::NoProgress)
    } else if offset + received > u64::MAX {
        ReadNext::Fault(TransferFault::OffsetOverflow)
    } else {
        ReadNext::Continue { offset: (offset + received) as u64 }
    }
}

/// What to do after a read at `offset` brought `received` bytes and the word
/// `eof` on whether the end was reached. A short read is no fault: reading
/// goes on after the bytes that came.
pub fn read_step(offset: u64, received: u64, eof: bool) -> (r: ReadNext)
    ensures
        r == read_next(offset, received, eof),
{
    if eof {
        ReadNext::Done
    } else if received == 0 {
        ReadNext::Fault(TransferFault::NoProgress)
    } else if received > u64::MAX - offset {
        ReadNext::Fault(TransferFault::OffsetOverflow)
    } else {
        ReadNext::Continue { offset: offset + received }
    }
}

/// An empty file is read with one call: no bytes and the end at once.
pub proof fn lemma_empty_file_read_at_once()
    ensures
        read_next(0, 0, true) == ReadNext::Done,
{
}

/// Reading goes on exactly where the bytes that came end, and only forward.
pub proof fn lemma_read_goes_forward(offset: u64, received: u64, eof: bool)
    ensures
        read_next(offset, received, eof) matches ReadNext::Continue { offset: next } ==> next
            == offset + received && next > offset && !eof,
{
}

/// What is left to do after the server took `written` bytes of the `sent`
/// bytes that were sent for `offset`: the place to write on from and the
/// number of bytes, from the end of those sent, that are still to be sent.
pub open spec fn write_next(offset: u64, sent: nat, written: u32) -> Result<
    (u64, nat),
    TransferFault,
> {
    if written > sent {
        Err(TransferFault::TooMuch)
    } else if written == 0 && sent > 0 {
        Err(TransferFault::NoProgress)
    } else if offset + written > u64::MAX {
        Err(TransferFault::OffsetOverflow)
    } else {
        Ok(((offset + written) as u64, (sent - written) as nat))
    }
}

/// What is left to do after the server took `written` bytes of `data`, sent
/// for `offset`: the place to write on from and the bytes still to be sent,
/// which are those that the server did not take.
pub fn write_step<'a>(offset: u64, data: &'a [u8], written: u32) -> (r: Result<
    (u64, &'a [u8]),
    TransferFault,
>)
    ensures
        match r {
            Ok((next, rest)) => write_next(offset, data@.len(), written) == Ok::<
                (u64, nat),
                TransferFault,
            >((next, rest@.len())) && rest@ == data@.skip(written as int),
            Err(e) => write_next(offset, data@.len(), written) == Err::<
                (u64, nat),
                TransferFault,
            >(e),
        },
{
    let count: usize = written as usize;
    if count > data.len() {
        Err(TransferFault::TooMuch)
    } else if count == 0 && data.len() > 0 {
        Err(TransferFault::NoProgress)
    } else if written as u64 > u64::MAX - offset {
        Err(TransferFault::OffsetOverflow)
    } else {
        let rest = slice_subrange(data, count, data.len());
        Ok((offset + written as u64, rest))
    }
}

/// Nothing is lost or sent twice: what the server took and what is still to
/// be sent make up what was sent, and the next write starts where the bytes
/// taken end.
pub proof fn lemma_write_keeps_all(offset: u64, data: Seq<u8>, written: u32)
    requires
        write_next(offset, data.len(), written) is Ok,
    ensures
        data.take(written as int) + data.skip(written as int) == data,
        write_next(offset, data.len(), written)->Ok_0.0 == offset + written,
        write_next(offset, data.len(), written)->Ok_0.1 == data.skip(written as int).len(),
        data.len() > 0 ==> data.skip(written as int).len() < data.len(),
{
    assert(data.take(written as int) + data.skip(written as int) =~= data);
}

/// Where a directory listing goes on from.
#[derive(Clone, Copy, Debug, PartialEq, Eq, Structural)]
pub struct DirCursor {
    /// The cookie of the last entry seen, 0 at the start.
    pub cookie: u64,
    /// The server's verifier for the cookie, 0 at the start.
    pub cookie_verifier: u64,
    /// Whether the listing was started again already.
    pub restarted: bool,
}

/// What to do after a reply to a directory read.
#[derive(Clone, Copy, Debug, PartialEq, Eq, Structural)]
pub enum DirNext {
    /// The listing is complete.
    Done,
    /// Keep the entries of the reply and read on from the cursor.
    Continue(DirCursor),
    /// Drop all entries and read again from the cursor, which is the start.
    Restart(DirCursor),
    /// Give up: the server sent no entry and did not say that the end was
    /// reached.
    NoProgress,
    /// Give up with the error of the server.
    Failed(NfsError),
}

/// Where every directory listing starts.
pub open spec fn dir_start() -> DirCursor {
    DirCursor { cookie: 0, cookie_verifier: 0, restarted: false }
}

/// Where every directory listing starts.
pub fn dir_cursor() -> (r: DirCursor)
    ensures
        r == dir_start(),
{
    DirCursor { cookie: 0, cookie_verifier: 0, restarted: false }
}

/// What to do after a directory read from `cursor` ended with `status`.
/// With `NFS4_OK` the reply holds a verifier, the word `eof` on whether the
/// end was reached, and entries, of which `last_cookie` is the cookie of the
/// last, if there is any.
pub open spec fn dir_next(
    cursor: DirCursor,
    status: u32,
    last_cookie: Option<u64>,
    cookie_verifier: u64,
    eof: bool,
) -> DirNext {
    match status_meaning(status) {
        None => if eof {
            DirNext::Done
        } else {
            match last_cookie {
                None => DirNext::NoProgress,
                Some(cookie) => DirNext::Continue(
                    DirCursor { cookie, cookie_verifier, restarted: cursor.restarted },
                ),
            }
        },
        Some(e) => if status == NFS4ERR_BAD_COOKIE && !cursor.restarted {
            DirNext::Restart(DirCursor { cookie: 0, cookie_verifier: 0, restarted: true })
        } else {
            DirNext::Failed(e)
        },
    }
}

/// What to do after a directory read from `cursor` ended with `status`.
pub fn dir_step(
    cursor: DirCursor,
    status: u32,
    last_cookie: Option<u64>,
    cookie_verifier: u64,
    eof: bool,
) -> (r: DirNext)
    ensures
        r == dir_next(cursor, status, last_cookie, cookie_verifier, eof),
{
    match crate::status::status_error(status) {
        None => if eof {
            DirNext::Done
        } else {
            match last_cookie {
                None => DirNext::NoProgress,
                Some(cookie) => DirNext::Continue(
                    DirCursor { cookie, cookie_verifier, restarted: cursor.restarted },
                ),
            }
        },
        Some(e) => if status == NFS4ERR_BAD_COOKIE && !cursor.restarted {
            DirNext::Restart(DirCursor { cookie: 0, cookie_verifier: 0, restarted: true })
        } else {
            DirNext::Failed(e)
        },
    }
}

/// A listing is started again once at most: after a restart, a cookie that
/// the server does not know ends the listing with the server's error.
pub proof fn lemma_one_restart(
    cursor: DirCursor,
    status: u32,
    last_cookie: Option<u64>,
    cookie_verifier: u64,
    eof: bool,
)
    ensures
        dir_next(cursor, status, last_cookie, cookie_verifier, eof) matches DirNext::Restart(next)
            ==> !cursor.restarted && next.restarted && next.cookie == 0 && next.cookie_verifier
            == 0 && status == NFS4ERR_BAD_COOKIE,
        dir_next(cursor, status, last_cookie, cookie_verifier, eof) matches DirNext::Continue(next)
            ==> next.restarted == cursor.restarted && Some(next.cookie) == last_cookie
            && next.cookie_verifier == cookie_verifier,
        cursor.restarted && status == NFS4ERR_BAD_COOKIE ==> dir_next(
            cursor,
            status,
            last_cookie,
            cookie_verifier,
            eof,
        ) == DirNext::Failed(NfsError::Other(NFS4ERR_BAD_COOKIE)),
{
}

} // verus!
