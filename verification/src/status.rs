//! What the status of an NFS operation means.

use vstd::prelude::*;

verus! {

/// The status of an operation that did what it was asked.
pub const NFS4_OK: u32 = 0;

/// The status of a directory listing that was continued with a cookie that
/// the server no longer knows.
pub const NFS4ERR_BAD_COOKIE: u32 = 10003;

/// Why an operation did not do what it was asked.
#[derive(Clone, Copy, Debug, PartialEq, Eq, Structural)]
pub enum NfsError {
    /// There is no such file or directory (`NFS4ERR_NOENT`).
    NotFound,
    /// The caller may not do this (`NFS4ERR_ACCESS`).
    AccessDenied,
    /// The file exists already (`NFS4ERR_EXIST`).
    Exists,
    /// A directory was needed (`NFS4ERR_NOTDIR`).
    NotDirectory,
    /// Something else than a directory was needed (`NFS4ERR_ISDIR`).
    IsDirectory,
    /// An argument was not valid (`NFS4ERR_INVAL`).
    InvalidArgument,
    /// The file handle names no file any more (`NFS4ERR_STALE`).
    StaleHandle,
    /// Any other status, by its number.
    Other(u32),
}

/// What the status `code` of an operation means: nothing for `NFS4_OK`, else
/// the error that the status stands for.
pub open spec fn status_meaning(code: u32) -> Option<NfsError> {
    if code == 0 {
        None
    } else if code == 2 {
        Some(NfsError::NotFound)
    } else if code == 13 {
        Some(NfsError::AccessDenied)
    } else if code == 17 {
        Some(NfsError::Exists)
    } else if code == 20 {
        Some(NfsError::NotDirectory)
    } else if code == 21 {
        Some(NfsError::IsDirectory)
    } else if code == 22 {
        Some(NfsError::InvalidArgument)
    } else if code == 70 {
        Some(NfsError::StaleHandle)
    } else {
        Some(NfsError::Other(code))
    }
}

/// What the status `code` of an operation means.
pub fn status_error(code: u32) -> (r: Option<NfsError>)
    ensures
        r == status_meaning(code),
{
    if code == 0 {
        None
    } else if code == 2 {
        Some(NfsError::NotFound)
    } else if code == 13 {
        Some(NfsError::AccessDenied)
    } else if code == 17 {
        Some(NfsError::Exists)
    } else if code == 20 {
        Some(NfsError::NotDirectory)
    } else if code == 21 {
        Some(NfsError::IsDirectory)
    } else if code == 22 {
        Some(NfsError::InvalidArgument)
    } else if code == 70 {
        Some(NfsError::StaleHandle)
    } else {
        Some(NfsError::Other(code))
    }
}

impl NfsError {
    /// The status that the error stands for.
    pub open spec fn code(self) -> u32 {
        match self {
            NfsError::NotFound => 2,
            NfsError::AccessDenied => 13,
            NfsError::Exists => 17,
            NfsError::NotDirectory => 20,
            NfsError::IsDirectory => 21,
            NfsError::InvalidArgument => 22,
            NfsError::StaleHandle => 70,
            NfsError::Other(code) => code,
        }
    }

    /// The status that the error stands for.
    pub fn to_code(&self) -> (r: u32)
        ensures
            r == self.code(),
    {
        match self {
            NfsError::NotFound => 2,
            NfsError::AccessDenied => 13,
            NfsError::Exists => 17,
            NfsError::NotDirectory => 20,
            NfsError::IsDirectory => 21,
            NfsError::InvalidArgument => 22,
            NfsError::StaleHandle => 70,
            NfsError::Other(code) => *code,
        }
    }
}

/// No status is lost: the error that a status means stands for that status.
pub proof fn lemma_status_kept(code: u32)
    ensures
        code == 0 <==> status_meaning(code) is None,
        status_meaning(code) matches Some(e) ==> e.code() == code,
{
}

} // verus!
