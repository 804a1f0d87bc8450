use sun_rpc_client::status::{NfsError, NFS4ERR_BAD_COOKIE, NFS4_OK};
use sun_rpc_client::transfer::{
    dir_cursor, dir_step, read_count, read_step, write_step, DirCursor, DirNext, ReadNext,
    TransferFault, CHUNK_BYTES,
};

#[test]
fn empty_file_is_read_with_one_call() {
    assert_eq!(read_step(0, 0, true), ReadNext::Done);
}

#[test]
fn reading_goes_on_after_what_came() {
    assert_eq!(read_step(0, 1_048_576, false), ReadNext::Continue { offset: 1_048_576 });
    // a short read is no fault
    assert_eq!(read_step(1_048_576, 17, false), ReadNext::Continue { offset: 1_048_593 });
    assert_eq!(read_step(1_048_593, 100, true), ReadNext::Done);
    assert_eq!(read_step(5, 0, false), ReadNext::Fault(TransferFault::NoProgress));
    assert_eq!(read_step(u64::MAX, 1, false), ReadNext::Fault(TransferFault::OffsetOverflow));
    assert_eq!(read_step(u64::MAX - 1, 1, false), ReadNext::Continue { offset: u64::MAX });
    assert_eq!(read_step(u64::MAX, 1, true), ReadNext::Done);
}

#[test]
fn a_file_of_100000_bytes_is_read_in_chunks() {
    let file: Vec<u8> = (0..100_000u32).map(|v| (v % 255) as u8).collect();
    for chunk in [1usize, 7, 4096, 65_536, 99_999, 100_000, 1 << 20] {
        let mut offset = 0u64;
        let mut got = vec![];
        let mut calls = 0;
        loop {
            let from = offset as usize;
            let to = (from + chunk).min(file.len());
            got.extend_from_slice(&file[from..to]);
            calls += 1;
            match read_step(offset, (to - from) as u64, to == file.len()) {
                ReadNext::Done => break,
                ReadNext::Continue { offset: next } => offset = next,
                ReadNext::Fault(f) => panic!("{:?}", f),
            }
        }
        assert_eq!(got, file);
        assert_eq!(calls, (file.len() + chunk - 1) / chunk);
    }
}

#[test]
fn read_count_is_a_chunk_or_less() {
    assert_eq!(CHUNK_BYTES, 1 << 20);
    assert_eq!(read_count(None), 1 << 20);
    assert_eq!(read_count(Some(u64::MAX)), 1 << 20);
    assert_eq!(read_count(Some(1 << 20)), 1 << 20);
    assert_eq!(read_count(Some(4096)), 4096);
    assert_eq!(read_count(Some(0)), 0);
}

#[test]
fn writing_sends_the_tail_again() {
    let data = [1u8, 2, 3, 4, 5];
    assert_eq!(write_step(10, &data, 5), Ok((15, &[][..])));
    assert_eq!(write_step(10, &data, 2), Ok((12, &[3u8, 4, 5][..])));
    assert_eq!(write_step(10, &data, 6), Err(TransferFault::TooMuch));
    assert_eq!(write_step(10, &data, 0), Err(TransferFault::NoProgress));
    assert_eq!(write_step(10, &[], 0), Ok((10, &[][..])));
    assert_eq!(write_step(u64::MAX - 1, &data, 2), Err(TransferFault::OffsetOverflow));
    assert_eq!(write_step(u64::MAX - 2, &data, 2), Ok((u64::MAX, &[3u8, 4, 5][..])));
}

#[test]
fn a_source_that_crosses_chunk_boundaries_is_written_whole() {
    let source: Vec<u8> = (0..100_000u32).map(|v| (v % 255) as u8).collect();
    for (chunk, taken) in [(4096usize, 4096u32), (4096, 1000), (65_536, 65_535), (1 << 20, 3), (7, 7)] {
        let mut file = vec![];
        let mut offset = 0u64;
        for piece in source.chunks(chunk) {
            let mut rest = piece;
            while !rest.is_empty() {
                let count = (rest.len() as u32).min(taken);
                assert_eq!(file.len() as u64, offset);
                file.extend_from_slice(&rest[..count as usize]);
                let (next, tail) = write_step(offset, rest, count).unwrap();
                offset = next;
                rest = tail;
            }
        }
        assert_eq!(file, source);
        assert_eq!(offset, 100_000);
    }
}

#[test]
fn a_listing_goes_on_from_the_last_cookie() {
    let start = dir_cursor();
    assert_eq!(start, DirCursor { cookie: 0, cookie_verifier: 0, restarted: false });
    assert_eq!(
        dir_step(start, NFS4_OK, Some(17), 99, false),
        DirNext::Continue(DirCursor { cookie: 17, cookie_verifier: 99, restarted: false })
    );
    assert_eq!(dir_step(start, NFS4_OK, Some(17), 99, true), DirNext::Done);
    assert_eq!(dir_step(start, NFS4_OK, None, 99, true), DirNext::Done);
    assert_eq!(dir_step(start, NFS4_OK, None, 99, false), DirNext::NoProgress);
}

#[test]
fn a_listing_is_started_again_once() {
    let cursor = DirCursor { cookie: 17, cookie_verifier: 99, restarted: false };
    let again = DirCursor { cookie: 0, cookie_verifier: 0, restarted: true };
    assert_eq!(dir_step(cursor, NFS4ERR_BAD_COOKIE, None, 0, false), DirNext::Restart(again));
    assert_eq!(
        dir_step(again, NFS4_OK, Some(3), 5, false),
        DirNext::Continue(DirCursor { cookie: 3, cookie_verifier: 5, restarted: true })
    );
    assert_eq!(
        dir_step(again, NFS4ERR_BAD_COOKIE, None, 0, false),
        DirNext::Failed(NfsError::Other(10003))
    );
    assert_eq!(dir_step(cursor, 20, None, 0, false), DirNext::Failed(NfsError::NotDirectory));
    assert_eq!(dir_step(cursor, 13, Some(1), 1, true), DirNext::Failed(NfsError::AccessDenied));
}

#[test]
fn a_directory_of_100_files_is_listed_in_pages() {
    let names: Vec<String> = (0..100).map(|i| format!("a_file{i}")).collect();
    for page in [1usize, 7, 33, 100, 250] {
        let mut cursor = dir_cursor();
        let mut listed: Vec<String> = vec![];
        let mut trips = 0;
        loop {
            let from = cursor.cookie as usize;
            let to = (from + page).min(names.len());
            listed.extend_from_slice(&names[from..to]);
            trips += 1;
            let last = if to > from { Some(to as u64) } else { None };
            match dir_step(cursor, NFS4_OK, last, 42, to == names.len()) {
                DirNext::Done => break,
                DirNext::Continue(next) => cursor = next,
                other => panic!("{:?}", other),
            }
        }
        assert_eq!(listed, names);
        assert_eq!(trips, (names.len() + page - 1) / page);
    }
}
