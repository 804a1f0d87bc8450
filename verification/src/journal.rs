//! What a run of requests and of their outcomes says of a transfer: which
//! request follows which outcome, what the outcomes bring taken together,
//! and how the transfer ends.

use crate::attrs::{EntryModel, FileAttributeId};
use crate::compound::{OperationModel, ReplyFault, DIR_COUNT, MAX_COUNT};
use crate::nfs::{last_given, ClientError};
use crate::response::{ResponseModel, ValueModel};
use crate::transfer::{
    dir_next, dir_start, read_next, write_next, DirCursor, DirNext, ReadNext, TransferFault,
    CHUNK_BYTES,
};
use crate::wire::Call;
use vstd::prelude::*;

verus! {

/// How a request ended: with the reply, or with why there is none.
pub type Outcome = Result<ResponseModel, ClientError>;

/// Whether `outcome` is one that a request can have: the reply, or a fault
/// of the request, of the call or of the reply; none of a transfer, of a
/// sink or of a source.
pub open spec fn of_a_request(outcome: Outcome) -> bool {
    match outcome {
        Ok(_) => true,
        Err(ClientError::Request(_)) => true,
        Err(ClientError::Rpc(_)) => true,
        Err(ClientError::Response(_)) => true,
        Err(ClientError::Reply(_)) => true,
        Err(ClientError::Nfs(_)) => true,
        Err(_) => false,
    }
}

/// The request that reads a chunk of the file `handle` from `offset` on.
pub open spec fn read_request(handle: Seq<u8>, offset: u64) -> Seq<OperationModel> {
    seq![OperationModel::PutFh(handle), OperationModel::Read { offset, count: CHUNK_BYTES }]
}

/// Whether `outcome` is a reply to a read, with bytes of the file or none.
pub open spec fn brings_data(outcome: Outcome) -> bool {
    outcome matches Ok(response) && last_given(response) matches Some(ValueModel::Data { .. })
}

/// The bytes of the file that `outcome` brings.
pub open spec fn read_data(outcome: Outcome) -> Seq<u8> {
    match outcome {
        Ok(response) => match last_given(response) {
            Some(ValueModel::Data { eof, data }) => data,
            _ => Seq::empty(),
        },
        Err(_) => Seq::empty(),
    }
}

/// The bytes of the file that `outcomes` bring, in their order.
pub open spec fn all_read(outcomes: Seq<Outcome>) -> Seq<u8>
    decreases outcomes.len(),
{
    if outcomes.len() == 0 {
        Seq::empty()
    } else {
        all_read(outcomes.drop_last()) + read_data(outcomes.last())
    }
}

/// How a download ends that has brought `before` bytes when `outcome` comes,
/// where the bytes can be handed on; nothing where the download goes on.
pub open spec fn read_verdict(before: nat, outcome: Outcome) -> Option<Result<u64, ClientError>> {
    match outcome {
        Err(e) => Some(Err(e)),
        Ok(response) => match last_given(response) {
            Some(ValueModel::Data { eof, data }) => if before + data.len() > u64::MAX {
                Some(Err(ClientError::Transfer(TransferFault::OffsetOverflow)))
            } else {
                match read_next(before as u64, data.len() as u64, eof) {
                    ReadNext::Done => Some(Ok((before + data.len()) as u64)),
                    ReadNext::Continue { .. } => None,
                    ReadNext::Fault(fault) => Some(Err(ClientError::Transfer(fault))),
                }
            },
            _ => Some(Err(ClientError::MissingValue)),
        },
    }
}

/// Whether the request at `i` reads from where the bytes end that the
/// outcomes before it brought.
pub open spec fn read_in_turn(
    handle: Seq<u8>,
    requests: Seq<Seq<OperationModel>>,
    outcomes: Seq<Outcome>,
    i: int,
) -> bool {
    let before = all_read(outcomes.take(i));
    before.len() <= u64::MAX && requests[i] == read_request(handle, before.len() as u64)
}

/// Whether the download goes on after the outcome at `i`.
pub open spec fn read_goes_on(outcomes: Seq<Outcome>, i: int) -> bool {
    read_verdict(all_read(outcomes.take(i)).len(), outcomes[i]) is None
}

/// Whether `requests`, with `outcomes` for their outcomes, are the requests
/// of one download of the file `handle`: there is an outcome for each
/// request, each request reads from where the bytes end that the outcomes
/// before it brought, and after none of these outcomes but the last the
/// download was at its end.
pub open spec fn downloaded(
    handle: Seq<u8>,
    requests: Seq<Seq<OperationModel>>,
    outcomes: Seq<Outcome>,
) -> bool {
    &&& requests.len() == outcomes.len()
    &&& forall|i: int|
        0 <= i < requests.len() ==> #[trigger] read_in_turn(handle, requests, outcomes, i)
    &&& forall|i: int| 0 <= i < outcomes.len() - 1 ==> #[trigger] read_goes_on(outcomes, i)
}

/// A download goes on with a read from where the bytes end that it brought.
pub proof fn lemma_downloaded_push(
    handle: Seq<u8>,
    requests: Seq<Seq<OperationModel>>,
    outcomes: Seq<Outcome>,
    outcome: Outcome,
)
    requires
        downloaded(handle, requests, outcomes),
        outcomes.len() > 0 ==> read_verdict(all_read(outcomes.drop_last()).len(), outcomes.last())
            is None,
        all_read(outcomes).len() <= u64::MAX,
    ensures
        downloaded(
            handle,
            requests.push(read_request(handle, all_read(outcomes).len() as u64)),
            outcomes.push(outcome),
        ),
        all_read(outcomes.push(outcome)) == all_read(outcomes) + read_data(outcome),
        outcomes.push(outcome).drop_last() == outcomes,
{
    let longer = outcomes.push(outcome);
    let asked = requests.push(read_request(handle, all_read(outcomes).len() as u64));
    assert(longer.drop_last() =~= outcomes);
    assert forall|i: int| 0 <= i < asked.len() implies #[trigger] read_in_turn(
        handle,
        asked,
        longer,
        i,
    ) by {
        if i < requests.len() {
            assert(read_in_turn(handle, requests, outcomes, i));
            assert(longer.take(i) =~= outcomes.take(i));
        } else {
            assert(longer.take(i) =~= outcomes);
        }
    }
    assert forall|i: int| 0 <= i < longer.len() - 1 implies #[trigger] read_goes_on(longer, i) by {
        assert(longer.take(i) =~= outcomes.take(i));
        if i == outcomes.len() - 1 {
            assert(outcomes.take(i) =~= outcomes.drop_last());
        } else {
            assert(read_goes_on(outcomes, i));
        }
    }
}

/// The request that writes `data` to the file `handle` from `offset` on.
pub open spec fn write_request(handle: Seq<u8>, offset: u64, data: Seq<u8>) -> Seq<
    OperationModel,
> {
    seq![OperationModel::PutFh(handle), OperationModel::Write { offset, data }]
}

/// The bytes that `request` sends to be written.
pub open spec fn sent_data(request: Seq<OperationModel>) -> Seq<u8> {
    if request.len() == 2 {
        match request[1] {
            OperationModel::Write { offset, data } => data,
            _ => Seq::empty(),
        }
    } else {
        Seq::empty()
    }
}

/// The number of bytes that `outcome` says were written.
pub open spec fn written_count(outcome: Outcome) -> nat {
    match outcome {
        Ok(response) => match last_given(response) {
            Some(ValueModel::Written { count, committed, verifier }) => count as nat,
            _ => 0,
        },
        Err(_) => 0,
    }
}

/// The number of bytes that `outcomes` say were written, taken together.
pub open spec fn all_written(outcomes: Seq<Outcome>) -> nat
    decreases outcomes.len(),
{
    if outcomes.len() == 0 {
        0
    } else {
        all_written(outcomes.drop_last()) + written_count(outcomes.last())
    }
}

/// What ends an upload when `outcome` comes for a request that sent `sent`
/// bytes for `offset`; nothing where the upload goes on.
pub open spec fn write_end(offset: nat, sent: nat, outcome: Outcome) -> Option<ClientError> {
    match outcome {
        Err(e) => Some(e),
        Ok(response) => match last_given(response) {
            Some(ValueModel::Written { count, committed, verifier }) => match write_next(
                offset as u64,
                sent,
                count,
            ) {
                Err(fault) => Some(ClientError::Transfer(fault)),
                Ok(_) => None,
            },
            _ => Some(ClientError::MissingValue),
        },
    }
}

/// Whether the request at `i` writes from where the bytes end that the
/// outcomes before it say were written, and sends bytes of `source` from
/// that place on, at least one.
pub open spec fn written_in_turn(
    handle: Seq<u8>,
    source: Seq<u8>,
    requests: Seq<Seq<OperationModel>>,
    outcomes: Seq<Outcome>,
    i: int,
) -> bool {
    let offset = all_written(outcomes.take(i));
    let data = sent_data(requests[i]);
    &&& offset + data.len() <= source.len()
    &&& offset <= u64::MAX
    &&& data.len() > 0
    &&& data == source.subrange(offset as int, (offset + data.len()) as int)
    &&& requests[i] == write_request(handle, offset as u64, data)
}

/// Whether the upload goes on after the outcome at `i`.
pub open spec fn write_goes_on(
    requests: Seq<Seq<OperationModel>>,
    outcomes: Seq<Outcome>,
    i: int,
) -> bool {
    write_end(all_written(outcomes.take(i)), sent_data(requests[i]).len(), outcomes[i]) is None
}

/// Whether `requests`, with `outcomes` for their outcomes, are the requests
/// of one upload of `source`, or of its beginning, to the file `handle`:
/// there is an outcome for each request, each request writes from where the
/// bytes end that the outcomes before it say were written, it sends bytes of
/// `source` from that place on and at least one, and after none of these
/// outcomes but the last the upload was at its end.
pub open spec fn uploaded(
    handle: Seq<u8>,
    source: Seq<u8>,
    requests: Seq<Seq<OperationModel>>,
    outcomes: Seq<Outcome>,
) -> bool {
    &&& requests.len() == outcomes.len()
    &&& forall|i: int|
        0 <= i < requests.len() ==> #[trigger] written_in_turn(
            handle,
            source,
            requests,
            outcomes,
            i,
        )
    &&& forall|i: int|
        0 <= i < outcomes.len() - 1 ==> #[trigger] write_goes_on(requests, outcomes, i)
}

/// What was uploaded of a source was uploaded of every longer one that
/// begins with it.
pub proof fn lemma_uploaded_of_more(
    handle: Seq<u8>,
    source: Seq<u8>,
    more: Seq<u8>,
    requests: Seq<Seq<OperationModel>>,
    outcomes: Seq<Outcome>,
)
    requires
        uploaded(handle, source, requests, outcomes),
    ensures
        uploaded(handle, source + more, requests, outcomes),
{
    assert forall|i: int| 0 <= i < requests.len() implies #[trigger] written_in_turn(
        handle,
        source + more,
        requests,
        outcomes,
        i,
    ) by {
        assert(written_in_turn(handle, source, requests, outcomes, i));
        let offset = all_written(outcomes.take(i));
        let data = sent_data(requests[i]);
        assert((source + more).subrange(offset as int, (offset + data.len()) as int)
            =~= source.subrange(offset as int, (offset + data.len()) as int));
    }
    assert forall|i: int| 0 <= i < outcomes.len() - 1 implies #[trigger] write_goes_on(
        requests,
        outcomes,
        i,
    ) by {
        assert(write_goes_on(requests, outcomes, i));
    }
}

/// An upload goes on with a write from where the bytes end that were
/// written.
pub proof fn lemma_uploaded_push(
    handle: Seq<u8>,
    source: Seq<u8>,
    requests: Seq<Seq<OperationModel>>,
    outcomes: Seq<Outcome>,
    data: Seq<u8>,
    outcome: Outcome,
)
    requires
        uploaded(handle, source, requests, outcomes),
        outcomes.len() > 0 ==> write_end(
            all_written(outcomes.drop_last()),
            sent_data(requests.last()).len(),
            outcomes.last(),
        ) is None,
        all_written(outcomes) <= u64::MAX,
        data.len() > 0,
        all_written(outcomes) + data.len() <= source.len(),
        data == source.subrange(
            all_written(outcomes) as int,
            (all_written(outcomes) + data.len()) as int,
        ),
    ensures
        uploaded(
            handle,
            source,
            requests.push(write_request(handle, all_written(outcomes) as u64, data)),
            outcomes.push(outcome),
        ),
        all_written(outcomes.push(outcome)) == all_written(outcomes) + written_count(outcome),
        outcomes.push(outcome).drop_last() == outcomes,
{
    let longer = outcomes.push(outcome);
    let request = write_request(handle, all_written(outcomes) as u64, data);
    let asked = requests.push(request);
    assert(longer.drop_last() =~= outcomes);
    assert(sent_data(request) == data);
    assert forall|i: int| 0 <= i < asked.len() implies #[trigger] written_in_turn(
        handle,
        source,
        asked,
        longer,
        i,
    ) by {
        if i < requests.len() {
            assert(written_in_turn(handle, source, requests, outcomes, i));
            assert(longer.take(i) =~= outcomes.take(i));
        } else {
            assert(longer.take(i) =~= outcomes);
        }
    }
    assert forall|i: int| 0 <= i < longer.len() - 1 implies #[trigger] write_goes_on(
        asked,
        longer,
        i,
    ) by {
        assert(longer.take(i) =~= outcomes.take(i));
        if i == outcomes.len() - 1 {
            assert(outcomes.take(i) =~= outcomes.drop_last());
        } else {
            assert(write_goes_on(requests, outcomes, i));
        }
    }
}

/// The request that reads a page of the directory `handle` from `cursor` on,
/// with the attributes `wanted` for each entry.
pub open spec fn listing_request(
    handle: Seq<u8>,
    cursor: DirCursor,
    wanted: Set<FileAttributeId>,
) -> Seq<OperationModel> {
    seq![
        OperationModel::PutFh(handle),
        OperationModel::ReadDir {
            cookie: cursor.cookie,
            cookie_verifier: cursor.cookie_verifier,
            dir_count: DIR_COUNT,
            max_count: MAX_COUNT,
            request: wanted,
        },
    ]
}

/// The entries that `outcome` brings.
pub open spec fn page(outcome: Outcome) -> Seq<EntryModel> {
    match outcome {
        Ok(response) => match last_given(response) {
            Some(ValueModel::Entries { cookie_verifier, entries, eof }) => entries,
            _ => Seq::empty(),
        },
        Err(_) => Seq::empty(),
    }
}

/// Whether every entry has only attributes that are among `wanted`.
pub open spec fn only_wanted(entries: Seq<EntryModel>, wanted: Set<FileAttributeId>) -> bool {
    forall|i: int| 0 <= i < entries.len() ==> (#[trigger] entries[i]).attrs.dom().subset_of(wanted)
}

/// The cookie of the last of the entries, if there is any.
pub open spec fn final_cookie(entries: Seq<EntryModel>) -> Option<u64> {
    if entries.len() == 0 {
        None
    } else {
        Some(entries.last().cookie)
    }
}

/// What to do when `outcome` comes for a read of a directory from `cursor`
/// that asked for the attributes `wanted`, or the error that the listing
/// ends with at once. A status of the server goes to [`dir_next`], and so
/// does a page, unless an entry of it has an attribute that was not asked
/// for.
pub open spec fn dir_verdict(
    cursor: DirCursor,
    wanted: Set<FileAttributeId>,
    outcome: Outcome,
) -> Result<DirNext, ClientError> {
    match outcome {
        Ok(response) => match last_given(response) {
            Some(ValueModel::Entries { cookie_verifier, entries, eof }) => if only_wanted(
                entries,
                wanted,
            ) {
                Ok(dir_next(cursor, 0, final_cookie(entries), cookie_verifier, eof))
            } else {
                Err(ClientError::Reply(ReplyFault::Mismatch))
            },
            _ => Err(ClientError::MissingValue),
        },
        Err(ClientError::Nfs(e)) => Ok(dir_next(cursor, e.code(), None, 0, false)),
        Err(e) => Err(e),
    }
}

/// Whether the listing goes on after what `verdict` says.
pub open spec fn goes_on(verdict: Result<DirNext, ClientError>) -> bool {
    verdict matches Ok(next) && (next is Continue || next is Restart)
}

/// Where a listing stands after `outcomes`: at the start, at the cookie of
/// the last entry of the last page with the verifier of that page, or at
/// the start again.
pub open spec fn cursor_after(wanted: Set<FileAttributeId>, outcomes: Seq<Outcome>) -> DirCursor
    decreases outcomes.len(),
{
    if outcomes.len() == 0 {
        dir_start()
    } else {
        let before = cursor_after(wanted, outcomes.drop_last());
        match dir_verdict(before, wanted, outcomes.last()) {
            Ok(DirNext::Continue(cursor)) => cursor,
            Ok(DirNext::Restart(cursor)) => cursor,
            _ => before,
        }
    }
}

/// The entries that a listing holds after `outcomes`: those of the pages,
/// in order, since the start or since it was started again.
pub open spec fn listed(wanted: Set<FileAttributeId>, outcomes: Seq<Outcome>) -> Seq<EntryModel>
    decreases outcomes.len(),
{
    if outcomes.len() == 0 {
        Seq::empty()
    } else {
        let before = listed(wanted, outcomes.drop_last());
        match dir_verdict(cursor_after(wanted, outcomes.drop_last()), wanted, outcomes.last()) {
            Ok(DirNext::Continue(_)) => before + page(outcomes.last()),
            Ok(DirNext::Done) => before + page(outcomes.last()),
            Ok(DirNext::Restart(_)) => Seq::empty(),
            _ => before,
        }
    }
}

/// Whether the request at `i` reads from where the listing stands after the
/// outcomes before it.
pub open spec fn listed_in_turn(
    handle: Seq<u8>,
    wanted: Set<FileAttributeId>,
    requests: Seq<Seq<OperationModel>>,
    outcomes: Seq<Outcome>,
    i: int,
) -> bool {
    requests[i] == listing_request(handle, cursor_after(wanted, outcomes.take(i)), wanted)
}

/// Whether the listing goes on after the outcome at `i`.
pub open spec fn listing_goes_on(
    wanted: Set<FileAttributeId>,
    outcomes: Seq<Outcome>,
    i: int,
) -> bool {
    goes_on(dir_verdict(cursor_after(wanted, outcomes.take(i)), wanted, outcomes[i]))
}

/// Whether `requests`, with `outcomes` for their outcomes, are the requests
/// of one listing of the directory `handle` with the attributes `wanted`:
/// there is an outcome for each request, each request reads from where the
/// listing stands after the outcomes before it, and after none of these
/// outcomes but the last the listing was at its end.
pub open spec fn listing(
    handle: Seq<u8>,
    wanted: Set<FileAttributeId>,
    requests: Seq<Seq<OperationModel>>,
    outcomes: Seq<Outcome>,
) -> bool {
    &&& requests.len() == outcomes.len()
    &&& forall|i: int|
        0 <= i < requests.len() ==> #[trigger] listed_in_turn(
            handle,
            wanted,
            requests,
            outcomes,
            i,
        )
    &&& forall|i: int|
        0 <= i < outcomes.len() - 1 ==> #[trigger] listing_goes_on(wanted, outcomes, i)
}

/// A listing goes on with a read from where it stands.
pub proof fn lemma_listing_push(
    handle: Seq<u8>,
    wanted: Set<FileAttributeId>,
    requests: Seq<Seq<OperationModel>>,
    outcomes: Seq<Outcome>,
    outcome: Outcome,
)
    requires
        listing(handle, wanted, requests, outcomes),
        outcomes.len() > 0 ==> goes_on(
            dir_verdict(cursor_after(wanted, outcomes.drop_last()), wanted, outcomes.last()),
        ),
    ensures
        listing(
            handle,
            wanted,
            requests.push(listing_request(handle, cursor_after(wanted, outcomes), wanted)),
            outcomes.push(outcome),
        ),
        outcomes.push(outcome).drop_last() == outcomes,
        outcomes.push(outcome).last() == outcome,
{
    let longer = outcomes.push(outcome);
    let asked = requests.push(listing_request(handle, cursor_after(wanted, outcomes), wanted));
    assert(longer.drop_last() =~= outcomes);
    assert forall|i: int| 0 <= i < asked.len() implies #[trigger] listed_in_turn(
        handle,
        wanted,
        asked,
        longer,
        i,
    ) by {
        if i < requests.len() {
            assert(listed_in_turn(handle, wanted, requests, outcomes, i));
            assert(longer.take(i) =~= outcomes.take(i));
        } else {
            assert(longer.take(i) =~= outcomes);
        }
    }
    assert forall|i: int| 0 <= i < longer.len() - 1 implies #[trigger] listing_goes_on(
        wanted,
        longer,
        i,
    ) by {
        assert(longer.take(i) =~= outcomes.take(i));
        if i == outcomes.len() - 1 {
            assert(outcomes.take(i) =~= outcomes.drop_last());
        } else {
            assert(listing_goes_on(wanted, outcomes, i));
        }
    }
}

/// A download begins at the start of the file.
pub proof fn lemma_download_begins(
    handle: Seq<u8>,
    requests: Seq<Seq<OperationModel>>,
    outcomes: Seq<Outcome>,
)
    requires
        downloaded(handle, requests, outcomes),
        requests.len() > 0,
    ensures
        requests[0] == read_request(handle, 0),
{
    assert(read_in_turn(handle, requests, outcomes, 0));
    assert(outcomes.take(0) =~= Seq::<Outcome>::empty());
}

/// What outcomes bring one after the other is what the first of them bring,
/// and then what the others bring.
pub proof fn lemma_all_read_in_order(first: Seq<Outcome>, others: Seq<Outcome>)
    ensures
        all_read(first + others) == all_read(first) + all_read(others),
    decreases others.len(),
{
    if others.len() == 0 {
        assert(first + others =~= first);
        assert(all_read(first) + Seq::<u8>::empty() =~= all_read(first));
    } else {
        lemma_all_read_in_order(first, others.drop_last());
        assert((first + others).drop_last() =~= first + others.drop_last());
        assert((first + others).last() == others.last());
        assert((all_read(first) + all_read(others.drop_last())) + read_data(others.last())
            =~= all_read(first) + (all_read(others.drop_last()) + read_data(others.last())));
    }
}

/// An upload begins at the start of the file, with the first bytes of the
/// source.
pub proof fn lemma_upload_begins(
    handle: Seq<u8>,
    source: Seq<u8>,
    requests: Seq<Seq<OperationModel>>,
    outcomes: Seq<Outcome>,
)
    requires
        uploaded(handle, source, requests, outcomes),
        requests.len() > 0,
    ensures
        requests[0] == write_request(handle, 0, sent_data(requests[0])),
        sent_data(requests[0]) == source.take(sent_data(requests[0]).len() as int),
{
    assert(written_in_turn(handle, source, requests, outcomes, 0));
    assert(outcomes.take(0) =~= Seq::<Outcome>::empty());
    assert(source.subrange(0, sent_data(requests[0]).len() as int) =~= source.take(
        sent_data(requests[0]).len() as int,
    ));
}

/// In an upload, a write follows another from where the server says it
/// took the bytes of that other to, and with the bytes of the source from
/// there on: none is left out and none is sent for another place.
pub proof fn lemma_upload_goes_on(
    handle: Seq<u8>,
    source: Seq<u8>,
    requests: Seq<Seq<OperationModel>>,
    outcomes: Seq<Outcome>,
    i: int,
)
    requires
        uploaded(handle, source, requests, outcomes),
        0 <= i < requests.len() - 1,
    ensures
        ({
            let offset = all_written(outcomes.take(i));
            let next = offset + written_count(outcomes[i]);
            let data = sent_data(requests[i + 1]);
            &&& 0 < written_count(outcomes[i]) <= sent_data(requests[i]).len()
            &&& next <= u64::MAX
            &&& requests[i + 1] == write_request(handle, next as u64, data)
            &&& data == source.subrange(next as int, (next + data.len()) as int)
        }),
{
    assert(written_in_turn(handle, source, requests, outcomes, i));
    assert(written_in_turn(handle, source, requests, outcomes, i + 1));
    assert(write_goes_on(requests, outcomes, i));
    assert(outcomes.take(i + 1).drop_last() =~= outcomes.take(i));
    assert(outcomes.take(i + 1).last() == outcomes[i]);
}

/// A listing begins at the start of the directory.
pub proof fn lemma_listing_begins(
    handle: Seq<u8>,
    wanted: Set<FileAttributeId>,
    requests: Seq<Seq<OperationModel>>,
    outcomes: Seq<Outcome>,
)
    requires
        listing(handle, wanted, requests, outcomes),
        requests.len() > 0,
    ensures
        requests[0] == listing_request(handle, dir_start(), wanted),
{
    assert(listed_in_turn(handle, wanted, requests, outcomes, 0));
    assert(outcomes.take(0) =~= Seq::<Outcome>::empty());
}

/// In a listing, the request that follows a page asks for what comes after
/// the last entry of that page, with the verifier of that page.
pub proof fn lemma_listing_goes_on(
    handle: Seq<u8>,
    wanted: Set<FileAttributeId>,
    requests: Seq<Seq<OperationModel>>,
    outcomes: Seq<Outcome>,
    i: int,
)
    requires
        listing(handle, wanted, requests, outcomes),
        0 <= i < requests.len() - 1,
        outcomes[i] is Ok,
    ensures
        last_given(outcomes[i]->Ok_0) matches Some(
            ValueModel::Entries { cookie_verifier, entries, eof },
        ) && !eof && entries.len() > 0 && requests[i + 1] == listing_request(
            handle,
            DirCursor {
                cookie: entries.last().cookie,
                cookie_verifier,
                restarted: cursor_after(wanted, outcomes.take(i)).restarted,
            },
            wanted,
        ),
{
    assert(listed_in_turn(handle, wanted, requests, outcomes, i + 1));
    assert(listing_goes_on(wanted, outcomes, i));
    assert(outcomes.take(i + 1).drop_last() =~= outcomes.take(i));
    assert(outcomes.take(i + 1).last() == outcomes[i]);
}

/// Whether the sink took what the call handed to it.
pub open spec fn took(call: Call) -> bool {
    call.failed is None
}

/// Whether the call at `i` handed to the sink what the outcome at `i`
/// brought, all of it and nothing else.
pub open spec fn handed_in_turn(hands: Seq<Call>, outcomes: Seq<Outcome>, i: int) -> bool {
    hands[i].bytes == read_data(outcomes[i]) && hands[i].asked == hands[i].bytes.len()
}

/// Whether the sink took what each of the calls handed to it.
pub open spec fn all_took(hands: Seq<Call>) -> bool {
    forall|i: int| 0 <= i < hands.len() ==> took(#[trigger] hands[i])
}

/// Whether `hands` are the calls that a download with the outcomes
/// `outcomes` makes to its sink: one for each outcome in turn, with what it
/// brought, and none after a call that the sink failed on.
pub open spec fn handed_on(hands: Seq<Call>, outcomes: Seq<Outcome>) -> bool {
    &&& hands.len() <= outcomes.len()
    &&& forall|i: int| 0 <= i < hands.len() ==> #[trigger] handed_in_turn(hands, outcomes, i)
    &&& forall|i: int| 0 <= i < hands.len() - 1 ==> took(#[trigger] hands[i])
}

/// The calls to the sink stay those of the download when one more outcome
/// comes.
pub proof fn lemma_handed_on_outcome(hands: Seq<Call>, outcomes: Seq<Outcome>, outcome: Outcome)
    requires
        handed_on(hands, outcomes),
    ensures
        handed_on(hands, outcomes.push(outcome)),
{
    assert forall|i: int| 0 <= i < hands.len() implies #[trigger] handed_in_turn(
        hands,
        outcomes.push(outcome),
        i,
    ) by {
        assert(handed_in_turn(hands, outcomes, i));
    }
}

/// The calls to the sink stay those of the download when what the last
/// outcome brought is handed on, after calls that the sink took.
pub proof fn lemma_handed_on_hand(hands: Seq<Call>, outcomes: Seq<Outcome>, call: Call)
    requires
        handed_on(hands, outcomes),
        all_took(hands),
        hands.len() + 1 == outcomes.len(),
        call.bytes == read_data(outcomes.last()),
        call.asked == call.bytes.len(),
    ensures
        handed_on(hands.push(call), outcomes),
        took(call) ==> all_took(hands.push(call)),
{
    let longer = hands.push(call);
    assert forall|i: int| 0 <= i < longer.len() implies #[trigger] handed_in_turn(
        longer,
        outcomes,
        i,
    ) by {
        if i < hands.len() {
            assert(handed_in_turn(hands, outcomes, i));
        }
    }
    assert forall|i: int| 0 <= i < longer.len() - 1 implies took(#[trigger] longer[i]) by {
        assert(took(hands[i]));
    }
    if took(call) {
        assert forall|i: int| 0 <= i < longer.len() implies took(#[trigger] longer[i]) by {
            if i < hands.len() {
                assert(took(hands[i]));
            }
        }
    }
}

/// Whether the source gave bytes when the call asked it for a chunk.
pub open spec fn gave_some(call: Call) -> bool {
    call.asked == CHUNK_BYTES && call.failed is None && call.bytes.len() > 0
}

/// Whether the source gave bytes at each of the calls, which asked it for
/// a chunk each.
pub open spec fn all_gave(draws: Seq<Call>) -> bool {
    forall|i: int| 0 <= i < draws.len() ==> gave_some(#[trigger] draws[i])
}

/// Whether `draws` are the calls that an upload makes to its source: at
/// least one, each for a chunk, and none after a call at which the source
/// failed or gave nothing.
pub open spec fn drawn_to_an_end(draws: Seq<Call>) -> bool {
    &&& draws.len() > 0
    &&& draws.last().asked == CHUNK_BYTES
    &&& all_gave(draws.drop_last())
}

/// The calls to the source stay those of an upload with one more call for
/// a chunk, after calls at which the source gave bytes.
pub proof fn lemma_drawn_push(draws: Seq<Call>, call: Call)
    requires
        all_gave(draws),
        call.asked == CHUNK_BYTES,
    ensures
        drawn_to_an_end(draws.push(call)),
        gave_some(call) ==> all_gave(draws.push(call)),
{
    let longer = draws.push(call);
    assert(longer.drop_last() =~= draws);
    if gave_some(call) {
        assert forall|i: int| 0 <= i < longer.len() implies gave_some(#[trigger] longer[i]) by {
            if i < draws.len() {
                assert(gave_some(draws[i]));
            }
        }
    }
}

} // verus!
