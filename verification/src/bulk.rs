//! The calls of the NFS client that take a run of requests: listing a
//! directory, reading a file and writing one. Each is made of requests of
//! the client and of what it hands to a sink or takes from a source, and is
//! stated over the client's record of them.

use crate::attrs::{AttributeSet, DirectoryEntry, EntryModel, FileHandle};
use crate::client::Transport;
use crate::compound::{
    models, read_compound, read_dir_compound, write_compound, OperationModel, ReplyFault,
};
use crate::journal::{
    all_gave, all_read, all_took, all_written, brings_data, cursor_after, dir_verdict, downloaded,
    drawn_to_an_end, final_cookie, goes_on, handed_on, lemma_downloaded_push, lemma_drawn_push,
    lemma_handed_on_hand, lemma_handed_on_outcome, lemma_listing_push, lemma_uploaded_of_more,
    lemma_uploaded_push, listed, listing, listing_request, of_a_request, read_data, read_request,
    read_verdict,
    sent_data, uploaded, write_end, write_request, Outcome,
};
use crate::nfs::{
    entries_only_asked, last_cookie, lemma_entries_only_wanted, take_last, Client, ClientError,
    Sink, Source, MAX_DIR_REQUESTS,
};
use crate::response::{entry_models, ResultValue};
use crate::transfer::{
    dir_cursor, dir_step, read_step, write_step, DirNext, ReadNext, TransferFault, CHUNK_BYTES,
};
use crate::wire::{
    all_bytes, handing, lemma_all_bytes_in_order, lemma_all_bytes_push, taking, Call,
};
use vstd::prelude::*;
use vstd::slice::slice_to_vec;

verus! {

impl<TransportT: Transport> Client<TransportT> {
    /// Lists the directory `handle`, with the attributes of `request` for
    /// each entry. Sends one request for each part of the listing, from the
    /// cookie of the last entry of the part before. Where the server no
    /// longer knows a cookie, the listing is started again, once. Fails where
    /// the server sends an attribute that was not asked for, and where the
    /// listing takes more than `MAX_DIR_REQUESTS` requests.
    ///
    /// Whatever the server sends: the first request reads the directory from
    /// its start, and every other from where [`cursor_after`] says the
    /// listing stands after the outcomes before it. The listing ends with the
    /// first outcome after which [`dir_verdict`] does not let it go on, and
    /// at the latest with the last request that may be made. It gives the
    /// entries of the pages in order, as [`listed`] puts them together, where
    /// that outcome is a page that says it is the last.
    pub fn read_dir(&mut self, handle: &FileHandle, request: AttributeSet) -> (r: Result<
        Vec<DirectoryEntry>,
        ClientError,
    >)
        ensures
            final(self).credential() == old(self).credential(),
            final(self).program() == old(self).program(),
            final(self).open_owner() == old(self).open_owner(),
            final(self).next_seqid() == old(self).next_seqid(),
            final(self).handed() == old(self).handed(),
            final(self).drawn() == old(self).drawn(),
            final(self).last_outcome() is Some,
            r matches Ok(entries) ==> (forall|i: int|
                0 <= i < entries@.len() ==> (#[trigger] entries@[i]).attrs@.dom().subset_of(
                    request@,
                )),
            final(self).requests().len() > old(self).requests().len(),
            final(self).requests().len() <= old(self).requests().len() + MAX_DIR_REQUESTS,
            final(self).requests().take(old(self).requests().len() as int) == old(
                self,
            ).requests(),
            final(self).outcomes().len() > old(self).outcomes().len(),
            final(self).outcomes().take(old(self).outcomes().len() as int) == old(
                self,
            ).outcomes(),
            listing(
                handle@,
                request@,
                final(self).requests().skip(old(self).requests().len() as int),
                final(self).outcomes().skip(old(self).outcomes().len() as int),
            ),
            ({
                let outcomes = final(self).outcomes().skip(old(self).outcomes().len() as int);
                let made = final(self).requests().len() - old(self).requests().len();
                match dir_verdict(
                    cursor_after(request@, outcomes.drop_last()),
                    request@,
                    outcomes.last(),
                ) {
                    Ok(DirNext::Done) => r matches Ok(entries) && entry_models(entries@) == listed(
                        request@,
                        outcomes,
                    ),
                    Ok(DirNext::NoProgress) => r matches Err(e) && e == ClientError::Transfer(
                        TransferFault::NoProgress,
                    ),
                    Ok(DirNext::Failed(fault)) => r matches Err(e) && e == ClientError::Nfs(fault),
                    Ok(DirNext::Continue(_)) => made == MAX_DIR_REQUESTS && (r matches Err(e) && e
                        == ClientError::Transfer(TransferFault::NoProgress)),
                    Ok(DirNext::Restart(_)) => made == MAX_DIR_REQUESTS && (r matches Err(e) && e
                        == ClientError::Transfer(TransferFault::NoProgress)),
                    Err(fault) => r matches Err(e) && e == fault,
                }
            }),
    {
        let mut cursor = dir_cursor();
        let mut entries: Vec<DirectoryEntry> = Vec::new();
        let mut budget: u32 = MAX_DIR_REQUESTS;
        let ghost mut asked: Seq<Seq<OperationModel>> = Seq::empty();
        let ghost mut outcomes: Seq<Outcome> = Seq::empty();
        proof {
            assert(self.requests() =~= old(self).requests() + asked);
            assert(self.outcomes() =~= old(self).outcomes() + outcomes);
            assert(entry_models(entries@) =~= listed(request@, outcomes));
        }
        loop
            invariant
                self.credential() == old(self).credential(),
                self.program() == old(self).program(),
                self.open_owner() == old(self).open_owner(),
                self.next_seqid() == old(self).next_seqid(),
                self.handed() == old(self).handed(),
                self.drawn() == old(self).drawn(),
                asked.len() + budget == MAX_DIR_REQUESTS,
                asked.len() > 0 ==> self.last_outcome() is Some,
                self.requests() == old(self).requests() + asked,
                self.outcomes() == old(self).outcomes() + outcomes,
                listing(handle@, request@, asked, outcomes),
                outcomes.len() > 0 ==> goes_on(
                    dir_verdict(
                        cursor_after(request@, outcomes.drop_last()),
                        request@,
                        outcomes.last(),
                    ),
                ),
                cursor == cursor_after(request@, outcomes),
                entry_models(entries@) == listed(request@, outcomes),
                forall|i: int|
                    0 <= i < entries@.len() ==> (#[trigger] entries@[i]).attrs@.dom().subset_of(
                        request@,
                    ),
            decreases budget,
        {
            if budget == 0 {
                proof {
                    assert(self.requests().skip(old(self).requests().len() as int) =~= asked);
                    assert(self.outcomes().skip(old(self).outcomes().len() as int) =~= outcomes);
                    assert(self.requests().take(old(self).requests().len() as int) =~= old(
                        self,
                    ).requests());
                    assert(self.outcomes().take(old(self).outcomes().len() as int) =~= old(
                        self,
                    ).outcomes());
                }
                return Err(ClientError::Transfer(TransferFault::NoProgress));
            }
            budget = budget - 1;
            let ops = read_dir_compound(
                handle.duplicate(),
                cursor.cookie,
                cursor.cookie_verifier,
                request,
            );
            let ghost held = listed(request@, outcomes);
            let answer = self.exchange(ops.as_slice());
            proof {
                let outcome = self.last_outcome()->0;
                lemma_listing_push(handle@, request@, asked, outcomes, outcome);
                assert(models(ops@) == listing_request(handle@, cursor, request@));
                assert(self.requests() =~= old(self).requests() + asked.push(models(ops@)));
                assert(self.outcomes() =~= old(self).outcomes() + outcomes.push(outcome));
                asked = asked.push(models(ops@));
                outcomes = outcomes.push(outcome);
                assert(self.requests().skip(old(self).requests().len() as int) =~= asked);
                assert(self.outcomes().skip(old(self).outcomes().len() as int) =~= outcomes);
                assert(self.requests().take(old(self).requests().len() as int) =~= old(
                    self,
                ).requests());
                assert(self.outcomes().take(old(self).outcomes().len() as int) =~= old(
                    self,
                ).outcomes());
            }
            let next = match answer {
                Ok(response) => match take_last(response) {
                    Some(ResultValue::Entries { cookie_verifier, entries: mut page, eof }) => {
                        let ghost added = page@;
                        proof {
                            lemma_entries_only_wanted(added, request@);
                            assert(final_cookie(entry_models(added)) == (if added.len() == 0 {
                                None
                            } else {
                                Some(added.last().cookie)
                            }));
                        }
                        if !entries_only_asked(&page, &request) {
                            return Err(ClientError::Reply(ReplyFault::Mismatch));
                        }
                        let last = last_cookie(&page);
                        let ghost before = entries@;
                        entries.append(&mut page);
                        assert(entry_models(entries@) =~= held + entry_models(added));
                        assert forall|i: int| 0 <= i < entries@.len() implies (
                        #[trigger] entries@[i]).attrs@.dom().subset_of(request@) by {
                            if i < before.len() {
                                assert(entries@[i] == before[i]);
                            } else {
                                assert(entries@[i] == added[i - before.len()]);
                            }
                        }
                        dir_step(cursor, 0, last, cookie_verifier, eof)
                    },
                    _ => { return Err(ClientError::MissingValue); },
                },
                Err(ClientError::Nfs(e)) => dir_step(cursor, e.to_code(), None, 0, false),
                Err(e) => { return Err(e); },
            };
            match next {
                DirNext::Done => { return Ok(entries); },
                DirNext::Continue(onward) => {
                    cursor = onward;
                },
                DirNext::Restart(start) => {
                    entries = Vec::new();
                    assert(entry_models(entries@) =~= Seq::<EntryModel>::empty());
                    cursor = start;
                },
                DirNext::NoProgress => {
                    return Err(ClientError::Transfer(TransferFault::NoProgress));
                },
                DirNext::Failed(e) => { return Err(ClientError::Nfs(e)); },
            }
        }
    }

    /// Reads the file `handle` from its start to its end and hands the bytes
    /// to `sink` in order. Sends one request for each chunk. Gives the number
    /// of bytes read.
    ///
    /// Whatever the server sends: the first request reads from the start of
    /// the file, and every other from where the bytes end that the replies
    /// before it brought. The sink is handed what each reply brought, once
    /// and in their order, and nothing else. The reading ends with the first
    /// call that the sink fails on, and with its error; else with the first
    /// outcome after which [`read_verdict`] says so, and with what it says.
    pub fn read_all<SinkT: Sink>(&mut self, handle: &FileHandle, sink: &mut SinkT) -> (r: Result<
        u64,
        ClientError,
    >)
        ensures
            final(self).credential() == old(self).credential(),
            final(self).program() == old(self).program(),
            final(self).open_owner() == old(self).open_owner(),
            final(self).next_seqid() == old(self).next_seqid(),
            final(self).drawn() == old(self).drawn(),
            final(self).last_outcome() is Some,
            r matches Ok(total) ==> final(self).delivered().len() == old(self).delivered().len()
                + total,
            final(self).requests().len() > old(self).requests().len(),
            final(self).requests().take(old(self).requests().len() as int) == old(
                self,
            ).requests(),
            final(self).outcomes().len() > old(self).outcomes().len(),
            final(self).outcomes().take(old(self).outcomes().len() as int) == old(
                self,
            ).outcomes(),
            final(self).handed().len() >= old(self).handed().len(),
            final(self).handed().take(old(self).handed().len() as int) == old(self).handed(),
            downloaded(
                handle@,
                final(self).requests().skip(old(self).requests().len() as int),
                final(self).outcomes().skip(old(self).outcomes().len() as int),
            ),
            handed_on(
                final(self).handed().skip(old(self).handed().len() as int),
                final(self).outcomes().skip(old(self).outcomes().len() as int),
            ),
            final(self).delivered() == old(self).delivered() + all_read(
                final(self).outcomes().skip(old(self).outcomes().len() as int),
            ),
            ({
                let outcomes = final(self).outcomes().skip(old(self).outcomes().len() as int);
                let hands = final(self).handed().skip(old(self).handed().len() as int);
                let verdict = read_verdict(all_read(outcomes.drop_last()).len(), outcomes.last());
                if brings_data(outcomes.last()) {
                    &&& hands.len() == outcomes.len()
                    &&& match hands.last().failed {
                        Some(text) => r matches Err(ClientError::Sink(own)) && own@ == text,
                        None => verdict == Some(r),
                    }
                } else {
                    &&& hands.len() == outcomes.len() - 1
                    &&& verdict == Some(r)
                    &&& !(r matches Err(ClientError::Sink(_)))
                }
            }),
            r matches Err(ClientError::Sink(_)) ==> final(self).handed().len() > old(
                self,
            ).handed().len() && final(self).handed().last().failed is Some,
    {
        let mut offset: u64 = 0;
        let ghost mut asked: Seq<Seq<OperationModel>> = Seq::empty();
        let ghost mut outcomes: Seq<Outcome> = Seq::empty();
        let ghost mut hands: Seq<Call> = Seq::empty();
        proof {
            assert(self.requests() =~= old(self).requests() + asked);
            assert(self.outcomes() =~= old(self).outcomes() + outcomes);
            assert(self.handed() =~= old(self).handed() + hands);
            assert(all_bytes(hands) =~= all_read(outcomes));
        }
        loop
            invariant
                self.credential() == old(self).credential(),
                self.program() == old(self).program(),
                self.open_owner() == old(self).open_owner(),
                self.next_seqid() == old(self).next_seqid(),
                self.drawn() == old(self).drawn(),
                self.requests() == old(self).requests() + asked,
                self.outcomes() == old(self).outcomes() + outcomes,
                self.handed() == old(self).handed() + hands,
                downloaded(handle@, asked, outcomes),
                outcomes.len() > 0 ==> read_verdict(
                    all_read(outcomes.drop_last()).len(),
                    outcomes.last(),
                ) is None,
                offset == all_read(outcomes).len(),
                outcomes.len() > 0 ==> of_a_request(outcomes.last()),
                hands.len() == outcomes.len(),
                handed_on(hands, outcomes),
                all_took(hands),
                all_bytes(hands) == all_read(outcomes),
            decreases u64::MAX - offset,
        {
            let ghost before = all_read(outcomes);
            let ops = read_compound(handle.duplicate(), offset, CHUNK_BYTES);
            let answer = self.exchange(ops.as_slice());
            proof {
                let outcome = self.last_outcome()->0;
                lemma_downloaded_push(handle@, asked, outcomes, outcome);
                lemma_handed_on_outcome(hands, outcomes, outcome);
                assert(models(ops@) == read_request(handle@, offset));
                assert(self.requests() =~= old(self).requests() + asked.push(models(ops@)));
                assert(self.outcomes() =~= old(self).outcomes() + outcomes.push(outcome));
                asked = asked.push(models(ops@));
                outcomes = outcomes.push(outcome);
                assert((old(self).requests() + asked).skip(old(self).requests().len() as int)
                    =~= asked);
                assert((old(self).outcomes() + outcomes).skip(old(self).outcomes().len() as int)
                    =~= outcomes);
                assert((old(self).handed() + hands).skip(old(self).handed().len() as int)
                    =~= hands);
                assert((old(self).requests() + asked).take(old(self).requests().len() as int)
                    =~= old(self).requests());
                assert((old(self).outcomes() + outcomes).take(old(self).outcomes().len() as int)
                    =~= old(self).outcomes());
                assert((old(self).handed() + hands).take(old(self).handed().len() as int)
                    =~= old(self).handed());
                lemma_all_bytes_in_order(old(self).handed(), hands);
            }
            let response = match answer {
                Ok(response) => response,
                Err(e) => {
                    assert(before + read_data(outcomes.last()) =~= before);
                    return Err(e);
                },
            };
            let (eof, data) = match take_last(response) {
                Some(ResultValue::Data { eof, data }) => (eof, data),
                _ => {
                    assert(before + read_data(outcomes.last()) =~= before);
                    return Err(ClientError::MissingValue);
                },
            };
            let handed = self.hand_over(sink, data.as_slice());
            proof {
                let call = handing(data@, handed);
                lemma_handed_on_hand(hands, outcomes, call);
                lemma_all_bytes_push(hands, call);
                assert(self.handed() =~= old(self).handed() + hands.push(call));
                hands = hands.push(call);
                assert((old(self).handed() + hands).skip(old(self).handed().len() as int)
                    =~= hands);
                assert((old(self).handed() + hands).take(old(self).handed().len() as int)
                    =~= old(self).handed());
                lemma_all_bytes_in_order(old(self).handed(), hands);
            }
            match handed {
                Ok(_) => {},
                Err(text) => { return Err(ClientError::Sink(text)); },
            }
            let received: u64 = data.len() as u64;
            if received > u64::MAX - offset {
                return Err(ClientError::Transfer(TransferFault::OffsetOverflow));
            }
            match read_step(offset, received, eof) {
                ReadNext::Done => { return Ok(offset + received); },
                ReadNext::Continue { offset: next } => {
                    offset = next;
                },
                ReadNext::Fault(fault) => { return Err(ClientError::Transfer(fault)); },
            }
        }
    }

    /// Writes what `source` gives, to its end, to the file `handle` from its
    /// start. Sends one request for each chunk, and one more for each part
    /// of a chunk that the server did not take at once. Gives the number of
    /// bytes written.
    ///
    /// The source is asked for a chunk, and again when what it gave was
    /// written, until it gives nothing or fails. Whatever the server sends:
    /// the first request writes from the start of the file, and every other
    /// from where the bytes end that the replies before it say were written;
    /// each sends the bytes that the source gave for that place, and no
    /// request is made after an outcome that [`write_end`] takes for the
    /// end. Where the source gave nothing at last, the number given is the
    /// number of bytes that the source gave, and that the replies say were
    /// written. Where it failed at last, the error is its own. Else the
    /// error is `OffsetOverflow`, where the source gave more than 64 bits
    /// can count, or what [`write_end`] says of the last outcome.
    pub fn write_all<SourceT: Source>(&mut self, handle: &FileHandle, source: &mut SourceT) -> (r:
        Result<u64, ClientError>)
        ensures
            final(self).credential() == old(self).credential(),
            final(self).program() == old(self).program(),
            final(self).open_owner() == old(self).open_owner(),
            final(self).next_seqid() == old(self).next_seqid(),
            final(self).handed() == old(self).handed(),
            final(self).drawn().len() > old(self).drawn().len(),
            final(self).drawn().take(old(self).drawn().len() as int) == old(self).drawn(),
            final(self).requests().len() >= old(self).requests().len(),
            final(self).requests().take(old(self).requests().len() as int) == old(
                self,
            ).requests(),
            final(self).outcomes().len() >= old(self).outcomes().len(),
            final(self).outcomes().take(old(self).outcomes().len() as int) == old(
                self,
            ).outcomes(),
            drawn_to_an_end(final(self).drawn().skip(old(self).drawn().len() as int)),
            final(self).taken() == old(self).taken() + all_bytes(
                final(self).drawn().skip(old(self).drawn().len() as int),
            ),
            uploaded(
                handle@,
                all_bytes(final(self).drawn().skip(old(self).drawn().len() as int)),
                final(self).requests().skip(old(self).requests().len() as int),
                final(self).outcomes().skip(old(self).outcomes().len() as int),
            ),
            ({
                let draws = final(self).drawn().skip(old(self).drawn().len() as int);
                let given = all_bytes(draws);
                let requests = final(self).requests().skip(old(self).requests().len() as int);
                let outcomes = final(self).outcomes().skip(old(self).outcomes().len() as int);
                let end = if outcomes.len() == 0 {
                    None
                } else {
                    write_end(
                        all_written(outcomes.drop_last()),
                        sent_data(requests.last()).len(),
                        outcomes.last(),
                    )
                };
                match draws.last().failed {
                    Some(text) => {
                        &&& r matches Err(ClientError::Source(own)) && own@ == text
                        &&& given.len() == all_written(outcomes)
                        &&& end is None
                    },
                    None => if draws.last().bytes.len() == 0 {
                        &&& r matches Ok(total) && total == given.len()
                        &&& given.len() == all_written(outcomes)
                        &&& end is None
                    } else if given.len() > u64::MAX {
                        &&& r matches Err(e) && e == ClientError::Transfer(
                            TransferFault::OffsetOverflow,
                        )
                        &&& end is None
                    } else {
                        r matches Err(e) && end == Some(e)
                    },
                }
            }),
            r matches Err(ClientError::Source(_)) ==> final(self).drawn().last().failed is Some,
    {
        let mut offset: u64 = 0;
        let ghost mut given: Seq<u8> = Seq::empty();
        let ghost mut draws: Seq<Call> = Seq::empty();
        let ghost mut asked: Seq<Seq<OperationModel>> = Seq::empty();
        let ghost mut outcomes: Seq<Outcome> = Seq::empty();
        proof {
            assert(self.drawn() =~= old(self).drawn() + draws);
            assert(self.requests() =~= old(self).requests() + asked);
            assert(self.outcomes() =~= old(self).outcomes() + outcomes);
            assert(self.requests().skip(old(self).requests().len() as int) =~= asked);
            assert(self.outcomes().skip(old(self).outcomes().len() as int) =~= outcomes);
            assert(self.requests().take(old(self).requests().len() as int) =~= old(
                self,
            ).requests());
            assert(self.outcomes().take(old(self).outcomes().len() as int) =~= old(
                self,
            ).outcomes());
        }
        loop
            invariant
                self.credential() == old(self).credential(),
                self.program() == old(self).program(),
                self.open_owner() == old(self).open_owner(),
                self.next_seqid() == old(self).next_seqid(),
                self.handed() == old(self).handed(),
                self.drawn() == old(self).drawn() + draws,
                self.requests() == old(self).requests() + asked,
                self.outcomes() == old(self).outcomes() + outcomes,
                self.requests().skip(old(self).requests().len() as int) == asked,
                self.outcomes().skip(old(self).outcomes().len() as int) == outcomes,
                self.requests().take(old(self).requests().len() as int) == old(self).requests(),
                self.outcomes().take(old(self).outcomes().len() as int) == old(self).outcomes(),
                all_gave(draws),
                given == all_bytes(draws),
                given.len() == offset,
                uploaded(handle@, given, asked, outcomes),
                outcomes.len() > 0 ==> write_end(
                    all_written(outcomes.drop_last()),
                    sent_data(asked.last()).len(),
                    outcomes.last(),
                ) is None,
                offset == all_written(outcomes),
                outcomes.len() > 0 ==> of_a_request(outcomes.last()),
            decreases u64::MAX - offset,
        {
            let drawn = self.take_from(source, CHUNK_BYTES as usize);
            let ghost end = offset + taking(CHUNK_BYTES as usize, drawn).bytes.len();
            proof {
                let call = taking(CHUNK_BYTES as usize, drawn);
                lemma_drawn_push(draws, call);
                lemma_all_bytes_push(draws, call);
                lemma_uploaded_of_more(handle@, given, call.bytes, asked, outcomes);
                assert(call.bytes =~= (given + call.bytes).subrange(offset as int, end as int));
                assert(self.drawn() =~= old(self).drawn() + draws.push(call));
                draws = draws.push(call);
                given = given + call.bytes;
                assert((old(self).drawn() + draws).skip(old(self).drawn().len() as int)
                    =~= draws);
                assert((old(self).drawn() + draws).take(old(self).drawn().len() as int)
                    =~= old(self).drawn());
                lemma_all_bytes_in_order(old(self).drawn(), draws);
            }
            let chunk = match drawn {
                Ok(chunk) => chunk,
                Err(text) => { return Err(ClientError::Source(text)); },
            };
            if chunk.len() == 0 {
                return Ok(offset);
            }
            if chunk.len() as u64 > u64::MAX - offset {
                return Err(ClientError::Transfer(TransferFault::OffsetOverflow));
            }
            let mut rest: &[u8] = chunk.as_slice();
            while rest.len() > 0
                invariant
                    self.credential() == old(self).credential(),
                    self.program() == old(self).program(),
                    self.open_owner() == old(self).open_owner(),
                    self.next_seqid() == old(self).next_seqid(),
                    self.handed() == old(self).handed(),
                    self.drawn() == old(self).drawn() + draws,
                    self.drawn().skip(old(self).drawn().len() as int) == draws,
                    self.drawn().take(old(self).drawn().len() as int) == old(self).drawn(),
                    self.taken() == old(self).taken() + given,
                    self.requests() == old(self).requests() + asked,
                    self.outcomes() == old(self).outcomes() + outcomes,
                    self.requests().skip(old(self).requests().len() as int) == asked,
                    self.outcomes().skip(old(self).outcomes().len() as int) == outcomes,
                    self.requests().take(old(self).requests().len() as int) == old(
                        self,
                    ).requests(),
                    self.outcomes().take(old(self).outcomes().len() as int) == old(
                        self,
                    ).outcomes(),
                    drawn_to_an_end(draws),
                    all_gave(draws),
                    given == all_bytes(draws),
                    given.len() == end,
                    end <= u64::MAX,
                    offset + rest@.len() == end,
                    rest@ == given.subrange(offset as int, end as int),
                    uploaded(handle@, given, asked, outcomes),
                    outcomes.len() > 0 ==> write_end(
                        all_written(outcomes.drop_last()),
                        sent_data(asked.last()).len(),
                        outcomes.last(),
                    ) is None,
                    offset == all_written(outcomes),
                    outcomes.len() > 0 ==> of_a_request(outcomes.last()),
                decreases rest@.len(),
            {
                let ops = write_compound(handle.duplicate(), offset, slice_to_vec(rest));
                let answer = self.exchange(ops.as_slice());
                proof {
                    let outcome = self.last_outcome()->0;
                    lemma_uploaded_push(handle@, given, asked, outcomes, rest@, outcome);
                    assert(models(ops@) == write_request(handle@, offset, rest@));
                    assert(sent_data(models(ops@)) == rest@);
                    assert(self.requests() =~= old(self).requests() + asked.push(models(ops@)));
                    assert(self.outcomes() =~= old(self).outcomes() + outcomes.push(outcome));
                    asked = asked.push(models(ops@));
                    outcomes = outcomes.push(outcome);
                    assert(self.requests().skip(old(self).requests().len() as int) =~= asked);
                    assert(self.outcomes().skip(old(self).outcomes().len() as int) =~= outcomes);
                    assert(self.requests().take(old(self).requests().len() as int) =~= old(
                        self,
                    ).requests());
                    assert(self.outcomes().take(old(self).outcomes().len() as int) =~= old(
                        self,
                    ).outcomes());
                }
                let response = match answer {
                    Ok(response) => response,
                    Err(e) => { return Err(e); },
                };
                let count = match take_last(response) {
                    Some(ResultValue::Written { count, committed, verifier }) => count,
                    _ => { return Err(ClientError::MissingValue); },
                };
                match write_step(offset, rest, count) {
                    Ok((next, tail)) => {
                        assert(tail@ =~= given.subrange(next as int, end as int));
                        offset = next;
                        rest = tail;
                    },
                    Err(fault) => { return Err(ClientError::Transfer(fault)); },
                }
            }
        }
    }
}

} // verus!
