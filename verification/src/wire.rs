//! Calls to what lies outside, each kept beside a record of what went out
//! and of what came in. The records are this module's own: they grow with
//! the calls made here and in no other way.

use crate::client::{Error, Transport};
use crate::nfs::{Sink, Source};
use vstd::prelude::*;

verus! {

/// A transport together with a record of what was handed to it, of what
/// was asked of it and of what it handed over.
pub struct Wire<TransportT> {
    transport: TransportT,
    written: Ghost<Seq<Seq<u8>>>,
    heard: Ghost<Seq<u8>>,
    asked: Ghost<Seq<(nat, nat)>>,
}

impl<TransportT: Transport> Wire<TransportT> {
    /// The byte strings that were handed to the transport, oldest first.
    pub closed spec fn written(&self) -> Seq<Seq<u8>> {
        self.written@
    }

    /// All bytes that the transport handed over, in order.
    pub closed spec fn heard(&self) -> Seq<u8> {
        self.heard@
    }

    /// All readings that were asked of the transport, in order: each as the
    /// number of bytes heard before it, and the number of bytes asked for.
    pub closed spec fn asked(&self) -> Seq<(nat, nat)> {
        self.asked@
    }

    /// The transport, as it is now.
    pub closed spec fn stream(&self) -> TransportT {
        self.transport
    }

    /// A wire over `transport`, of which nothing was asked yet.
    pub fn new(transport: TransportT) -> (r: Self)
        ensures
            r.written() == Seq::<Seq<u8>>::empty(),
            r.heard() == Seq::<u8>::empty(),
            r.asked() == Seq::<(nat, nat)>::empty(),
            r.stream() == transport,
    {
        Wire {
            transport,
            written: Ghost(Seq::empty()),
            heard: Ghost(Seq::empty()),
            asked: Ghost(Seq::empty()),
        }
    }

    /// The transport, for a look at it.
    pub fn transport(&self) -> (r: &TransportT)
        ensures
            *r == self.stream(),
    {
        &self.transport
    }

    /// Gives the transport back.
    pub fn into_transport(self) -> (r: TransportT)
        ensures
            r == self.stream(),
    {
        self.transport
    }

    /// Asks the transport for the next `len` bytes. What it hands over
    /// counts as heard only where it is `len` bytes; any other number is a
    /// fault of the transport.
    pub fn read(&mut self, len: usize) -> (r: Result<Vec<u8>, Error>)
        ensures
            final(self).written() == old(self).written(),
            final(self).asked() == old(self).asked().push((old(self).heard().len(), len as nat)),
            match r {
                Ok(bytes) => bytes@.len() == len && final(self).heard() == old(self).heard()
                    + bytes@,
                Err(e) => e is Io && final(self).heard() == old(self).heard(),
            },
    {
        self.asked = Ghost(self.asked@.push((self.heard@.len(), len as nat)));
        let bytes = match self.transport.read_exact(len) {
            Ok(bytes) => bytes,
            Err(text) => { return Err(Error::Io(text)); },
        };
        if bytes.len() != len {
            return Err(Error::Io("transport returned a wrong number of bytes".to_owned()));
        }
        self.heard = Ghost(self.heard@ + bytes@);
        Ok(bytes)
    }

    /// Hands `bytes` to the transport.
    pub fn write(&mut self, bytes: &[u8]) -> (r: Result<(), Error>)
        ensures
            final(self).written() == old(self).written().push(bytes@),
            final(self).heard() == old(self).heard(),
            final(self).asked() == old(self).asked(),
            r matches Err(e) ==> e is Io,
    {
        self.written = Ghost(self.written@.push(bytes@));
        match self.transport.write_all(bytes) {
            Ok(_) => Ok(()),
            Err(text) => Err(Error::Io(text)),
        }
    }
}

/// One call to a sink or to a source, as it is kept on record.
pub ghost struct Call {
    /// The number of bytes that the call was about: those handed to a sink,
    /// or the most that a source was asked for.
    pub asked: nat,
    /// The bytes that went to the sink, or that the source gave; none where
    /// a source failed.
    pub bytes: Seq<u8>,
    /// The text of the failure, where the sink or the source failed.
    pub failed: Option<Seq<char>>,
}

/// The bytes of `calls`, in their order.
pub open spec fn all_bytes(calls: Seq<Call>) -> Seq<u8>
    decreases calls.len(),
{
    if calls.len() == 0 {
        Seq::empty()
    } else {
        all_bytes(calls.drop_last()) + calls.last().bytes
    }
}

/// The bytes of calls with one more are those of the calls, and then those
/// of the one.
pub proof fn lemma_all_bytes_push(calls: Seq<Call>, call: Call)
    ensures
        all_bytes(calls.push(call)) == all_bytes(calls) + call.bytes,
{
    assert(calls.push(call).drop_last() =~= calls);
}

/// The bytes of calls one after the other are those of the first of them,
/// and then those of the others.
pub proof fn lemma_all_bytes_in_order(first: Seq<Call>, others: Seq<Call>)
    ensures
        all_bytes(first + others) == all_bytes(first) + all_bytes(others),
    decreases others.len(),
{
    if others.len() == 0 {
        assert(first + others =~= first);
        assert(all_bytes(first) + Seq::<u8>::empty() =~= all_bytes(first));
    } else {
        lemma_all_bytes_in_order(first, others.drop_last());
        assert((first + others).drop_last() =~= first + others.drop_last());
        assert((first + others).last() == others.last());
        assert((all_bytes(first) + all_bytes(others.drop_last())) + others.last().bytes
            =~= all_bytes(first) + (all_bytes(others.drop_last()) + others.last().bytes));
    }
}

/// A record of the calls that were made to sinks, or to sources, in order.
pub struct Tally {
    calls: Ghost<Seq<Call>>,
}

impl Tally {
    /// The calls on record, oldest first.
    pub closed spec fn calls(&self) -> Seq<Call> {
        self.calls@
    }

    /// The bytes on record: those of the calls, in order.
    pub open spec fn bytes(&self) -> Seq<u8> {
        all_bytes(self.calls())
    }

    /// A record of nothing.
    pub fn new() -> (r: Self)
        ensures
            r.calls() == Seq::<Call>::empty(),
    {
        Tally { calls: Ghost(Seq::empty()) }
    }
}

/// What the call that handed `bytes` to a sink is on record as, where the
/// sink gave `answer`.
pub open spec fn handing(bytes: Seq<u8>, answer: Result<(), String>) -> Call {
    Call {
        asked: bytes.len(),
        bytes,
        failed: match answer {
            Ok(_) => None,
            Err(text) => Some(text@),
        },
    }
}

/// What the call that asked a source for `max` bytes at most is on record
/// as, where the source gave `answer`.
pub open spec fn taking(max: usize, answer: Result<Vec<u8>, String>) -> Call {
    match answer {
        Ok(bytes) => Call { asked: max as nat, bytes: bytes@, failed: None },
        Err(text) => Call { asked: max as nat, bytes: Seq::empty(), failed: Some(text@) },
    }
}

/// Hands `bytes` to `sink`, once, and puts the call on record with what the
/// sink gave. Gives what the sink gave.
pub fn hand_over<SinkT: Sink>(sink: &mut SinkT, tally: &mut Tally, bytes: &[u8]) -> (r: Result<
    (),
    String,
>)
    ensures
        final(tally).calls() == old(tally).calls().push(handing(bytes@, r)),
{
    let r = sink.write_all(bytes);
    tally.calls = Ghost(tally.calls@.push(handing(bytes@, r)));
    r
}

/// Asks `source` for `max` bytes at most, once, and puts the call on record
/// with what the source gave. Gives what the source gave.
pub fn take_from<SourceT: Source>(source: &mut SourceT, tally: &mut Tally, max: usize) -> (r:
    Result<Vec<u8>, String>)
    ensures
        final(tally).calls() == old(tally).calls().push(taking(max, r)),
{
    let r = source.read(max);
    tally.calls = Ghost(tally.calls@.push(taking(max, r)));
    r
}

} // verus!
