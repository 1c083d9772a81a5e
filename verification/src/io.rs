//! Byte-channel abstraction: the traits a transport must implement, the
//! error type reads and writes report, and the specification-level model of
//! a blocking read against a stream of incoming events.
use vstd::prelude::*;

verus! {

/// The class of a transport fault, as reported by a channel implementation.
/// `TimedOut` is the one recoverable condition: the protocol counts it
/// against the error budget instead of aborting.
#[derive(Clone, Copy, Debug, PartialEq, Eq, Structural)]
pub enum ErrorKind {
    TimedOut,
    Other,
}

/// A transport error: a kind plus a human-readable message.
#[derive(Clone, Copy, Debug)]
pub struct Error {
    kind: ErrorKind,
    message: &'static str,
}

impl Error {
    /// The kind, as seen by specifications.
    pub closed spec fn spec_kind(&self) -> ErrorKind {
        self.kind
    }

    pub fn new(kind: ErrorKind, message: &'static str) -> (r: Error)
        ensures
            r.spec_kind() == kind,
    {
        Error { kind, message }
    }

    pub fn kind(&self) -> (r: ErrorKind)
        ensures
            r == self.spec_kind(),
    {
        self.kind
    }

    /// The message the error was built with.
    pub fn message(&self) -> &'static str {
        self.message
    }
}

/// One observable incident on the incoming side of a channel: a data byte
/// arriving, a read timing out, or the transport failing outright.
///
/// A channel's incoming side is modelled as a sequence of these events;
/// every read consumes a prefix of it. A real transport need not know its
/// future: the sequence is the ghost record of what its reads will yield.
#[derive(Clone, Copy, Debug, PartialEq, Eq, Structural)]
pub enum Event {
    Byte(u8),
    Timeout,
    Fault,
}

/// The error kind a read reports when it runs into this event.
pub open spec fn event_kind(e: Event) -> ErrorKind {
    match e {
        Event::Timeout => ErrorKind::TimedOut,
        _ => ErrorKind::Other,
    }
}

/// The data byte an event carries (zero for non-byte events).
pub open spec fn event_byte(e: Event) -> u8 {
    match e {
        Event::Byte(b) => b,
        _ => 0,
    }
}

/// Index of the first event that is not a data byte; the length of the
/// stream if every event is one.
pub open spec fn stop_at(evs: Seq<Event>) -> nat
    decreases evs.len(),
{
    if evs.len() == 0 {
        0
    } else if !(evs[0] is Byte) {
        0
    } else {
        1 + stop_at(evs.skip(1))
    }
}

/// The first `n` events are all data bytes.
pub open spec fn has_bytes(evs: Seq<Event>, n: nat) -> bool {
    n <= evs.len() && forall|i: int| 0 <= i < n ==> evs[i] is Byte
}

/// The data bytes carried by the first `n` events.
pub open spec fn head_bytes(evs: Seq<Event>, n: nat) -> Seq<u8> {
    Seq::new(n, |i: int| event_byte(evs[i]))
}

/// How many events a blocking read of exactly `n` bytes consumes: the `n`
/// bytes on success; otherwise everything up to and including the event
/// that stopped it, or the whole stream if it ran dry.
pub open spec fn read_used(evs: Seq<Event>, n: nat) -> nat {
    if has_bytes(evs, n) {
        n
    } else if stop_at(evs) < evs.len() {
        stop_at(evs) + 1
    } else {
        evs.len()
    }
}

/// The error kind a failed read of exactly `n` bytes reports.
pub open spec fn read_fail_kind(evs: Seq<Event>, n: nat) -> ErrorKind {
    if stop_at(evs) < evs.len() && stop_at(evs) < n {
        event_kind(evs[stop_at(evs) as int])
    } else {
        ErrorKind::Other
    }
}

/// How many data bytes a read of up to `n` bytes returns: as many as are
/// immediately available, capped at `n`.
pub open spec fn avail(evs: Seq<Event>, n: nat) -> nat {
    if stop_at(evs) < n {
        stop_at(evs)
    } else {
        n
    }
}

/// A stream of data bytes arriving undisturbed: no timeouts, no faults.
pub open spec fn byte_events(s: Seq<u8>) -> Seq<Event> {
    Seq::new(s.len(), |i: int| Event::Byte(s[i]))
}

/// Turning bytes into events distributes over concatenation.
pub proof fn lemma_byte_events_add(a: Seq<u8>, b: Seq<u8>)
    ensures
        byte_events(a + b) == byte_events(a) + byte_events(b),
{
    assert(byte_events(a + b) =~= byte_events(a) + byte_events(b));
}

/// Where the first `i` events are data bytes and the stream ends or turns
/// there, the first non-byte position is exactly `i`.
pub proof fn lemma_stop_at_is(evs: Seq<Event>, i: nat)
    requires
        i <= evs.len(),
        forall|j: int| 0 <= j < i ==> evs[j] is Byte,
        i < evs.len() ==> !(evs[i as int] is Byte),
    ensures
        stop_at(evs) == i,
    decreases i,
{
    if i == 0 {
    } else {
        assert(evs[0] is Byte);
        lemma_stop_at_is(evs.skip(1), (i - 1) as nat);
    }
}

/// The first non-byte position never lies beyond the end of the stream.
pub proof fn lemma_stop_at_le(evs: Seq<Event>)
    ensures
        stop_at(evs) <= evs.len(),
    decreases evs.len(),
{
    if evs.len() > 0 && evs[0] is Byte {
        lemma_stop_at_le(evs.skip(1));
    }
}

/// A read never consumes more events than the stream holds.
pub proof fn lemma_read_used_le(evs: Seq<Event>, n: nat)
    ensures
        read_used(evs, n) <= evs.len(),
{
    lemma_stop_at_le(evs);
}

/// The duplex byte channel a transfer runs over. One end of a serial line,
/// socket or pipe implements this; the state machines own it for the
/// duration of one transfer.
///
/// The incoming side is modelled by `in_events`, the outgoing side by
/// `sent`. Reads consume incoming events and leave `sent` alone; writes
/// append to `sent` and leave `in_events` alone. The read timeout is fixed
/// by the caller before the transfer; a read that exceeds it must report
/// `ErrorKind::TimedOut`.
pub trait Channel {
    /// The events the incoming side will yield, oldest first.
    spec fn in_events(&self) -> Seq<Event>;

    /// Every byte written to the outgoing side so far.
    spec fn sent(&self) -> Seq<u8>;

    /// Blocking read of exactly `n` bytes.
    fn read_exact(&mut self, n: usize) -> (r: Result<Vec<u8>, Error>)
        ensures
            final(self).in_events() == old(self).in_events().skip(
                read_used(old(self).in_events(), n as nat) as int,
            ),
            final(self).sent() == old(self).sent(),
            match r {
                Ok(v) => has_bytes(old(self).in_events(), n as nat) && v@ == head_bytes(
                    old(self).in_events(),
                    n as nat,
                ),
                Err(e) => !has_bytes(old(self).in_events(), n as nat) && e.spec_kind()
                    == read_fail_kind(old(self).in_events(), n as nat),
            },
    ;

    /// Blocking write of the whole buffer. The protocol treats a failure
    /// as fatal; even then the incoming side is untouched and the
    /// outgoing side has received at most some prefix of the buffer.
    fn write_all(&mut self, buf: &Vec<u8>) -> (r: Result<(), Error>)
        ensures
            match r {
                Ok(u) => final(self).sent() == old(self).sent() + buf@ && final(self).in_events()
                    == old(self).in_events(),
                Err(e) => final(self).in_events() == old(self).in_events() && exists|k: int|
                    0 <= k <= buf@.len() && final(self).sent() == old(self).sent() + buf@.take(k),
            },
    ;
}

/// A source of payload bytes for the sender (a file image, a memory
/// buffer). Modelled like the incoming side of a channel: a stream of
/// events that reads consume.
pub trait Read {
    /// The events the source will yield, oldest first.
    spec fn in_events(&self) -> Seq<Event>;

    /// Read up to `n` bytes: as many as are immediately available. Zero
    /// bytes are returned only at the end of the source; a leading
    /// non-byte event is reported as an error.
    fn read(&mut self, n: usize) -> (r: Result<Vec<u8>, Error>)
        ensures
            match r {
                Ok(v) => {
                    &&& v@ == head_bytes(old(self).in_events(), avail(old(self).in_events(), n as nat))
                    &&& v@.len() == avail(old(self).in_events(), n as nat)
                    &&& final(self).in_events() == old(self).in_events().skip(v@.len() as int)
                    &&& (v@.len() == 0 ==> n == 0 || old(self).in_events().len() == 0)
                },
                Err(e) => {
                    &&& n > 0
                    &&& old(self).in_events().len() > 0
                    &&& !(old(self).in_events()[0] is Byte)
                    &&& e.spec_kind() == event_kind(old(self).in_events()[0])
                    &&& final(self).in_events() == old(self).in_events().skip(1)
                },
            },
    ;
}

/// A sink for received payload bytes (a file image, a memory buffer).
/// `written` records every byte accepted so far. A failed write promises
/// nothing; the receiver treats it as fatal.
pub trait Write {
    /// Every byte written so far.
    spec fn written(&self) -> Seq<u8>;

    /// Write some prefix of the buffer, returning how much was taken.
    /// Even a failed write has taken at most some prefix.
    fn write(&mut self, buf: &Vec<u8>) -> (r: Result<usize, Error>)
        ensures
            match r {
                Ok(n) => n <= buf@.len() && final(self).written() == old(self).written()
                    + buf@.take(n as int),
                Err(e) => exists|k: int|
                    0 <= k <= buf@.len() && final(self).written() == old(self).written()
                        + buf@.take(k),
            },
    ;

    /// Write the whole buffer. Even a failed write has taken at most some
    /// prefix.
    fn write_all(&mut self, buf: &Vec<u8>) -> (r: Result<(), Error>)
        ensures
            match r {
                Ok(u) => final(self).written() == old(self).written() + buf@,
                Err(e) => exists|k: int|
                    0 <= k <= buf@.len() && final(self).written() == old(self).written()
                        + buf@.take(k),
            },
    ;

    /// Flush anything buffered.
    fn flush(&mut self) -> (r: Result<(), Error>)
        ensures
            final(self).written() == old(self).written(),
    ;
}

} // verus!
