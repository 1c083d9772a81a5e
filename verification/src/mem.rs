//! In-memory endpoints: a scripted channel, a memory-backed source, and a
//! byte-vector sink. They give the channel traits verified
//! implementations and make a whole transfer runnable without any real
//! transport.
use vstd::prelude::*;

use crate::io::{
    avail, byte_events, has_bytes, head_bytes, lemma_stop_at_is, Channel, Error, ErrorKind,
    Event, Read, Write,
};

verus! {

/// A channel whose incoming side serves a fixed script of events and
/// whose outgoing side records every byte written.
pub struct MemChannel {
    events: Vec<Event>,
    pos: usize,
    sent: Vec<u8>,
}

impl MemChannel {
    /// A channel that will serve exactly the scripted events.
    pub fn new(events: Vec<Event>) -> (r: Self)
        ensures
            r.in_events() == events@,
            r.sent() == Seq::<u8>::empty(),
    {
        let r = MemChannel { events, pos: 0, sent: Vec::new() };
        proof {
            assert(r.in_events() =~= r.events@);
        }
        r
    }

    /// Every byte written to the channel so far.
    pub fn sent_bytes(&self) -> (r: &Vec<u8>)
        ensures
            r@ == self.sent(),
    {
        &self.sent
    }
}

impl Channel for MemChannel {
    closed spec fn in_events(&self) -> Seq<Event> {
        if self.pos <= self.events@.len() {
            self.events@.skip(self.pos as int)
        } else {
            Seq::empty()
        }
    }

    closed spec fn sent(&self) -> Seq<u8> {
        self.sent@
    }

    fn read_exact(&mut self, n: usize) -> (r: Result<Vec<u8>, Error>) {
        let ghost evs0 = self.in_events();
        if self.pos > self.events.len() {
            self.pos = self.events.len();
            proof {
                assert(self.in_events() =~= evs0);
            }
        }
        let ghost p0 = self.pos as int;
        let mut out: Vec<u8> = Vec::new();
        let mut i: usize = 0;
        while i < n
            invariant
                i <= n,
                self.events@ == old(self).events@,
                self.sent@ == old(self).sent@,
                self.pos as int == p0 + i,
                self.pos <= self.events@.len(),
                0 <= p0 <= self.events@.len(),
                evs0 == self.events@.skip(p0),
                forall|j: int| 0 <= j < i ==> evs0[j] is Byte,
                out@ == head_bytes(evs0, i as nat),
            decreases n - i,
        {
            if self.pos >= self.events.len() {
                proof {
                    lemma_stop_at_is(evs0, i as nat);
                    assert(self.in_events() =~= evs0.skip(i as int));
                }
                return Err(Error::new(ErrorKind::Other, "end of scripted events"));
            }
            let ev = self.events[self.pos];
            proof {
                assert(ev == evs0[i as int]);
            }
            match ev {
                Event::Byte(b) => {
                    out.push(b);
                    self.pos = self.pos + 1;
                    proof {
                        assert(out@ =~= head_bytes(evs0, (i + 1) as nat));
                    }
                    i = i + 1;
                },
                Event::Timeout => {
                    self.pos = self.pos + 1;
                    proof {
                        lemma_stop_at_is(evs0, i as nat);
                        assert(self.in_events() =~= evs0.skip(i + 1 as int));
                    }
                    return Err(Error::new(ErrorKind::TimedOut, "scripted timeout"));
                },
                Event::Fault => {
                    self.pos = self.pos + 1;
                    proof {
                        lemma_stop_at_is(evs0, i as nat);
                        assert(self.in_events() =~= evs0.skip(i + 1 as int));
                    }
                    return Err(Error::new(ErrorKind::Other, "scripted transport fault"));
                },
            }
        }
        proof {
            assert(has_bytes(evs0, n as nat));
            assert(self.in_events() =~= evs0.skip(n as int));
        }
        Ok(out)
    }

    fn write_all(&mut self, buf: &Vec<u8>) -> (r: Result<(), Error>) {
        proof {
            assert(old(self).sent@ + buf@.take(0) =~= old(self).sent@);
        }
        let mut j: usize = 0;
        while j < buf.len()
            invariant
                j <= buf@.len(),
                self.events@ == old(self).events@,
                self.pos == old(self).pos,
                self.sent@ == old(self).sent@ + buf@.take(j as int),
            decreases buf@.len() - j,
        {
            self.sent.push(buf[j]);
            proof {
                assert(old(self).sent@ + buf@.take(j + 1 as int) =~= (old(self).sent@ + buf@.take(
                    j as int,
                )).push(buf@[j as int]));
            }
            j = j + 1;
        }
        proof {
            assert(buf@.take(buf@.len() as int) =~= buf@);
        }
        Ok(())
    }
}

/// A source that serves the bytes of a memory buffer.
pub struct MemReader {
    data: Vec<u8>,
    pos: usize,
}

impl MemReader {
    /// A source that will serve exactly these bytes, then report the end
    /// of the stream.
    pub fn new(data: Vec<u8>) -> (r: Self)
        ensures
            r.in_events() == byte_events(data@),
    {
        let r = MemReader { data, pos: 0 };
        proof {
            assert(r.in_events() =~= byte_events(r.data@));
        }
        r
    }
}

impl Read for MemReader {
    closed spec fn in_events(&self) -> Seq<Event> {
        if self.pos <= self.data@.len() {
            byte_events(self.data@.skip(self.pos as int))
        } else {
            Seq::empty()
        }
    }

    fn read(&mut self, n: usize) -> (r: Result<Vec<u8>, Error>) {
        let ghost evs0 = self.in_events();
        if self.pos > self.data.len() {
            self.pos = self.data.len();
            proof {
                assert(self.in_events() =~= evs0);
            }
        }
        let ghost p0 = self.pos as int;
        let mut out: Vec<u8> = Vec::new();
        let mut i: usize = 0;
        while i < n && self.pos < self.data.len()
            invariant
                i <= n,
                self.data@ == old(self).data@,
                self.pos as int == p0 + i,
                self.pos <= self.data@.len(),
                0 <= p0 <= self.data@.len(),
                evs0 == byte_events(self.data@.skip(p0)),
                out@ == head_bytes(evs0, i as nat),
            decreases n - i,
        {
            out.push(self.data[self.pos]);
            self.pos = self.pos + 1;
            proof {
                assert(out@ =~= head_bytes(evs0, (i + 1) as nat));
            }
            i = i + 1;
        }
        proof {
            assert(forall|j: int| 0 <= j < evs0.len() ==> evs0[j] is Byte);
            lemma_stop_at_is(evs0, evs0.len());
            assert(out@ =~= head_bytes(evs0, avail(evs0, n as nat)));
            assert(self.in_events() =~= evs0.skip(i as int));
        }
        Ok(out)
    }
}

impl Write for Vec<u8> {
    open spec fn written(&self) -> Seq<u8> {
        self@
    }

    fn write(&mut self, buf: &Vec<u8>) -> (r: Result<usize, Error>) {
        proof {
            assert(old(self)@ + buf@.take(0) =~= old(self)@);
        }
        let mut j: usize = 0;
        while j < buf.len()
            invariant
                j <= buf@.len(),
                self@ == old(self)@ + buf@.take(j as int),
            decreases buf@.len() - j,
        {
            self.push(buf[j]);
            proof {
                assert(old(self)@ + buf@.take(j + 1 as int) =~= (old(self)@ + buf@.take(
                    j as int,
                )).push(buf@[j as int]));
            }
            j = j + 1;
        }
        Ok(buf.len())
    }

    fn write_all(&mut self, buf: &Vec<u8>) -> (r: Result<(), Error>) {
        proof {
            assert(old(self)@ + buf@.take(0) =~= old(self)@);
        }
        let mut j: usize = 0;
        while j < buf.len()
            invariant
                j <= buf@.len(),
                self@ == old(self)@ + buf@.take(j as int),
            decreases buf@.len() - j,
        {
            self.push(buf[j]);
            proof {
                assert(old(self)@ + buf@.take(j + 1 as int) =~= (old(self)@ + buf@.take(
                    j as int,
                )).push(buf@[j as int]));
            }
            j = j + 1;
        }
        proof {
            assert(buf@.take(buf@.len() as int) =~= buf@);
        }
        Ok(())
    }

    fn flush(&mut self) -> (r: Result<(), Error>) {
        Ok(())
    }
}

} // verus!
