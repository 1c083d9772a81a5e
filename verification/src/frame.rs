//! Packet framing: the wire constants, the frame layout, and the codec
//! that writes one block to the channel and reads one back.
//!
//! Frame layout: `[marker][seqno][0xFF - seqno][payload(128|1024)][trailer]`,
//! where the trailer is the 1-byte additive checksum or the big-endian
//! 2-byte CRC-16/XMODEM of the payload alone.
use vstd::prelude::*;

use crate::integrity::{calc_checksum, calc_crc, crc16_of, sum256};
use crate::io::{has_bytes, head_bytes, read_fail_kind, read_used, Channel, Event};

verus! {

/// Start of a 128-byte block.
pub const SOH: u8 = 0x01;

/// Start of a 1024-byte block.
pub const STX: u8 = 0x02;

/// End of transmission.
pub const EOT: u8 = 0x04;

/// Positive acknowledgement.
pub const ACK: u8 = 0x06;

/// Negative acknowledgement; also the receiver's request for the
/// additive-checksum mode.
pub const NAK: u8 = 0x15;

/// Cancel.
pub const CAN: u8 = 0x18;

/// The receiver's request for CRC-16 mode.
pub const CRC: u8 = 0x43;

/// Which trailer a frame carries. The receiver chooses; the sender adopts
/// whichever request byte it observes during the handshake.
#[derive(Copy, Clone, Debug, PartialEq, Eq, Structural)]
pub enum Checksum {
    Standard,
    CRC16,
}

/// The payload size of every block in a transfer: 128 bytes (classic
/// XMODEM) or 1024 bytes (XMODEM-1K).
#[derive(Copy, Clone, Debug, PartialEq, Eq, Structural)]
pub enum BlockLength {
    Standard,
    OneK,
}

/// The errors a transfer can end with, and the recoverable faults the
/// codec reports to the state machines.
#[derive(Debug)]
pub enum Error {
    /// A fatal channel, source or sink fault; always propagates.
    Io(crate::io::Error),
    /// The number of recoverable faults exceeded the error budget.
    ExhaustedRetries,
    /// The peer cancelled, or sequence desynchronization forced this side
    /// to cancel.
    Canceled,
    /// An unrecognized frame marker was read (recoverable: skipped).
    Invalid,
    /// A frame's sequence byte and its complement disagree (escalated to
    /// `Canceled` by the receiver).
    SequenceMismatch,
    /// A frame's trailer does not match its payload (recoverable: the
    /// receiver asks for a retransmit).
    Checksum,
}

impl From<crate::io::Error> for Error {
    /// A transport fault, wrapped for propagation.
    fn from(err: crate::io::Error) -> (r: Error)
        ensures
            r == Error::Io(err),
    {
        Error::Io(err)
    }
}

impl vstd::std_specs::convert::FromSpecImpl<crate::io::Error> for Error {
    open spec fn obeys_from_spec() -> bool {
        true
    }

    open spec fn from_spec(err: crate::io::Error) -> Error {
        Error::Io(err)
    }
}

/// The number of payload bytes in a block of the given length mode.
pub open spec fn block_len_of(l: BlockLength) -> nat {
    match l {
        BlockLength::Standard => 128,
        BlockLength::OneK => 1024,
    }
}

/// The number of trailer bytes the given mode puts after the payload.
pub open spec fn trailer_len(c: Checksum) -> nat {
    match c {
        Checksum::Standard => 1,
        Checksum::CRC16 => 2,
    }
}

/// The marker byte that announces a payload of the given size.
pub open spec fn marker_of(len: nat) -> u8 {
    if len == 128 {
        SOH
    } else {
        STX
    }
}

/// The trailer bytes for a payload: its checksum, or its CRC-16 big-endian.
pub open spec fn trailer_bytes(c: Checksum, payload: Seq<u8>) -> Seq<u8> {
    match c {
        Checksum::Standard => seq![sum256(payload)],
        Checksum::CRC16 => seq![
            (crc16_of(payload) >> 8) as u8,
            (crc16_of(payload) & 0xFF) as u8,
        ],
    }
}

/// Whether trailer bytes read off the wire match the payload they follow.
pub open spec fn trailer_ok(c: Checksum, payload: Seq<u8>, trailer: Seq<u8>) -> bool {
    match c {
        Checksum::Standard => trailer[0] == sum256(payload),
        Checksum::CRC16 => trailer[0] == (crc16_of(payload) >> 8) as u8 && trailer[1] == (
        crc16_of(payload) & 0xFF) as u8,
    }
}

/// The complete wire encoding of one block.
pub open spec fn frame_bytes(seqno: u8, payload: Seq<u8>, c: Checksum) -> Seq<u8> {
    seq![marker_of(payload.len()), seqno, (255 - seqno) as u8] + payload + trailer_bytes(c, payload)
}

/// What decoding one frame from the head of an event stream yields.
pub enum FrameOutcome {
    /// A structurally and semantically valid frame.
    Packet { seqno: u8, payload: Seq<u8> },
    /// The end-of-transmission marker.
    Eot,
    /// An unrecognized leading byte (one event consumed, nothing more).
    Invalid,
    /// A full frame whose sequence byte and complement disagree.
    SeqMismatch,
    /// A full frame whose trailer does not match its payload.
    BadChecksum,
    /// A read failed mid-frame with this kind.
    Io { kind: crate::io::ErrorKind },
}

/// Decoding of everything after the marker of a block with payload size
/// `b`: the outcome, and how many events past the marker were consumed.
/// The whole frame is consumed even when a check will fail, to keep both
/// ends' byte streams aligned; the complement check takes precedence over
/// the trailer check when both fail.
pub open spec fn frame_rest_spec(evs: Seq<Event>, c: Checksum, b: nat) -> (FrameOutcome, nat) {
    if !has_bytes(evs, 2) {
        (FrameOutcome::Io { kind: read_fail_kind(evs, 2) }, read_used(evs, 2))
    } else {
        let sq = head_bytes(evs, 2)[0];
        let sq1c = head_bytes(evs, 2)[1];
        let rest = evs.skip(2);
        if !has_bytes(rest, b) {
            (FrameOutcome::Io { kind: read_fail_kind(rest, b) }, 2 + read_used(rest, b))
        } else {
            let payload = head_bytes(rest, b);
            let rest2 = rest.skip(b as int);
            let tl = trailer_len(c);
            if !has_bytes(rest2, tl) {
                (FrameOutcome::Io { kind: read_fail_kind(rest2, tl) }, 2 + b + read_used(rest2, tl))
            } else {
                let trailer = head_bytes(rest2, tl);
                let used = 2 + b + tl;
                if 255 - sq != sq1c {
                    (FrameOutcome::SeqMismatch, used)
                } else if !trailer_ok(c, payload, trailer) {
                    (FrameOutcome::BadChecksum, used)
                } else {
                    (FrameOutcome::Packet { seqno: sq, payload }, used)
                }
            }
        }
    }
}

/// Decoding of one frame from the head of an event stream: the outcome,
/// and how many events were consumed.
pub open spec fn recv_next_spec(evs: Seq<Event>, c: Checksum) -> (FrameOutcome, nat) {
    if !has_bytes(evs, 1) {
        (FrameOutcome::Io { kind: read_fail_kind(evs, 1) }, read_used(evs, 1))
    } else {
        let m = head_bytes(evs, 1)[0];
        if m == EOT {
            (FrameOutcome::Eot, 1)
        } else if m == SOH || m == STX {
            let b: nat = if m == SOH {
                128
            } else {
                1024
            };
            let (o, used) = frame_rest_spec(evs.skip(1), c, b);
            (o, 1 + used)
        } else {
            (FrameOutcome::Invalid, 1)
        }
    }
}

/// Decoding everything after a marker consumes at most the rest of the
/// stream.
pub proof fn lemma_frame_rest_used(evs: Seq<Event>, c: Checksum, b: nat)
    ensures
        frame_rest_spec(evs, c, b).1 <= evs.len(),
{
    crate::io::lemma_read_used_le(evs, 2);
    if has_bytes(evs, 2) {
        let rest = evs.skip(2);
        crate::io::lemma_read_used_le(rest, b);
        if has_bytes(rest, b) {
            let rest2 = rest.skip(b as int);
            crate::io::lemma_read_used_le(rest2, trailer_len(c));
        }
    }
}

/// One in-flight block: its wire sequence number and its payload, which
/// is exactly 128 or exactly 1024 bytes long.
#[derive(Debug)]
pub struct XmodemPacket {
    pub seqno: u8,
    pub data: Vec<u8>,
}

impl XmodemPacket {
    /// The payload has one of the two legal sizes.
    pub open spec fn wf(&self) -> bool {
        self.data@.len() == 128 || self.data@.len() == 1024
    }

    /// A fresh block of the given length, filled with the pad byte, with
    /// sequence number zero.
    pub fn new(l: BlockLength, pad: u8) -> (r: Self)
        ensures
            r.seqno == 0,
            r.data@ == Seq::new(block_len_of(l), |i: int| pad),
            r.wf(),
    {
        let n: usize = match l {
            BlockLength::Standard => 128,
            BlockLength::OneK => 1024,
        };
        let mut data: Vec<u8> = Vec::new();
        let mut i: usize = 0;
        while i < n
            invariant
                i <= n,
                data@ == Seq::new(i as nat, |j: int| pad),
            decreases n - i,
        {
            data.push(pad);
            proof {
                assert(data@ =~= Seq::new((i + 1) as nat, |j: int| pad));
            }
            i = i + 1;
        }
        proof {
            assert(data@ =~= Seq::new(block_len_of(l), |j: int| pad));
        }
        XmodemPacket { seqno: 0, data }
    }

    /// Encode this block and write the whole frame to the channel.
    pub fn send<C: Channel>(&self, dev: &mut C, c: Checksum) -> (r: Result<(), Error>)
        requires
            self.wf(),
        ensures
            match r {
                Ok(u) => final(dev).sent() == old(dev).sent() + frame_bytes(
                    self.seqno,
                    self.data@,
                    c,
                ) && final(dev).in_events() == old(dev).in_events(),
                Err(e) => e is Io,
            },
    {
        let mut v: Vec<u8> = Vec::new();
        if self.data.len() == 128 {
            v.push(SOH);
        } else {
            v.push(STX);
        }
        v.push(self.seqno);
        v.push(255 - self.seqno);
        let mut i: usize = 0;
        while i < self.data.len()
            invariant
                i <= self.data@.len(),
                v@ == seq![
                    marker_of(self.data@.len()),
                    self.seqno,
                    (255 - self.seqno) as u8,
                ] + self.data@.take(i as int),
            decreases self.data@.len() - i,
        {
            v.push(self.data[i]);
            proof {
                assert(self.data@.take(i + 1) =~= self.data@.take(i as int).push(self.data@[i as int]));
            }
            i = i + 1;
        }
        proof {
            assert(self.data@.take(self.data@.len() as int) =~= self.data@);
        }
        match c {
            Checksum::Standard => {
                v.push(calc_checksum(self.data.as_slice()));
            },
            Checksum::CRC16 => {
                let crc = calc_crc(self.data.as_slice());
                v.push((crc >> 8) as u8);
                v.push((crc & 0xFF) as u8);
            },
        }
        proof {
            assert(v@ =~= frame_bytes(self.seqno, self.data@, c));
        }
        match dev.write_all(&v) {
            Ok(u) => Ok(()),
            Err(e) => Err(Error::Io(e)),
        }
    }

    /// Read everything after a frame marker that announced a block of the
    /// given length: the sequence bytes, the payload and the trailer. The
    /// whole frame is consumed even when a check fails, so that both ends
    /// stay aligned; the complement check takes precedence over the
    /// trailer check when both fail.
    pub fn recv_rest<C: Channel>(dev: &mut C, c: Checksum, l: BlockLength) -> (r: Result<
        Self,
        Error,
    >)
        ensures
            final(dev).sent() == old(dev).sent(),
            final(dev).in_events() == old(dev).in_events().skip(
                frame_rest_spec(old(dev).in_events(), c, block_len_of(l)).1 as int,
            ),
            match r {
                Ok(p) => frame_rest_spec(old(dev).in_events(), c, block_len_of(l)).0 == (
                FrameOutcome::Packet { seqno: p.seqno, payload: p.data@ }) && p.wf() && p.data@.len()
                    == block_len_of(l),
                Err(Error::SequenceMismatch) => frame_rest_spec(
                    old(dev).in_events(),
                    c,
                    block_len_of(l),
                ).0 is SeqMismatch,
                Err(Error::Checksum) => frame_rest_spec(old(dev).in_events(), c, block_len_of(l)).0
                    is BadChecksum,
                Err(Error::Io(e)) => frame_rest_spec(old(dev).in_events(), c, block_len_of(l)).0
                    == (FrameOutcome::Io { kind: e.spec_kind() }),
                Err(e) => false,
            },
    {
        let b: usize = match l {
            BlockLength::Standard => 128,
            BlockLength::OneK => 1024,
        };
        let hdr = match dev.read_exact(2) {
            Ok(v) => v,
            Err(e) => {
                return Err(Error::Io(e));
            },
        };
        let sq = hdr[0];
        let sq1c = hdr[1];
        let payload = match dev.read_exact(b) {
            Ok(v) => v,
            Err(e) => {
                return Err(Error::Io(e));
            },
        };
        let tl: usize = match c {
            Checksum::Standard => 1,
            Checksum::CRC16 => 2,
        };
        let trailer = match dev.read_exact(tl) {
            Ok(v) => v,
            Err(e) => {
                return Err(Error::Io(e));
            },
        };
        let checksum_good: bool = match c {
            Checksum::Standard => trailer[0] == calc_checksum(payload.as_slice()),
            Checksum::CRC16 => {
                let crc = calc_crc(payload.as_slice());
                trailer[0] == (crc >> 8) as u8 && trailer[1] == (crc & 0xFF) as u8
            },
        };
        if 255 - sq != sq1c {
            return Err(Error::SequenceMismatch);
        }
        if checksum_good {
            Ok(XmodemPacket { seqno: sq, data: payload })
        } else {
            Err(Error::Checksum)
        }
    }

    /// Read one frame from the channel: a block, the end-of-transmission
    /// marker, or the fault that interrupted decoding.
    pub fn recv_next<C: Channel>(dev: &mut C, c: Checksum) -> (r: Result<Option<Self>, Error>)
        ensures
            final(dev).sent() == old(dev).sent(),
            final(dev).in_events() == old(dev).in_events().skip(
                recv_next_spec(old(dev).in_events(), c).1 as int,
            ),
            match r {
                Ok(Some(p)) => recv_next_spec(old(dev).in_events(), c).0 == (FrameOutcome::Packet {
                    seqno: p.seqno,
                    payload: p.data@,
                }) && p.wf(),
                Ok(None) => recv_next_spec(old(dev).in_events(), c).0 is Eot,
                Err(Error::Invalid) => recv_next_spec(old(dev).in_events(), c).0 is Invalid,
                Err(Error::SequenceMismatch) => recv_next_spec(old(dev).in_events(), c).0
                    is SeqMismatch,
                Err(Error::Checksum) => recv_next_spec(old(dev).in_events(), c).0 is BadChecksum,
                Err(Error::Io(e)) => recv_next_spec(old(dev).in_events(), c).0 == (FrameOutcome::Io {
                    kind: e.spec_kind(),
                }),
                Err(e) => false,
            },
    {
        let marker = match dev.read_exact(1) {
            Ok(v) => v[0],
            Err(e) => {
                return Err(Error::Io(e));
            },
        };
        if marker == EOT {
            return Ok(None);
        }
        let l = if marker == SOH {
            BlockLength::Standard
        } else if marker == STX {
            BlockLength::OneK
        } else {
            return Err(Error::Invalid);
        };
        match Self::recv_rest(dev, c, l) {
            Ok(p) => Ok(Some(p)),
            Err(e) => Err(e),
        }
    }
}

} // verus!
