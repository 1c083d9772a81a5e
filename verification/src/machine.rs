//! The sender and receiver state machines, and the specification-level
//! interpreters their contracts are stated against.
//!
//! Each interpreter is a recursive spec function that consumes the
//! channel's incoming events exactly as the matching executable loop does,
//! and yields the transfer's outcome together with what was consumed,
//! produced and emitted along the way. The executable functions promise
//! that whatever they return agrees with the interpreter applied to the
//! channel's initial state; a write failure is the one thing the
//! interpreters do not model, which is why every claim is conditional on
//! the result actually returned.
use vstd::prelude::*;

use crate::frame::{
    block_len_of, frame_bytes, frame_rest_spec, BlockLength, Checksum, Error, FrameOutcome,
    XmodemPacket, ACK, CAN, CRC, EOT, NAK, SOH, STX,
};
use crate::io::{
    avail, event_byte, has_bytes, head_bytes, read_fail_kind, read_used, Channel, ErrorKind,
    Event, Read, Write,
};

verus! {

/// The sequence number counter after one more block: 32-bit wraparound.
pub open spec fn inc32(x: u32) -> u32 {
    if x == 0xFFFF_FFFFu32 {
        0
    } else {
        (x + 1) as u32
    }
}

/// The request byte a receiver opens with: NAK asks for the additive
/// checksum, C (0x43) asks for CRC-16.
pub open spec fn mode_byte(c: Checksum) -> u8 {
    match c {
        Checksum::Standard => NAK,
        Checksum::CRC16 => CRC,
    }
}

/// `n` copies of the pad byte.
pub open spec fn pad_seq(n: nat, pad: u8) -> Seq<u8> {
    Seq::new(n, |i: int| pad)
}

/// A short chunk filled out to a full block with the pad byte.
pub open spec fn padded_chunk(chunk: Seq<u8>, b: nat, pad: u8) -> Seq<u8> {
    chunk + pad_seq((b - chunk.len()) as nat, pad)
}

/// What the sender's handshake ends in.
pub enum StartRes {
    /// A request byte arrived: the mode it selects, the events consumed,
    /// and the error count on leaving the handshake.
    Mode { c: Checksum, used: nat, errs: u32 },
    /// Two cancel bytes were observed.
    Canceled,
    /// The error budget ran out while waiting.
    Exhausted,
    /// A read failed fatally.
    Fatal,
}

/// Shift a handshake outcome by events already consumed.
pub open spec fn start_res_add(used0: nat, r: StartRes) -> StartRes {
    match r {
        StartRes::Mode { c, used, errs } => StartRes::Mode { c, used: (used0 + used) as nat, errs },
        _ => r,
    }
}

/// The sender's handshake: wait for NAK or C, counting every timeout,
/// unknown byte and cancel byte against the error budget, and giving up
/// on two cancels or an exhausted budget.
pub open spec fn start_spec(evs: Seq<Event>, errors: u32, cancels: nat, max: u32) -> StartRes
    decreases evs.len(),
{
    if evs.len() == 0 {
        StartRes::Fatal
    } else {
        match evs[0] {
            Event::Fault => StartRes::Fatal,
            Event::Timeout => if cancels >= 2 {
                StartRes::Canceled
            } else if errors + 1 >= max {
                StartRes::Exhausted
            } else {
                start_res_add(1, start_spec(evs.skip(1), (errors + 1) as u32, cancels, max))
            },
            Event::Byte(b) => if b == NAK {
                StartRes::Mode { c: Checksum::Standard, used: 1, errs: errors }
            } else if b == CRC {
                StartRes::Mode { c: Checksum::CRC16, used: 1, errs: errors }
            } else if b == CAN {
                if cancels + 1 >= 2 {
                    StartRes::Canceled
                } else if errors + 1 >= max {
                    StartRes::Exhausted
                } else {
                    start_res_add(1, start_spec(evs.skip(1), (errors + 1) as u32, cancels + 1, max))
                }
            } else {
                if cancels >= 2 {
                    StartRes::Canceled
                } else if errors + 1 >= max {
                    StartRes::Exhausted
                } else {
                    start_res_add(1, start_spec(evs.skip(1), (errors + 1) as u32, cancels, max))
                }
            },
        }
    }
}

/// The error count a completed handshake reports never exceeds what the
/// recursion saw: it is below the budget unless no fault at all occurred.
pub proof fn lemma_start_errs(evs: Seq<Event>, errors: u32, cancels: nat, max: u32)
    ensures
        start_spec(evs, errors, cancels, max) matches StartRes::Mode { c, used, errs } ==> (errs
            < max || errs == errors),
    decreases evs.len(),
{
    if evs.len() > 0 {
        match evs[0] {
            Event::Timeout => {
                if cancels < 2 && errors + 1 < max {
                    lemma_start_errs(evs.skip(1), (errors + 1) as u32, cancels, max);
                }
            },
            Event::Byte(b) => {
                if b != NAK && b != CRC {
                    if b == CAN {
                        if cancels + 1 < 2 && errors + 1 < max {
                            lemma_start_errs(evs.skip(1), (errors + 1) as u32, cancels + 1, max);
                        }
                    } else {
                        if cancels < 2 && errors + 1 < max {
                            lemma_start_errs(evs.skip(1), (errors + 1) as u32, cancels, max);
                        }
                    }
                }
            },
            Event::Fault => {},
        }
    }
}

/// Transfer configuration and per-transfer state: the error budget, the
/// pad byte for the final short block, the block length, the negotiated
/// checksum mode, and the error counter of the transfer in progress.
#[derive(Copy, Clone, Debug)]
pub struct Xmodem {
    /// The number of recoverable faults (timeouts, unexpected bytes, bad
    /// checksums) tolerated before a transfer is abandoned.
    pub max_errors: u32,
    /// The byte used to fill the final block of a transfer out to the
    /// full block length.
    pub pad_byte: u8,
    /// The payload size every block of a transfer carries.
    pub block_length: BlockLength,
    /// The integrity scheme in use: chosen by the receiver, adopted by
    /// the sender from the handshake.
    pub checksum_mode: Checksum,
    /// Recoverable faults seen so far in the transfer in progress.
    pub errors: u32,
}

impl Xmodem {
    /// The default configuration: a budget of 16 errors, pad byte 0x1A,
    /// 128-byte blocks, additive checksum until negotiated otherwise.
    pub fn new() -> (r: Self)
        ensures
            r.max_errors == 16,
            r.pad_byte == 0x1a,
            r.block_length == BlockLength::Standard,
            r.checksum_mode == Checksum::Standard,
            r.errors == 0,
    {
        Xmodem {
            max_errors: 16,
            pad_byte: 0x1a,
            block_length: BlockLength::Standard,
            checksum_mode: Checksum::Standard,
            errors: 0,
        }
    }
}

impl Default for Xmodem {
    fn default() -> (r: Self)
        ensures
            r.max_errors == 16,
            r.pad_byte == 0x1a,
            r.block_length == BlockLength::Standard,
            r.checksum_mode == Checksum::Standard,
            r.errors == 0,
    {
        Xmodem::new()
    }
}

/// A one-byte buffer for a control byte.
fn byte1(b: u8) -> (r: Vec<u8>)
    ensures
        r@ == seq![b],
{
    let mut v: Vec<u8> = Vec::new();
    v.push(b);
    proof {
        assert(v@ =~= seq![b]);
    }
    v
}

/// A two-byte buffer for a pair of control bytes.
fn byte2(a: u8, b: u8) -> (r: Vec<u8>)
    ensures
        r@ == seq![a, b],
{
    let mut v: Vec<u8> = Vec::new();
    v.push(a);
    v.push(b);
    proof {
        assert(v@ =~= seq![a, b]);
    }
    v
}

/// Read one byte from the channel.
fn get_byte<C: Channel>(reader: &mut C) -> (r: Result<u8, crate::io::Error>)
    ensures
        final(reader).sent() == old(reader).sent(),
        final(reader).in_events() == old(reader).in_events().skip(
            read_used(old(reader).in_events(), 1) as int,
        ),
        match r {
            Ok(b) => has_bytes(old(reader).in_events(), 1) && b == event_byte(
                old(reader).in_events()[0],
            ),
            Err(e) => !has_bytes(old(reader).in_events(), 1) && e.spec_kind() == read_fail_kind(
                old(reader).in_events(),
                1,
            ),
        },
{
    match reader.read_exact(1) {
        Ok(v) => Ok(v[0]),
        Err(e) => Err(e),
    }
}

/// Read one byte from the channel, turning a timeout into `None`.
fn get_byte_timeout<C: Channel>(reader: &mut C) -> (r: Result<Option<u8>, crate::io::Error>)
    ensures
        final(reader).sent() == old(reader).sent(),
        final(reader).in_events() == old(reader).in_events().skip(
            read_used(old(reader).in_events(), 1) as int,
        ),
        match r {
            Ok(Some(b)) => has_bytes(old(reader).in_events(), 1) && b == event_byte(
                old(reader).in_events()[0],
            ),
            Ok(None) => !has_bytes(old(reader).in_events(), 1) && read_fail_kind(
                old(reader).in_events(),
                1,
            ) == ErrorKind::TimedOut,
            Err(e) => !has_bytes(old(reader).in_events(), 1) && e.spec_kind() == read_fail_kind(
                old(reader).in_events(),
                1,
            ) && e.spec_kind() != ErrorKind::TimedOut,
        },
{
    match get_byte(reader) {
        Ok(c) => Ok(Some(c)),
        Err(err) => {
            if err.kind() == ErrorKind::TimedOut {
                Ok(None)
            } else {
                Err(err)
            }
        },
    }
}

impl Xmodem {
    /// The sender's handshake: wait for the receiver's request byte and
    /// adopt the checksum mode it names. Cancel bytes, unknown bytes and
    /// timeouts are counted; two cancels abort the transfer, and on an
    /// exhausted budget one cancel byte is sent best-effort before
    /// giving up.
    fn start_send<D: Channel>(&mut self, dev: &mut D) -> (r: Result<(), Error>)
        requires
            old(self).errors < u32::MAX,
        ensures
            final(self).max_errors == old(self).max_errors,
            final(self).pad_byte == old(self).pad_byte,
            final(self).block_length == old(self).block_length,
            r is Err ==> final(self).checksum_mode == old(self).checksum_mode,
            match r {
                Ok(u) => start_spec(old(dev).in_events(), old(self).errors, 0, old(self).max_errors)
                    matches StartRes::Mode { c, used, errs } && final(self).checksum_mode == c
                    && final(self).errors == errs && used <= old(dev).in_events().len()
                    && final(dev).in_events() == old(dev).in_events().skip(used as int)
                    && final(dev).sent() == old(dev).sent()
                    && (errs < old(self).max_errors || errs == old(self).errors),
                Err(Error::Canceled) => start_spec(
                    old(dev).in_events(),
                    old(self).errors,
                    0,
                    old(self).max_errors,
                ) is Canceled,
                Err(Error::ExhaustedRetries) => (start_spec(
                    old(dev).in_events(),
                    old(self).errors,
                    0,
                    old(self).max_errors,
                ) is Exhausted && exists|kk: int|
                    0 <= kk <= 1 && final(dev).sent() == old(dev).sent() + seq![CAN].take(kk)),
                Err(Error::Io(e)) => start_spec(
                    old(dev).in_events(),
                    old(self).errors,
                    0,
                    old(self).max_errors,
                ) is Fatal,
                Err(e) => false,
            },
    {
        let ghost evs0 = dev.in_events();
        let ghost e0 = self.errors;
        let ghost mut used_acc: nat = 0;
        let mut cancels: u32 = 0;
        loop
            invariant
                self.max_errors == old(self).max_errors,
                self.pad_byte == old(self).pad_byte,
                self.block_length == old(self).block_length,
                self.checksum_mode == old(self).checksum_mode,
                cancels <= 1,
                self.errors < self.max_errors || self.errors == e0,
                dev.sent() == old(dev).sent(),
                dev.in_events() == evs0.skip(used_acc as int),
                used_acc <= evs0.len(),
                start_spec(evs0, e0, 0, self.max_errors) == start_res_add(
                    used_acc,
                    start_spec(dev.in_events(), self.errors, cancels as nat, self.max_errors),
                ),
            decreases dev.in_events().len(),
        {
            let ghost evs_here = dev.in_events();
            match get_byte_timeout(dev) {
                Err(e) => {
                    return Err(Error::Io(e));
                },
                Ok(Some(b)) => {
                    if b == NAK {
                        self.checksum_mode = Checksum::Standard;
                        proof {
                            lemma_start_errs(evs0, e0, 0, self.max_errors);
                        }
                        return Ok(());
                    } else if b == CRC {
                        self.checksum_mode = Checksum::CRC16;
                        proof {
                            lemma_start_errs(evs0, e0, 0, self.max_errors);
                        }
                        return Ok(());
                    } else if b == CAN {
                        cancels = cancels + 1;
                    }
                },
                Ok(None) => {},
            }
            self.errors = self.errors + 1;
            if cancels >= 2 {
                return Err(Error::Canceled);
            }
            if self.errors >= self.max_errors {
                proof {
                    assert(seq![CAN].take(1) =~= seq![CAN]);
                    assert(seq![CAN].take(0) =~= Seq::<u8>::empty());
                    assert(dev.sent() + Seq::<u8>::empty() =~= dev.sent());
                }
                let canv = byte1(CAN);
                match dev.write_all(&canv) {
                    Ok(u) => {},
                    Err(e) => {},
                }
                return Err(Error::ExhaustedRetries);
            }
            proof {
                used_acc = used_acc + 1;
            }
        }
    }
}

/// What one block's transmit-and-await-acknowledgement loop ends in.
pub enum AckRes {
    /// The block was acknowledged: the events consumed, the error count
    /// on leaving, and every byte emitted (the frame, once per attempt).
    Acked { used: nat, errs: u32, emitted: Seq<u8> },
    /// The error budget ran out before an acknowledgement; `emitted`
    /// holds every transmission of the frame up to that point.
    Exhausted { emitted: Seq<u8> },
    /// A read failed fatally.
    Fatal,
}

/// Shift an outcome by events already consumed and bytes already
/// emitted.
pub open spec fn ack_res_add(used0: nat, em0: Seq<u8>, r: AckRes) -> AckRes {
    match r {
        AckRes::Acked { used, errs, emitted } => AckRes::Acked {
            used: (used0 + used) as nat,
            errs,
            emitted: em0 + emitted,
        },
        AckRes::Exhausted { emitted } => AckRes::Exhausted { emitted: em0 + emitted },
        AckRes::Fatal => AckRes::Fatal,
    }
}

/// Two shifts compose into one.
pub proof fn lemma_ack_add_add(u1: nat, e1: Seq<u8>, u2: nat, e2: Seq<u8>, r: AckRes)
    ensures
        ack_res_add(u1, e1, ack_res_add(u2, e2, r)) == ack_res_add((u1 + u2) as nat, e1 + e2, r),
{
    match r {
        AckRes::Acked { used, errs, emitted } => {
            assert(e1 + (e2 + emitted) =~= (e1 + e2) + emitted);
        },
        AckRes::Exhausted { emitted } => {
            assert(e1 + (e2 + emitted) =~= (e1 + e2) + emitted);
        },
        AckRes::Fatal => {},
    }
}

/// One block's transmit-and-wait loop: the frame is emitted, then one
/// byte is awaited; anything but ACK costs one error and retransmits the
/// same frame, until the budget runs out.
pub open spec fn block_retry_spec(fr: Seq<u8>, evs: Seq<Event>, errors: u32, max: u32) -> AckRes
    decreases evs.len(),
{
    if evs.len() == 0 {
        AckRes::Fatal
    } else {
        match evs[0] {
            Event::Fault => AckRes::Fatal,
            Event::Byte(b) => if b == ACK {
                AckRes::Acked { used: 1, errs: errors, emitted: fr }
            } else if errors + 1 >= max {
                AckRes::Exhausted { emitted: fr }
            } else {
                ack_res_add(1, fr, block_retry_spec(fr, evs.skip(1), (errors + 1) as u32, max))
            },
            Event::Timeout => if errors + 1 >= max {
                AckRes::Exhausted { emitted: fr }
            } else {
                ack_res_add(1, fr, block_retry_spec(fr, evs.skip(1), (errors + 1) as u32, max))
            },
        }
    }
}

impl Xmodem {
    /// The end of a send: transmit EOT and await the acknowledgement,
    /// with the same retry discipline as a data block. On an exhausted
    /// budget, one cancel byte is sent best-effort before giving up.
    fn finish_send<D: Channel>(&mut self, dev: &mut D) -> (r: Result<(), Error>)
        requires
            old(self).errors < u32::MAX,
        ensures
            final(self).max_errors == old(self).max_errors,
            final(self).pad_byte == old(self).pad_byte,
            final(self).block_length == old(self).block_length,
            final(self).checksum_mode == old(self).checksum_mode,
            match r {
                Ok(u) => block_retry_spec(
                    seq![EOT],
                    old(dev).in_events(),
                    old(self).errors,
                    old(self).max_errors,
                ) matches AckRes::Acked { used, errs, emitted } && final(self).errors == errs && (
                errs < old(self).max_errors || errs == old(self).errors) && used <= old(
                    dev,
                ).in_events().len() && final(dev).in_events() == old(dev).in_events().skip(
                    used as int,
                ) && final(dev).sent() == old(dev).sent() + emitted,
                Err(Error::ExhaustedRetries) => (block_retry_spec(
                    seq![EOT],
                    old(dev).in_events(),
                    old(self).errors,
                    old(self).max_errors,
                ) matches AckRes::Exhausted { emitted } && exists|kk: int|
                    0 <= kk <= 1 && final(dev).sent() == old(dev).sent() + emitted + seq![
                        CAN,
                    ].take(kk)),
                Err(Error::Io(e)) => true,
                Err(e) => false,
            },
    {
        let ghost evs0 = dev.in_events();
        let ghost sent0 = dev.sent();
        let ghost e0 = self.errors;
        let ghost mut used_acc: nat = 0;
        let ghost mut em: Seq<u8> = Seq::empty();
        loop
            invariant
                self.max_errors == old(self).max_errors,
                self.pad_byte == old(self).pad_byte,
                self.block_length == old(self).block_length,
                self.checksum_mode == old(self).checksum_mode,
                self.errors < self.max_errors || self.errors == e0,
                dev.in_events() == evs0.skip(used_acc as int),
                used_acc <= evs0.len(),
                dev.sent() == sent0 + em,
                block_retry_spec(seq![EOT], evs0, e0, self.max_errors) == ack_res_add(
                    used_acc,
                    em,
                    block_retry_spec(seq![EOT], dev.in_events(), self.errors, self.max_errors),
                ),
            decreases dev.in_events().len(),
        {
            let eotv = byte1(EOT);
            match dev.write_all(&eotv) {
                Ok(u) => {},
                Err(e) => {
                    return Err(Error::Io(e));
                },
            }
            match get_byte_timeout(dev) {
                Err(e) => {
                    return Err(Error::Io(e));
                },
                Ok(Some(b)) => {
                    if b == ACK {
                        proof {
                            assert(evs0.skip(used_acc as int).skip(1) =~= evs0.skip(
                                used_acc + 1 as int,
                            ));
                            assert((sent0 + em) + seq![EOT] =~= sent0 + (em + seq![EOT]));
                        }
                        return Ok(());
                    }
                },
                Ok(None) => {},
            }
            self.errors = self.errors + 1;
            if self.errors >= self.max_errors {
                proof {
                    assert((sent0 + em) + seq![EOT] =~= sent0 + (em + seq![EOT]));
                    assert(seq![CAN].take(1) =~= seq![CAN]);
                    assert(seq![CAN].take(0) =~= Seq::<u8>::empty());
                    assert((sent0 + (em + seq![EOT])) + Seq::<u8>::empty() =~= sent0 + (em + seq![
                        EOT,
                    ]));
                }
                let canv = byte1(CAN);
                match dev.write_all(&canv) {
                    Ok(u) => {},
                    Err(e) => {},
                }
                return Err(Error::ExhaustedRetries);
            }
            proof {
                lemma_ack_add_add(
                    used_acc,
                    em,
                    1,
                    seq![EOT],
                    block_retry_spec(
                        seq![EOT],
                        dev.in_events(),
                        self.errors,
                        self.max_errors,
                    ),
                );
                assert(evs0.skip(used_acc as int).skip(1) =~= evs0.skip(used_acc + 1 as int));
                assert((sent0 + em) + seq![EOT] =~= sent0 + (em + seq![EOT]));
                used_acc = used_acc + 1;
                em = em + seq![EOT];
            }
        }
    }
}

/// What the sender's block-transmission phase ends in.
pub enum StreamRes {
    /// The source ran dry: how much of the source and of the channel was
    /// consumed, the error count on leaving, and every frame byte
    /// emitted. The source bytes consumed are the transfer's reported
    /// byte count.
    Done { src_used: nat, dev_used: nat, errs: u32, emitted: Seq<u8> },
    /// The error budget ran out on some block; `emitted` holds every
    /// frame byte put on the wire up to that point.
    Exhausted { emitted: Seq<u8> },
    /// A read failed fatally.
    Fatal,
}

/// Shift an outcome by source and channel events already consumed and
/// bytes already emitted.
pub open spec fn stream_res_add(su0: nat, du0: nat, em0: Seq<u8>, r: StreamRes) -> StreamRes {
    match r {
        StreamRes::Done { src_used, dev_used, errs, emitted } => StreamRes::Done {
            src_used: (su0 + src_used) as nat,
            dev_used: (du0 + dev_used) as nat,
            errs,
            emitted: em0 + emitted,
        },
        StreamRes::Exhausted { emitted } => StreamRes::Exhausted { emitted: em0 + emitted },
        StreamRes::Fatal => StreamRes::Fatal,
    }
}

/// Two shifts compose into one.
pub proof fn lemma_stream_add_add(
    su1: nat,
    du1: nat,
    e1: Seq<u8>,
    su2: nat,
    du2: nat,
    e2: Seq<u8>,
    r: StreamRes,
)
    ensures
        stream_res_add(su1, du1, e1, stream_res_add(su2, du2, e2, r)) == stream_res_add(
            (su1 + su2) as nat,
            (du1 + du2) as nat,
            e1 + e2,
            r,
        ),
{
    match r {
        StreamRes::Done { src_used, dev_used, errs, emitted } => {
            assert(e1 + (e2 + emitted) =~= (e1 + e2) + emitted);
        },
        StreamRes::Exhausted { emitted } => {
            assert(e1 + (e2 + emitted) =~= (e1 + e2) + emitted);
        },
        StreamRes::Fatal => {},
    }
}

/// The sender's block-transmission phase: read up to one block from the
/// source; on zero bytes the source is done; otherwise pad the chunk to a
/// full block, frame it under the next sequence number, and run the
/// transmit-and-wait loop for it.
pub open spec fn stream_spec(
    src: Seq<Event>,
    dev: Seq<Event>,
    counter: u32,
    errors: u32,
    max: u32,
    c: Checksum,
    l: BlockLength,
    pad: u8,
) -> StreamRes
    decreases src.len(),
{
    let b = block_len_of(l);
    if src.len() == 0 {
        StreamRes::Done { src_used: 0, dev_used: 0, errs: errors, emitted: Seq::empty() }
    } else if !(src[0] is Byte) {
        StreamRes::Fatal
    } else {
        proof {
            crate::io::lemma_stop_at_le(src);
        }
        let k = avail(src, b);
        let payload = padded_chunk(head_bytes(src, k), b, pad);
        let sq = inc32(counter);
        let fr = frame_bytes((sq & 0xFF) as u8, payload, c);
        match block_retry_spec(fr, dev, errors, max) {
            AckRes::Acked { used, errs, emitted } => stream_res_add(
                k,
                used,
                emitted,
                stream_spec(src.skip(k as int), dev.skip(used as int), sq, errs, max, c, l, pad),
            ),
            AckRes::Exhausted { emitted } => StreamRes::Exhausted { emitted },
            AckRes::Fatal => StreamRes::Fatal,
        }
    }
}

impl Xmodem {
    /// The block-transmission phase of a send: read up to one block from
    /// the source, pad a short final chunk, transmit under the next
    /// sequence number, and retransmit the same block until it is
    /// acknowledged or the budget runs out. On an exhausted budget, and
    /// on a source read failure, one cancel byte is sent best-effort
    /// before giving up. Returns the number of bytes consumed from the
    /// source, padding not counted.
    #[verifier::rlimit(100)]
    fn send_stream<D: Channel, R: Read>(&mut self, dev: &mut D, stream: &mut R) -> (r: Result<
        usize,
        Error,
    >)
        requires
            old(self).errors < u32::MAX,
        ensures
            final(self).max_errors == old(self).max_errors,
            final(self).pad_byte == old(self).pad_byte,
            final(self).block_length == old(self).block_length,
            final(self).checksum_mode == old(self).checksum_mode,
            match r {
                Ok(n) => stream_spec(
                    old(stream).in_events(),
                    old(dev).in_events(),
                    0,
                    old(self).errors,
                    old(self).max_errors,
                    old(self).checksum_mode,
                    old(self).block_length,
                    old(self).pad_byte,
                ) matches StreamRes::Done { src_used, dev_used, errs, emitted } && n == src_used && (
                errs < old(self).max_errors || errs == old(self).errors) && final(self).errors
                    == errs && final(stream).in_events() == old(stream).in_events().skip(
                    src_used as int,
                ) && dev_used <= old(dev).in_events().len() && final(dev).in_events() == old(
                    dev,
                ).in_events().skip(dev_used as int) && final(dev).sent() == old(dev).sent()
                    + emitted,
                Err(Error::ExhaustedRetries) => (stream_spec(
                    old(stream).in_events(),
                    old(dev).in_events(),
                    0,
                    old(self).errors,
                    old(self).max_errors,
                    old(self).checksum_mode,
                    old(self).block_length,
                    old(self).pad_byte,
                ) matches StreamRes::Exhausted { emitted } && exists|kk: int|
                    0 <= kk <= 1 && final(dev).sent() == old(dev).sent() + emitted + seq![
                        CAN,
                    ].take(kk)),
                Err(Error::Io(e)) => true,
                Err(e) => false,
            },
    {
        let ghost src0 = stream.in_events();
        let ghost dev0 = dev.in_events();
        let ghost sent0 = dev.sent();
        let ghost e0 = self.errors;
        let ghost mut su: nat = 0;
        let ghost mut du: nat = 0;
        let ghost mut em: Seq<u8> = Seq::empty();
        let mut seqno: u32 = 0;
        let mut bytes: usize = 0;
        let b: usize = match self.block_length {
            BlockLength::Standard => 128,
            BlockLength::OneK => 1024,
        };
        loop
            invariant
                b as nat == block_len_of(self.block_length),
                self.max_errors == old(self).max_errors,
                self.pad_byte == old(self).pad_byte,
                self.block_length == old(self).block_length,
                self.checksum_mode == old(self).checksum_mode,
                self.errors < self.max_errors || self.errors == e0,
                stream.in_events() == src0.skip(su as int),
                su <= src0.len(),
                dev.in_events() == dev0.skip(du as int),
                du <= dev0.len(),
                dev.sent() == sent0 + em,
                bytes as nat == su,
                stream_spec(
                    src0,
                    dev0,
                    0,
                    e0,
                    self.max_errors,
                    self.checksum_mode,
                    self.block_length,
                    self.pad_byte,
                ) == stream_res_add(
                    su,
                    du,
                    em,
                    stream_spec(
                        stream.in_events(),
                        dev.in_events(),
                        seqno,
                        self.errors,
                        self.max_errors,
                        self.checksum_mode,
                        self.block_length,
                        self.pad_byte,
                    ),
                ),
            decreases stream.in_events().len(),
        {
            let ghost src_here = stream.in_events();
            let ghost evs_entry = dev.in_events();
            let ghost sent_entry = dev.sent();
            let ghost errs_entry = self.errors;
            let ghost seq_pre = seqno;
            let chunk = match stream.read(b) {
                Ok(v) => v,
                Err(e) => {
                    let canv = byte1(CAN);
                    match dev.write_all(&canv) {
                        Ok(u) => {},
                        Err(e2) => {},
                    }
                    return Err(Error::Io(e));
                },
            };
            let n = chunk.len();
            if n == 0 {
                proof {
                    assert(src_here.len() == 0);
                    assert(em + Seq::<u8>::empty() =~= em);
                }
                return Ok(bytes);
            }
            let ghost k = chunk@.len();
            proof {
                crate::io::lemma_stop_at_le(src_here);
            }
            seqno = seqno.wrapping_add(1);
            let ghost chunk0 = chunk@;
            let mut payload = chunk;
            proof {
                assert(chunk0 + pad_seq(0, self.pad_byte) =~= chunk0);
            }
            while payload.len() < b
                invariant
                    chunk0.len() <= payload@.len() <= b as nat,
                    payload@ == chunk0 + pad_seq(
                        (payload@.len() - chunk0.len()) as nat,
                        self.pad_byte,
                    ),
                decreases b - payload.len(),
            {
                payload.push(self.pad_byte);
                proof {
                    assert(payload@ =~= chunk0 + pad_seq(
                        (payload@.len() - chunk0.len()) as nat,
                        self.pad_byte,
                    ));
                }
            }
            proof {
                assert(payload@ =~= padded_chunk(chunk0, b as nat, self.pad_byte));
            }
            let packet = XmodemPacket { seqno: (seqno & 0xFF) as u8, data: payload };
            let ghost fr = frame_bytes(packet.seqno, packet.data@, self.checksum_mode);
            let ghost mut used_r: nat = 0;
            let ghost mut em_r: Seq<u8> = Seq::empty();
            let mut acked = false;
            while !acked
                invariant
                    self.max_errors == old(self).max_errors,
                    self.pad_byte == old(self).pad_byte,
                    self.block_length == old(self).block_length,
                    self.checksum_mode == old(self).checksum_mode,
                    self.errors < self.max_errors || self.errors == errs_entry,
                    errs_entry < self.max_errors || errs_entry == e0,
                    !acked ==> {
                        &&& dev.in_events() == evs_entry.skip(used_r as int)
                        &&& used_r <= evs_entry.len()
                        &&& dev.sent() == sent_entry + em_r
                        &&& block_retry_spec(fr, evs_entry, errs_entry, self.max_errors)
                            == ack_res_add(
                            used_r,
                            em_r,
                            block_retry_spec(fr, dev.in_events(), self.errors, self.max_errors),
                        )
                    },
                    acked ==> (block_retry_spec(fr, evs_entry, errs_entry, self.max_errors) matches
                        AckRes::Acked { used, errs, emitted } && used <= evs_entry.len()
                        && dev.in_events() == evs_entry.skip(used as int) && dev.sent()
                        == sent_entry + emitted && self.errors == errs),
                decreases dev.in_events().len(),
            {
                match packet.send(dev, self.checksum_mode) {
                    Ok(u) => {},
                    Err(e) => {
                        return Err(e);
                    },
                }
                match get_byte_timeout(dev) {
                    Err(e) => {
                        return Err(Error::Io(e));
                    },
                    Ok(Some(x)) => {
                        if x == ACK {
                            proof {
                                assert(evs_entry.skip(used_r as int).skip(1) =~= evs_entry.skip(
                                    used_r + 1 as int,
                                ));
                                assert((sent_entry + em_r) + fr =~= sent_entry + (em_r + fr));
                            }
                            acked = true;
                        }
                    },
                    Ok(None) => {},
                }
                if !acked {
                    self.errors = self.errors + 1;
                    if self.errors >= self.max_errors {
                        proof {
                            assert((sent_entry + em_r) + fr =~= sent_entry + (em_r + fr));
                            assert(sent0 + (em + (em_r + fr)) =~= (sent0 + em) + (em_r + fr));
                            assert(seq![CAN].take(1) =~= seq![CAN]);
                            assert(seq![CAN].take(0) =~= Seq::<u8>::empty());
                            assert((sent0 + (em + (em_r + fr))) + Seq::<u8>::empty() =~= sent0 + (em
                                + (em_r + fr)));
                        }
                        let canv = byte1(CAN);
                        match dev.write_all(&canv) {
                            Ok(u) => {},
                            Err(e) => {},
                        }
                        return Err(Error::ExhaustedRetries);
                    }
                    proof {
                        lemma_ack_add_add(
                            used_r,
                            em_r,
                            1,
                            fr,
                            block_retry_spec(fr, dev.in_events(), self.errors, self.max_errors),
                        );
                        assert(evs_entry.skip(used_r as int).skip(1) =~= evs_entry.skip(
                            used_r + 1 as int,
                        ));
                        assert((sent_entry + em_r) + fr =~= sent_entry + (em_r + fr));
                        used_r = used_r + 1;
                        em_r = em_r + fr;
                    }
                }
            }
            if n > usize::MAX - bytes {
                return Err(
                    Error::Io(
                        crate::io::Error::new(ErrorKind::Other, "transfer exceeds the byte counter"),
                    ),
                );
            }
            bytes = bytes + n;
            proof {
                let ar = block_retry_spec(fr, evs_entry, errs_entry, self.max_errors);
                match ar {
                    AckRes::Acked { used, errs, emitted } => {
                        lemma_stream_add_add(
                            su,
                            du,
                            em,
                            k,
                            used,
                            emitted,
                            stream_spec(
                                src_here.skip(k as int),
                                evs_entry.skip(used as int),
                                seqno,
                                errs,
                                self.max_errors,
                                self.checksum_mode,
                                self.block_length,
                                self.pad_byte,
                            ),
                        );
                        assert(src0.skip(su as int).skip(k as int) =~= src0.skip(su + k as int));
                        assert(dev0.skip(du as int).skip(used as int) =~= dev0.skip(
                            du + used as int,
                        ));
                        assert((sent0 + em) + emitted =~= sent0 + (em + emitted));
                        su = su + k;
                        du = du + used;
                        em = em + emitted;
                    },
                    _ => {
                        assert(false);
                    },
                }
            }
        }
    }

    /// Start the XMODEM transmission.
    ///
    /// `dev` should be the serial communication channel (e.g. the serial
    /// device). `stream` should be the message to send (e.g. a file).
    /// Returns how many bytes were consumed from `stream`, padding not
    /// counted.
    ///
    /// On an exhausted error budget in any phase, and on a source read
    /// failure, one cancel byte is sent best-effort before the error is
    /// returned.
    ///
    /// # Timeouts
    /// This method has no way of setting the timeout of `dev`, so it is up
    /// to the caller to set the timeout of the device before calling this
    /// method. Timeouts on receiving bytes are counted against
    /// `max_errors`; timeouts on transmitting bytes are fatal.
    pub fn send<D: Channel, R: Read>(&mut self, dev: &mut D, stream: &mut R) -> (r: Result<
        usize,
        Error,
    >)
        ensures
            final(self).max_errors == old(self).max_errors,
            final(self).pad_byte == old(self).pad_byte,
            final(self).block_length == old(self).block_length,
            r matches Err(Error::Canceled) ==> final(self).checksum_mode == old(
                self,
            ).checksum_mode,
            match r {
                Ok(n) => send_spec(
                    old(stream).in_events(),
                    old(dev).in_events(),
                    old(self).max_errors,
                    old(self).block_length,
                    old(self).pad_byte,
                ) matches SendRes::Done { bytes, c, src_used, dev_used, errs, emitted } && n
                    == bytes && final(self).checksum_mode == c && final(self).errors == errs
                    && final(stream).in_events() == old(stream).in_events().skip(src_used as int)
                    && final(dev).in_events() == old(dev).in_events().skip(dev_used as int)
                    && final(dev).sent() == old(dev).sent() + emitted,
                Err(Error::Canceled) => send_spec(
                    old(stream).in_events(),
                    old(dev).in_events(),
                    old(self).max_errors,
                    old(self).block_length,
                    old(self).pad_byte,
                ) is Canceled,
                Err(Error::ExhaustedRetries) => (send_spec(
                    old(stream).in_events(),
                    old(dev).in_events(),
                    old(self).max_errors,
                    old(self).block_length,
                    old(self).pad_byte,
                ) matches SendRes::Exhausted { emitted } && exists|kk: int|
                    0 <= kk <= 1 && final(dev).sent() == old(dev).sent() + emitted + seq![
                        CAN,
                    ].take(kk)),
                Err(Error::Io(e)) => true,
                Err(e) => false,
            },
    {
        self.errors = 0;
        match self.start_send(dev) {
            Ok(u) => {},
            Err(e) => {
                proof {
                    assert(old(dev).sent() + Seq::<u8>::empty() =~= old(dev).sent());
                }
                return Err(e);
            },
        }
        let bytes = match self.send_stream(dev, stream) {
            Ok(n) => n,
            Err(e) => {
                return Err(e);
            },
        };
        proof {
            let dev0 = old(dev).in_events();
            let src0 = old(stream).in_events();
            let m = old(self).max_errors;
            let l = old(self).block_length;
            let p = old(self).pad_byte;
            match start_spec(dev0, 0, 0, m) {
                StartRes::Mode { c, used, errs } => {
                    match stream_spec(src0, dev0.skip(used as int), 0, errs, m, c, l, p) {
                        StreamRes::Done { src_used, dev_used, errs: e2, emitted } => {
                            assert(dev0.skip(used as int).skip(dev_used as int) =~= dev0.skip(
                                used + dev_used as int,
                            ));
                        },
                        _ => {
                            assert(false);
                        },
                    }
                },
                _ => {
                    assert(false);
                },
            }
        }
        match self.finish_send(dev) {
            Ok(u) => {},
            Err(e) => {
                return Err(e);
            },
        }
        proof {
            let dev0 = old(dev).in_events();
            let src0 = old(stream).in_events();
            let m = old(self).max_errors;
            let l = old(self).block_length;
            let p = old(self).pad_byte;
            match start_spec(dev0, 0, 0, m) {
                StartRes::Mode { c, used, errs } => {
                    match stream_spec(src0, dev0.skip(used as int), 0, errs, m, c, l, p) {
                        StreamRes::Done { src_used, dev_used, errs: e2, emitted } => {
                            assert(dev0.skip(used as int).skip(dev_used as int) =~= dev0.skip(
                                used + dev_used as int,
                            ));
                            match block_retry_spec(
                                seq![EOT],
                                dev0.skip((used + dev_used) as int),
                                e2,
                                m,
                            ) {
                                AckRes::Acked { used: u3, errs: e3, emitted: em3 } => {
                                    assert(dev0.skip(used + dev_used as int).skip(u3 as int)
                                        =~= dev0.skip(used + dev_used + u3 as int));
                                    assert((old(dev).sent() + emitted) + em3 =~= old(dev).sent() + (
                                    emitted + em3));
                                },
                                _ => {
                                    assert(false);
                                },
                            }
                        },
                        _ => {
                            assert(false);
                        },
                    }
                },
                _ => {
                    assert(false);
                },
            }
        }
        Ok(bytes)
    }
}

/// What a whole send ends in: the handshake, the block-transmission
/// phase, and the end-of-transmission exchange, composed.
pub enum SendRes {
    /// The transfer completed: the count of source bytes consumed (the
    /// reported byte count), the negotiated mode, what was consumed from
    /// source and channel, the final error count, and every frame and
    /// control byte emitted after the handshake.
    Done { bytes: nat, c: Checksum, src_used: nat, dev_used: nat, errs: u32, emitted: Seq<u8> },
    /// Two cancel bytes arrived during the handshake.
    Canceled,
    /// The error budget ran out in some phase; `emitted` holds every
    /// frame byte put on the wire up to that point.
    Exhausted { emitted: Seq<u8> },
    /// A read failed fatally.
    Fatal,
}

/// The sender, whole: handshake, blocks, then end-of-transmission, each
/// phase starting where the previous one left the channel.
pub open spec fn send_spec(src: Seq<Event>, dev: Seq<Event>, max: u32, l: BlockLength, pad: u8) -> SendRes {
    match start_spec(dev, 0, 0, max) {
        StartRes::Mode { c, used, errs } => match stream_spec(
            src,
            dev.skip(used as int),
            0,
            errs,
            max,
            c,
            l,
            pad,
        ) {
            StreamRes::Done { src_used, dev_used, errs: e2, emitted } => match block_retry_spec(
                seq![EOT],
                dev.skip((used + dev_used) as int),
                e2,
                max,
            ) {
                AckRes::Acked { used: u3, errs: e3, emitted: em3 } => SendRes::Done {
                    bytes: src_used,
                    c,
                    src_used,
                    dev_used: (used + dev_used + u3) as nat,
                    errs: e3,
                    emitted: emitted + em3,
                },
                AckRes::Exhausted { emitted: em3 } => SendRes::Exhausted {
                    emitted: emitted + em3,
                },
                AckRes::Fatal => SendRes::Fatal,
            },
            StreamRes::Exhausted { emitted } => SendRes::Exhausted { emitted },
            StreamRes::Fatal => SendRes::Fatal,
        },
        StartRes::Canceled => SendRes::Canceled,
        StartRes::Exhausted => SendRes::Exhausted { emitted: Seq::empty() },
        StartRes::Fatal => SendRes::Fatal,
    }
}

/// What a whole receive ends in.
pub enum RecvRes {
    /// The sender signalled end of transmission: the payloads accepted in
    /// order, the events consumed, the final error count, and every
    /// control byte emitted after the opening request byte.
    Done { data: Seq<u8>, used: nat, errs: u32, emitted: Seq<u8> },
    /// The transfer was abandoned after accepting `data`: either
    /// sequence desynchronization, with two cancel bytes of this side's
    /// own at the end of `emitted`, or two consecutive cancel bytes from
    /// the peer, with nothing more emitted.
    Canceled { data: Seq<u8>, emitted: Seq<u8> },
    /// The error budget ran out and the transfer was abandoned after
    /// accepting `data`. Two cancel bytes follow `emitted` best-effort;
    /// they are not part of it, since their write is not awaited.
    Exhausted { data: Seq<u8>, emitted: Seq<u8> },
    /// A read failed fatally.
    Fatal,
}

/// Shift a receive outcome by payloads already accepted, events already
/// consumed and control bytes already emitted.
pub open spec fn recv_res_add(d0: Seq<u8>, u0: nat, em0: Seq<u8>, r: RecvRes) -> RecvRes {
    match r {
        RecvRes::Done { data, used, errs, emitted } => RecvRes::Done {
            data: d0 + data,
            used: (u0 + used) as nat,
            errs,
            emitted: em0 + emitted,
        },
        RecvRes::Canceled { data, emitted } => RecvRes::Canceled {
            data: d0 + data,
            emitted: em0 + emitted,
        },
        RecvRes::Exhausted { data, emitted } => RecvRes::Exhausted {
            data: d0 + data,
            emitted: em0 + emitted,
        },
        RecvRes::Fatal => RecvRes::Fatal,
    }
}

/// Two shifts compose into one.
pub proof fn lemma_recv_add_add(
    d1: Seq<u8>,
    u1: nat,
    e1: Seq<u8>,
    d2: Seq<u8>,
    u2: nat,
    e2: Seq<u8>,
    r: RecvRes,
)
    ensures
        recv_res_add(d1, u1, e1, recv_res_add(d2, u2, e2, r)) == recv_res_add(
            d1 + d2,
            (u1 + u2) as nat,
            e1 + e2,
            r,
        ),
{
    match r {
        RecvRes::Done { data, used, errs, emitted } => {
            assert(d1 + (d2 + data) =~= (d1 + d2) + data);
            assert(e1 + (e2 + emitted) =~= (e1 + e2) + emitted);
        },
        RecvRes::Canceled { data, emitted } => {
            assert(d1 + (d2 + data) =~= (d1 + d2) + data);
            assert(e1 + (e2 + emitted) =~= (e1 + e2) + emitted);
        },
        RecvRes::Exhausted { data, emitted } => {
            assert(d1 + (d2 + data) =~= (d1 + d2) + data);
            assert(e1 + (e2 + emitted) =~= (e1 + e2) + emitted);
        },
        RecvRes::Fatal => {},
    }
}

/// The receiver's block-reception loop: with the budget spent, give up;
/// otherwise read one marker byte and act on it. A frame under the
/// expected sequence number is accepted and acknowledged; a bad trailer
/// asks for a retransmit; a timeout is counted silently; line noise is
/// skipped free of charge; two consecutive cancel bytes from the peer
/// abandon the transfer; a sequence mismatch or a wrong sequence number
/// cancels with two cancel bytes of this side's own; a fatal read fault
/// ends everything. `cancels` counts consecutive cancel bytes: any other
/// byte resets it, a timeout (no byte arriving) leaves it.
#[verifier::opaque]
pub open spec fn recv_loop_spec(
    evs: Seq<Event>,
    c: Checksum,
    max: u32,
    expected: u32,
    errors: u32,
    cancels: nat,
) -> RecvRes
    decreases evs.len(),
{
    if errors >= max {
        RecvRes::Exhausted { data: Seq::empty(), emitted: Seq::empty() }
    } else if evs.len() == 0 {
        RecvRes::Fatal
    } else {
        match evs[0] {
            Event::Fault => RecvRes::Fatal,
            Event::Timeout => recv_res_add(
                Seq::empty(),
                1,
                Seq::empty(),
                recv_loop_spec(evs.skip(1), c, max, expected, (errors + 1) as u32, cancels),
            ),
            Event::Byte(m) => if m == EOT {
                RecvRes::Done { data: Seq::empty(), used: 1, errs: errors, emitted: seq![ACK] }
            } else if m == SOH || m == STX {
                let b: nat = if m == SOH {
                    128
                } else {
                    1024
                };
                let stepped = frame_rest_spec(evs.skip(1), c, b);
                proof {
                    crate::frame::lemma_frame_rest_used(evs.skip(1), c, b);
                }
                match stepped.0 {
                    FrameOutcome::Packet { seqno, payload } => if seqno as u32 != expected
                        & 0xFF {
                        RecvRes::Canceled { data: Seq::empty(), emitted: seq![CAN, CAN] }
                    } else {
                        recv_res_add(
                            payload,
                            1 + stepped.1,
                            seq![ACK],
                            recv_loop_spec(
                                evs.skip(1 + stepped.1 as int),
                                c,
                                max,
                                inc32(expected),
                                errors,
                                0,
                            ),
                        )
                    },
                    FrameOutcome::SeqMismatch => RecvRes::Canceled {
                        data: Seq::empty(),
                        emitted: seq![CAN, CAN],
                    },
                    FrameOutcome::BadChecksum => recv_res_add(
                        Seq::empty(),
                        1 + stepped.1,
                        seq![NAK],
                        recv_loop_spec(
                            evs.skip(1 + stepped.1 as int),
                            c,
                            max,
                            expected,
                            (errors + 1) as u32,
                            0,
                        ),
                    ),
                    FrameOutcome::Io { kind } => if kind == ErrorKind::TimedOut {
                        recv_res_add(
                            Seq::empty(),
                            1 + stepped.1,
                            Seq::empty(),
                            recv_loop_spec(
                                evs.skip(1 + stepped.1 as int),
                                c,
                                max,
                                expected,
                                (errors + 1) as u32,
                                0,
                            ),
                        )
                    } else {
                        RecvRes::Fatal
                    },
                    _ => RecvRes::Fatal,
                }
            } else if m == CAN {
                if cancels + 1 >= 2 {
                    RecvRes::Canceled { data: Seq::empty(), emitted: Seq::empty() }
                } else {
                    recv_res_add(
                        Seq::empty(),
                        1,
                        Seq::empty(),
                        recv_loop_spec(evs.skip(1), c, max, expected, errors, cancels + 1),
                    )
                }
            } else {
                recv_res_add(
                    Seq::empty(),
                    1,
                    Seq::empty(),
                    recv_loop_spec(evs.skip(1), c, max, expected, errors, 0),
                )
            },
        }
    }
}

/// With the budget spent, the receive loop gives up at once.
pub proof fn lemma_recv_at_budget(
    evs: Seq<Event>,
    c: Checksum,
    max: u32,
    expected: u32,
    errors: u32,
    cancels: nat,
)
    requires
        errors >= max,
    ensures
        recv_loop_spec(evs, c, max, expected, errors, cancels) == (RecvRes::Exhausted {
            data: Seq::empty(),
            emitted: Seq::empty(),
        }),
{
    reveal(recv_loop_spec);
}

/// A timeout while awaiting a marker costs one error and nothing else.
pub proof fn lemma_recv_step_timeout(
    evs: Seq<Event>,
    c: Checksum,
    max: u32,
    expected: u32,
    errors: u32,
    cancels: nat,
)
    requires
        errors < max,
        evs.len() > 0,
        evs[0] == Event::Timeout,
    ensures
        recv_loop_spec(evs, c, max, expected, errors, cancels) == recv_res_add(
            Seq::empty(),
            1,
            Seq::empty(),
            recv_loop_spec(evs.skip(1), c, max, expected, (errors + 1) as u32, cancels),
        ),
{
    reveal(recv_loop_spec);
}

/// The end-of-transmission marker completes the receive.
pub proof fn lemma_recv_step_eot(
    evs: Seq<Event>,
    c: Checksum,
    max: u32,
    expected: u32,
    errors: u32,
    cancels: nat,
)
    requires
        errors < max,
        evs.len() > 0,
        evs[0] == Event::Byte(EOT),
    ensures
        recv_loop_spec(evs, c, max, expected, errors, cancels) == (RecvRes::Done {
            data: Seq::empty(),
            used: 1,
            errs: errors,
            emitted: seq![ACK],
        }),
{
    reveal(recv_loop_spec);
}

/// A frame marker hands over to the frame decoder; what follows depends
/// on what the decoder finds.
pub proof fn lemma_recv_step_frame(
    evs: Seq<Event>,
    c: Checksum,
    max: u32,
    expected: u32,
    errors: u32,
    cancels: nat,
    m: u8,
)
    requires
        errors < max,
        evs.len() > 0,
        evs[0] == Event::Byte(m),
        m == SOH || m == STX,
    ensures
        ({
            let b: nat = if m == SOH {
                128
            } else {
                1024
            };
            let stepped = frame_rest_spec(evs.skip(1), c, b);
            recv_loop_spec(evs, c, max, expected, errors, cancels) == (match stepped.0 {
                FrameOutcome::Packet { seqno, payload } => if seqno as u32 != expected & 0xFF {
                    RecvRes::Canceled { data: Seq::empty(), emitted: seq![CAN, CAN] }
                } else {
                    recv_res_add(
                        payload,
                        1 + stepped.1,
                        seq![ACK],
                        recv_loop_spec(
                            evs.skip(1 + stepped.1 as int),
                            c,
                            max,
                            inc32(expected),
                            errors,
                            0,
                        ),
                    )
                },
                FrameOutcome::SeqMismatch => RecvRes::Canceled {
                    data: Seq::empty(),
                    emitted: seq![CAN, CAN],
                },
                FrameOutcome::BadChecksum => recv_res_add(
                    Seq::empty(),
                    1 + stepped.1,
                    seq![NAK],
                    recv_loop_spec(
                        evs.skip(1 + stepped.1 as int),
                        c,
                        max,
                        expected,
                        (errors + 1) as u32,
                        0,
                    ),
                ),
                FrameOutcome::Io { kind } => if kind == ErrorKind::TimedOut {
                    recv_res_add(
                        Seq::empty(),
                        1 + stepped.1,
                        Seq::empty(),
                        recv_loop_spec(
                            evs.skip(1 + stepped.1 as int),
                            c,
                            max,
                            expected,
                            (errors + 1) as u32,
                            0,
                        ),
                    )
                } else {
                    RecvRes::Fatal
                },
                _ => RecvRes::Fatal,
            })
        }),
{
    reveal(recv_loop_spec);
}

/// A cancel byte raises the consecutive-cancel count; the second in a
/// row abandons the transfer.
pub proof fn lemma_recv_step_can(
    evs: Seq<Event>,
    c: Checksum,
    max: u32,
    expected: u32,
    errors: u32,
    cancels: nat,
)
    requires
        errors < max,
        evs.len() > 0,
        evs[0] == Event::Byte(CAN),
    ensures
        recv_loop_spec(evs, c, max, expected, errors, cancels) == (if cancels + 1 >= 2 {
            RecvRes::Canceled { data: Seq::empty(), emitted: Seq::empty() }
        } else {
            recv_res_add(
                Seq::empty(),
                1,
                Seq::empty(),
                recv_loop_spec(evs.skip(1), c, max, expected, errors, cancels + 1),
            )
        }),
{
    reveal(recv_loop_spec);
}

/// A byte that is no marker and no cancel byte is skipped free of
/// charge, resetting the consecutive-cancel count.
pub proof fn lemma_recv_step_noise(
    evs: Seq<Event>,
    c: Checksum,
    max: u32,
    expected: u32,
    errors: u32,
    cancels: nat,
    m: u8,
)
    requires
        errors < max,
        evs.len() > 0,
        evs[0] == Event::Byte(m),
        m != EOT,
        m != SOH,
        m != STX,
        m != CAN,
    ensures
        recv_loop_spec(evs, c, max, expected, errors, cancels) == recv_res_add(
            Seq::empty(),
            1,
            Seq::empty(),
            recv_loop_spec(evs.skip(1), c, max, expected, errors, 0),
        ),
{
    reveal(recv_loop_spec);
}

impl Xmodem {
    /// Receive an XMODEM transmission.
    ///
    /// `dev` should be the serial communication channel (e.g. the serial
    /// device). The received data is written to `outstream`; the count of
    /// bytes written (always a multiple of the block length) is returned.
    /// `checksum` is the integrity scheme this receiver demands of the
    /// sender: the opening request byte announces it.
    ///
    /// Two consecutive cancel bytes from the peer abandon the transfer
    /// with `Error::Canceled`. A sink write failure notifies the peer
    /// with two cancel bytes, best-effort, before the sink's error
    /// propagates as `Error::Io`.
    ///
    /// # Timeouts
    /// This method has no way of setting the timeout of `dev`, so it is up
    /// to the caller to set the timeout of the device before calling this
    /// method. Timeouts on receiving bytes are counted against
    /// `max_errors`; timeouts on transmitting bytes are fatal.
    #[verifier::rlimit(100)]
    pub fn recv<D: Channel, W: Write>(
        &mut self,
        dev: &mut D,
        outstream: &mut W,
        checksum: Checksum,
    ) -> (r: Result<usize, Error>)
        ensures
            final(self).max_errors == old(self).max_errors,
            final(self).pad_byte == old(self).pad_byte,
            final(self).block_length == old(self).block_length,
            final(self).checksum_mode == checksum,
            match r {
                Ok(n) => recv_loop_spec(
                    old(dev).in_events(),
                    checksum,
                    old(self).max_errors,
                    1,
                    0,
                    0,
                ) matches RecvRes::Done { data, used, errs, emitted } && n == data.len()
                    && final(outstream).written() == old(outstream).written() + data
                    && final(self).errors == errs && used <= old(dev).in_events().len()
                    && final(dev).in_events() == old(dev).in_events().skip(used as int)
                    && final(dev).sent() == old(dev).sent() + seq![mode_byte(checksum)] + emitted,
                Err(Error::ExhaustedRetries) => (recv_loop_spec(
                    old(dev).in_events(),
                    checksum,
                    old(self).max_errors,
                    1,
                    0,
                    0,
                ) matches RecvRes::Exhausted { data, emitted } && final(outstream).written() == old(
                    outstream,
                ).written() + data && exists|k: int|
                    0 <= k <= 2 && final(dev).sent() == old(dev).sent() + seq![
                        mode_byte(checksum),
                    ] + emitted + seq![CAN, CAN].take(k)),
                Err(Error::Canceled) => (recv_loop_spec(
                    old(dev).in_events(),
                    checksum,
                    old(self).max_errors,
                    1,
                    0,
                    0,
                ) matches RecvRes::Canceled { data, emitted } && final(outstream).written() == old(
                    outstream,
                ).written() + data && final(dev).sent() == old(dev).sent() + seq![
                    mode_byte(checksum),
                ] + emitted),
                Err(Error::Io(e)) => true,
                Err(e) => false,
            },
    {
        self.errors = 0;
        self.checksum_mode = checksum;
        let req = byte1(
            match checksum {
                Checksum::Standard => NAK,
                Checksum::CRC16 => CRC,
            },
        );
        match dev.write_all(&req) {
            Ok(u) => {},
            Err(e) => {
                return Err(Error::Io(e));
            },
        }
        let ghost evs0 = dev.in_events();
        let ghost s0 = old(dev).sent();
        let ghost w0 = outstream.written();
        let ghost mut acc: Seq<u8> = Seq::empty();
        let ghost mut em: Seq<u8> = Seq::empty();
        let ghost mut used_acc: nat = 0;
        let mut seqno: u32 = 1;
        let mut bytes: usize = 0;
        let mut cancels: u32 = 0;
        #[verifier::loop_isolation(true)]
        #[verifier::rlimit(100)]
        loop
            invariant
                self.max_errors == old(self).max_errors,
                self.pad_byte == old(self).pad_byte,
                self.block_length == old(self).block_length,
                self.checksum_mode == checksum,
                evs0 == old(dev).in_events(),
                w0 == old(outstream).written(),
                s0 == old(dev).sent(),
                outstream.written() == w0 + acc,
                bytes as nat == acc.len(),
                cancels <= 1,
                dev.sent() == s0 + seq![mode_byte(checksum)] + em,
                dev.in_events() == evs0.skip(used_acc as int),
                used_acc <= evs0.len(),
                recv_loop_spec(evs0, checksum, self.max_errors, 1, 0, 0) == recv_res_add(
                    acc,
                    used_acc,
                    em,
                    recv_loop_spec(
                        dev.in_events(),
                        checksum,
                        self.max_errors,
                        seqno,
                        self.errors,
                        cancels as nat,
                    ),
                ),
            decreases dev.in_events().len(),
        {
            if self.errors >= self.max_errors {
                proof {
                    lemma_recv_at_budget(
                        dev.in_events(),
                        checksum,
                        self.max_errors,
                        seqno,
                        self.errors,
                        cancels as nat,
                    );
                    assert(acc + Seq::<u8>::empty() =~= acc);
                    assert(em + Seq::<u8>::empty() =~= em);
                    assert(seq![CAN, CAN].take(2) =~= seq![CAN, CAN]);
                }
                let can2 = byte2(CAN, CAN);
                match dev.write_all(&can2) {
                    Ok(u) => {},
                    Err(e) => {},
                }
                return Err(Error::ExhaustedRetries);
            }
            let ghost evs_here = dev.in_events();
            let ghost cans0 = cancels as nat;
            let marker = match dev.read_exact(1) {
                Ok(v) => v[0],
                Err(e) => {
                    if e.kind() == ErrorKind::TimedOut {
                        self.errors = self.errors + 1;
                        proof {
                            lemma_recv_step_timeout(
                                evs_here,
                                checksum,
                                self.max_errors,
                                seqno,
                                (self.errors - 1) as u32,
                                cans0,
                            );
                            lemma_recv_add_add(
                                acc,
                                used_acc,
                                em,
                                Seq::empty(),
                                1,
                                Seq::empty(),
                                recv_loop_spec(
                                    dev.in_events(),
                                    checksum,
                                    self.max_errors,
                                    seqno,
                                    self.errors,
                                    cancels as nat,
                                ),
                            );
                            assert(acc + Seq::<u8>::empty() =~= acc);
                            assert(em + Seq::<u8>::empty() =~= em);
                            assert(evs0.skip(used_acc as int).skip(1) =~= evs0.skip(
                                (used_acc + 1) as int,
                            ));
                            used_acc = used_acc + 1;
                        }
                        continue;
                    } else {
                        return Err(Error::Io(e));
                    }
                },
            };
            if marker == EOT {
                let ackv = byte1(ACK);
                match dev.write_all(&ackv) {
                    Ok(u) => {},
                    Err(e) => {
                        return Err(Error::Io(e));
                    },
                }
                proof {
                    lemma_recv_step_eot(
                        evs_here,
                        checksum,
                        self.max_errors,
                        seqno,
                        self.errors,
                        cans0,
                    );
                    assert(acc + Seq::<u8>::empty() =~= acc);
                    assert(evs0.skip(used_acc as int).skip(1) =~= evs0.skip((used_acc + 1) as int));
                    assert((s0 + seq![mode_byte(checksum)] + em) + seq![ACK] =~= s0 + seq![
                        mode_byte(checksum),
                    ] + (em + seq![ACK]));
                }
                return Ok(bytes);
            }
            if marker == SOH || marker == STX {
                let l = if marker == SOH {
                    BlockLength::Standard
                } else {
                    BlockLength::OneK
                };
                let ghost evs_body = dev.in_events();
                let ghost used_b = crate::frame::frame_rest_spec(
                    evs_body,
                    checksum,
                    block_len_of(l),
                ).1;
                proof {
                    assert(evs_body == evs_here.skip(1));
                    crate::frame::lemma_frame_rest_used(evs_body, checksum, block_len_of(l));
                    assert(evs_here.skip(1).skip(used_b as int) =~= evs_here.skip(
                        (1 + used_b) as int,
                    ));
                    lemma_recv_step_frame(
                        evs_here,
                        checksum,
                        self.max_errors,
                        seqno,
                        self.errors,
                        cans0,
                        marker,
                    );
                }
                match XmodemPacket::recv_rest(dev, self.checksum_mode, l) {
                    Ok(x) => {
                        if x.seqno as u32 != (seqno & 0xFF) {
                            let can2 = byte2(CAN, CAN);
                            match dev.write_all(&can2) {
                                Ok(u) => {},
                                Err(e) => {
                                    return Err(Error::Io(e));
                                },
                            }
                            proof {
                                assert(acc + Seq::<u8>::empty() =~= acc);
                                assert((s0 + seq![mode_byte(checksum)] + em) + seq![CAN, CAN]
                                    =~= s0 + seq![mode_byte(checksum)] + (em + seq![CAN, CAN]));
                            }
                            return Err(Error::Canceled);
                        }
                        match outstream.write_all(&x.data) {
                            Ok(u) => {},
                            Err(e) => {
                                let can2 = byte2(CAN, CAN);
                                match dev.write_all(&can2) {
                                    Ok(u) => {},
                                    Err(e2) => {},
                                }
                                return Err(Error::Io(e));
                            },
                        }
                        let ackv = byte1(ACK);
                        match dev.write_all(&ackv) {
                            Ok(u) => {},
                            Err(e) => {
                                return Err(Error::Io(e));
                            },
                        }
                        seqno = seqno.wrapping_add(1);
                        cancels = 0;
                        if x.data.len() > usize::MAX - bytes {
                            return Err(
                                Error::Io(
                                    crate::io::Error::new(
                                        ErrorKind::Other,
                                        "transfer exceeds the byte counter",
                                    ),
                                ),
                            );
                        }
                        bytes = bytes + x.data.len();
                        proof {
                            lemma_recv_add_add(
                                acc,
                                used_acc,
                                em,
                                x.data@,
                                1 + used_b,
                                seq![ACK],
                                recv_loop_spec(
                                    dev.in_events(),
                                    checksum,
                                    self.max_errors,
                                    seqno,
                                    self.errors,
                                    0,
                                ),
                            );
                            assert(evs0.skip(used_acc as int).skip(1 + used_b as int) =~= evs0.skip(
                                (used_acc + 1 + used_b) as int,
                            ));
                            assert((w0 + acc) + x.data@ =~= w0 + (acc + x.data@));
                            assert((s0 + seq![mode_byte(checksum)] + em) + seq![ACK] =~= s0 + seq![
                                mode_byte(checksum),
                            ] + (em + seq![ACK]));
                            acc = acc + x.data@;
                            em = em + seq![ACK];
                            used_acc = used_acc + 1 + used_b;
                        }
                    },
                    Err(Error::Checksum) => {
                        let nakv = byte1(NAK);
                        match dev.write_all(&nakv) {
                            Ok(u) => {},
                            Err(e) => {
                                return Err(Error::Io(e));
                            },
                        }
                        self.errors = self.errors + 1;
                        cancels = 0;
                        proof {
                            lemma_recv_add_add(
                                acc,
                                used_acc,
                                em,
                                Seq::empty(),
                                1 + used_b,
                                seq![NAK],
                                recv_loop_spec(
                                    dev.in_events(),
                                    checksum,
                                    self.max_errors,
                                    seqno,
                                    self.errors,
                                    0,
                                ),
                            );
                            assert(acc + Seq::<u8>::empty() =~= acc);
                            assert(evs0.skip(used_acc as int).skip(1 + used_b as int) =~= evs0.skip(
                                (used_acc + 1 + used_b) as int,
                            ));
                            assert((s0 + seq![mode_byte(checksum)] + em) + seq![NAK] =~= s0 + seq![
                                mode_byte(checksum),
                            ] + (em + seq![NAK]));
                            used_acc = used_acc + 1 + used_b;
                            em = em + seq![NAK];
                        }
                    },
                    Err(Error::SequenceMismatch) => {
                        let can2 = byte2(CAN, CAN);
                        match dev.write_all(&can2) {
                            Ok(u) => {},
                            Err(e) => {
                                return Err(Error::Io(e));
                            },
                        }
                        proof {
                            assert(acc + Seq::<u8>::empty() =~= acc);
                            assert((s0 + seq![mode_byte(checksum)] + em) + seq![CAN, CAN] =~= s0
                                + seq![mode_byte(checksum)] + (em + seq![CAN, CAN]));
                        }
                        return Err(Error::Canceled);
                    },
                    Err(Error::Io(e)) => {
                        if e.kind() == ErrorKind::TimedOut {
                            self.errors = self.errors + 1;
                            cancels = 0;
                            proof {
                                lemma_recv_add_add(
                                    acc,
                                    used_acc,
                                    em,
                                    Seq::empty(),
                                    1 + used_b,
                                    Seq::empty(),
                                    recv_loop_spec(
                                        dev.in_events(),
                                        checksum,
                                        self.max_errors,
                                        seqno,
                                        self.errors,
                                        0,
                                    ),
                                );
                                assert(acc + Seq::<u8>::empty() =~= acc);
                                assert(em + Seq::<u8>::empty() =~= em);
                                assert(evs0.skip(used_acc as int).skip(1 + used_b as int)
                                    =~= evs0.skip((used_acc + 1 + used_b) as int));
                                used_acc = used_acc + 1 + used_b;
                            }
                        } else {
                            return Err(Error::Io(e));
                        }
                    },
                    Err(e) => {
                        return Err(e);
                    },
                }
                continue;
            }
            if marker == CAN {
                cancels = cancels + 1;
                if cancels >= 2 {
                    proof {
                        lemma_recv_step_can(
                            evs_here,
                            checksum,
                            self.max_errors,
                            seqno,
                            self.errors,
                            cans0,
                        );
                        assert(acc + Seq::<u8>::empty() =~= acc);
                        assert(em + Seq::<u8>::empty() =~= em);
                    }
                    return Err(Error::Canceled);
                }
                proof {
                    lemma_recv_step_can(
                        evs_here,
                        checksum,
                        self.max_errors,
                        seqno,
                        self.errors,
                        cans0,
                    );
                    lemma_recv_add_add(
                        acc,
                        used_acc,
                        em,
                        Seq::empty(),
                        1,
                        Seq::empty(),
                        recv_loop_spec(
                            dev.in_events(),
                            checksum,
                            self.max_errors,
                            seqno,
                            self.errors,
                            cancels as nat,
                        ),
                    );
                    assert(acc + Seq::<u8>::empty() =~= acc);
                    assert(em + Seq::<u8>::empty() =~= em);
                    assert(evs0.skip(used_acc as int).skip(1) =~= evs0.skip((used_acc + 1) as int));
                    used_acc = used_acc + 1;
                }
            } else {
                cancels = 0;
                proof {
                    lemma_recv_step_noise(
                        evs_here,
                        checksum,
                        self.max_errors,
                        seqno,
                        self.errors,
                        cans0,
                        marker,
                    );
                    lemma_recv_add_add(
                        acc,
                        used_acc,
                        em,
                        Seq::empty(),
                        1,
                        Seq::empty(),
                        recv_loop_spec(
                            dev.in_events(),
                            checksum,
                            self.max_errors,
                            seqno,
                            self.errors,
                            0,
                        ),
                    );
                    assert(acc + Seq::<u8>::empty() =~= acc);
                    assert(em + Seq::<u8>::empty() =~= em);
                    assert(evs0.skip(used_acc as int).skip(1) =~= evs0.skip((used_acc + 1) as int));
                    used_acc = used_acc + 1;
                }
            }
        }
    }
}

} // verus!
