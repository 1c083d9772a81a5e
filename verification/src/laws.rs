//! The protocol's laws, proved over the specification-level interpreters:
//! what a clean transfer puts on the wire, that a receiver reading exactly
//! that wire reconstructs the padded input, and how the two sides behave
//! under corruption, cancellation, noise and an exhausted error budget.
use vstd::prelude::*;

use crate::frame::{
    block_len_of, frame_bytes, frame_rest_spec, marker_of, recv_next_spec, trailer_bytes,
    trailer_len, trailer_ok, BlockLength, Checksum, FrameOutcome, ACK, CAN, CRC, EOT, NAK, SOH, STX,
};
use crate::io::{
    avail, byte_events, has_bytes, head_bytes, lemma_byte_events_add, lemma_stop_at_is, Event,
};
use crate::machine::{
    ack_res_add, block_retry_spec, inc32, lemma_recv_at_budget, lemma_recv_step_can,
    lemma_recv_step_eot, lemma_recv_step_frame, lemma_recv_step_noise, lemma_recv_step_timeout,
    mode_byte, padded_chunk, recv_loop_spec, recv_res_add, send_spec, start_res_add, start_spec,
    stream_spec, AckRes, RecvRes, SendRes, StartRes, StreamRes,
};

verus! {

/// One acknowledgement byte per accepted block.
pub open spec fn acks(n: nat) -> Seq<u8> {
    Seq::new(n, |i: int| ACK)
}

/// How many blocks a transfer of `len` source bytes takes: none for an
/// empty source, and no extra block for an exact multiple.
pub open spec fn nblocks(len: nat, l: BlockLength) -> nat
    decreases len,
{
    let b = block_len_of(l);
    if len == 0 {
        0
    } else if len <= b {
        1
    } else {
        1 + nblocks((len - b) as nat, l)
    }
}

/// The input cut into blocks, the last one padded: what a completed
/// transfer delivers to the receiver's sink.
pub open spec fn padded_data(data: Seq<u8>, l: BlockLength, pad: u8) -> Seq<u8>
    decreases data.len(),
{
    let b = block_len_of(l);
    if data.len() == 0 {
        Seq::empty()
    } else {
        let k: nat = if data.len() < b {
            data.len()
        } else {
            b
        };
        padded_chunk(data.take(k as int), b, pad) + padded_data(data.skip(k as int), l, pad)
    }
}

/// The padded data is the input itself, extended with pad bytes to the
/// next multiple of the block length.
pub proof fn lemma_padded_data_shape(data: Seq<u8>, l: BlockLength, pad: u8)
    ensures
        padded_data(data, l, pad).len() == nblocks(data.len(), l) * block_len_of(l),
        padded_data(data, l, pad).len() >= data.len(),
        forall|i: int|
            0 <= i < data.len() ==> padded_data(data, l, pad)[i] == data[i],
        forall|i: int|
            data.len() <= i < padded_data(data, l, pad).len() ==> padded_data(data, l, pad)[i]
                == pad,
    decreases data.len(),
{
    let b = block_len_of(l);
    if data.len() != 0 {
        let k: nat = if data.len() < b {
            data.len()
        } else {
            b
        };
        lemma_padded_data_shape(data.skip(k as int), l, pad);
        assert((1 + nblocks((data.len() - k) as nat, l)) * b == b + nblocks(
            (data.len() - k) as nat,
            l,
        ) * b) by (nonlinear_arith);
        let p = padded_data(data, l, pad);
        let ch = padded_chunk(data.take(k as int), b, pad);
        assert(ch.len() == b);
        assert forall|i: int| 0 <= i < data.len() implies p[i] == data[i] by {
            if i < k {
                assert(p[i] == ch[i]);
                assert(ch[i] == data.take(k as int)[i]);
                assert(data.take(k as int)[i] == data[i]);
            } else {
                assert(k == b);
                assert(p[i] == padded_data(data.skip(k as int), l, pad)[i - b]);
                assert(padded_data(data.skip(k as int), l, pad)[i - b] == data.skip(k as int)[i
                    - b]);
                assert(data.skip(k as int)[i - b] == data[i]);
            }
        }
        assert forall|i: int| data.len() <= i < p.len() implies p[i] == pad by {
            if i < b {
                assert(p[i] == ch[i]);
            } else {
                assert(p[i] == padded_data(data.skip(k as int), l, pad)[i - b]);
            }
        }
    }
}

/// Every frame of a clean transfer of `data`, in order, with block
/// counters following `ctr`: what the sender emits before the
/// end-of-transmission byte when every block is acknowledged at once.
pub open spec fn frames(data: Seq<u8>, ctr: u32, l: BlockLength, c: Checksum, pad: u8) -> Seq<u8>
    decreases data.len(),
{
    let b = block_len_of(l);
    if data.len() == 0 {
        Seq::empty()
    } else {
        let k: nat = if data.len() < b {
            data.len()
        } else {
            b
        };
        frame_bytes((inc32(ctr) & 0xFF) as u8, padded_chunk(data.take(k as int), b, pad), c)
            + frames(data.skip(k as int), inc32(ctr), l, c, pad)
    }
}

/// A well-formed frame at the head of the stream decodes to exactly its
/// block, whatever follows it.
pub proof fn lemma_decode_frame(sq: u8, payload: Seq<u8>, c: Checksum, rest: Seq<Event>)
    requires
        payload.len() == 128 || payload.len() == 1024,
    ensures
        recv_next_spec(byte_events(frame_bytes(sq, payload, c)) + rest, c) == ((
        FrameOutcome::Packet { seqno: sq, payload },
        frame_bytes(sq, payload, c).len() as nat,
        )),
        (byte_events(frame_bytes(sq, payload, c)) + rest)[0] == Event::Byte(
            marker_of(payload.len()),
        ),
        frame_rest_spec((byte_events(frame_bytes(sq, payload, c)) + rest).skip(1), c, payload.len())
            == ((
        FrameOutcome::Packet { seqno: sq, payload },
        (2 + payload.len() + trailer_len(c)) as nat,
        )),
{
    let fr = frame_bytes(sq, payload, c);
    let tl = trailer_len(c);
    let evs = byte_events(fr) + rest;
    assert(fr.len() == 3 + payload.len() + tl);
    assert(forall|i: int| 0 <= i < fr.len() ==> evs[i] == Event::Byte(fr[i]));
    assert(fr[0] == marker_of(payload.len()));
    assert(fr[1] == sq);
    assert(fr[2] == (255 - sq) as u8);
    assert(forall|i: int| 0 <= i < payload.len() ==> fr[3 + i] == payload[i]);
    assert(forall|i: int|
        0 <= i < tl ==> fr[3 + payload.len() + i] == trailer_bytes(c, payload)[i]);
    assert(has_bytes(evs, 1));
    assert(head_bytes(evs, 1)[0] == marker_of(payload.len()));
    let evs1 = evs.skip(1);
    assert(forall|i: int| 0 <= i < evs1.len() ==> evs1[i] == evs[i + 1]);
    assert(has_bytes(evs1, 2));
    assert(head_bytes(evs1, 2)[0] == sq);
    assert(head_bytes(evs1, 2)[1] == (255 - sq) as u8);
    let evs2 = evs1.skip(2);
    assert(forall|i: int| 0 <= i < evs2.len() ==> evs2[i] == evs[i + 3]);
    assert(has_bytes(evs2, payload.len()));
    assert(head_bytes(evs2, payload.len()) =~= payload);
    let evs3 = evs2.skip(payload.len() as int);
    assert(forall|i: int| 0 <= i < evs3.len() ==> evs3[i] == evs[i + 3 + payload.len()]);
    assert(has_bytes(evs3, tl));
    assert(head_bytes(evs3, tl) =~= trailer_bytes(c, payload));
    assert(trailer_ok(c, payload, head_bytes(evs3, tl)));
    assert(frame_rest_spec(evs1, c, payload.len()) == ((
    FrameOutcome::Packet { seqno: sq, payload: head_bytes(evs2, payload.len()) },
    (2 + payload.len() + tl) as nat,
    )));
}

/// A receiver fed exactly a clean transfer's wire accepts every block: it
/// delivers the padded data, consumes the whole wire, keeps its error
/// count, and acknowledges every block and the end of transmission.
#[verifier::rlimit(100)]
pub proof fn lemma_recv_clean(
    data: Seq<u8>,
    ctr: u32,
    c: Checksum,
    max: u32,
    errors: u32,
    l: BlockLength,
    pad: u8,
    cancels: nat,
)
    requires
        errors < max,
    ensures
        ({
            let w = frames(data, ctr, l, c, pad) + seq![EOT];
            recv_loop_spec(byte_events(w), c, max, inc32(ctr), errors, cancels) == (RecvRes::Done {
                data: padded_data(data, l, pad),
                used: w.len() as nat,
                errs: errors,
                emitted: acks(nblocks(data.len(), l) + 1),
            })
        }),
    decreases data.len(),
{
    let b = block_len_of(l);
    let w = frames(data, ctr, l, c, pad) + seq![EOT];
    if data.len() == 0 {
        let evs = byte_events(w);
        assert(w =~= seq![EOT]);
        assert(evs[0] == Event::Byte(EOT));
        lemma_recv_step_eot(evs, c, max, inc32(ctr), errors, cancels);
        assert(padded_data(data, l, pad) =~= Seq::<u8>::empty());
        assert(acks(1) =~= seq![ACK]);
    } else {
        let k: nat = if data.len() < b {
            data.len()
        } else {
            b
        };
        let payload = padded_chunk(data.take(k as int), b, pad);
        let sq = (inc32(ctr) & 0xFF) as u8;
        let fr = frame_bytes(sq, payload, c);
        let rest_w = frames(data.skip(k as int), inc32(ctr), l, c, pad) + seq![EOT];
        assert(w =~= fr + rest_w);
        lemma_byte_events_add(fr, rest_w);
        assert(payload.len() == b);
        lemma_decode_frame(sq, payload, c, byte_events(rest_w));
        assert(inc32(ctr) & 0xFF < 256) by (bit_vector);
        assert(sq as u32 == inc32(ctr) & 0xFF);
        lemma_recv_clean(data.skip(k as int), inc32(ctr), c, max, errors, l, pad, 0);
        assert(byte_events(w).skip(fr.len() as int) =~= byte_events(rest_w));
        assert(byte_events(w)[0] == Event::Byte(marker_of(b)));
        assert(byte_events(w).skip(1) =~= (byte_events(fr) + byte_events(rest_w)).skip(1));
        lemma_recv_step_frame(byte_events(w), c, max, inc32(ctr), errors, cancels, marker_of(b));
        assert(payload + padded_data(data.skip(k as int), l, pad) =~= padded_data(data, l, pad));
        assert(seq![ACK] + acks(nblocks((data.len() - k) as nat, l) + 1) =~= acks(
            nblocks(data.len(), l) + 1,
        ));
        assert(fr.len() + rest_w.len() == w.len());
    }
}

/// A handshake that is answered at once with a request byte adopts the
/// requested mode, whatever the budget.
pub proof fn lemma_start_clean(c: Checksum, rest: Seq<Event>, errors: u32, max: u32)
    ensures
        start_spec(seq![Event::Byte(mode_byte(c))] + rest, errors, 0, max) == (StartRes::Mode {
            c,
            used: 1,
            errs: errors,
        }),
{
    let evs = seq![Event::Byte(mode_byte(c))] + rest;
    assert(evs[0] == Event::Byte(mode_byte(c)));
}

/// A block answered at once with an acknowledgement is transmitted
/// exactly once, whatever the budget.
pub proof fn lemma_ack_clean(fr: Seq<u8>, rest: Seq<Event>, errors: u32, max: u32)
    ensures
        block_retry_spec(fr, seq![Event::Byte(ACK)] + rest, errors, max) == (AckRes::Acked {
            used: 1,
            errs: errors,
            emitted: fr,
        }),
{
    let evs = seq![Event::Byte(ACK)] + rest;
    assert(evs[0] == Event::Byte(ACK));
}

/// The sender's block phase, fed the data and one prompt acknowledgement
/// per block, emits every frame exactly once, in order, and consumes
/// exactly the data.
pub proof fn lemma_stream_clean(
    data: Seq<u8>,
    ctr: u32,
    errors: u32,
    max: u32,
    c: Checksum,
    l: BlockLength,
    pad: u8,
    extra: Seq<Event>,
)
    ensures
        ({
            let nb = nblocks(data.len(), l);
            stream_spec(byte_events(data), byte_events(acks(nb)) + extra, ctr, errors, max, c, l, pad)
                == (StreamRes::Done {
                src_used: data.len(),
                dev_used: nb,
                errs: errors,
                emitted: frames(data, ctr, l, c, pad),
            })
        }),
    decreases data.len(),
{
    let b = block_len_of(l);
    let nb = nblocks(data.len(), l);
    let src = byte_events(data);
    let dev = byte_events(acks(nb)) + extra;
    if data.len() == 0 {
        assert(frames(data, ctr, l, c, pad) =~= Seq::<u8>::empty());
    } else {
        let k: nat = if data.len() < b {
            data.len()
        } else {
            b
        };
        assert(forall|i: int| 0 <= i < src.len() ==> src[i] is Byte);
        lemma_stop_at_is(src, src.len());
        assert(avail(src, b) == k);
        assert(head_bytes(src, k) =~= data.take(k as int));
        assert(acks(nb) =~= seq![ACK] + acks((nb - 1) as nat));
        lemma_byte_events_add(seq![ACK], acks((nb - 1) as nat));
        assert(byte_events(seq![ACK]) =~= seq![Event::Byte(ACK)]);
        let dev_rest = byte_events(acks((nb - 1) as nat)) + extra;
        assert(dev =~= seq![Event::Byte(ACK)] + dev_rest);
        let payload = padded_chunk(data.take(k as int), b, pad);
        let fr = frame_bytes((inc32(ctr) & 0xFF) as u8, payload, c);
        lemma_ack_clean(fr, dev_rest, errors, max);
        lemma_stream_clean(data.skip(k as int), inc32(ctr), errors, max, c, l, pad, extra);
        assert(byte_events(data).skip(k as int) =~= byte_events(data.skip(k as int)));
        assert(dev.skip(1) =~= dev_rest);
        assert(fr + frames(data.skip(k as int), inc32(ctr), l, c, pad) =~= frames(
            data,
            ctr,
            l,
            c,
            pad,
        ));
    }
}

/// Round trip, the protocol's central law, for any input, either checksum
/// mode and both block lengths. Fed `data` and a receiver's clean
/// responses, the sender completes, reports `data`'s length as the byte
/// count, and puts exactly the transfer's frames and the
/// end-of-transmission byte on the wire. A receiver fed exactly that wire
/// completes, delivers `data` padded with the pad byte to the next
/// multiple of the block length, and emits exactly the acknowledgements
/// the sender consumed. Neither side spends any of its error budget.
pub proof fn lemma_round_trip(data: Seq<u8>, c: Checksum, max: u32, l: BlockLength, pad: u8)
    requires
        max >= 1,
    ensures
        ({
            let nb = nblocks(data.len(), l);
            let responses = seq![mode_byte(c)] + acks(nb + 1);
            let wire = frames(data, 0, l, c, pad) + seq![EOT];
            &&& send_spec(byte_events(data), byte_events(responses), max, l, pad) == (SendRes::Done {
                bytes: data.len(),
                c,
                src_used: data.len(),
                dev_used: responses.len() as nat,
                errs: 0,
                emitted: wire,
            })
            &&& recv_loop_spec(byte_events(wire), c, max, 1, 0, 0) == (RecvRes::Done {
                data: padded_data(data, l, pad),
                used: wire.len() as nat,
                errs: 0,
                emitted: acks(nb + 1),
            })
            &&& padded_data(data, l, pad).len() == nblocks(data.len(), l) * block_len_of(l)
        }),
{
    let nb = nblocks(data.len(), l);
    let responses = seq![mode_byte(c)] + acks(nb + 1);
    assert(inc32(0) == 1);
    lemma_recv_clean(data, 0, c, max, 0, l, pad, 0);
    lemma_padded_data_shape(data, l, pad);
    let devs = byte_events(responses);
    lemma_byte_events_add(seq![mode_byte(c)], acks(nb + 1));
    assert(byte_events(seq![mode_byte(c)]) =~= seq![Event::Byte(mode_byte(c))]);
    let dev_rest = byte_events(acks(nb + 1));
    assert(devs =~= seq![Event::Byte(mode_byte(c))] + dev_rest);
    lemma_start_clean(c, dev_rest, 0, max);
    assert(devs.skip(1) =~= dev_rest);
    assert(acks(nb + 1) =~= acks(nb) + acks(1));
    lemma_byte_events_add(acks(nb), acks(1));
    lemma_stream_clean(data, 0, 0, max, c, l, pad, byte_events(acks(1)));
    assert(dev_rest.skip(nb as int) =~= byte_events(acks(1)));
    assert(devs.skip(1 + nb as int) =~= byte_events(acks(1)));
    assert(byte_events(acks(1)) =~= seq![Event::Byte(ACK)] + Seq::<Event>::empty());
    lemma_ack_clean(seq![EOT], Seq::empty(), 0, max);
    assert(frames(data, 0, l, c, pad) + seq![EOT] == frames(data, 0, l, c, pad) + seq![EOT]);
    assert(responses.len() == 2 + nb);
}

/// The two checksum modes achieve identical round-trip results: the
/// receiver's output and the acknowledgements it emits depend only on the
/// data, the block length and the pad byte, never on the integrity
/// scheme.
pub proof fn lemma_modes_agree(data: Seq<u8>, max: u32, l: BlockLength, pad: u8)
    requires
        max >= 1,
    ensures
        ({
            let nb = nblocks(data.len(), l);
            let w_std = frames(data, 0, l, Checksum::Standard, pad) + seq![EOT];
            let w_crc = frames(data, 0, l, Checksum::CRC16, pad) + seq![EOT];
            &&& recv_loop_spec(byte_events(w_std), Checksum::Standard, max, 1, 0, 0) == (RecvRes::Done {
                data: padded_data(data, l, pad),
                used: w_std.len() as nat,
                errs: 0,
                emitted: acks(nb + 1),
            })
            &&& recv_loop_spec(byte_events(w_crc), Checksum::CRC16, max, 1, 0, 0) == (RecvRes::Done {
                data: padded_data(data, l, pad),
                used: w_crc.len() as nat,
                errs: 0,
                emitted: acks(nb + 1),
            })
        }),
{
    lemma_round_trip(data, Checksum::Standard, max, l, pad);
    lemma_round_trip(data, Checksum::CRC16, max, l, pad);
}

/// An input that is an exact multiple of the block length is delivered
/// unchanged: no extra padded block is appended.
pub proof fn lemma_exact_multiple(data: Seq<u8>, l: BlockLength, pad: u8)
    requires
        data.len() % block_len_of(l) == 0,
    ensures
        padded_data(data, l, pad) == data,
    decreases data.len(),
{
    let b = block_len_of(l);
    if data.len() != 0 {
        assert(data.len() >= b) by {
            if data.len() < b {
                vstd::arithmetic::div_mod::lemma_small_mod(data.len(), b);
            }
        }
        assert((data.len() - b) % b as int == 0) by {
            vstd::arithmetic::div_mod::lemma_mod_multiples_vanish(
                1,
                data.len() - b,
                b as int,
            );
        }
        lemma_exact_multiple(data.skip(b as int), l, pad);
        assert(padded_chunk(data.take(b as int), b, pad) =~= data.take(b as int));
        assert(data.take(b as int) + data.skip(b as int) =~= data);
    } else {
        assert(padded_data(data, l, pad) =~= data);
    }
}

/// Any frame-shaped byte run decodes as a whole, to its block or to the
/// check that failed, with the complement check taking precedence.
pub proof fn lemma_decode_shaped(
    sq: u8,
    cseq: u8,
    payload: Seq<u8>,
    t: Seq<u8>,
    c: Checksum,
    rest: Seq<Event>,
)
    requires
        payload.len() == 128 || payload.len() == 1024,
        t.len() == trailer_len(c),
    ensures
        ({
            let fr = seq![marker_of(payload.len()), sq, cseq] + payload + t;
            let o = if 255 - sq != cseq {
                FrameOutcome::SeqMismatch
            } else if !trailer_ok(c, payload, t) {
                FrameOutcome::BadChecksum
            } else {
                FrameOutcome::Packet { seqno: sq, payload }
            };
            &&& recv_next_spec(byte_events(fr) + rest, c) == ((o, fr.len() as nat))
            &&& (byte_events(fr) + rest)[0] == Event::Byte(marker_of(payload.len()))
            &&& frame_rest_spec((byte_events(fr) + rest).skip(1), c, payload.len()) == ((
                o,
                (2 + payload.len() + trailer_len(c)) as nat,
            ))
        }),
{
    let fr = seq![marker_of(payload.len()), sq, cseq] + payload + t;
    let tl = trailer_len(c);
    let evs = byte_events(fr) + rest;
    assert(fr.len() == 3 + payload.len() + tl);
    assert(forall|i: int| 0 <= i < fr.len() ==> evs[i] == Event::Byte(fr[i]));
    assert(fr[0] == marker_of(payload.len()));
    assert(fr[1] == sq);
    assert(fr[2] == cseq);
    assert(forall|i: int| 0 <= i < payload.len() ==> fr[3 + i] == payload[i]);
    assert(forall|i: int| 0 <= i < tl ==> fr[3 + payload.len() + i] == t[i]);
    assert(has_bytes(evs, 1));
    assert(head_bytes(evs, 1)[0] == marker_of(payload.len()));
    let evs1 = evs.skip(1);
    assert(forall|i: int| 0 <= i < evs1.len() ==> evs1[i] == evs[i + 1]);
    assert(has_bytes(evs1, 2));
    assert(head_bytes(evs1, 2)[0] == sq);
    assert(head_bytes(evs1, 2)[1] == cseq);
    let evs2 = evs1.skip(2);
    assert(forall|i: int| 0 <= i < evs2.len() ==> evs2[i] == evs[i + 3]);
    assert(has_bytes(evs2, payload.len()));
    assert(head_bytes(evs2, payload.len()) =~= payload);
    let evs3 = evs2.skip(payload.len() as int);
    assert(forall|i: int| 0 <= i < evs3.len() ==> evs3[i] == evs[i + 3 + payload.len()]);
    assert(has_bytes(evs3, tl));
    assert(head_bytes(evs3, tl) =~= t);
}

/// Nothing accepted, nothing consumed, nothing emitted shifts a receive
/// outcome not at all.
pub proof fn lemma_recv_add_identity(r: RecvRes)
    ensures
        recv_res_add(Seq::empty(), 0, Seq::empty(), r) == r,
{
    match r {
        RecvRes::Done { data, used, errs, emitted } => {
            assert(Seq::<u8>::empty() + data =~= data);
            assert(Seq::<u8>::empty() + emitted =~= emitted);
        },
        RecvRes::Canceled { data, emitted } => {
            assert(Seq::<u8>::empty() + data =~= data);
            assert(Seq::<u8>::empty() + emitted =~= emitted);
        },
        RecvRes::Exhausted { data, emitted } => {
            assert(Seq::<u8>::empty() + data =~= data);
            assert(Seq::<u8>::empty() + emitted =~= emitted);
        },
        RecvRes::Fatal => {},
    }
}

/// A frame arriving with a trailer that does not match its payload costs
/// the receiver exactly one recoverable error and one NAK, and nothing
/// else: decoding resumes right after it.
pub proof fn lemma_corrupt_frame_retried(
    sq: u8,
    payload: Seq<u8>,
    t: Seq<u8>,
    c: Checksum,
    rest: Seq<Event>,
    max: u32,
    expected: u32,
    errors: u32,
    cancels: nat,
)
    requires
        payload.len() == 128 || payload.len() == 1024,
        t.len() == trailer_len(c),
        !trailer_ok(c, payload, t),
        errors < max,
    ensures
        ({
            let fr = seq![marker_of(payload.len()), sq, (255 - sq) as u8] + payload + t;
            recv_loop_spec(byte_events(fr) + rest, c, max, expected, errors, cancels)
                == recv_res_add(
                Seq::empty(),
                fr.len() as nat,
                seq![NAK],
                recv_loop_spec(rest, c, max, expected, (errors + 1) as u32, 0),
            )
        }),
{
    let fr = seq![marker_of(payload.len()), sq, (255 - sq) as u8] + payload + t;
    lemma_decode_shaped(sq, (255 - sq) as u8, payload, t, c, rest);
    assert((byte_events(fr) + rest).skip(fr.len() as int) =~= rest);
    lemma_recv_step_frame(
        byte_events(fr) + rest,
        c,
        max,
        expected,
        errors,
        cancels,
        marker_of(payload.len()),
    );
}

/// Corruption then retransmission converges, at any point of a transfer:
/// a frame arriving with a damaged trailer where the next block is due,
/// followed by the intact remainder of the transfer, still delivers
/// exactly the padded remainder, at the cost of one error and one NAK.
pub proof fn lemma_corruption_recovers(
    data: Seq<u8>,
    ctr: u32,
    sq: u8,
    t: Seq<u8>,
    c: Checksum,
    max: u32,
    errors: u32,
    cancels: nat,
    l: BlockLength,
    pad: u8,
)
    requires
        data.len() > 0,
        errors + 1 < max,
        t.len() == trailer_len(c),
        ({
            let b = block_len_of(l);
            let k: nat = if data.len() < b {
                data.len()
            } else {
                b
            };
            !trailer_ok(c, padded_chunk(data.take(k as int), b, pad), t)
        }),
    ensures
        ({
            let b = block_len_of(l);
            let k: nat = if data.len() < b {
                data.len()
            } else {
                b
            };
            let payload = padded_chunk(data.take(k as int), b, pad);
            let bad = seq![marker_of(payload.len()), sq, (255 - sq) as u8] + payload + t;
            let w = frames(data, ctr, l, c, pad) + seq![EOT];
            recv_loop_spec(byte_events(bad + w), c, max, inc32(ctr), errors, cancels)
                == (RecvRes::Done {
                data: padded_data(data, l, pad),
                used: (bad.len() + w.len()) as nat,
                errs: (errors + 1) as u32,
                emitted: seq![NAK] + acks(nblocks(data.len(), l) + 1),
            })
        }),
{
    let b = block_len_of(l);
    let k: nat = if data.len() < b {
        data.len()
    } else {
        b
    };
    let payload = padded_chunk(data.take(k as int), b, pad);
    let bad = seq![marker_of(payload.len()), sq, (255 - sq) as u8] + payload + t;
    let w = frames(data, ctr, l, c, pad) + seq![EOT];
    lemma_byte_events_add(bad, w);
    lemma_corrupt_frame_retried(sq, payload, t, c, byte_events(w), max, inc32(ctr), errors, cancels);
    lemma_recv_clean(data, ctr, c, max, (errors + 1) as u32, l, pad, 0);
    assert(Seq::<u8>::empty() + padded_data(data, l, pad) =~= padded_data(data, l, pad));
}

/// A channel that only ever times out exhausts the error budget: the
/// receiver gives up with nothing accepted and cancels the transfer.
pub proof fn lemma_receiver_exhausts(
    evs: Seq<Event>,
    c: Checksum,
    max: u32,
    expected: u32,
    errors: u32,
    cancels: nat,
)
    requires
        forall|i: int| 0 <= i < evs.len() ==> evs[i] == Event::Timeout,
        evs.len() + errors >= max,
    ensures
        recv_loop_spec(evs, c, max, expected, errors, cancels) == (RecvRes::Exhausted {
            data: Seq::empty(),
            emitted: Seq::empty(),
        }),
    decreases evs.len(),
{
    if errors < max {
        assert(evs[0] == Event::Timeout);
        lemma_recv_step_timeout(evs, c, max, expected, errors, cancels);
        lemma_receiver_exhausts(evs.skip(1), c, max, expected, (errors + 1) as u32, cancels);
        assert(Seq::<u8>::empty() + Seq::<u8>::empty() =~= Seq::<u8>::empty());
    } else {
        lemma_recv_at_budget(evs, c, max, expected, errors, cancels);
    }
}

/// A sender that goes silent mid-transfer leaves the receiver with
/// exactly the blocks it acknowledged, and no more: once the budget runs
/// out it cancels, and what reached the sink is the data of the frames
/// delivered so far, in full.
#[verifier::rlimit(100)]
pub proof fn lemma_exhaustion_keeps_acknowledged(
    data: Seq<u8>,
    ctr: u32,
    c: Checksum,
    max: u32,
    errors: u32,
    silence: Seq<Event>,
    l: BlockLength,
    pad: u8,
    cancels: nat,
)
    requires
        errors < max,
        forall|i: int| 0 <= i < silence.len() ==> silence[i] == Event::Timeout,
        silence.len() + errors >= max,
    ensures
        recv_loop_spec(
            byte_events(frames(data, ctr, l, c, pad)) + silence,
            c,
            max,
            inc32(ctr),
            errors,
            cancels,
        ) == (RecvRes::Exhausted {
            data: padded_data(data, l, pad),
            emitted: acks(nblocks(data.len(), l)),
        }),
    decreases data.len(),
{
    let b = block_len_of(l);
    if data.len() == 0 {
        assert(byte_events(frames(data, ctr, l, c, pad)) + silence =~= silence);
        lemma_receiver_exhausts(silence, c, max, inc32(ctr), errors, cancels);
        assert(padded_data(data, l, pad) =~= Seq::<u8>::empty());
        assert(acks(0) =~= Seq::<u8>::empty());
    } else {
        let k: nat = if data.len() < b {
            data.len()
        } else {
            b
        };
        let payload = padded_chunk(data.take(k as int), b, pad);
        let sq = (inc32(ctr) & 0xFF) as u8;
        let fr = frame_bytes(sq, payload, c);
        let rest_f = frames(data.skip(k as int), inc32(ctr), l, c, pad);
        assert(frames(data, ctr, l, c, pad) == fr + rest_f);
        lemma_byte_events_add(fr, rest_f);
        let evs = byte_events(frames(data, ctr, l, c, pad)) + silence;
        let rest_evs = byte_events(rest_f) + silence;
        assert(evs =~= byte_events(fr) + rest_evs);
        assert(payload.len() == b);
        lemma_decode_frame(sq, payload, c, rest_evs);
        assert(inc32(ctr) & 0xFF < 256) by (bit_vector);
        assert(sq as u32 == inc32(ctr) & 0xFF);
        lemma_exhaustion_keeps_acknowledged(
            data.skip(k as int),
            inc32(ctr),
            c,
            max,
            errors,
            silence,
            l,
            pad,
            0,
        );
        assert(evs.skip(fr.len() as int) =~= rest_evs);
        assert(evs[0] == Event::Byte(marker_of(b)));
        assert(evs.skip(1) =~= (byte_events(fr) + rest_evs).skip(1));
        lemma_recv_step_frame(evs, c, max, inc32(ctr), errors, cancels, marker_of(b));
        assert(recv_loop_spec(evs, c, max, inc32(ctr), errors, cancels) == recv_res_add(
            payload,
            fr.len() as nat,
            seq![ACK],
            recv_loop_spec(rest_evs, c, max, inc32(inc32(ctr)), errors, 0),
        ));
        assert(payload + padded_data(data.skip(k as int), l, pad) =~= padded_data(data, l, pad));
        assert(seq![ACK] + acks(nblocks((data.len() - k) as nat, l)) =~= acks(
            nblocks(data.len(), l),
        ));
    }
}

/// A sender whose handshake hears only silence exhausts the budget.
pub proof fn lemma_sender_exhausts(evs: Seq<Event>, errors: u32, cancels: nat, max: u32)
    requires
        forall|i: int| 0 <= i < evs.len() ==> evs[i] == Event::Timeout,
        evs.len() + errors >= max,
        evs.len() >= 1,
        cancels < 2,
    ensures
        start_spec(evs, errors, cancels, max) == StartRes::Exhausted,
    decreases evs.len(),
{
    if errors + 1 < max {
        lemma_sender_exhausts(evs.skip(1), (errors + 1) as u32, cancels, max);
    }
}

/// A block transmitted into silence is retransmitted until the budget
/// runs out; the same holds of the end-of-transmission exchange.
pub proof fn lemma_block_exhausts(fr: Seq<u8>, evs: Seq<Event>, errors: u32, max: u32)
    requires
        forall|i: int| 0 <= i < evs.len() ==> evs[i] == Event::Timeout,
        evs.len() + errors >= max,
        evs.len() >= 1,
    ensures
        block_retry_spec(fr, evs, errors, max) is Exhausted,
    decreases evs.len(),
{
    if errors + 1 < max {
        lemma_block_exhausts(fr, evs.skip(1), (errors + 1) as u32, max);
    }
}

/// A sender facing a channel that only ever times out gives up: the whole
/// send exhausts its budget during the handshake.
pub proof fn lemma_send_exhausts(
    src: Seq<Event>,
    evs: Seq<Event>,
    max: u32,
    l: BlockLength,
    pad: u8,
)
    requires
        forall|i: int| 0 <= i < evs.len() ==> evs[i] == Event::Timeout,
        evs.len() >= max,
        evs.len() >= 1,
    ensures
        send_spec(src, evs, max, l, pad) == (SendRes::Exhausted { emitted: Seq::empty() }),
{
    lemma_sender_exhausts(evs, 0, 0, max);
}

/// Two cancel bytes at the start of a transfer cancel the whole send
/// within the handshake.
pub proof fn lemma_send_canceled(
    src: Seq<Event>,
    rest: Seq<Event>,
    max: u32,
    l: BlockLength,
    pad: u8,
)
    requires
        max >= 2,
    ensures
        send_spec(src, seq![Event::Byte(CAN), Event::Byte(CAN)] + rest, max, l, pad)
            == SendRes::Canceled,
{
    lemma_cancel_handshake(rest, 0, max);
}

/// Two cancel bytes during the handshake cancel the transfer, provided
/// the budget survives the two faults they also count as.
pub proof fn lemma_cancel_handshake(rest: Seq<Event>, errors: u32, max: u32)
    requires
        errors + 2 <= max,
    ensures
        start_spec(seq![Event::Byte(CAN), Event::Byte(CAN)] + rest, errors, 0, max)
            == StartRes::Canceled,
{
    let evs = seq![Event::Byte(CAN), Event::Byte(CAN)] + rest;
    assert(evs[0] == Event::Byte(CAN));
    assert(evs.skip(1)[0] == Event::Byte(CAN));
    assert(start_spec(evs.skip(1), (errors + 1) as u32, 1, max) == StartRes::Canceled);
}

/// An event the sender's handshake treats as a recoverable fault: a
/// timeout, or a byte that is no request byte and no cancel byte.
pub open spec fn handshake_noise(e: Event) -> bool {
    match e {
        Event::Timeout => true,
        Event::Byte(b) => b != NAK && b != CRC && b != CAN,
        Event::Fault => false,
    }
}

/// Recoverable handshake faults consume budget one by one and change
/// nothing else: not the cancel count, not the decision that follows
/// them.
pub proof fn lemma_start_noise(
    noise: Seq<Event>,
    rest: Seq<Event>,
    errors: u32,
    cancels: nat,
    max: u32,
)
    requires
        forall|i: int| 0 <= i < noise.len() ==> handshake_noise(noise[i]),
        errors + noise.len() < max,
        cancels < 2,
    ensures
        start_spec(noise + rest, errors, cancels, max) == start_res_add(
            noise.len(),
            start_spec(rest, (errors + noise.len()) as u32, cancels, max),
        ),
    decreases noise.len(),
{
    let evs = noise + rest;
    if noise.len() == 0 {
        assert(evs =~= rest);
    } else {
        assert(evs[0] == noise[0]);
        lemma_start_noise(noise.skip(1), rest, (errors + 1) as u32, cancels, max);
        assert(evs.skip(1) =~= noise.skip(1) + rest);
    }
}

/// Noise ahead of the handshake is tolerated by the sender: timeouts and
/// unknown bytes each cost one error, and the request byte that follows
/// is still honoured while the budget lasts.
pub proof fn lemma_sender_skips_noise(
    noise: Seq<Event>,
    c: Checksum,
    rest: Seq<Event>,
    errors: u32,
    max: u32,
)
    requires
        forall|i: int| 0 <= i < noise.len() ==> handshake_noise(noise[i]),
        errors + noise.len() < max,
    ensures
        start_spec(noise + (seq![Event::Byte(mode_byte(c))] + rest), errors, 0, max)
            == (StartRes::Mode {
            c,
            used: noise.len() + 1,
            errs: (errors + noise.len()) as u32,
        }),
{
    lemma_start_noise(noise, seq![Event::Byte(mode_byte(c))] + rest, errors, 0, max);
    lemma_start_clean(c, rest, (errors + noise.len()) as u32, max);
}

/// Any second cancel byte during the handshake cancels the transfer,
/// however many recoverable faults separate the two, while the budget
/// lasts: the cancel count survives noise and timeouts.
pub proof fn lemma_cancel_handshake_general(
    noise: Seq<Event>,
    rest: Seq<Event>,
    errors: u32,
    max: u32,
)
    requires
        forall|i: int| 0 <= i < noise.len() ==> handshake_noise(noise[i]),
        errors + noise.len() + 2 <= max,
    ensures
        start_spec(
            seq![Event::Byte(CAN)] + (noise + (seq![Event::Byte(CAN)] + rest)),
            errors,
            0,
            max,
        ) == StartRes::Canceled,
{
    let evs = seq![Event::Byte(CAN)] + (noise + (seq![Event::Byte(CAN)] + rest));
    assert(evs[0] == Event::Byte(CAN));
    assert(evs.skip(1) =~= noise + (seq![Event::Byte(CAN)] + rest));
    lemma_start_noise(noise, seq![Event::Byte(CAN)] + rest, (errors + 1) as u32, 1, max);
    let evs2 = seq![Event::Byte(CAN)] + rest;
    assert(evs2[0] == Event::Byte(CAN));
    assert(start_spec(evs2, (errors + 1 + noise.len()) as u32, 1, max) == StartRes::Canceled);
}

/// On any reply but an acknowledgement, the sender counts one error and
/// retransmits the same frame, unchanged: the block's transmit-and-wait
/// loop simply runs again with one attempt spent and the frame emitted
/// once more.
pub proof fn lemma_block_retry_step(fr: Seq<u8>, e0: Event, rest: Seq<Event>, errors: u32, max: u32)
    requires
        errors + 1 < max,
        e0 == Event::Timeout || (e0 matches Event::Byte(b) && b != ACK),
    ensures
        block_retry_spec(fr, seq![e0] + rest, errors, max) == ack_res_add(
            1,
            fr,
            block_retry_spec(fr, rest, (errors + 1) as u32, max),
        ),
{
    let evs = seq![e0] + rest;
    assert(evs[0] == e0);
    assert(evs.skip(1) =~= rest);
}

/// Line noise between frames is tolerated by the receiver free of
/// charge: a byte that is neither a frame marker nor a cancel byte is
/// skipped without touching the error budget, and resets the count of
/// consecutive cancel bytes.
pub proof fn lemma_receiver_skips_noise(
    noise: Seq<u8>,
    rest: Seq<Event>,
    c: Checksum,
    max: u32,
    expected: u32,
    errors: u32,
    cancels: nat,
)
    requires
        forall|i: int|
            0 <= i < noise.len() ==> noise[i] != SOH && noise[i] != STX && noise[i] != EOT
                && noise[i] != CAN,
        errors < max,
    ensures
        recv_loop_spec(byte_events(noise) + rest, c, max, expected, errors, cancels)
            == recv_res_add(
            Seq::empty(),
            noise.len(),
            Seq::empty(),
            recv_loop_spec(
                rest,
                c,
                max,
                expected,
                errors,
                if noise.len() == 0 {
                    cancels
                } else {
                    0
                },
            ),
        ),
    decreases noise.len(),
{
    let evs = byte_events(noise) + rest;
    if noise.len() == 0 {
        assert(evs =~= rest);
        lemma_recv_add_identity(recv_loop_spec(rest, c, max, expected, errors, cancels));
    } else {
        assert(evs[0] == Event::Byte(noise[0]));
        lemma_recv_step_noise(evs, c, max, expected, errors, cancels, noise[0]);
        lemma_receiver_skips_noise(noise.skip(1), rest, c, max, expected, errors, 0);
        assert(evs.skip(1) =~= byte_events(noise.skip(1)) + rest);
        crate::machine::lemma_recv_add_add(
            Seq::empty(),
            1,
            Seq::empty(),
            Seq::empty(),
            (noise.len() - 1) as nat,
            Seq::empty(),
            recv_loop_spec(
                rest,
                c,
                max,
                expected,
                errors,
                if noise.len() == 1 {
                    0nat
                } else {
                    0nat
                },
            ),
        );
        assert(Seq::<u8>::empty() + Seq::<u8>::empty() =~= Seq::<u8>::empty());
    }
}

/// Two consecutive cancel bytes from the peer abandon the receive within
/// one attempt: nothing is accepted and nothing further is emitted.
pub proof fn lemma_receiver_cancels(
    rest: Seq<Event>,
    c: Checksum,
    max: u32,
    expected: u32,
    errors: u32,
)
    requires
        errors < max,
    ensures
        recv_loop_spec(
            seq![Event::Byte(CAN), Event::Byte(CAN)] + rest,
            c,
            max,
            expected,
            errors,
            0,
        ) == (RecvRes::Canceled { data: Seq::empty(), emitted: Seq::empty() }),
{
    let evs = seq![Event::Byte(CAN), Event::Byte(CAN)] + rest;
    assert(evs[0] == Event::Byte(CAN));
    assert(evs.skip(1)[0] == Event::Byte(CAN));
    lemma_recv_step_can(evs, c, max, expected, errors, 0);
    lemma_recv_step_can(evs.skip(1), c, max, expected, errors, 1);
    assert(Seq::<u8>::empty() + Seq::<u8>::empty() =~= Seq::<u8>::empty());
}

} // verus!
