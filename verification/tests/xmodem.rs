//! End-to-end transfers over in-memory endpoints, frame-level checks of
//! the codec against reference values, and the protocol's recovery
//! behaviour under corruption, noise, cancellation and timeouts.
use xmodem::frame::{XmodemPacket, ACK, CAN, CRC, EOT, NAK, SOH, STX};
use xmodem::integrity::calc_checksum;
use xmodem::io::Event;
use xmodem::mem::{MemChannel, MemReader};
use xmodem::{BlockLength, Checksum, Error, Xmodem};

fn block_len(b: BlockLength) -> usize {
    match b {
        BlockLength::Standard => 128,
        BlockLength::OneK => 1024,
    }
}

fn nblocks(len: usize, bl: usize) -> usize {
    (len + bl - 1) / bl
}

fn test_data(n: usize) -> Vec<u8> {
    (0..n).map(|idx| ((idx + 7) * 13) as u8).collect()
}

fn padded(data: &[u8], bl: usize, pad: u8) -> Vec<u8> {
    let mut v = data.to_vec();
    while v.len() % bl != 0 {
        v.push(pad);
    }
    v
}

fn mode_request(mode: Checksum) -> u8 {
    match mode {
        Checksum::Standard => NAK,
        Checksum::CRC16 => CRC,
    }
}

/// A reference CRC-16/XMODEM: polynomial 0x1021, initial value 0, no
/// reflection, computed bit by bit.
fn crc16_ref(data: &[u8]) -> u16 {
    let mut crc: u16 = 0;
    for &b in data {
        crc ^= (b as u16) << 8;
        for _ in 0..8 {
            if crc & 0x8000 != 0 {
                crc = (crc << 1) ^ 0x1021;
            } else {
                crc <<= 1;
            }
        }
    }
    crc
}

fn byte_events(bytes: &[u8]) -> Vec<Event> {
    bytes.iter().map(|b| Event::Byte(*b)).collect()
}

/// Run a send against a channel scripted with the receiver's clean
/// responses; return the reported byte count and the wire traffic.
fn run_send(data: Vec<u8>, mode: Checksum, bl: BlockLength) -> (usize, Vec<u8>) {
    let n = nblocks(data.len(), block_len(bl));
    let mut evs = vec![Event::Byte(mode_request(mode))];
    for _ in 0..n + 1 {
        evs.push(Event::Byte(ACK));
    }
    let mut chan = MemChannel::new(evs);
    let mut src = MemReader::new(data);
    let mut x = Xmodem::new();
    x.block_length = bl;
    let sent = x.send(&mut chan, &mut src).unwrap();
    (sent, chan.sent_bytes().clone())
}

/// Run a receive over scripted incoming events; return the reported byte
/// count, the sink's contents and the control bytes the receiver sent.
fn run_recv(evs: Vec<Event>, mode: Checksum) -> (usize, Vec<u8>, Vec<u8>) {
    let mut chan = MemChannel::new(evs);
    let mut out: Vec<u8> = Vec::new();
    let mut x = Xmodem::new();
    let n = x.recv(&mut chan, &mut out, mode).unwrap();
    (n, out, chan.sent_bytes().clone())
}

fn xmodem_loopback(mode: Checksum, bl: BlockLength, len: usize) {
    let data = test_data(len);
    let (bytes_out, wire) = run_send(data.clone(), mode, bl);
    assert_eq!(bytes_out, len);
    let (bytes_in, output, responses) = run_recv(byte_events(&wire), mode);
    let expect = padded(&data, block_len(bl), 0x1a);
    assert_eq!(output.len(), expect.len());
    assert_eq!(output, expect);
    assert_eq!(bytes_in, expect.len());
    let mut resp_expect = vec![mode_request(mode)];
    for _ in 0..nblocks(len, block_len(bl)) + 1 {
        resp_expect.push(ACK);
    }
    assert_eq!(responses, resp_expect);
}

#[test]
fn xmodem_loopback_standard() {
    xmodem_loopback(Checksum::Standard, BlockLength::Standard, 2000);
}

#[test]
fn xmodem_loopback_onek() {
    xmodem_loopback(Checksum::Standard, BlockLength::OneK, 2200);
}

#[test]
fn xmodem_loopback_crc() {
    xmodem_loopback(Checksum::CRC16, BlockLength::Standard, 2000);
}

#[test]
fn xmodem_loopback_long_crc() {
    // long enough to wrap the 8-bit block counter
    xmodem_loopback(Checksum::CRC16, BlockLength::Standard, 50000);
}

#[test]
fn xmodem_loopback_exact_multiple() {
    // an exact multiple of the block length gets no extra padded block
    xmodem_loopback(Checksum::Standard, BlockLength::Standard, 256);
    xmodem_loopback(Checksum::CRC16, BlockLength::OneK, 2048);
}

#[test]
fn xmodem_loopback_short_input() {
    xmodem_loopback(Checksum::Standard, BlockLength::Standard, 5);
    xmodem_loopback(Checksum::CRC16, BlockLength::OneK, 5);
}

#[test]
fn xmodem_loopback_empty_input() {
    let (bytes_out, wire) = run_send(Vec::new(), Checksum::Standard, BlockLength::Standard);
    assert_eq!(bytes_out, 0);
    assert_eq!(wire, vec![EOT]);
    let (bytes_in, output, responses) = run_recv(byte_events(&wire), Checksum::Standard);
    assert_eq!(bytes_in, 0);
    assert!(output.is_empty());
    assert_eq!(responses, vec![NAK, ACK]);
}

#[test]
fn both_modes_identical_output() {
    let data = test_data(777);
    let (_, wire_std) = run_send(data.clone(), Checksum::Standard, BlockLength::Standard);
    let (_, wire_crc) = run_send(data.clone(), Checksum::CRC16, BlockLength::Standard);
    let (n_std, out_std, _) = run_recv(byte_events(&wire_std), Checksum::Standard);
    let (n_crc, out_crc, _) = run_recv(byte_events(&wire_crc), Checksum::CRC16);
    assert_eq!(out_std, out_crc);
    assert_eq!(n_std, n_crc);
    assert_eq!(out_std, padded(&data, 128, 0x1a));
}

#[test]
fn checksum_known_values() {
    assert_eq!(calc_checksum(&[]), 0);
    assert_eq!(calc_checksum(&[1, 2, 3]), 6);
    assert_eq!(calc_checksum(&[200, 100]), 44);
    assert_eq!(calc_checksum(&[255, 1]), 0);
}

#[test]
fn crc_reference_self_check() {
    assert_eq!(crc16_ref(b"123456789"), 0x31c3);
}

#[test]
fn frame_layout_standard_checksum() {
    let mut packet = XmodemPacket::new(BlockLength::Standard, 0x1a);
    packet.seqno = 1;
    let mut chan = MemChannel::new(Vec::new());
    packet.send(&mut chan, Checksum::Standard).unwrap();
    let frame = chan.sent_bytes().clone();
    assert_eq!(frame.len(), 3 + 128 + 1);
    assert_eq!(frame[0], SOH);
    assert_eq!(frame[1], 1);
    assert_eq!(frame[2], 254);
    for i in 0..128 {
        assert_eq!(frame[3 + i], 0x1a);
    }
    // 128 * 0x1a == 3328; 3328 % 256 == 0
    assert_eq!(frame[131], 0);
    assert_eq!(frame[131], calc_checksum(&frame[3..131]));
}

#[test]
fn frame_layout_crc_matches_reference() {
    let data: Vec<u8> = (0..200).map(|i| (i * 31 + 5) as u8).collect();
    let (_, wire) = run_send(data, Checksum::CRC16, BlockLength::Standard);
    // two frames of 3 + 128 + 2 bytes, then EOT
    assert_eq!(wire.len(), 2 * 133 + 1);
    for f in 0..2 {
        let frame = &wire[f * 133..(f + 1) * 133];
        assert_eq!(frame[0], SOH);
        assert_eq!(frame[1], (f + 1) as u8);
        assert_eq!(frame[2], 255 - (f + 1) as u8);
        let crc = crc16_ref(&frame[3..131]);
        assert_eq!(frame[131], (crc >> 8) as u8);
        assert_eq!(frame[132], (crc & 0xff) as u8);
    }
    assert_eq!(wire[266], EOT);
}

#[test]
fn frame_layout_onek_marker() {
    let mut packet = XmodemPacket::new(BlockLength::OneK, 0x00);
    packet.seqno = 7;
    let mut chan = MemChannel::new(Vec::new());
    packet.send(&mut chan, Checksum::CRC16).unwrap();
    let frame = chan.sent_bytes().clone();
    assert_eq!(frame.len(), 3 + 1024 + 2);
    assert_eq!(frame[0], STX);
    assert_eq!(frame[1], 7);
    assert_eq!(frame[2], 248);
}

#[test]
fn corrupted_frame_is_retransmitted() {
    // one frame arrives with a damaged trailer; the sender resends it;
    // the transfer still converges at the cost of exactly one NAK
    let data = test_data(300);
    let (_, wire) = run_send(data.clone(), Checksum::Standard, BlockLength::Standard);
    let frame_len = 3 + 128 + 1;
    let mut bad_first = wire[..frame_len].to_vec();
    bad_first[frame_len - 1] ^= 0xff;
    let mut evs = byte_events(&bad_first);
    evs.extend(byte_events(&wire));
    let (bytes_in, output, responses) = run_recv(evs, Checksum::Standard);
    let expect = padded(&data, 128, 0x1a);
    assert_eq!(output, expect);
    assert_eq!(bytes_in, expect.len());
    let mut resp_expect = vec![NAK, NAK];
    for _ in 0..nblocks(300, 128) + 1 {
        resp_expect.push(ACK);
    }
    assert_eq!(responses, resp_expect);
}

#[test]
fn receiver_exhausts_budget_on_timeouts() {
    let mut chan = MemChannel::new(vec![Event::Timeout; 16]);
    let mut out: Vec<u8> = Vec::new();
    let mut x = Xmodem::new();
    let r = x.recv(&mut chan, &mut out, Checksum::Standard);
    assert!(matches!(r, Err(Error::ExhaustedRetries)));
    assert!(out.is_empty());
    assert_eq!(chan.sent_bytes().clone(), vec![NAK, CAN, CAN]);
}

#[test]
fn sender_exhausts_budget_on_timeouts() {
    let mut chan = MemChannel::new(vec![Event::Timeout; 16]);
    let mut src = MemReader::new(test_data(10));
    let mut x = Xmodem::new();
    let r = x.send(&mut chan, &mut src);
    assert!(matches!(r, Err(Error::ExhaustedRetries)));
    // best-effort cancel on the way out
    assert_eq!(chan.sent_bytes().clone(), vec![CAN]);
}

#[test]
fn sender_canceled_by_double_can() {
    let mut chan = MemChannel::new(vec![Event::Byte(CAN), Event::Byte(CAN)]);
    let mut src = MemReader::new(test_data(10));
    let mut x = Xmodem::new();
    let r = x.send(&mut chan, &mut src);
    assert!(matches!(r, Err(Error::Canceled)));
}

#[test]
fn sender_tolerates_handshake_noise() {
    // unknown bytes before the request byte cost budget but not the transfer
    let data = test_data(100);
    let mut evs = vec![Event::Byte(0x7f), Event::Byte(0x00), Event::Byte(0x31)];
    evs.push(Event::Byte(NAK));
    evs.push(Event::Byte(ACK));
    evs.push(Event::Byte(ACK));
    let mut chan = MemChannel::new(evs);
    let mut src = MemReader::new(data);
    let mut x = Xmodem::new();
    let sent = x.send(&mut chan, &mut src).unwrap();
    assert_eq!(sent, 100);
}

#[test]
fn sender_tolerates_timeouts_within_budget() {
    let data = test_data(100);
    let mut evs = vec![Event::Timeout, Event::Timeout];
    evs.push(Event::Byte(CRC));
    evs.push(Event::Timeout);
    evs.push(Event::Byte(ACK));
    evs.push(Event::Byte(ACK));
    let mut chan = MemChannel::new(evs);
    let mut src = MemReader::new(data.clone());
    let mut x = Xmodem::new();
    let sent = x.send(&mut chan, &mut src).unwrap();
    assert_eq!(sent, 100);
    // the frame was transmitted twice: once unanswered, once acknowledged
    let wire = chan.sent_bytes().clone();
    assert_eq!(wire.len(), 2 * 133 + 1);
    assert_eq!(wire[..133], wire[133..266]);
    assert_eq!(wire[266], EOT);
}

#[test]
fn receiver_tolerates_leading_noise() {
    // bytes that are no frame marker are skipped without budget cost
    let data = test_data(64);
    let (_, wire) = run_send(data.clone(), Checksum::Standard, BlockLength::Standard);
    let mut evs = byte_events(&[0x55u8; 40]);
    evs.extend(byte_events(&wire));
    let (bytes_in, output, _) = run_recv(evs, Checksum::Standard);
    let expect = padded(&data, 128, 0x1a);
    assert_eq!(output, expect);
    assert_eq!(bytes_in, expect.len());
}

#[test]
fn receiver_cancels_on_unexpected_sequence_number() {
    // a valid frame under the wrong sequence number is desynchronization
    let data = test_data(5);
    let (_, wire) = run_send(data, Checksum::Standard, BlockLength::Standard);
    let mut frame = wire[..132].to_vec();
    frame[1] = 9;
    frame[2] = 255 - 9;
    let mut chan = MemChannel::new(byte_events(&frame));
    let mut out: Vec<u8> = Vec::new();
    let mut x = Xmodem::new();
    let r = x.recv(&mut chan, &mut out, Checksum::Standard);
    assert!(matches!(r, Err(Error::Canceled)));
    assert!(out.is_empty());
    assert_eq!(chan.sent_bytes().clone(), vec![NAK, CAN, CAN]);
}

#[test]
fn decode_classifies_frames() {
    // a good frame
    let mut packet = XmodemPacket::new(BlockLength::Standard, 0x42);
    packet.seqno = 1;
    let mut enc = MemChannel::new(Vec::new());
    packet.send(&mut enc, Checksum::Standard).unwrap();
    let good = enc.sent_bytes().clone();
    let mut chan = MemChannel::new(byte_events(&good));
    let got = XmodemPacket::recv_next(&mut chan, Checksum::Standard).unwrap().unwrap();
    assert_eq!(got.seqno, 1);
    assert_eq!(got.data, vec![0x42u8; 128]);

    // end of transmission
    let mut chan = MemChannel::new(vec![Event::Byte(EOT)]);
    assert!(matches!(XmodemPacket::recv_next(&mut chan, Checksum::Standard), Ok(None)));

    // an unrecognized marker consumes one byte only
    let mut chan = MemChannel::new(vec![Event::Byte(0x99), Event::Byte(EOT)]);
    assert!(matches!(
        XmodemPacket::recv_next(&mut chan, Checksum::Standard),
        Err(Error::Invalid)
    ));
    assert!(matches!(XmodemPacket::recv_next(&mut chan, Checksum::Standard), Ok(None)));

    // a sequence byte disagreeing with its complement
    let mut bad_seq = good.clone();
    bad_seq[2] = 0x00;
    let mut chan = MemChannel::new(byte_events(&bad_seq));
    assert!(matches!(
        XmodemPacket::recv_next(&mut chan, Checksum::Standard),
        Err(Error::SequenceMismatch)
    ));

    // a damaged trailer
    let mut bad_sum = good.clone();
    bad_sum[131] ^= 0xff;
    let mut chan = MemChannel::new(byte_events(&bad_sum));
    assert!(matches!(
        XmodemPacket::recv_next(&mut chan, Checksum::Standard),
        Err(Error::Checksum)
    ));

    // the complement check takes precedence when both fail
    let mut both = good.clone();
    both[2] = 0x00;
    both[131] ^= 0xff;
    let mut chan = MemChannel::new(byte_events(&both));
    assert!(matches!(
        XmodemPacket::recv_next(&mut chan, Checksum::Standard),
        Err(Error::SequenceMismatch)
    ));

    // a timeout mid-frame surfaces as a transport error
    let mut chan = MemChannel::new(vec![Event::Byte(SOH), Event::Timeout]);
    match XmodemPacket::recv_next(&mut chan, Checksum::Standard) {
        Err(Error::Io(e)) => assert_eq!(e.kind(), xmodem::io::ErrorKind::TimedOut),
        other => panic!("expected a transport error, got {:?}", other),
    }
}

#[test]
fn default_configuration() {
    let x = Xmodem::new();
    assert_eq!(x.max_errors, 16);
    assert_eq!(x.pad_byte, 0x1a);
    assert!(matches!(x.block_length, BlockLength::Standard));
    let d = Xmodem::default();
    assert_eq!(d.max_errors, 16);
}

#[test]
fn io_error_reports_its_kind() {
    let e = xmodem::io::Error::new(xmodem::io::ErrorKind::TimedOut, "no byte arrived in time");
    assert_eq!(e.kind(), xmodem::io::ErrorKind::TimedOut);
    assert_eq!(e.message(), "no byte arrived in time");
    let o = xmodem::io::Error::new(xmodem::io::ErrorKind::Other, "line closed");
    assert_eq!(o.kind(), xmodem::io::ErrorKind::Other);
}

#[test]
fn xmodem_loopback_onek_crc() {
    xmodem_loopback(Checksum::CRC16, BlockLength::OneK, 3000);
}

#[test]
fn corrupted_crc_frame_is_retransmitted() {
    let data = test_data(300);
    let (_, wire) = run_send(data.clone(), Checksum::CRC16, BlockLength::Standard);
    let frame_len = 3 + 128 + 2;
    let mut bad_first = wire[..frame_len].to_vec();
    bad_first[frame_len - 2] ^= 0xff;
    let mut evs = byte_events(&bad_first);
    evs.extend(byte_events(&wire));
    let (bytes_in, output, responses) = run_recv(evs, Checksum::CRC16);
    let expect = padded(&data, 128, 0x1a);
    assert_eq!(output, expect);
    assert_eq!(bytes_in, expect.len());
    assert_eq!(responses[0], CRC);
    assert_eq!(responses[1], NAK);
}

#[test]
fn custom_error_budget_is_honoured() {
    let mut chan = MemChannel::new(vec![Event::Timeout; 3]);
    let mut out: Vec<u8> = Vec::new();
    let mut x = Xmodem::new();
    x.max_errors = 3;
    let r = x.recv(&mut chan, &mut out, Checksum::Standard);
    assert!(matches!(r, Err(Error::ExhaustedRetries)));
    assert!(out.is_empty());
}

#[test]
fn receiver_canceled_by_double_can() {
    let mut chan = MemChannel::new(vec![Event::Byte(CAN), Event::Byte(CAN)]);
    let mut out: Vec<u8> = Vec::new();
    let mut x = Xmodem::new();
    let r = x.recv(&mut chan, &mut out, Checksum::Standard);
    assert!(matches!(r, Err(Error::Canceled)));
    assert!(out.is_empty());
    // the peer cancelled; nothing but the opening request byte went out
    assert_eq!(chan.sent_bytes().clone(), vec![NAK]);
}

#[test]
fn receiver_cancel_count_survives_timeouts() {
    // a timeout between the two cancel bytes does not break their
    // consecutiveness: no byte arrived in between
    let mut chan = MemChannel::new(vec![Event::Byte(CAN), Event::Timeout, Event::Byte(CAN)]);
    let mut out: Vec<u8> = Vec::new();
    let mut x = Xmodem::new();
    let r = x.recv(&mut chan, &mut out, Checksum::CRC16);
    assert!(matches!(r, Err(Error::Canceled)));
    assert_eq!(chan.sent_bytes().clone(), vec![CRC]);
}

#[test]
fn receiver_cancel_count_reset_by_other_bytes() {
    // a lone cancel byte followed by another noise byte is mere line
    // noise; the transfer that follows still completes
    let data = test_data(10);
    let (_, wire) = run_send(data.clone(), Checksum::Standard, BlockLength::Standard);
    let mut evs = vec![Event::Byte(CAN), Event::Byte(0x7f), Event::Byte(CAN)];
    evs.extend(byte_events(&wire));
    let (bytes_in, output, _) = run_recv(evs, Checksum::Standard);
    let expect = padded(&data, 128, 0x1a);
    assert_eq!(output, expect);
    assert_eq!(bytes_in, expect.len());
}

#[test]
fn sender_block_exhaustion_sends_cancel() {
    // the handshake succeeds, then every acknowledgement times out: the
    // block is retransmitted until the budget dies, then one best-effort
    // cancel byte follows the frames
    let mut evs = vec![Event::Byte(NAK)];
    for _ in 0..16 {
        evs.push(Event::Timeout);
    }
    let mut chan = MemChannel::new(evs);
    let mut src = MemReader::new(test_data(10));
    let mut x = Xmodem::new();
    let r = x.send(&mut chan, &mut src);
    assert!(matches!(r, Err(Error::ExhaustedRetries)));
    let wire = chan.sent_bytes().clone();
    // sixteen transmissions of the one 132-byte frame, then CAN
    assert_eq!(wire.len(), 16 * 132 + 1);
    assert_eq!(wire[0], SOH);
    assert_eq!(wire[..132], wire[132..264]);
    assert_eq!(wire[16 * 132], CAN);
}

#[test]
fn sender_eot_exhaustion_sends_cancel() {
    // the block goes through, then every acknowledgement of EOT times
    // out: EOT is repeated until the budget dies, then one best-effort
    // cancel byte
    let mut evs = vec![Event::Byte(NAK), Event::Byte(ACK)];
    for _ in 0..16 {
        evs.push(Event::Timeout);
    }
    let mut chan = MemChannel::new(evs);
    let mut src = MemReader::new(test_data(10));
    let mut x = Xmodem::new();
    let r = x.send(&mut chan, &mut src);
    assert!(matches!(r, Err(Error::ExhaustedRetries)));
    let wire = chan.sent_bytes().clone();
    assert_eq!(wire.len(), 132 + 16 + 1);
    assert_eq!(wire[132], EOT);
    assert_eq!(wire[132 + 15], EOT);
    assert_eq!(wire[132 + 16], CAN);
}
