use framelink::error::{Error, PollError};
use framelink::frame::{Frame, FrameHeader, END_OF_HEADER, START_OF_FRAME};
use framelink::queue::{RxBuffer, TxBuffer};
use framelink::receiver::Receiver;
use framelink::transmitter::Transmitter;

fn valid_frame_bytes() -> [u8; 13] {
    [
        START_OF_FRAME,
        0x37,
        0x13,
        0x07,
        0x00,
        END_OF_HEADER,
        0x41,
        0x41,
        0x45,
        0x43,
        0x44,
        0x6D,
        0x34,
    ]
}

/// Transmit a payload and receive it back through an in-memory link.
fn round_trip(id: u16, payload: &[u8]) -> Frame<256> {
    let tx = TxBuffer::new(vec![0; 4096]);
    let mut transmitter = Transmitter::new(tx);
    transmitter.transmit(id, payload).expect("transmit");
    let tx = transmitter.release();
    let written = tx.bytes()[0..tx.count()].to_vec();
    let mut receiver = Receiver::new(RxBuffer::new(written));
    let frame: Frame<256> = receiver.receive().expect("receive");
    assert_eq!(0, receiver.bytes_skipped());
    frame
}

#[test]
fn round_trip_small_payloads() {
    for len in 0..9usize {
        let payload: Vec<u8> = (0..len as u8).map(|b| b.wrapping_mul(37)).collect();
        let frame = round_trip(0x0042, &payload);
        assert_eq!(0x0042, frame.id());
        assert_eq!(payload.as_slice(), frame.bytes());
    }
}

#[test]
fn round_trip_block_boundary_payloads() {
    // lengths around multiples of the 3-byte encoding group and around 30
    for len in [29usize, 30, 31, 32, 58, 100, 255] {
        let payload: Vec<u8> = (0..len).map(|b| (b as u8).wrapping_add(3)).collect();
        let frame = round_trip(0xF0FF, &payload);
        assert_eq!(0xF0FF, frame.id());
        assert_eq!(payload.as_slice(), frame.bytes());
    }
}

#[test]
fn round_trip_largest_id_and_zero_id() {
    let frame = round_trip(0, &[0xAA, 0xBB]);
    assert_eq!(0, frame.id());
    let frame = round_trip(0xF0FF, &[]);
    assert_eq!(0xF0FF, frame.id());
    assert_eq!(0, frame.bytes().len());
}

#[test]
fn length_field_inverts_for_all_small_payload_lengths() {
    for payload_length in 0..2000usize {
        let header = FrameHeader::new(7, payload_length).expect("valid header");
        assert_eq!(payload_length, header.payload_len());
        assert_eq!(6 + header.data_len(), header.total_packet_len());
    }
}

#[test]
fn length_field_concrete_values() {
    // 3 payload bytes + 2 CRC bytes = 5 bytes = ceil(40 / 6) = 7 characters
    let header = FrameHeader::new(0x1337, 3).expect("valid header");
    assert_eq!(7, header.data_len());
    assert_eq!(13, header.total_packet_len());
    assert_eq!(3, header.payload_len());
    // empty payload: no checksum, no encoded section
    let header = FrameHeader::new(0x1337, 0).expect("valid header");
    assert_eq!(0, header.data_len());
    assert_eq!(6, header.total_packet_len());
    assert_eq!(0, header.payload_len());
}

#[test]
fn header_serializes_to_wire_layout() {
    let header = FrameHeader::new(0x1337, 3).expect("valid header");
    let bytes = header.as_bytes();
    assert_eq!([0xF1, 0x37, 0x13, 0x07, 0x00, 0xFF], bytes);
    let reparsed = FrameHeader::try_from_bytes(&bytes).expect("valid header bytes");
    assert_eq!(7, reparsed.data_len());
}

#[test]
fn header_from_wrong_size_slice_errors_directionally() {
    let err = FrameHeader::try_from_bytes(&[START_OF_FRAME, 0, 0]).expect_err("short");
    assert_eq!(Error::TooFewBytes, err);
    let err = FrameHeader::try_from_bytes(&[0u8; 7]).expect_err("long");
    assert_eq!(Error::TooManyBytes, err);
}

#[test]
fn frame_from_short_buffer_is_too_few_bytes() {
    let err = Frame::<128>::try_from_bytes(&[]).expect_err("empty buffer");
    assert_eq!(Error::TooFewBytes, err);
    let err =
        Frame::<128>::try_from_bytes(&valid_frame_bytes()[0..5]).expect_err("truncated header");
    assert_eq!(Error::TooFewBytes, err);
}

#[test]
fn payload_too_long_is_invalid_length() {
    // the largest encodable payload fills the length field exactly
    let tx = TxBuffer::new(vec![0; 0x10000]);
    let mut transmitter = Transmitter::new(tx);
    let payload = vec![7u8; 50000];
    let err = transmitter.transmit(0x0001, &payload).expect_err("too long");
    assert_eq!(PollError::Other(Error::InvalidLength), err);
}

#[test]
fn id_out_of_range_is_invalid_id() {
    let tx = TxBuffer::new(vec![0; 64]);
    let mut transmitter = Transmitter::new(tx);
    let err = transmitter.transmit(0xF100, &[1, 2, 3]).expect_err("bad id");
    assert_eq!(PollError::Other(Error::InvalidID), err);
    let err = Frame::<8>::new(0xFFFF, &[1]).expect_err("bad id");
    assert_eq!(Error::InvalidID, err);
}

#[test]
fn transmit_into_full_queue_would_block() {
    let tx = TxBuffer::new(vec![0; 5]);
    let mut transmitter = Transmitter::new(tx);
    let err = transmitter.transmit(0x0001, &[1, 2, 3]).expect_err("no space");
    assert_eq!(PollError::WouldBlock, err);
    // nothing was written
    let tx = transmitter.release();
    assert_eq!(0, tx.count());
}

#[test]
fn corrupting_any_encoded_byte_is_detected() {
    // Flip each bit of each byte of the encoded payload and CRC section:
    // never a false accept, always a CRC or base64 error.
    for index in 6..13usize {
        for bit in 0..8u32 {
            let mut frame = valid_frame_bytes();
            frame[index] ^= 1u8 << bit;
            let err = Frame::<128>::try_from_bytes(&frame)
                .expect_err("corruption must be detected");
            assert!(
                err == Error::InvalidCRC || err == Error::InvalidBase64,
                "unexpected error {:?} at byte {} bit {}",
                err,
                index,
                bit
            );
        }
    }
}

#[test]
fn padding_character_is_invalid_base64() {
    let mut frame = valid_frame_bytes();
    frame[12] = b'='; // the wire format never uses padding
    let err = Frame::<128>::try_from_bytes(&frame).expect_err("padding is not accepted");
    assert_eq!(Error::InvalidBase64, err);
}

#[test]
fn receive_rejects_frame_over_capacity_and_skips_one_byte() {
    let data = valid_frame_bytes();
    let mut receiver = Receiver::new(RxBuffer::new(data.to_vec()));
    let err = receiver.receive::<1>().expect_err("frame cannot fit");
    assert_eq!(PollError::Other(Error::TooManyBytes), err);
    assert_eq!(1, receiver.bytes_skipped());
}

#[test]
fn receive_with_garbage_prefix_counts_skipped_bytes() {
    // 11 arbitrary non-marker bytes in front of a valid frame
    let junk: [u8; 11] = [0x00, 0x55, 0xAA, 0x13, 0x37, 0xFE, 0xFF, 0x42, 0x01, 0x02, 0x03];
    let mut data = junk.to_vec();
    data.extend_from_slice(&valid_frame_bytes());
    let mut receiver = Receiver::new(RxBuffer::new(data));
    let frame: Frame<128> = receiver.receive().expect("resynchronize onto the frame");
    assert_eq!(0x1337, frame.id());
    assert_eq!(&[0, 1, 2], frame.bytes());
    assert_eq!(11, receiver.bytes_skipped());
}

#[test]
fn receive_partial_frame_would_block_then_succeeds() {
    let data = valid_frame_bytes();
    // deliver the first 8 bytes only
    let mut receiver = Receiver::new(RxBuffer::new(data[0..8].to_vec()));
    let err = receiver.receive::<128>().expect_err("not all bytes arrived");
    assert_eq!(PollError::WouldBlock, err);
    assert_eq!(0, receiver.bytes_skipped());
    // polling again without new bytes changes nothing
    let err = receiver.receive::<128>().expect_err("still incomplete");
    assert_eq!(PollError::WouldBlock, err);
    // the rest arrives; the already-delivered bytes are still in place
    receiver.queue_mut().feed(&data[8..13]);
    let frame: Frame<128> = receiver.receive().expect("now complete");
    assert_eq!(0x1337, frame.id());
    assert_eq!(&[0, 1, 2], frame.bytes());
    assert_eq!(0, receiver.bytes_skipped());
}

#[test]
fn receive_empty_queue_would_block() {
    let mut receiver = Receiver::new(RxBuffer::new(Vec::new()));
    let err = receiver.receive::<128>().expect_err("nothing arrived");
    assert_eq!(PollError::WouldBlock, err);
    assert_eq!(0, receiver.bytes_skipped());
}

#[test]
fn receive_zero_length_frame() {
    let data = [START_OF_FRAME, 0x37, 0x13, 0x00, 0x00, END_OF_HEADER];
    let mut receiver = Receiver::new(RxBuffer::new(data.to_vec()));
    let frame: Frame<128> = receiver.receive().expect("zero-length frame");
    assert_eq!(0x1337, frame.id());
    assert_eq!(0, frame.bytes().len());
    assert_eq!(0, receiver.bytes_skipped());
}

#[test]
fn decode_recovers_payload_from_encoded_characters() {
    // The decoder must invert the encoding, not hand the characters through:
    // "AAEC" decodes to [0, 1, 2], which shares no byte with it.
    let frame: Frame<3> = Frame::try_from_bytes(&valid_frame_bytes()).expect("Valid frame");
    assert_eq!(&[0x00, 0x01, 0x02], frame.bytes());
}

#[test]
fn checksum_matches_published_vector() {
    // CRC-16/USB of [0, 1, 2] is 0x6E0E; its little-endian bytes are encoded
    // together with the final payload byte as "CDm4".
    let tx = TxBuffer::new(vec![0; 64]);
    let mut transmitter = Transmitter::new(tx);
    transmitter.transmit(0x1337, &[0, 1, 2]).expect("transmit");
    let tx = transmitter.release();
    assert_eq!(&[0x43, 0x44, 0x6D, 0x34], &tx.bytes()[9..13]);
}
