use framelink::error::Error;
use framelink::frame::{Frame, END_OF_HEADER, START_OF_FRAME};

fn valid_frame_bytes() -> [u8; 13] {
    [
        // Frame header
        START_OF_FRAME, // Start-of-frame marker
        0x37,           // packet ID 0x1337 as little-endian (low byte)
        0x13,           // packet ID 0x1337 as little-endian (high byte)
        0x07,           // Packet length 7 (4-byte data + 3-byte CRC) (low byte)
        0x00,           // Packet length 7 (4-byte data + 3-byte CRC) (high byte)
        END_OF_HEADER,  // End-of-header marker
        // base64-encoded [00, 01, 02] should be "AAEC" = [0x41, 0x41, 0x45, 0x43]
        0x41,
        0x41,
        0x45,
        0x43,
        // CRC16-USB over [00, 01, 02] should be 0x6E0E = [0x0E, 0x6E] (little-endian) = "Dm4"
        0x44,
        0x6D,
        0x34,
    ]
}

#[test]
fn valid_new() {
    // Should be a valid frame containing 3 bytes
    let frame: Frame<3> = Frame::new(0x1337, &[0, 1, 2]).expect("Valid frame");
    assert_eq!(0x1337, frame.id());
    assert_eq!(3, frame.bytes().len());
    assert_eq!(0, frame.bytes()[0]);
    assert_eq!(1, frame.bytes()[1]);
    assert_eq!(2, frame.bytes()[2]);
}

#[test]
fn valid_from_bytes() {
    let frame = valid_frame_bytes();

    // Should be a valid frame containing 3 bytes
    let _frame: Frame<3> = Frame::try_from_bytes(&frame).expect("Valid frame");
}

#[test]
fn invalid_start_of_frame_from_bytes() {
    let mut frame = valid_frame_bytes();
    frame[0] = 0xF2; // invalid start-of-frame

    let err = Frame::<128>::try_from_bytes(&frame).expect_err("Should not be a valid frame header");
    assert_eq!(Error::InvalidHeader, err);
}

#[test]
fn invalid_end_of_header_from_bytes() {
    let mut frame = valid_frame_bytes();
    frame[5] = START_OF_FRAME; // invalid end-of-header

    let err = Frame::<128>::try_from_bytes(&frame).expect_err("Should not be a valid frame header");
    assert_eq!(Error::InvalidHeader, err);
}

#[test]
fn invalid_id_from_bytes() {
    let mut frame = valid_frame_bytes();
    frame[2] = START_OF_FRAME; // invalid ID: MSB cannot go >= 0xF0

    let err = Frame::<128>::try_from_bytes(&frame).expect_err("Should not be a valid frame header");
    assert_eq!(Error::InvalidID, err);
}

#[test]
fn invalid_length_from_bytes() {
    let mut frame = valid_frame_bytes();
    frame[4] = START_OF_FRAME; // invalid Length: MSB cannot go >= 0xF0

    let err = Frame::<128>::try_from_bytes(&frame).expect_err("Should not be a valid frame header");
    assert_eq!(Error::InvalidLength, err);
}

#[test]
fn invalid_length2_from_bytes() {
    let mut frame = valid_frame_bytes();
    frame[3] = 6; // wrong length: actual data is 7 bytes

    let err = Frame::<128>::try_from_bytes(&frame).expect_err("Should not be a valid frame header");
    assert_eq!(Error::TooManyBytes, err);
}

#[test]
fn frame_too_small_from_bytes() {
    let frame = valid_frame_bytes();

    // Frame defined impossibly small
    let err = Frame::<1>::try_from_bytes(&frame).expect_err("Should not be a valid frame header");
    assert_eq!(Error::TooManyBytes, err);
}

#[test]
fn frame_too_small2_from_bytes() {
    let frame = valid_frame_bytes();

    // Frame defined one byte too small
    let err = Frame::<2>::try_from_bytes(&frame).expect_err("Should not be a valid frame header");
    assert_eq!(Error::TooManyBytes, err);
}

#[test]
fn invalid_crc_from_bytes() {
    let mut frame = valid_frame_bytes();
    frame[6] = 0x42; // corrupt first byte

    let err = Frame::<128>::try_from_bytes(&frame).expect_err("CRC should mismatch!");
    assert_eq!(Error::InvalidCRC, err);
}

#[test]
fn invalid_crc2_from_bytes() {
    let mut frame = valid_frame_bytes();
    frame[9] = 0x42; // corrupt last byte

    let err = Frame::<128>::try_from_bytes(&frame).expect_err("CRC should mismatch!");
    assert_eq!(Error::InvalidCRC, err);
}

#[test]
fn invalid_crc3_from_bytes() {
    let mut frame = valid_frame_bytes();
    frame[11] = 0x42; // corrupt CRC byte

    let err = Frame::<128>::try_from_bytes(&frame).expect_err("CRC should mismatch!");
    assert_eq!(Error::InvalidCRC, err);
}

#[test]
fn invalid_base64_from_bytes() {
    let mut frame = valid_frame_bytes();
    frame[11] = 0x80; // invalid base64 character

    let err = Frame::<128>::try_from_bytes(&frame).expect_err("CRC should mismatch!");
    assert_eq!(Error::InvalidBase64, err);
}
