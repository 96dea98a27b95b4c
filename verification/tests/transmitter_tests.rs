use framelink::frame::{Frame, END_OF_HEADER, START_OF_FRAME};
use framelink::queue::TxBuffer;
use framelink::transmitter::Transmitter;

#[test]
fn transmit_works() {
    let tx = TxBuffer::new(vec![0; 0xFFFF]);
    let mut transmitter = Transmitter::new(tx);
    transmitter
        .transmit(0x1337, &[0x0, 0x1, 0x2])
        .expect("Transmit failed!");
    let tx = transmitter.release();
    assert_eq!(6 + 7, tx.count(), "Expect 13-byte message"); // 6-byte header + 8/6 * (3-byte data + 2-byte CRC)

    let data = tx.bytes();
    // Frame header
    assert_eq!(data[0], START_OF_FRAME); // Start-of-frame marker
    assert_eq!(data[1], 0x37); // packet ID 0x1337 as little-endian (low byte)
    assert_eq!(data[2], 0x13); // packet ID 0x1337 as little-endian (high byte)
    assert_eq!(data[3], 0x07); // Packet length 7 (4-byte data + 3-byte CRC) (low byte)
    assert_eq!(data[4], 0x00); // Packet length 7 (4-byte data + 3-byte CRC) (high byte)
    assert_eq!(data[5], END_OF_HEADER); // End-of-header marker

    // base64-encoded [00, 01, 02] should be "AAEC" = [0x41, 0x41, 0x45, 0x43]
    assert_eq!(data[6], 0x41);
    assert_eq!(data[7], 0x41);
    assert_eq!(data[8], 0x45);
    assert_eq!(data[9], 0x43);

    // CRC16-USB over [00, 01, 02] should be 0x6E0E = [0x0E, 0x6E] (little-endian) = "Dm4"
    assert_eq!(data[10], 0x44);
    assert_eq!(data[11], 0x6D);
    assert_eq!(data[12], 0x34);
}

#[test]
/// Same as `transmit_works()` but using the `transmit_frame()` API
fn transmit_frame_works() {
    let tx = TxBuffer::new(vec![0; 0xFFFF]);

    let frame = Frame::<128>::new(0x1337, &[0, 1, 2]).expect("Valid frame");
    let mut transmitter = Transmitter::new(tx);
    transmitter
        .transmit_frame(&frame)
        .expect("Transmit failed!");
    let tx = transmitter.release();
    assert_eq!(6 + 7, tx.count(), "Expect 13-byte message"); // 6-byte header + 8/6 * (3-byte data + 2-byte CRC)

    let data = tx.bytes();
    // Frame header
    assert_eq!(data[0], START_OF_FRAME); // Start-of-frame marker
    assert_eq!(data[1], 0x37); // packet ID 0x1337 as little-endian (low byte)
    assert_eq!(data[2], 0x13); // packet ID 0x1337 as little-endian (high byte)
    assert_eq!(data[3], 0x07); // Packet length 7 (4-byte data + 3-byte CRC) (low byte)
    assert_eq!(data[4], 0x00); // Packet length 7 (4-byte data + 3-byte CRC) (high byte)
    assert_eq!(data[5], END_OF_HEADER); // End-of-header marker

    // base64-encoded [00, 01, 02] should be "AAEC" = [0x41, 0x41, 0x45, 0x43]
    assert_eq!(data[6], 0x41);
    assert_eq!(data[7], 0x41);
    assert_eq!(data[8], 0x45);
    assert_eq!(data[9], 0x43);

    // CRC16-USB over [00, 01, 02] should be 0x6E0E = [0x0E, 0x6E] (little-endian) = "Dm4"
    assert_eq!(data[10], 0x44);
    assert_eq!(data[11], 0x6D);
    assert_eq!(data[12], 0x34);
}

#[test]
fn transmit_long_packet_works() {
    let tx = TxBuffer::new(vec![0; 0xFFFF]);
    let mut transmitter = Transmitter::new(tx);
    transmitter
        .transmit(
            0x1337,
            &[
                1, 2, 3, 4, 5, 6, 7, 8, 9, 10, 11, 12, 13, 14, 15, 16, 17, 18, 19, 20, 21, 22,
                23, 24, 25, 26, 27, 28, 29, 30, 29, 28, 27, 26, 25, 24, 23, 22, 21, 20, 19, 18,
                17, 16, 15, 14, 13, 12, 11, 10, 9, 8, 7, 6, 5, 4, 3, 2,
            ],
        )
        .expect("Transmit failed!");
    let tx = transmitter.release();
    // 58 bytes = 78+2 bytes of base64
    assert_eq!(6 + 78 + 2, tx.count(), "Expect 80-byte message");
    let data = tx.bytes();
    assert_eq!(0, data[6 + 78 + 2]);
    // Frame header
    assert_eq!(data[0], START_OF_FRAME); // Start-of-frame marker
    assert_eq!(data[1], 0x37); // packet ID 0x1337 as little-endian (low byte)
    assert_eq!(data[2], 0x13); // packet ID 0x1337 as little-endian (high byte)
    assert_eq!(data[3], 78 + 2); // Length of encoded data (low byte)
    assert_eq!(data[4], 0x00); // Length of encoded data (high byte)
    assert_eq!(data[5], END_OF_HEADER); // End-of-header marker

    // (expect CRC = 0x8F53 == 36691)

    // Should be possible to create a valid frame from these bytes
    let _frame: Frame<128> = Frame::try_from_bytes(&data[0..6 + 78 + 2]).expect("Invalid packet");
}

#[test]
fn transmit_zero_length_packet_works() {
    let tx = TxBuffer::new(vec![0xBE; 0xFFFF]);
    let mut transmitter = Transmitter::new(tx);
    transmitter.transmit(0x1337, &[]).expect("Transmit failed!");
    let tx = transmitter.release();
    assert_eq!(6, tx.count(), "Expect 6-byte message");

    let data = tx.bytes();
    // Frame header
    assert_eq!(data[0], START_OF_FRAME); // Start-of-frame marker
    assert_eq!(data[1], 0x37); // packet ID 0x1337 as little-endian (low byte)
    assert_eq!(data[2], 0x13); // packet ID 0x1337 as little-endian (high byte)
    assert_eq!(data[3], 0x00); // Length of encoded data (low byte)
    assert_eq!(data[4], 0x00); // Length of encoded data (high byte)
    assert_eq!(data[5], END_OF_HEADER); // End-of-header marker

    assert_eq!(data[6], 0xBE); // Should not be written to

    // Should be possible to create a valid frame from these bytes
    let _frame: Frame<128> = Frame::try_from_bytes(&data[0..6]).expect("Invalid packet");
}
