use embedded_graphics::raw_packet::{raw_packet, PacketError, RawPacket};

#[test]
fn parse() {
    let input = [
        // 2 pixels worth of RAW data
        0b0000_0001,
        // 32BPP pixel
        0xAA,
        0xBB,
        0xCC,
        0xDD,
        // 32BPP pixel
        0x11,
        0x22,
        0x33,
        0x44,
    ];

    let (remaining, packet) = raw_packet(&input, 4).unwrap();

    assert_eq!(remaining, &[]);
    assert_eq!(
        packet,
        RawPacket {
            num_pixels: 2,
            pixel_data: &[
                0xAA, 0xBB, 0xCC, 0xDD, //
                0x11, 0x22, 0x33, 0x44, //
            ]
        }
    );
}

#[test]
fn ignore_rle_packet() {
    let input = [
        // 2 pixels worth of RLE data
        0b1000_0001,
        // 32BPP pixel
        0xAA,
        0xBB,
        0xCC,
        0xDD,
    ];

    let result = raw_packet(&input, 4);

    assert!(result.is_err());
}

#[test]
fn stop_at_packet_end() {
    let input = [
        // 2 pixels worth of non-RLE data
        0b0000_0001,
        // 32BPP pixel
        0xAA,
        0xBB,
        0xCC,
        0xDD,
        // 32BPP pixel
        0x11,
        0x22,
        0x33,
        0x44,
        // 32BPP pixel (extra, invalid)
        0x55,
        0x66,
        0x77,
        0x88,
    ];

    let (remaining, packet) = raw_packet(&input, 4).unwrap();

    assert_eq!(remaining, &[0x55, 0x66, 0x77, 0x88]);
    assert_eq!(
        packet,
        RawPacket {
            num_pixels: 2,
            pixel_data: &[
                0xAA, 0xBB, 0xCC, 0xDD, //
                0x11, 0x22, 0x33, 0x44, //
            ]
        }
    );
}

#[test]
fn errors_name_their_cause() {
    assert_eq!(raw_packet(&[], 3), Err(PacketError::Incomplete));
    assert_eq!(raw_packet(&[0x80, 1, 2, 3], 3), Err(PacketError::NotRaw));
    assert_eq!(raw_packet(&[0x01, 1, 2, 3, 4, 5], 3), Err(PacketError::Incomplete));
}

#[test]
fn packet_length_in_bytes() {
    let input = [0x02, 1, 2, 3, 4, 5, 6, 7];
    let (remaining, packet) = raw_packet(&input, 2).unwrap();
    assert_eq!(packet.num_pixels, 3);
    assert_eq!(packet.len(), 6);
    assert_eq!(remaining, &[7]);
}
