use git_rs::protocol::{MAX_PACKET_DATA_LEN, MAX_PACKET_LEN};
use git_rs::{Capability, PktLine, PktLineDecoder, Sideband};

#[test]
fn pkt_lines_round_trip_data_and_control_packets() {
    for packet in [
        PktLine::Data(b"want abc\n".to_vec()),
        PktLine::Data(Vec::new()),
        PktLine::Flush,
        PktLine::Delimiter,
        PktLine::ResponseEnd,
    ] {
        let encoded = packet.encode().unwrap();
        let mut decoder = PktLineDecoder::new();
        for byte in encoded {
            decoder.extend(&[byte]);
        }
        assert_eq!(decoder.next_packet().unwrap(), Some(packet));
        decoder.finish().unwrap();
    }
}

#[test]
fn decoder_retains_multiple_and_partial_packets() {
    let mut decoder = PktLineDecoder::new();
    decoder.extend(b"0008abcd0005x00");
    assert_eq!(
        decoder.next_packet().unwrap(),
        Some(PktLine::Data(b"abcd".to_vec()))
    );
    assert_eq!(
        decoder.next_packet().unwrap(),
        Some(PktLine::Data(vec![b'x']))
    );
    assert_eq!(decoder.next_packet().unwrap(), None);
    assert!(decoder.finish().is_err());
}

#[test]
fn rejects_reserved_malformed_truncated_and_oversized_packets() {
    for invalid in [b"0003".as_slice(), b"zzzz", b"ffff"] {
        let mut decoder = PktLineDecoder::new();
        decoder.extend(invalid);
        assert!(decoder.next_packet().is_err());
    }
    assert!(PktLine::Data(vec![0; MAX_PACKET_DATA_LEN + 1])
        .encode()
        .is_err());
}

#[test]
fn sideband_round_trips_all_channels() {
    for band in [
        Sideband::Data(b"pack".to_vec()),
        Sideband::Progress(b"counting".to_vec()),
        Sideband::Error(b"failed".to_vec()),
    ] {
        let encoded = band.encode().unwrap();
        let mut decoder = PktLineDecoder::new();
        decoder.extend(&encoded);
        let Some(PktLine::Data(data)) = decoder.next_packet().unwrap() else {
            panic!("expected data packet");
        };
        assert_eq!(Sideband::decode(&data).unwrap(), band);
    }
    assert!(Sideband::decode(&[4]).is_err());
}

#[test]
fn parses_capability_names_values_and_rejects_duplicates() {
    let capabilities = Capability::parse_list(
        b"multi_ack_detailed side-band-64k agent=git/2.53 object-format=sha1",
    )
    .unwrap();
    assert_eq!(capabilities[0].name(), "multi_ack_detailed");
    assert_eq!(capabilities[2].value(), Some("git/2.53"));
    assert!(Capability::parse_list(b"agent=a agent=b").is_err());
    assert!(Capability::parse_list(b"bad\nname").is_err());
}

#[test]
fn rejects_pkt_line_with_oversized_length() {
    let mut decoder = PktLineDecoder::new();
    // FFFF hex = 65535 bytes - well above allowed max
    decoder.extend(b"\xFF\xFF\x00\x00");
    assert!(
        decoder.next_packet().is_err(),
        "oversized pkt-line should be rejected"
    );
}

#[test]
fn pkt_line_decoder_accumulates_partial_data() {
    let mut decoder = PktLineDecoder::new();
    decoder.extend(b"00");
    assert!(
        decoder.next_packet().unwrap().is_none(),
        "partial header should produce None"
    );
    decoder.extend(b"05");
    assert!(
        decoder.next_packet().unwrap().is_none(),
        "partial body should produce None"
    );
    decoder.extend(b"a");
    let packet = decoder.next_packet().unwrap();
    assert_eq!(packet, Some(PktLine::Data(b"a".to_vec())));
}

#[test]
fn packets_have_exact_bytes_up_to_the_largest() {
    assert_eq!(
        PktLine::Data(b"hello\n".to_vec()).encode().unwrap(),
        b"000ahello\n"
    );
    assert_eq!(PktLine::Flush.encode().unwrap(), b"0000");
    assert_eq!(PktLine::Delimiter.encode().unwrap(), b"0001");
    assert_eq!(PktLine::ResponseEnd.encode().unwrap(), b"0002");
    let largest = PktLine::Data(vec![7; MAX_PACKET_DATA_LEN])
        .encode()
        .unwrap();
    assert_eq!(largest.len(), MAX_PACKET_LEN);
    let (packet, consumed) = PktLine::decode(&largest).unwrap();
    assert_eq!(consumed, MAX_PACKET_LEN);
    assert_eq!(packet, PktLine::Data(vec![7; MAX_PACKET_DATA_LEN]));
    assert!(PktLine::decode(b"0009abcd").is_err());
}

#[test]
fn capabilities_without_a_value_have_none() {
    let list = Capability::parse_list(b"ofs-delta").unwrap();
    assert_eq!(list.len(), 1);
    assert_eq!(list[0].value(), None);
    assert!(Capability::parse_list(b"").unwrap().is_empty());
}

#[test]
fn pieces_of_a_stream_give_the_same_packets() {
    let stream = b"0008abcd00000005x0001000czyxwvuts0002";
    let take = |size: usize| {
        let mut decoder = PktLineDecoder::new();
        let mut packets = Vec::new();
        for piece in stream.chunks(size) {
            decoder.extend(piece);
            while let Some(packet) = decoder.next_packet().unwrap() {
                packets.push(packet);
            }
        }
        decoder.finish().unwrap();
        packets
    };
    let whole = take(stream.len());
    assert_eq!(whole.len(), 6);
    for size in 1..stream.len() {
        assert_eq!(take(size), whole);
    }
}
