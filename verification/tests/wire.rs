use vban_common::pong;
use vban_common::{
    encode, parse, pong_header, reply_header, rt_header, Header, Packet, Service, SubProtocol,
    DEFAULT_PORT, HEADER_SIZE, MAGIC, MAX_PACKET_SIZE, STREAM_NAME_SIZE,
};

fn text_header() -> Header {
    Header {
        protocol: SubProtocol::Text,
        format_sr: 0,
        format_nbs: 0,
        format_nbc: 0,
        // UTF8, which is what the clients send.
        format_bit: 0x10,
        stream_name: "Command1".to_owned(),
        frame: 7,
    }
}

#[test]
fn a_header_reads_back_as_it_was_written() {
    let header = text_header();
    let bytes = header.to_bytes();
    assert_eq!(&bytes[..4], MAGIC);
    assert_eq!(bytes.len(), HEADER_SIZE);
    assert_eq!(Header::parse(&bytes), Some(header));
}

/// The sub-protocol lives in bits the stream name does not touch, and
/// getting the mask wrong would make every text packet look like audio.
#[test]
fn the_protocol_bits_survive_a_round_trip() {
    for protocol in [
        SubProtocol::Audio,
        SubProtocol::Serial,
        SubProtocol::Text,
        SubProtocol::Service,
    ] {
        let mut header = text_header();
        header.protocol = protocol;
        let read = Header::parse(&header.to_bytes()).expect("parses");
        assert_eq!(read.protocol, protocol);
    }
}

#[test]
fn a_text_packet_carries_its_line() {
    let bytes = encode(&text_header(), b"Strip[0].Gain=-6.0;");
    match parse(&bytes) {
        Some(Packet::Text { body, header }) => {
            assert_eq!(body, "Strip[0].Gain=-6.0;");
            assert_eq!(header.stream_name, "Command1");
        }
        other => panic!("expected text, got {other:?}"),
    }
}

/// A client that pads its payload would otherwise hand us a trailing
/// null inside the last parameter's value.
#[test]
fn padding_is_not_part_of_the_text() {
    let mut body = b"Strip[0].Mute=1;".to_vec();
    body.resize(64, 0);
    match parse(&encode(&text_header(), &body)) {
        Some(Packet::Text { body, .. }) => assert_eq!(body, "Strip[0].Mute=1;"),
        other => panic!("expected text, got {other:?}"),
    }
}

#[test]
fn a_subscription_carries_its_timeout() {
    let header = Header {
        protocol: SubProtocol::Service,
        format_sr: 0,
        format_nbs: 0,
        format_nbc: Service::RegisterRt.to_byte(),
        format_bit: 15,
        stream_name: "Register-RTP".to_owned(),
        frame: 0,
    };
    match parse(&encode(&header, &[])) {
        Some(Packet::Service {
            service, timeout, ..
        }) => {
            assert_eq!(service, Service::RegisterRt);
            assert_eq!(timeout, 15);
        }
        other => panic!("expected a service packet, got {other:?}"),
    }
}

/// An open UDP port receives all sorts of things, and none of them
/// should be able to take the mixer down.
#[test]
fn rubbish_is_declined_rather_than_parsed() {
    assert!(parse(&[]).is_none());
    assert!(parse(b"VBA").is_none());
    assert!(parse(&[0u8; HEADER_SIZE]).is_none(), "no magic");
    // Long enough and correctly marked, but empty: still a valid header.
    assert!(parse(&encode(&text_header(), &[])).is_some());
}

#[test]
fn a_pong_says_who_it_is() {
    let header = pong_header(3);
    assert_eq!(header.stream_name, "PING0");
    assert_eq!(header.service(), Some(Service::Ping));
}

/// A client tells a reply from a request by the second format byte,
/// not only the third, so both have to be set.
#[test]
fn a_reply_is_marked_as_one() {
    let header = reply_header(1);
    assert_eq!(header.protocol, SubProtocol::Service);
    assert_eq!(header.format_nbs, 0x80);
    assert_eq!(header.format_nbc, 0x02);
    assert_eq!(header.stream_name, "Request Reply");
    assert_eq!(Header::parse(&header.to_bytes()), Some(header));
}

/// A client checks the whole packet's length before it will believe a
/// pong, so this size is a handshake requirement rather than a detail.
#[test]
fn a_pong_is_the_size_the_protocol_says() {
    let body = pong::payload("pipemeter", "host");
    assert_eq!(body.len(), pong::PAYLOAD_SIZE);
    assert_eq!(encode(&pong_header(0), &body).len(), pong::PACKET_SIZE);
}

/// The first field is how a client decides what it is talking to.
#[test]
fn a_pong_calls_itself_a_mixer() {
    let body = pong::payload("pipemeter", "host");
    let kind = u32::from_le_bytes([body[0], body[1], body[2], body[3]]);
    assert_eq!(kind, pong::TYPE_VIRTUAL_MIXER);
}

/// A name longer than its field must shorten rather than push every
/// field after it out of place.
#[test]
fn a_long_name_is_truncated_not_overflowed() {
    let body = pong::payload(&"x".repeat(500), &"y".repeat(500));
    assert_eq!(body.len(), pong::PAYLOAD_SIZE);
}

#[test]
fn the_protocol_has_its_numbers() {
    assert_eq!(HEADER_SIZE, 28);
    assert_eq!(MAGIC, b"VBAN");
    assert_eq!(STREAM_NAME_SIZE, 16);
    assert_eq!(DEFAULT_PORT, 6980);
    assert_eq!(MAX_PACKET_SIZE, 1436);
    assert_eq!(pong::PACKET_SIZE, 704);
    assert_eq!(pong::FEATURE_TEXT, 0x0001_0000);
}

#[test]
fn every_format_byte_has_a_protocol() {
    for byte in 0..=255u8 {
        let expected = match byte & 0xE0 {
            0x20 => SubProtocol::Serial,
            0x40 => SubProtocol::Text,
            0x60 => SubProtocol::Service,
            _ => SubProtocol::Audio,
        };
        assert_eq!(SubProtocol::from_format(byte), expected);
    }
    assert_eq!(SubProtocol::Audio.bits(), 0x00);
    assert_eq!(SubProtocol::Serial.bits(), 0x20);
    assert_eq!(SubProtocol::Text.bits(), 0x40);
    assert_eq!(SubProtocol::Service.bits(), 0x60);
}

#[test]
fn every_service_number_survives() {
    for byte in 0..=255u8 {
        assert_eq!(Service::from_byte(byte).to_byte(), byte);
    }
    assert_eq!(Service::from_byte(0), Service::Ping);
    assert_eq!(Service::from_byte(32), Service::RegisterRt);
    assert_eq!(Service::from_byte(33), Service::RtPacket);
    assert_eq!(Service::from_byte(7), Service::Other(7));
}

#[test]
fn a_header_is_written_byte_for_byte() {
    let header = Header {
        protocol: SubProtocol::Service,
        // The top three bits belong to the protocol.
        format_sr: 0xE5,
        format_nbs: 1,
        format_nbc: 2,
        format_bit: 3,
        stream_name: "PING0".to_owned(),
        frame: 0x0403_0201,
    };
    let bytes = header.to_bytes();
    assert_eq!(&bytes[..8], b"VBAN\x65\x01\x02\x03");
    assert_eq!(&bytes[8..24], b"PING0\0\0\0\0\0\0\0\0\0\0\0");
    assert_eq!(&bytes[24..], [1, 2, 3, 4]);
    let read = Header::parse(&bytes).expect("parses");
    assert_eq!(read.format_sr, 5);
    assert_eq!(read.frame, 0x0403_0201);
}

#[test]
fn a_header_is_read_whatever_follows_it() {
    let mut bytes = text_header().to_bytes().to_vec();
    bytes.extend_from_slice(&[9, 9, 9]);
    assert_eq!(Header::parse(&bytes), Some(text_header()));
    assert_eq!(Header::parse(&bytes[..27]), None);
    bytes[3] = b'M';
    assert_eq!(Header::parse(&bytes), None);
}

#[test]
fn a_long_stream_name_is_cut() {
    let mut header = text_header();
    header.stream_name = "0123456789abcdefXYZ".to_owned();
    let read = Header::parse(&header.to_bytes()).expect("parses");
    assert_eq!(read.stream_name, "0123456789abcdef");
    // Cut in the middle of a character: what is left of it is mended.
    header.stream_name = "0123456789abcdé".to_owned();
    let read = Header::parse(&header.to_bytes()).expect("parses");
    assert_eq!(read.stream_name, "0123456789abcdé");
    header.stream_name = "0123456789abcdeé".to_owned();
    let read = Header::parse(&header.to_bytes()).expect("parses");
    assert_eq!(read.stream_name, "0123456789abcde\u{FFFD}");
}

#[test]
fn a_stream_name_that_is_not_text_is_mended() {
    let mut bytes = text_header().to_bytes();
    bytes[8] = 0xFF;
    let read = Header::parse(&bytes).expect("parses");
    assert_eq!(read.stream_name, "\u{FFFD}ommand1");
    assert_eq!(
        Header::with_name(&bytes, "taken over".to_owned()).stream_name,
        "taken over"
    );
}

#[test]
fn a_stream_name_ends_at_its_first_null() {
    let mut header = text_header();
    header.stream_name = "ab\0cd".to_owned();
    let read = Header::parse(&header.to_bytes()).expect("parses");
    assert_eq!(read.stream_name, "ab");
}

#[test]
fn header_bytes_are_written_back_as_they_were_read() {
    let bytes = *b"VBAN\x5F\xFE\xFD\xFCCommand1\0\0\0\0\0\0\0\0\xEF\xBE\xAD\xDE";
    let header = Header::parse(&bytes).expect("parses");
    assert_eq!(header.frame, 0xDEAD_BEEF);
    assert_eq!(header.to_bytes(), bytes);
}

#[test]
fn only_a_service_packet_asks_for_a_service() {
    let mut header = text_header();
    assert_eq!(header.service(), None);
    header.protocol = SubProtocol::Service;
    header.format_nbc = 33;
    assert_eq!(header.service(), Some(Service::RtPacket));
}

#[test]
fn text_that_is_not_text_is_mended() {
    match parse(&encode(&text_header(), b"a=\xC3(\0ignored")) {
        Some(Packet::Text { body, .. }) => assert_eq!(body, "a=\u{FFFD}("),
        other => panic!("expected text, got {other:?}"),
    }
    match parse(&encode(&text_header(), "Strip[0].Label=é".as_bytes())) {
        Some(Packet::Text { body, .. }) => assert_eq!(body, "Strip[0].Label=é"),
        other => panic!("expected text, got {other:?}"),
    }
}

#[test]
fn audio_and_serial_are_recognised_and_left_alone() {
    for protocol in [SubProtocol::Audio, SubProtocol::Serial] {
        let mut header = text_header();
        header.protocol = protocol;
        let read = parse(&encode(&header, b"abc"));
        assert_eq!(
            read,
            Some(Packet::Other {
                header: header.clone()
            })
        );
        assert_eq!(
            Packet::new(header.clone(), "abc".to_owned()),
            Packet::Other { header }
        );
    }
}

#[test]
fn what_we_send_reads_back() {
    for (header, service) in [
        (pong_header(u32::MAX), Service::Ping),
        (reply_header(u32::MAX), Service::Other(2)),
        (rt_header(u32::MAX), Service::RtPacket),
    ] {
        let read = parse(&encode(&header, b"anything\0at all"));
        assert_eq!(
            read,
            Some(Packet::Service {
                header,
                service,
                timeout: 0
            })
        );
    }
    assert_eq!(rt_header(0).stream_name, "Voicemeeter-RTP");
}

#[test]
fn a_pong_is_laid_out_field_by_field() {
    let body = pong::payload("pipemeter", "host");
    let word = |at: usize| u32::from_le_bytes([body[at], body[at + 1], body[at + 2], body[at + 3]]);
    assert_eq!(word(4), pong::FEATURE_TEXT);
    assert_eq!(word(8), 0);
    assert_eq!(word(12), 48_000);
    assert_eq!(word(16), 8_000);
    assert_eq!(word(20), 192_000);
    assert_eq!(word(24), 0x0071_c399);
    assert_eq!(&body[28..32], [0, 1, 0, 0]);
    assert_eq!(&body[48..51], b"EN\0");
    assert_eq!(&body[164..175], b"PipeMeeter\0");
    assert_eq!(&body[228..239], b"PipeMeeter\0");
    assert_eq!(&body[292..302], b"pipemeter\0");
    assert_eq!(&body[356..361], b"host\0");
    assert_eq!(body[420], 0);
    assert_eq!(&body[548..588], b"A Voicemeeter-shaped mixer for PipeWire\0");
    assert_eq!(body[675], 0);
}

#[test]
fn a_long_name_stays_in_its_field() {
    let long = pong::payload(&"x".repeat(500), &"y".repeat(500));
    let short = pong::payload("x", "y");
    assert_eq!(&long[292..355], "x".repeat(63).as_bytes());
    assert_eq!(long[355], 0);
    assert_eq!(&long[356..419], "y".repeat(63).as_bytes());
    assert_eq!(long[419], 0);
    assert_eq!(&long[..292], &short[..292]);
    assert_eq!(&long[420..], &short[420..]);
}
