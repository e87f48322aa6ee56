use vban_common::rt::{
    db100, offset, payload, state, State, BUS_LEVEL_SLOTS, CHANNELS, KIND_POTATO, LABEL_SIZE,
    LAYERS, PACKET_SIZE, STRIP_LEVEL_SLOTS,
};
use vban_common::{parse, rt_header, Packet, Service, HEADER_SIZE, MAX_PACKET_SIZE};

/// Decibels in hundredths, rounded rather than truncated.
fn hundredths(decibels: f32) -> i32 {
    (decibels * 100.0).round() as i32
}

#[test]
fn a_packet_is_the_size_clients_index_into() {
    assert_eq!(payload(&State::default()).len(), PACKET_SIZE);
}

#[test]
fn decibels_are_hundredths() {
    assert_eq!(db100(hundredths(0.0)), 0);
    assert_eq!(db100(hundredths(-6.0)), -600);
    assert_eq!(db100(hundredths(12.0)), 1200);
    // Rounded, not truncated: -6.005 is nearer -6.01 than -6.00.
    assert_eq!(db100(hundredths(-6.005)), -601);
}

/// Silence must not wrap round into something loud.
#[test]
fn a_level_below_the_floor_saturates() {
    assert_eq!(db100(hundredths(-100_000.0)), i16::MIN);
    assert_eq!(db100(hundredths(100_000.0)), i16::MAX);
    assert_eq!(db100(hundredths(f32::NEG_INFINITY)), i16::MIN);
}

#[test]
fn state_words_land_where_a_client_reads_them() {
    let mut given = State::default();
    given.strip_state[2] = state::MUTE | state::BUS_A[0];
    given.bus_state[1] = state::SEL;
    let packet = payload(&given);

    let at = offset::STRIP_STATE + 2 * 4;
    let read = u32::from_le_bytes(packet[at..at + 4].try_into().expect("four bytes"));
    assert_eq!(read, state::MUTE | state::BUS_A[0]);

    let at = offset::BUS_STATE + 4;
    let read = u32::from_le_bytes(packet[at..at + 4].try_into().expect("four bytes"));
    assert_eq!(read, state::SEL);
}

#[test]
fn gains_are_written_per_layer() {
    let mut given = State::default();
    given.strip_gain[0][0] = hundredths(-6.0);
    given.strip_gain[7][7] = hundredths(3.0);
    given.bus_gain[3] = hundredths(-12.5);
    let packet = payload(&given);

    let read = |at: usize| i16::from_le_bytes(packet[at..at + 2].try_into().expect("two"));
    assert_eq!(read(offset::STRIP_GAIN_LAYERS), -600);
    assert_eq!(
        read(offset::STRIP_GAIN_LAYERS + 7 * CHANNELS * 2 + 7 * 2),
        300
    );
    assert_eq!(read(offset::BUS_GAIN + 3 * 2), -1250);
}

#[test]
fn labels_are_written_and_terminated() {
    let mut given = State::default();
    given.strip_labels = vec!["Mic IN".to_owned()];
    let packet = payload(&given);
    let at = offset::STRIP_LABELS;
    assert_eq!(&packet[at..at + 6], b"Mic IN");
    assert_eq!(packet[at + 6], 0, "a label needs its terminator");
}

/// A long label must not run into the next one's slot.
#[test]
fn a_long_label_stays_in_its_slot() {
    let mut given = State::default();
    given.strip_labels = vec!["x".repeat(200), "second".to_owned()];
    let packet = payload(&given);
    assert_eq!(packet[offset::STRIP_LABELS + LABEL_SIZE - 1], 0);
    let at = offset::STRIP_LABELS + LABEL_SIZE;
    assert_eq!(&packet[at..at + 6], b"second");
}

/// Cutting UTF-8 mid-character would hand a client bytes that are not
/// text, and some clients decode strictly.
#[test]
fn a_label_is_cut_on_a_character_boundary() {
    let mut given = State::default();
    given.strip_labels = vec!["é".repeat(40)];
    let packet = payload(&given);
    let at = offset::STRIP_LABELS;
    let slot = &packet[at..at + LABEL_SIZE];
    let end = slot.iter().position(|b| *b == 0).unwrap_or(LABEL_SIZE);
    assert!(std::str::from_utf8(&slot[..end]).is_ok());
}

#[test]
fn an_untouched_mixer_is_all_nulls_but_for_its_figures() {
    let mut packet = payload(&State::default());
    assert_eq!(packet[offset::KIND], KIND_POTATO);
    assert_eq!(&packet[offset::BUFFER_SIZE..offset::VERSION], [0x00, 0x02]);
    assert_eq!(&packet[offset::VERSION..offset::OPTIONS], [0, 1, 0, 0]);
    assert_eq!(&packet[offset::OPTIONS..offset::SAMPLE_RATE], [0, 0, 0, 0]);
    assert_eq!(&packet[offset::SAMPLE_RATE..offset::STRIP_LEVELS], [0x80, 0xBB, 0, 0]);
    for byte in packet.iter_mut().take(offset::STRIP_LEVELS).skip(offset::KIND) {
        *byte = 0;
    }
    assert!(packet.iter().all(|byte| *byte == 0));
}

#[test]
fn levels_fill_their_slots_and_no_more() {
    let mut given = State::default();
    given.strip_levels = vec![-100; 50];
    given.bus_levels = vec![-70_000, 70_000, -1];
    given.transport = 0x0102_0304;
    let packet = payload(&given);
    let read = |at: usize| i16::from_le_bytes(packet[at..at + 2].try_into().expect("two"));
    for i in 0..STRIP_LEVEL_SLOTS {
        assert_eq!(read(offset::STRIP_LEVELS + i * 2), -100);
    }
    assert_eq!(read(offset::BUS_LEVELS), i16::MIN);
    assert_eq!(read(offset::BUS_LEVELS + 2), i16::MAX);
    assert_eq!(read(offset::BUS_LEVELS + 4), -1);
    for i in 3..BUS_LEVEL_SLOTS {
        assert_eq!(read(offset::BUS_LEVELS + i * 2), 0);
    }
    assert_eq!(&packet[offset::TRANSPORT..offset::STRIP_STATE], [4, 3, 2, 1]);
}

#[test]
fn every_gain_and_word_has_its_place() {
    let mut given = State::default();
    for layer in 0..LAYERS {
        for i in 0..CHANNELS {
            given.strip_gain[layer][i] = (layer * 100 + i) as i32 - 350;
        }
    }
    for i in 0..CHANNELS {
        given.bus_gain[i] = -(i as i32);
        given.strip_state[i] = 0x0100_0000 + i as u32;
        given.bus_state[i] = 0x2000_0000 + i as u32;
    }
    let packet = payload(&given);
    let short = |at: usize| i16::from_le_bytes(packet[at..at + 2].try_into().expect("two"));
    let word = |at: usize| u32::from_le_bytes(packet[at..at + 4].try_into().expect("four"));
    for layer in 0..LAYERS {
        for i in 0..CHANNELS {
            assert_eq!(
                short(offset::STRIP_GAIN_LAYERS + layer * CHANNELS * 2 + i * 2),
                (layer * 100 + i) as i16 - 350
            );
        }
    }
    for i in 0..CHANNELS {
        assert_eq!(short(offset::BUS_GAIN + i * 2), -(i as i16));
        assert_eq!(word(offset::STRIP_STATE + i * 4), 0x0100_0000 + i as u32);
        assert_eq!(word(offset::BUS_STATE + i * 4), 0x2000_0000 + i as u32);
    }
}

#[test]
fn a_label_keeps_as_many_characters_as_fit() {
    let mut given = State::default();
    given.bus_labels = vec![
        "x".repeat(59),
        "x".repeat(60),
        "é".repeat(40),
        format!("{}é", "x".repeat(58)),
        format!("{}é", "x".repeat(57)),
        "\u{1F3A4}".repeat(20),
        String::new(),
        "last".to_owned(),
        "one too many".to_owned(),
    ];
    let packet = payload(&given);
    let expected = [
        "x".repeat(59),
        "x".repeat(59),
        "é".repeat(29),
        "x".repeat(58),
        format!("{}é", "x".repeat(57)),
        "\u{1F3A4}".repeat(14),
        String::new(),
        "last".to_owned(),
    ];
    for (i, text) in expected.iter().enumerate() {
        let at = offset::BUS_LABELS + i * LABEL_SIZE;
        let slot = &packet[at..at + LABEL_SIZE];
        assert_eq!(&slot[..text.len()], text.as_bytes());
        assert!(slot[text.len()..].iter().all(|byte| *byte == 0));
    }
    assert_eq!(packet.len(), PACKET_SIZE);
    assert!(packet[offset::STRIP_LABELS..offset::BUS_LABELS].iter().all(|byte| *byte == 0));
}

/// A null in a label is a character like any other until a client reads it.
#[test]
fn a_label_with_a_null_is_still_cut_on_a_character_boundary() {
    let text = format!("é\0{}", "é".repeat(40));
    let mut given = State::default();
    given.strip_labels = vec![text.clone()];
    let packet = payload(&given);
    let slot = &packet[offset::STRIP_LABELS..offset::STRIP_LABELS + LABEL_SIZE];
    assert_eq!(&slot[..59], &text.as_bytes()[..59]);
    assert!(std::str::from_utf8(&slot[..59]).is_ok());
    assert_eq!(slot[59], 0);
    let end = slot.iter().position(|byte| *byte == 0).unwrap_or(LABEL_SIZE);
    assert_eq!(std::str::from_utf8(&slot[..end]), Ok("é"));
}

#[test]
fn levels_keep_their_order() {
    let levels = [i32::MIN, -32_769, -32_768, -32_767, -1, 0, 1, 32_766, 32_767, 32_768, i32::MAX];
    for pair in levels.windows(2) {
        assert!(db100(pair[0]) <= db100(pair[1]));
    }
    assert_eq!(db100(-32_767), -32_767);
    assert_eq!(db100(32_766), 32_766);
    assert_eq!(db100(i32::MIN), i16::MIN);
    assert_eq!(db100(i32::MAX), i16::MAX);
}

#[test]
fn a_header_over_the_front_makes_it_a_state_packet() {
    let mut packet = payload(&State::default());
    assert!(packet[..HEADER_SIZE].iter().all(|byte| *byte == 0));
    packet[..HEADER_SIZE].copy_from_slice(&rt_header(9).to_bytes());
    match parse(&packet) {
        Some(Packet::Service { header, service, .. }) => {
            assert_eq!(service, Service::RtPacket);
            assert_eq!(header, rt_header(9));
        }
        other => panic!("expected a service packet, got {other:?}"),
    }
    assert!(packet.len() <= MAX_PACKET_SIZE);
}

#[test]
fn the_state_bits_are_the_protocols() {
    assert_eq!(state::BUS_A[4], 0x0008_0000);
    assert_eq!(state::BUS_B, [0x0001_0000, 0x0002_0000, 0x0004_0000]);
    assert_eq!(state::MODE_MASK >> state::MODE_SHIFT, 0xF);
    let mut seen = state::MODE_MASK;
    for bit in [
        state::MUTE,
        state::SOLO,
        state::MONO,
        state::MC,
        state::EQ_ON,
        state::EQ_AB,
        state::POST_REVERB,
        state::POST_DELAY,
        state::POST_FX1,
        state::POST_FX2,
        state::SEL,
        state::MONITOR,
    ]
    .into_iter()
    .chain(state::BUS_A)
    .chain(state::BUS_B)
    {
        assert_eq!(bit.count_ones(), 1);
        assert_eq!(seen & bit, 0);
        seen |= bit;
    }
}
