//! The RT packet: the mixer's whole state, in one datagram.
//!
//! The TEXT channel is one-way, so this is the only way a client reads
//! anything back. A client subscribes and is sent one of these repeatedly;
//! it diffs them to notice changes. That is why every field is here at a
//! fixed offset rather than being asked for by name.
//!
//! Known gaps, and they are the protocol's rather than ours: neither
//! packet structure carries bus EQ, and there is nowhere in it for the
//! effect knobs. A client that wants those has to send a request and
//! believe it worked. Nothing can be done about that from this end.

use crate::bytes;
use crate::{HEADER_SIZE, MAX_PACKET_SIZE};
use vstd::prelude::*;
use vstd::utf8::*;

pub mod offset;
pub mod state;

verus! {

/// The whole packet, header included.
pub const PACKET_SIZE: usize = offset::END;

/// How many strip levels the packet has room for. More than we have
/// strips: the field is sized for a mixer whose strips can be
/// multichannel, and the tail is left at silence.
pub const STRIP_LEVEL_SLOTS: usize = 34;

/// How many bus levels it has room for.
pub const BUS_LEVEL_SLOTS: usize = 64;

/// Strips and buses, of which there are eight each.
pub const CHANNELS: usize = 8;

/// How many fader layers a strip has.
pub const LAYERS: usize = 8;

/// How long a label may be.
pub const LABEL_SIZE: usize = 60;

/// What a mixer says it is. Potato is the eight-by-eight one, which is
/// the shape we are.
pub const KIND_POTATO: u8 = 3;

/// Everything a client can read, in the mixer's own terms.
///
/// Filled in by whatever is being controlled and handed to [`payload`].
/// Levels, faders and switches here; the packing into shorts and bit fields
/// is this module's business.
#[derive(Debug, Clone)]
pub struct State {
    pub sample_rate: u32,
    pub buffer_size: u16,
    /// Peak level per strip, in hundredths of a dB.
    pub strip_levels: Vec<i32>,
    /// Peak level per bus, in hundredths of a dB.
    pub bus_levels: Vec<i32>,
    /// One state word per strip, built from [`state`].
    pub strip_state: [u32; CHANNELS],
    pub bus_state: [u32; CHANNELS],
    /// Fader positions in hundredths of a dB, per layer then per strip.
    pub strip_gain: [[i32; CHANNELS]; LAYERS],
    pub bus_gain: [i32; CHANNELS],
    pub strip_labels: Vec<String>,
    pub bus_labels: Vec<String>,
    /// Whether the recorder is running, which the protocol keeps as its
    /// own word rather than in a channel's state.
    pub transport: u32,
}

/// What a state says.
#[verifier::ext_equal]
pub struct StateView {
    pub sample_rate: u32,
    pub buffer_size: u16,
    pub strip_levels: Seq<i32>,
    pub bus_levels: Seq<i32>,
    pub strip_state: Seq<u32>,
    pub bus_state: Seq<u32>,
    pub strip_gain: Seq<Seq<i32>>,
    pub bus_gain: Seq<i32>,
    pub strip_labels: Seq<Seq<char>>,
    pub bus_labels: Seq<Seq<char>>,
    pub transport: u32,
}

/// What a list of labels says.
pub open spec fn label_texts(labels: Seq<String>) -> Seq<Seq<char>> {
    Seq::new(labels.len(), |i: int| labels[i]@)
}

impl View for State {
    type V = StateView;

    open spec fn view(&self) -> StateView {
        StateView {
            sample_rate: self.sample_rate,
            buffer_size: self.buffer_size,
            strip_levels: self.strip_levels@,
            bus_levels: self.bus_levels@,
            strip_state: self.strip_state@,
            bus_state: self.bus_state@,
            strip_gain: Seq::new(LAYERS as nat, |layer: int| self.strip_gain@[layer]@),
            bus_gain: self.bus_gain@,
            strip_labels: label_texts(self.strip_labels@),
            bus_labels: label_texts(self.bus_labels@),
            transport: self.transport,
        }
    }
}

impl StateView {
    /// A mixer that nobody has touched.
    pub open spec fn untouched() -> StateView {
        StateView {
            sample_rate: 48_000,
            buffer_size: 512,
            strip_levels: seq![],
            bus_levels: seq![],
            strip_state: Seq::new(CHANNELS as nat, |i: int| 0u32),
            bus_state: Seq::new(CHANNELS as nat, |i: int| 0u32),
            strip_gain: Seq::new(LAYERS as nat, |layer: int| Seq::new(CHANNELS as nat, |i: int| 0i32)),
            bus_gain: Seq::new(CHANNELS as nat, |i: int| 0i32),
            strip_labels: seq![],
            bus_labels: seq![],
            transport: 0,
        }
    }
}

impl Default for State {
    fn default() -> (res: Self)
        ensures
            res@ == StateView::untouched(),
    {
        let res: State = State {
            sample_rate: 48_000,
            buffer_size: 512,
            strip_levels: Vec::new(),
            bus_levels: Vec::new(),
            strip_state: [0; CHANNELS],
            bus_state: [0; CHANNELS],
            strip_gain: [[0; CHANNELS]; LAYERS],
            bus_gain: [0; CHANNELS],
            strip_labels: Vec::new(),
            bus_labels: Vec::new(),
            transport: 0,
        };
        assert(res@ =~~= StateView::untouched());
        res
    }
}

/// The nearest number that a signed short can hold.
pub open spec fn short(x: int) -> int {
    if x < i16::MIN {
        i16::MIN as int
    } else if x > i16::MAX {
        i16::MAX as int
    } else {
        x
    }
}

/// A level in its slot. A slot that no level is given for is at nought.
pub open spec fn level_cell(levels: Seq<i32>, i: int) -> Seq<u8> {
    bytes::le2(
        if i < levels.len() {
            short(levels[i] as int)
        } else {
            0
        },
    )
}

/// Levels in their slots; the ones there is no slot for are left out.
pub open spec fn level_cells(levels: Seq<i32>, slots: nat) -> Seq<Seq<u8>> {
    Seq::new(slots, |i: int| level_cell(levels, i))
}

/// State words in their slots.
pub open spec fn word_cells(words: Seq<u32>) -> Seq<Seq<u8>> {
    Seq::new(words.len(), |i: int| bytes::le4(words[i] as int))
}

/// Fader positions, a row of slots for each layer.
pub open spec fn layer_cells(layers: Seq<Seq<i32>>) -> Seq<Seq<u8>> {
    Seq::new(layers.len(), |i: int| bytes::joined(level_cells(layers[i], CHANNELS as nat)))
}

/// The last character boundary at or before `at`.
pub open spec fn boundary(held: Seq<u8>, at: nat) -> nat
    decreases at,
{
    if at == 0 || is_char_boundary(held, at as int) {
        at
    } else {
        boundary(held, (at - 1) as nat)
    }
}

/// As many whole characters of a label as its slot has room for, the last
/// byte of the slot being always a null.
pub open spec fn label_cut(text: Seq<char>) -> Seq<u8> {
    let held = encode_utf8(text);
    held.take(boundary(held, bytes::least(held.len(), (LABEL_SIZE - 1) as nat)) as int)
}

/// A label in its slot.
pub open spec fn label_slot(text: Seq<char>) -> Seq<u8> {
    bytes::padded(label_cut(text), LABEL_SIZE as nat)
}

/// Labels in their slots. A slot that no label is given for is empty, and
/// the labels there is no slot for are left out.
pub open spec fn label_cells(labels: Seq<Seq<char>>) -> Seq<Seq<u8>> {
    Seq::new(
        CHANNELS as nat,
        |i: int|
            if i < labels.len() {
                label_slot(labels[i])
            } else {
                bytes::nulls(LABEL_SIZE as nat)
            },
    )
}

/// What stands before the levels: room for the header, the kind, the buffer
/// size, the version, the options and the sample rate.
pub open spec fn front_part(state: StateView) -> Seq<u8> {
    bytes::nulls(HEADER_SIZE as nat) + seq![KIND_POTATO, 0u8] + bytes::le2(
        state.buffer_size as int,
    ) + seq![0u8, 1, 0, 0] + bytes::le4(0) + bytes::le4(state.sample_rate as int)
}

/// The levels.
pub open spec fn level_part(state: StateView) -> Seq<u8> {
    bytes::joined(level_cells(state.strip_levels, STRIP_LEVEL_SLOTS as nat)) + bytes::joined(
        level_cells(state.bus_levels, BUS_LEVEL_SLOTS as nat),
    )
}

/// The transport and the state words.
pub open spec fn word_part(state: StateView) -> Seq<u8> {
    bytes::le4(state.transport as int) + bytes::joined(word_cells(state.strip_state))
        + bytes::joined(word_cells(state.bus_state))
}

/// The fader positions.
pub open spec fn gain_part(state: StateView) -> Seq<u8> {
    bytes::joined(layer_cells(state.strip_gain)) + bytes::joined(
        level_cells(state.bus_gain, CHANNELS as nat),
    )
}

/// The labels.
pub open spec fn label_part(state: StateView) -> Seq<u8> {
    bytes::joined(label_cells(state.strip_labels)) + bytes::joined(label_cells(state.bus_labels))
}

/// The packet that carries a state, with nulls where its header goes.
pub open spec fn packet_of(state: StateView) -> Seq<u8> {
    front_part(state) + level_part(state) + word_part(state) + gain_part(state) + label_part(state)
}

/// Decibels as the packet carries them: hundredths, in a signed short.
///
/// Saturating rather than wrapping. A level below what a short can hold
/// is silence and should read as the quietest thing available, not as a
/// loud one, which is what a wrapping cast would give.
#[must_use]
pub fn db100(hundredths: i32) -> (res: i16)
    ensures
        res == short(hundredths as int),
{
    if hundredths <= i16::MIN as i32 {
        i16::MIN
    } else if hundredths >= i16::MAX as i32 {
        i16::MAX
    } else {
        hundredths as i16
    }
}

/// Write a label into its fixed-width slot.
fn label(out: &mut Vec<u8>, text: &str)
    ensures
        final(out)@ == old(out)@ + label_slot(text@),
{
    let held: &[u8] = text.as_bytes();
    // Truncated on a character boundary, so a label with an accent in it
    // cannot be cut into something that is not text.
    let most: usize = if held.len() < LABEL_SIZE - 1 {
        held.len()
    } else {
        LABEL_SIZE - 1
    };
    let mut len: usize = most;
    while len > 0 && !text.is_char_boundary(len)
        invariant
            held@ == encode_utf8(text@),
            len <= most <= held@.len(),
            most <= LABEL_SIZE - 1,
            boundary(held@, most as nat) == boundary(held@, len as nat),
        decreases len,
    {
        len = len - 1;
    }
    bytes::push_front(out, held, len);
    bytes::push_nulls(out, LABEL_SIZE - len);
    assert(out@ =~= old(out)@ + label_slot(text@));
}

/// Append levels in their slots.
fn push_levels(out: &mut Vec<u8>, levels: &[i32], slots: usize)
    ensures
        final(out)@ == old(out)@ + bytes::joined(level_cells(levels@, slots as nat)),
{
    let ghost cells = level_cells(levels@, slots as nat);
    let mut i: usize = 0;
    assert(out@ =~= old(out)@ + bytes::joined(cells.take(0)));
    while i < slots
        invariant
            i <= slots,
            cells == level_cells(levels@, slots as nat),
            out@ == old(out)@ + bytes::joined(cells.take(i as int)),
        decreases slots - i,
    {
        let level: i32 = if i < levels.len() {
            levels[i]
        } else {
            0
        };
        bytes::push_i16(out, db100(level));
        proof {
            bytes::lemma_joined_step(cells, i as int);
            assert(cells[i as int] == bytes::le2(short(level as int)));
            assert(out@ =~= old(out)@ + bytes::joined(cells.take(i + 1)));
        }
        i = i + 1;
    }
    assert(cells.take(slots as int) =~= cells);
}

/// Append state words in their slots.
fn push_words(out: &mut Vec<u8>, words: &[u32])
    ensures
        final(out)@ == old(out)@ + bytes::joined(word_cells(words@)),
{
    let ghost cells = word_cells(words@);
    let mut i: usize = 0;
    assert(out@ =~= old(out)@ + bytes::joined(cells.take(0)));
    while i < words.len()
        invariant
            i <= words@.len(),
            cells == word_cells(words@),
            out@ == old(out)@ + bytes::joined(cells.take(i as int)),
        decreases words@.len() - i,
    {
        bytes::push_u32(out, words[i]);
        proof {
            bytes::lemma_joined_step(cells, i as int);
            assert(out@ =~= old(out)@ + bytes::joined(cells.take(i + 1)));
        }
        i = i + 1;
    }
    assert(cells.take(words@.len() as int) =~= cells);
}

/// Append fader positions, layer by layer.
fn push_layers(out: &mut Vec<u8>, layers: &[[i32; CHANNELS]; LAYERS])
    ensures
        final(out)@ == old(out)@ + bytes::joined(
            layer_cells(Seq::new(LAYERS as nat, |layer: int| layers@[layer]@)),
        ),
{
    let ghost given = Seq::new(LAYERS as nat, |layer: int| layers@[layer]@);
    let ghost cells = layer_cells(given);
    let mut i: usize = 0;
    assert(out@ =~= old(out)@ + bytes::joined(cells.take(0)));
    while i < LAYERS
        invariant
            i <= LAYERS,
            given == Seq::new(LAYERS as nat, |layer: int| layers@[layer]@),
            cells == layer_cells(given),
            out@ == old(out)@ + bytes::joined(cells.take(i as int)),
        decreases LAYERS - i,
    {
        push_levels(out, &layers[i], CHANNELS);
        proof {
            bytes::lemma_joined_step(cells, i as int);
            assert(given[i as int] == layers@[i as int]@);
            assert(out@ =~= old(out)@ + bytes::joined(cells.take(i + 1)));
        }
        i = i + 1;
    }
    assert(cells.take(LAYERS as int) =~= cells);
}

/// Append labels in their slots.
fn push_labels(out: &mut Vec<u8>, labels: &Vec<String>)
    ensures
        final(out)@ == old(out)@ + bytes::joined(label_cells(label_texts(labels@))),
{
    let ghost cells = label_cells(label_texts(labels@));
    let mut i: usize = 0;
    assert(out@ =~= old(out)@ + bytes::joined(cells.take(0)));
    while i < CHANNELS
        invariant
            i <= CHANNELS,
            cells == label_cells(label_texts(labels@)),
            out@ == old(out)@ + bytes::joined(cells.take(i as int)),
        decreases CHANNELS - i,
    {
        if i < labels.len() {
            label(out, labels[i].as_str());
        } else {
            bytes::push_nulls(out, LABEL_SIZE);
        }
        proof {
            bytes::lemma_joined_step(cells, i as int);
            assert(out@ =~= old(out)@ + bytes::joined(cells.take(i + 1)));
        }
        i = i + 1;
    }
    assert(cells.take(CHANNELS as int) =~= cells);
}

/// Build the packet's body: everything after the header.
///
/// The offsets are absolute, so this builds the whole packet and the
/// caller writes its header over the front. That way the offsets read
/// the same here as they do in every client that parses them, which is
/// worth more than avoiding one copy.
#[must_use]
pub fn payload(state: &State) -> (res: Vec<u8>)
    ensures
        res@ == packet_of(state@),
{
    let mut out: Vec<u8> = Vec::new();
    // The header goes on the front, written by the caller.
    bytes::push_nulls(&mut out, HEADER_SIZE);
    out.push(KIND_POTATO);
    out.push(0);
    bytes::push_u16(&mut out, state.buffer_size);
    bytes::push_front(&mut out, &[0, 1, 0, 0], 4);
    bytes::push_u32(&mut out, 0);
    bytes::push_u32(&mut out, state.sample_rate);
    assert(out@ =~= front_part(state@));
    push_levels(&mut out, state.strip_levels.as_slice(), STRIP_LEVEL_SLOTS);
    push_levels(&mut out, state.bus_levels.as_slice(), BUS_LEVEL_SLOTS);
    assert(out@ =~= front_part(state@) + level_part(state@));
    bytes::push_u32(&mut out, state.transport);
    push_words(&mut out, &state.strip_state);
    push_words(&mut out, &state.bus_state);
    assert(out@ =~= front_part(state@) + level_part(state@) + word_part(state@));
    push_layers(&mut out, &state.strip_gain);
    push_levels(&mut out, &state.bus_gain, CHANNELS);
    assert(out@ =~= front_part(state@) + level_part(state@) + word_part(state@) + gain_part(
        state@,
    ));
    push_labels(&mut out, &state.strip_labels);
    push_labels(&mut out, &state.bus_labels);
    assert(out@ =~= packet_of(state@));
    out
}

/// How long the parts of a packet are.
#[verifier::spinoff_prover]
#[verifier::rlimit(40)]
proof fn lemma_part_lens(state: State)
    ensures
        front_part(state@).len() == offset::STRIP_LEVELS,
        bytes::joined(level_cells(state@.strip_levels, STRIP_LEVEL_SLOTS as nat)).len() == 68,
        level_part(state@).len() == offset::TRANSPORT - offset::STRIP_LEVELS,
        bytes::joined(word_cells(state@.strip_state)).len() == 32,
        word_part(state@).len() == offset::STRIP_GAIN_LAYERS - offset::TRANSPORT,
        forall|layer: int|
            0 <= layer < LAYERS ==> (#[trigger] layer_cells(state@.strip_gain)[layer]).len() == 16,
        bytes::joined(layer_cells(state@.strip_gain)).len() == 128,
        gain_part(state@).len() == offset::STRIP_LABELS - offset::STRIP_GAIN_LAYERS,
        forall|i: int|
            0 <= i < CHANNELS ==> (#[trigger] label_cells(state@.strip_labels)[i]).len()
                == LABEL_SIZE,
        forall|i: int|
            0 <= i < CHANNELS ==> (#[trigger] label_cells(state@.bus_labels)[i]).len()
                == LABEL_SIZE,
        bytes::joined(label_cells(state@.strip_labels)).len() == 480,
        label_part(state@).len() == PACKET_SIZE - offset::STRIP_LABELS,
{
    bytes::lemma_joined_len(level_cells(state@.strip_levels, STRIP_LEVEL_SLOTS as nat), 2);
    bytes::lemma_joined_len(level_cells(state@.bus_levels, BUS_LEVEL_SLOTS as nat), 2);
    bytes::lemma_joined_len(word_cells(state@.strip_state), 4);
    bytes::lemma_joined_len(word_cells(state@.bus_state), 4);
    let layers = layer_cells(state@.strip_gain);
    assert forall|layer: int| 0 <= layer < LAYERS implies (#[trigger] layers[layer]).len() == 16 by {
        bytes::lemma_joined_len(level_cells(state@.strip_gain[layer], CHANNELS as nat), 2);
    }
    bytes::lemma_joined_len(layers, 16);
    bytes::lemma_joined_len(level_cells(state@.bus_gain, CHANNELS as nat), 2);
    assert forall|labels: Seq<Seq<char>>, i: int| 0 <= i < CHANNELS implies (
    #[trigger] label_cells(labels)[i]).len() == LABEL_SIZE by {
        if i < labels.len() {
            law_label_stays_in_its_slot(labels[i]);
        }
    }
    bytes::lemma_joined_len(label_cells(state@.strip_labels), LABEL_SIZE as nat);
    bytes::lemma_joined_len(label_cells(state@.bus_labels), LABEL_SIZE as nat);
}

/// The packet is the size clients index into, whatever is in it; its front
/// is left for the header, and it fits in a packet.
pub proof fn law_packet_size(state: State, frame: u32)
    ensures
        packet_of(state@).len() == PACKET_SIZE,
        packet_of(state@).take(HEADER_SIZE as int) == bytes::nulls(HEADER_SIZE as nat),
        (crate::packet::rt(frame).wire() + packet_of(state@).skip(HEADER_SIZE as int)).len()
            == PACKET_SIZE,
        PACKET_SIZE <= MAX_PACKET_SIZE,
{
    lemma_part_lens(state);
    assert(packet_of(state@).take(HEADER_SIZE as int) =~= bytes::nulls(HEADER_SIZE as nat));
}

/// A packet says what it is, at which size, rate and version, and whether
/// the recorder runs, where a client reads them.
pub proof fn law_figures_are_where_a_client_reads_them(state: State)
    ensures
        packet_of(state@)[offset::KIND as int] == KIND_POTATO,
        packet_of(state@).subrange(offset::BUFFER_SIZE as int, offset::BUFFER_SIZE + 2)
            == bytes::le2(state.buffer_size as int),
        packet_of(state@).subrange(offset::VERSION as int, offset::VERSION + 4) == seq![
            0u8,
            1,
            0,
            0,
        ],
        bytes::le4_value(
            packet_of(state@).subrange(offset::OPTIONS as int, offset::OPTIONS + 4),
        ) == 0,
        bytes::le4_value(
            packet_of(state@).subrange(offset::SAMPLE_RATE as int, offset::SAMPLE_RATE + 4),
        ) == state.sample_rate,
        bytes::le4_value(
            packet_of(state@).subrange(offset::TRANSPORT as int, offset::TRANSPORT + 4),
        ) == state.transport,
{
    let packet = packet_of(state@);
    lemma_part_lens(state);
    assert(packet.subrange(offset::BUFFER_SIZE as int, offset::BUFFER_SIZE + 2) =~= bytes::le2(
        state.buffer_size as int,
    ));
    assert(packet.subrange(offset::VERSION as int, offset::VERSION + 4) =~= seq![0u8, 1, 0, 0]);
    assert(packet.subrange(offset::OPTIONS as int, offset::OPTIONS + 4) =~= bytes::le4(0));
    assert(packet.subrange(offset::SAMPLE_RATE as int, offset::SAMPLE_RATE + 4) =~= bytes::le4(
        state.sample_rate as int,
    ));
    assert(packet.subrange(offset::TRANSPORT as int, offset::TRANSPORT + 4) =~= bytes::le4(
        state.transport as int,
    ));
    bytes::lemma_le4_value(0);
    bytes::lemma_le4_value(state.sample_rate as int);
    bytes::lemma_le4_value(state.transport as int);
}

/// The number in a level's slot.
proof fn lemma_level_cell(levels: Seq<i32>, slots: nat, i: int)
    requires
        0 <= i < slots,
    ensures
        bytes::joined(level_cells(levels, slots)).len() == slots * 2,
        0 <= i * 2 <= slots * 2 - 2,
        bytes::joined(level_cells(levels, slots)).subrange(i * 2, i * 2 + 2) == level_cell(
            levels,
            i,
        ),
        bytes::le2_value(level_cell(levels, i)) == if i < levels.len() {
            short(levels[i] as int)
        } else {
            0
        },
{
    bytes::lemma_joined_len(level_cells(levels, slots), 2);
    bytes::lemma_joined(level_cells(levels, slots), 2, i);
    bytes::lemma_le2_value(
        if i < levels.len() {
            short(levels[i] as int)
        } else {
            0
        },
    );
}

/// The level of a strip stands in the strip's slot, and a slot without a
/// strip is at nought.
pub proof fn law_strip_level_is_where_a_client_reads_it(state: State, i: int)
    requires
        0 <= i < STRIP_LEVEL_SLOTS,
    ensures
        bytes::le2_value(
            packet_of(state@).subrange(
                offset::STRIP_LEVELS + i * 2,
                offset::STRIP_LEVELS + i * 2 + 2,
            ),
        ) == if i < state.strip_levels@.len() {
            short(state.strip_levels@[i] as int)
        } else {
            0
        },
{
    lemma_part_lens(state);
    lemma_level_cell(state@.strip_levels, STRIP_LEVEL_SLOTS as nat, i);
    assert(packet_of(state@).subrange(
        offset::STRIP_LEVELS + i * 2,
        offset::STRIP_LEVELS + i * 2 + 2,
    ) =~= level_cell(state@.strip_levels, i)) by {
        let cells = bytes::joined(level_cells(state@.strip_levels, STRIP_LEVEL_SLOTS as nat));
        assert(level_cell(state@.strip_levels, i) == cells.subrange(i * 2, i * 2 + 2));
    }
}

/// The level of a bus stands in the bus's slot, and a slot without a bus is
/// at nought.
pub proof fn law_bus_level_is_where_a_client_reads_it(state: State, i: int)
    requires
        0 <= i < BUS_LEVEL_SLOTS,
    ensures
        bytes::le2_value(
            packet_of(state@).subrange(offset::BUS_LEVELS + i * 2, offset::BUS_LEVELS + i * 2 + 2),
        ) == if i < state.bus_levels@.len() {
            short(state.bus_levels@[i] as int)
        } else {
            0
        },
{
    lemma_part_lens(state);
    lemma_level_cell(state@.bus_levels, BUS_LEVEL_SLOTS as nat, i);
    assert(packet_of(state@).subrange(offset::BUS_LEVELS + i * 2, offset::BUS_LEVELS + i * 2 + 2)
        =~= level_cell(state@.bus_levels, i)) by {
        let cells = bytes::joined(level_cells(state@.bus_levels, BUS_LEVEL_SLOTS as nat));
        assert(level_cell(state@.bus_levels, i) == cells.subrange(i * 2, i * 2 + 2));
    }
}

/// State words land where a client reads them.
#[verifier::spinoff_prover]
#[verifier::rlimit(40)]
pub proof fn law_words_are_where_a_client_reads_them(state: State, i: int)
    requires
        0 <= i < CHANNELS,
    ensures
        bytes::le4_value(
            packet_of(state@).subrange(offset::STRIP_STATE + i * 4, offset::STRIP_STATE + i * 4 + 4),
        ) == state.strip_state@[i],
        bytes::le4_value(
            packet_of(state@).subrange(offset::BUS_STATE + i * 4, offset::BUS_STATE + i * 4 + 4),
        ) == state.bus_state@[i],
{
    let packet = packet_of(state@);
    let strips = word_cells(state@.strip_state);
    let buses = word_cells(state@.bus_state);
    lemma_part_lens(state);
    bytes::lemma_joined(strips, 4, i);
    bytes::lemma_joined(buses, 4, i);
    assert(packet.subrange(offset::STRIP_STATE + i * 4, offset::STRIP_STATE + i * 4 + 4)
        =~= bytes::joined(strips).subrange(i * 4, i * 4 + 4));
    assert(packet.subrange(offset::BUS_STATE + i * 4, offset::BUS_STATE + i * 4 + 4)
        =~= bytes::joined(buses).subrange(i * 4, i * 4 + 4));
    bytes::lemma_le4_value(state.strip_state@[i] as int);
    bytes::lemma_le4_value(state.bus_state@[i] as int);
}

/// Gains are written per layer, and the buses' behind them.
#[verifier::spinoff_prover]
#[verifier::rlimit(40)]
pub proof fn law_gains_are_where_a_client_reads_them(state: State, layer: int, i: int)
    requires
        0 <= layer < LAYERS,
        0 <= i < CHANNELS,
    ensures
        bytes::le2_value(
            packet_of(state@).subrange(
                offset::STRIP_GAIN_LAYERS + layer * 16 + i * 2,
                offset::STRIP_GAIN_LAYERS + layer * 16 + i * 2 + 2,
            ),
        ) == short(state.strip_gain@[layer]@[i] as int),
        bytes::le2_value(
            packet_of(state@).subrange(offset::BUS_GAIN + i * 2, offset::BUS_GAIN + i * 2 + 2),
        ) == short(state.bus_gain@[i] as int),
{
    let packet = packet_of(state@);
    let layers = layer_cells(state@.strip_gain);
    let gains = state@.strip_gain[layer];
    lemma_part_lens(state);
    bytes::lemma_joined(layers, 16, layer);
    lemma_level_cell(gains, CHANNELS as nat, i);
    lemma_level_cell(state@.bus_gain, CHANNELS as nat, i);
    let row = bytes::joined(layers).subrange(layer * 16, layer * 16 + 16);
    assert(row == bytes::joined(level_cells(gains, CHANNELS as nat)));
    assert(packet.subrange(
        offset::STRIP_GAIN_LAYERS + layer * 16 + i * 2,
        offset::STRIP_GAIN_LAYERS + layer * 16 + i * 2 + 2,
    ) =~= row.subrange(i * 2, i * 2 + 2));
    assert(packet.subrange(offset::BUS_GAIN + i * 2, offset::BUS_GAIN + i * 2 + 2)
        =~= bytes::joined(level_cells(state@.bus_gain, CHANNELS as nat)).subrange(
        i * 2,
        i * 2 + 2,
    ));
}

/// A label stands in its own slot, and a channel without one has an empty
/// slot.
#[verifier::spinoff_prover]
#[verifier::rlimit(40)]
pub proof fn law_labels_are_where_a_client_reads_them(state: State, i: int)
    requires
        0 <= i < CHANNELS,
    ensures
        packet_of(state@).subrange(
            offset::STRIP_LABELS + i * LABEL_SIZE,
            offset::STRIP_LABELS + i * LABEL_SIZE + LABEL_SIZE,
        ) == if i < state.strip_labels@.len() {
            label_slot(state.strip_labels@[i]@)
        } else {
            bytes::nulls(LABEL_SIZE as nat)
        },
        packet_of(state@).subrange(
            offset::BUS_LABELS + i * LABEL_SIZE,
            offset::BUS_LABELS + i * LABEL_SIZE + LABEL_SIZE,
        ) == if i < state.bus_labels@.len() {
            label_slot(state.bus_labels@[i]@)
        } else {
            bytes::nulls(LABEL_SIZE as nat)
        },
{
    let packet = packet_of(state@);
    let strips = label_cells(state@.strip_labels);
    let buses = label_cells(state@.bus_labels);
    let at = i * LABEL_SIZE;
    lemma_part_lens(state);
    bytes::lemma_joined(strips, LABEL_SIZE as nat, i);
    bytes::lemma_joined(buses, LABEL_SIZE as nat, i);
    assert(packet.subrange(offset::STRIP_LABELS + at, offset::STRIP_LABELS + at + LABEL_SIZE)
        =~= bytes::joined(strips).subrange(at, at + LABEL_SIZE));
    assert(packet.subrange(offset::BUS_LABELS + at, offset::BUS_LABELS + at + LABEL_SIZE)
        =~= bytes::joined(buses).subrange(at, at + LABEL_SIZE));
}

/// `boundary` is a character boundary, and none lies between it and where
/// the search for it started.
proof fn lemma_boundary(held: Seq<u8>, at: nat)
    requires
        valid_utf8(held),
    ensures
        boundary(held, at) <= at,
        is_char_boundary(held, boundary(held, at) as int),
        forall|j: int| boundary(held, at) < j <= at ==> !is_char_boundary(held, j),
    decreases at,
{
    is_char_boundary_start_end_of_seq(held);
    if !(at == 0 || is_char_boundary(held, at as int)) {
        lemma_boundary(held, (at - 1) as nat);
    }
}

/// However long a label is, it stays in its slot, and the slot ends in a
/// null.
pub proof fn law_label_stays_in_its_slot(text: Seq<char>)
    ensures
        label_slot(text).len() == LABEL_SIZE,
        label_slot(text).last() == 0,
{
    encode_utf8_valid_utf8(text);
    let held = encode_utf8(text);
    lemma_boundary(held, bytes::least(held.len(), (LABEL_SIZE - 1) as nat));
}

/// A label is cut on a character boundary, whatever is in it: what goes into
/// the slot is text, and it is the front of the label. It is as much of the
/// label as there is room for, and all of it when it fits.
pub proof fn law_label_is_cut_between_characters(text: Seq<char>)
    ensures
        ({
            let held = encode_utf8(text);
            let cut = label_cut(text);
            &&& valid_utf8(cut)
            &&& cut.is_prefix_of(held)
            &&& decode_utf8(cut).is_prefix_of(text)
            &&& cut.len() < LABEL_SIZE
            &&& is_char_boundary(held, cut.len() as int)
            &&& forall|j: int|
                cut.len() < j <= held.len() && j < LABEL_SIZE ==> !is_char_boundary(held, j)
            &&& held.len() < LABEL_SIZE ==> cut == held
        }),
{
    let held = encode_utf8(text);
    let most = bytes::least(held.len(), (LABEL_SIZE - 1) as nat);
    let at = boundary(held, most) as int;
    encode_utf8_valid_utf8(text);
    encode_utf8_decode_utf8(text);
    is_char_boundary_start_end_of_seq(held);
    lemma_boundary(held, most);
    assert(label_cut(text) =~= held.subrange(0, at));
    valid_utf8_split(held, at);
    decode_utf8_split(held, at);
    if held.len() < LABEL_SIZE {
        assert(label_cut(text) =~= held);
    }
}

/// What a client reads out of a slot is text, whatever the label: all that
/// went into the slot, up to the first null in it if the label has one.
pub proof fn law_slot_reads_as_text(text: Seq<char>)
    ensures
        bytes::unpadded(label_slot(text)) == bytes::unpadded(label_cut(text)),
        valid_utf8(bytes::unpadded(label_slot(text))),
        !text.contains('\0') ==> bytes::unpadded(label_slot(text)) == label_cut(text),
{
    let held = encode_utf8(text);
    let cut = label_cut(text);
    let len = bytes::text_len(cut) as int;
    law_label_is_cut_between_characters(text);
    bytes::lemma_unpadded_padded(cut, LABEL_SIZE as nat);
    bytes::lemma_text_len(cut);
    if len < cut.len() {
        assert(!is_continuation_byte(0));
        is_char_boundary_iff_not_is_continuation_byte(cut, len);
    } else {
        is_char_boundary_start_end_of_seq(cut);
    }
    valid_utf8_split(cut, len);
    assert(cut.take(len) =~= cut.subrange(0, len));
    crate::text::lemma_encoded_nulls(text);
    if !text.contains('\0') {
        assert forall|i: int| 0 <= i < cut.len() implies cut[i] != 0 by {
            assert(held.contains(held[i]));
        }
    }
}

/// Silence does not wrap round into something loud: packing never changes
/// which of two levels is the louder, nor a level that a short can hold.
pub proof fn law_levels_saturate(a: int, b: int)
    ensures
        i16::MIN <= short(a) <= i16::MAX,
        a <= b ==> short(a) <= short(b),
        i16::MIN <= a <= i16::MAX ==> short(a) == a,
        a < i16::MIN ==> short(a) == i16::MIN,
        a > i16::MAX ==> short(a) == i16::MAX,
{
}

/// The numbers that the protocol gives a state packet.
pub proof fn law_state_packet_numbers()
    ensures
        PACKET_SIZE == 1412,
        STRIP_LEVEL_SLOTS == 34,
        BUS_LEVEL_SLOTS == 64,
        CHANNELS == 8,
        LAYERS == 8,
        LABEL_SIZE == 60,
        KIND_POTATO == 3,
{
}

/// A state's view leaves nothing out.
pub proof fn law_state_view_is_whole(state: State)
    ensures
        state@.sample_rate == state.sample_rate,
        state@.buffer_size == state.buffer_size,
        state@.strip_levels == state.strip_levels@,
        state@.bus_levels == state.bus_levels@,
        state@.strip_state == state.strip_state@,
        state@.bus_state == state.bus_state@,
        state@.strip_gain.len() == 8,
        forall|layer: int|
            0 <= layer < 8 ==> #[trigger] state@.strip_gain[layer] == state.strip_gain@[layer]@,
        state@.bus_gain == state.bus_gain@,
        state@.strip_labels.len() == state.strip_labels@.len(),
        forall|i: int|
            0 <= i < state.strip_labels@.len() ==> #[trigger] state@.strip_labels[i]
                == state.strip_labels@[i]@,
        state@.bus_labels.len() == state.bus_labels@.len(),
        forall|i: int|
            0 <= i < state.bus_labels@.len() ==> #[trigger] state@.bus_labels[i]
                == state.bus_labels@[i]@,
        state@.transport == state.transport,
{
}

/// A mixer that nobody has touched runs at the usual rate and buffer size,
/// and has nothing switched, moved, sounding or labelled.
pub proof fn law_untouched_mixer_is_silent(layer: int, i: int)
    requires
        0 <= layer < 8,
        0 <= i < 8,
    ensures
        ({
            let state = StateView::untouched();
            &&& state.sample_rate == 48_000
            &&& state.buffer_size == 512
            &&& state.strip_levels.len() == 0 && state.bus_levels.len() == 0
            &&& state.strip_state.len() == 8 && state.strip_state[i] == 0
            &&& state.bus_state.len() == 8 && state.bus_state[i] == 0
            &&& state.strip_gain.len() == 8 && state.strip_gain[layer].len() == 8
            &&& state.strip_gain[layer][i] == 0
            &&& state.bus_gain.len() == 8 && state.bus_gain[i] == 0
            &&& state.strip_labels.len() == 0 && state.bus_labels.len() == 0
            &&& state.transport == 0
        }),
{
}

/// What each byte of a state packet is that stands alone: nulls for the
/// header to go over, the kind, and the numbers with their low byte first.
#[verifier::spinoff_prover]
#[verifier::rlimit(40)]
pub proof fn law_figures_are_written_byte_for_byte(state: State)
    ensures
        ({
            let out = packet_of(state@);
            let rate = state.sample_rate;
            let transport = state.transport;
            &&& out.len() == 1412
            &&& forall|i: int| 0 <= i < 28 ==> #[trigger] out[i] == 0
            &&& out[28] == 3 && out[29] == 0
            &&& out[30] == state.buffer_size % 256
            &&& out[31] == state.buffer_size / 256
            &&& out[32] == 0 && out[33] == 1 && out[34] == 0 && out[35] == 0
            &&& out[36] == 0 && out[37] == 0 && out[38] == 0 && out[39] == 0
            &&& out[40] == rate % 256
            &&& out[41] == rate / 256 % 256
            &&& out[42] == rate / 65536 % 256
            &&& out[43] == rate / 16777216
            &&& out[240] == transport % 256
            &&& out[241] == transport / 256 % 256
            &&& out[242] == transport / 65536 % 256
            &&& out[243] == transport / 16777216
        }),
{
    lemma_part_lens(state);
}

/// What the two bytes of each level are: the level as near as a short holds
/// it, in two's complement, low byte first, or nought where there is no
/// level.
#[verifier::spinoff_prover]
#[verifier::rlimit(40)]
pub proof fn law_levels_are_written_byte_for_byte(state: State, i: int)
    ensures
        ({
            let out = packet_of(state@);
            let given: int = if i < state.strip_levels@.len() {
                state.strip_levels@[i] as int
            } else {
                0
            };
            let near: int = if given < -32768 {
                -32768
            } else if given > 32767 {
                32767
            } else {
                given
            };
            0 <= i < 34 ==> out[44 + 2 * i] == near % 256 && out[45 + 2 * i] == near / 256 % 256
        }),
        ({
            let out = packet_of(state@);
            let given: int = if i < state.bus_levels@.len() {
                state.bus_levels@[i] as int
            } else {
                0
            };
            let near: int = if given < -32768 {
                -32768
            } else if given > 32767 {
                32767
            } else {
                given
            };
            0 <= i < 64 ==> out[112 + 2 * i] == near % 256 && out[113 + 2 * i] == near / 256 % 256
        }),
{
    let out = packet_of(state@);
    lemma_part_lens(state);
    if 0 <= i < 34 {
        let row = bytes::joined(level_cells(state@.strip_levels, STRIP_LEVEL_SLOTS as nat));
        lemma_level_cell(state@.strip_levels, STRIP_LEVEL_SLOTS as nat, i);
        let cell = row.subrange(i * 2, i * 2 + 2);
        assert(out[44 + 2 * i] == row[2 * i] && row[2 * i] == cell[0]);
        assert(out[45 + 2 * i] == row[2 * i + 1] && row[2 * i + 1] == cell[1]);
    }
    if 0 <= i < 64 {
        let row = bytes::joined(level_cells(state@.bus_levels, BUS_LEVEL_SLOTS as nat));
        lemma_level_cell(state@.bus_levels, BUS_LEVEL_SLOTS as nat, i);
        let cell = row.subrange(i * 2, i * 2 + 2);
        assert(out[112 + 2 * i] == row[2 * i] && row[2 * i] == cell[0]);
        assert(out[113 + 2 * i] == row[2 * i + 1] && row[2 * i + 1] == cell[1]);
    }
}

/// What the four bytes of each state word are: the word, low byte first.
#[verifier::spinoff_prover]
#[verifier::rlimit(40)]
pub proof fn law_words_are_written_byte_for_byte(state: State, i: int)
    requires
        0 <= i < 8,
    ensures
        ({
            let out = packet_of(state@);
            let strip = state.strip_state@[i];
            let bus = state.bus_state@[i];
            &&& out[244 + 4 * i] == strip % 256
            &&& out[245 + 4 * i] == strip / 256 % 256
            &&& out[246 + 4 * i] == strip / 65536 % 256
            &&& out[247 + 4 * i] == strip / 16777216
            &&& out[276 + 4 * i] == bus % 256
            &&& out[277 + 4 * i] == bus / 256 % 256
            &&& out[278 + 4 * i] == bus / 65536 % 256
            &&& out[279 + 4 * i] == bus / 16777216
        }),
{
    let out = packet_of(state@);
    let strips = word_cells(state@.strip_state);
    let buses = word_cells(state@.bus_state);
    lemma_part_lens(state);
    bytes::lemma_joined(strips, 4, i);
    bytes::lemma_joined(buses, 4, i);
    let first = bytes::joined(strips).subrange(i * 4, i * 4 + 4);
    let second = bytes::joined(buses).subrange(i * 4, i * 4 + 4);
    assert(out.subrange(244 + 4 * i, 248 + 4 * i) =~= first);
    assert(out.subrange(276 + 4 * i, 280 + 4 * i) =~= second);
    assert(first == bytes::le4(state.strip_state@[i] as int));
    assert(second == bytes::le4(state.bus_state@[i] as int));
    let read = out.subrange(244 + 4 * i, 248 + 4 * i);
    assert(read[0] == out[244 + 4 * i] && read[1] == out[245 + 4 * i] && read[2] == out[246 + 4 * i]
        && read[3] == out[247 + 4 * i]);
    let read = out.subrange(276 + 4 * i, 280 + 4 * i);
    assert(read[0] == out[276 + 4 * i] && read[1] == out[277 + 4 * i] && read[2] == out[278 + 4 * i]
        && read[3] == out[279 + 4 * i]);
}

/// Where the position of a strip's fader stands.
#[verifier::spinoff_prover]
#[verifier::rlimit(40)]
proof fn lemma_strip_gain_cell(state: State, layer: int, i: int)
    requires
        0 <= layer < 8,
        0 <= i < 8,
    ensures
        packet_of(state@).len() == 1412,
        packet_of(state@).subrange(308 + 16 * layer + 2 * i, 308 + 16 * layer + 2 * i + 2)
            == bytes::le2(short(state.strip_gain@[layer]@[i] as int)),
{
    let out = packet_of(state@);
    let layers = layer_cells(state@.strip_gain);
    let gains = state@.strip_gain[layer];
    lemma_part_lens(state);
    bytes::lemma_joined(layers, 16, layer);
    lemma_level_cell(gains, CHANNELS as nat, i);
    let row = bytes::joined(layers).subrange(layer * 16, layer * 16 + 16);
    assert(row == bytes::joined(level_cells(gains, CHANNELS as nat)));
    let at = 308 + 16 * layer + 2 * i;
    assert(out.subrange(at, at + 2) =~= row.subrange(i * 2, i * 2 + 2));
}

/// Where the position of a bus's fader stands.
#[verifier::spinoff_prover]
#[verifier::rlimit(40)]
proof fn lemma_bus_gain_cell(state: State, i: int)
    requires
        0 <= i < 8,
    ensures
        packet_of(state@).len() == 1412,
        packet_of(state@).subrange(436 + 2 * i, 436 + 2 * i + 2) == bytes::le2(
            short(state.bus_gain@[i] as int),
        ),
{
    let out = packet_of(state@);
    lemma_part_lens(state);
    lemma_level_cell(state@.bus_gain, CHANNELS as nat, i);
    let buses = bytes::joined(level_cells(state@.bus_gain, CHANNELS as nat));
    let at = 436 + 2 * i;
    assert(out.subrange(at, at + 2) =~= buses.subrange(i * 2, i * 2 + 2));
}

/// What the two bytes of each fader position are: the position as near as a
/// short holds it, in two's complement, low byte first; eight to a layer, and
/// the buses' behind the eight layers.
#[verifier::spinoff_prover]
#[verifier::rlimit(40)]
pub proof fn law_gains_are_written_byte_for_byte(state: State, layer: int, i: int)
    requires
        0 <= layer < 8,
        0 <= i < 8,
    ensures
        ({
            let out = packet_of(state@);
            let given: int = state.strip_gain@[layer]@[i] as int;
            let near: int = if given < -32768 {
                -32768
            } else if given > 32767 {
                32767
            } else {
                given
            };
            &&& out[308 + 16 * layer + 2 * i] == near % 256
            &&& out[309 + 16 * layer + 2 * i] == near / 256 % 256
        }),
        ({
            let out = packet_of(state@);
            let given: int = state.bus_gain@[i] as int;
            let near: int = if given < -32768 {
                -32768
            } else if given > 32767 {
                32767
            } else {
                given
            };
            &&& out[436 + 2 * i] == near % 256
            &&& out[437 + 2 * i] == near / 256 % 256
        }),
{
    let out = packet_of(state@);
    lemma_strip_gain_cell(state, layer, i);
    lemma_bus_gain_cell(state, i);
    let at = 308 + 16 * layer + 2 * i;
    assert(out.subrange(at, at + 2)[0] == out[at] && out.subrange(at, at + 2)[1] == out[at + 1]);
    let at = 436 + 2 * i;
    assert(out.subrange(at, at + 2)[0] == out[at] && out.subrange(at, at + 2)[1] == out[at + 1]);
}

/// What each byte of a label's slot is: the bytes of the label up to the last
/// character boundary that leaves room for a null, and nulls after that. The
/// slot of a channel without a label is null.
#[verifier::spinoff_prover]
#[verifier::rlimit(40)]
pub proof fn law_labels_are_written_byte_for_byte(state: State, i: int) -> (cuts: (int, int))
    requires
        0 <= i < 8,
    ensures
        i < state.strip_labels@.len() ==> {
            let out = packet_of(state@);
            let held = encode_utf8(state.strip_labels@[i]@);
            &&& 0 <= cuts.0 <= 59 && cuts.0 <= held.len() && is_char_boundary(held, cuts.0)
            &&& forall|j: int|
                cuts.0 < j <= 59 && j <= held.len() ==> !is_char_boundary(held, j)
            &&& forall|j: int|
                452 + 60 * i <= j < 512 + 60 * i ==> #[trigger] out[j] == if j - 452 - 60 * i
                    < cuts.0 {
                    held[j - 452 - 60 * i]
                } else {
                    0
                }
        },
        i >= state.strip_labels@.len() ==> forall|j: int|
            452 + 60 * i <= j < 512 + 60 * i ==> #[trigger] packet_of(state@)[j] == 0,
        i < state.bus_labels@.len() ==> {
            let out = packet_of(state@);
            let held = encode_utf8(state.bus_labels@[i]@);
            &&& 0 <= cuts.1 <= 59 && cuts.1 <= held.len() && is_char_boundary(held, cuts.1)
            &&& forall|j: int|
                cuts.1 < j <= 59 && j <= held.len() ==> !is_char_boundary(held, j)
            &&& forall|j: int|
                932 + 60 * i <= j < 992 + 60 * i ==> #[trigger] out[j] == if j - 932 - 60 * i
                    < cuts.1 {
                    held[j - 932 - 60 * i]
                } else {
                    0
                }
        },
        i >= state.bus_labels@.len() ==> forall|j: int|
            932 + 60 * i <= j < 992 + 60 * i ==> #[trigger] packet_of(state@)[j] == 0,
{
    let out = packet_of(state@);
    law_packet_size(state, 0);
    law_labels_are_where_a_client_reads_them(state, i);
    let strip = out.subrange(452 + 60 * i, 512 + 60 * i);
    let bus = out.subrange(932 + 60 * i, 992 + 60 * i);
    assert forall|j: int| 452 + 60 * i <= j < 512 + 60 * i implies #[trigger] out[j] == strip[j
        - 452 - 60 * i] by {}
    assert forall|j: int| 932 + 60 * i <= j < 992 + 60 * i implies #[trigger] out[j] == bus[j - 932
        - 60 * i] by {}
    let first = if i < state.strip_labels@.len() {
        law_label_is_cut_between_characters(state.strip_labels@[i]@);
        label_cut(state.strip_labels@[i]@).len() as int
    } else {
        0
    };
    let second = if i < state.bus_labels@.len() {
        law_label_is_cut_between_characters(state.bus_labels@[i]@);
        label_cut(state.bus_labels@[i]@).len() as int
    } else {
        0
    };
    (first, second)
}

} // verus!
