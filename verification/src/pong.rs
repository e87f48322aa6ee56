//! The payload a pong carries: who and what answered.
//!
//! A client's login is a ping, and it does not accept a bare header as an
//! answer: it wants the whole description, and it reads our kind out of
//! the first field to decide what it is talking to. An empty pong is not
//! a small pong; it is silence with extra steps, and a real client times
//! out on it.

use crate::bytes;
use crate::packet;
use crate::{HEADER_SIZE, MAX_PACKET_SIZE};
use vstd::prelude::*;
use vstd::utf8::*;

verus! {

/// Sizes are the protocol's, not ours, and the total is what a client
/// checks before it will look at the rest.
pub const PAYLOAD_SIZE: usize = 676;

/// The whole packet, header included.
pub const PACKET_SIZE: usize = HEADER_SIZE + PAYLOAD_SIZE;

/// What kind of thing is answering. A mixer is a virtual mixer, which
/// is the value a client reads to decide it is talking to something
/// Voicemeeter-shaped rather than to a Matrix or a bare receptor.
pub const TYPE_VIRTUAL_MIXER: u32 = 0x0000_0020;

/// What it can do. Text requests, which is exactly what we serve.
pub const FEATURE_TEXT: u32 = 0x0001_0000;

/// How many bytes of text a field of `width` bytes has room for: the last
/// one is always a null.
pub open spec fn room(width: nat) -> nat {
    if width > 0 {
        (width - 1) as nat
    } else {
        0
    }
}

/// A fixed-width, null-padded field. Text too long for it is cut.
pub open spec fn slot(text: Seq<char>, width: nat) -> Seq<u8> {
    bytes::padded(bytes::front(encode_utf8(text), room(width)), width)
}

/// The numbers at the front: kind, features, rates, colour and version.
pub open spec fn figures() -> Seq<u8> {
    bytes::le4(TYPE_VIRTUAL_MIXER as int) + bytes::le4(FEATURE_TEXT as int) + bytes::le4(0)
        + bytes::le4(48_000) + bytes::le4(8_000) + bytes::le4(192_000) + bytes::le4(0x0071_c399)
        + seq![0u8, 1, 0, 0]
}

/// What stands between the numbers and the names: two positions, the
/// language, what is reserved, and the distant address.
pub open spec fn surroundings() -> Seq<u8> {
    bytes::nulls(8 + 8) + slot("EN"@, 8) + bytes::nulls(8 + 64) + bytes::nulls(32) + bytes::le2(0)
        + bytes::le2(0)
}

/// The names: device, manufacturer, application, host, user and comment.
pub open spec fn names(application: Seq<char>, host: Seq<char>) -> Seq<u8> {
    slot("PipeMeeter"@, 64) + slot("PipeMeeter"@, 64) + slot(application, 64) + slot(host, 64)
        + slot(""@, 128) + slot("A Voicemeeter-shaped mixer for PipeWire"@, 128)
}

/// The payload of a pong from `application` on `host`.
pub open spec fn description(application: Seq<char>, host: Seq<char>) -> Seq<u8> {
    figures() + surroundings() + names(application, host)
}

/// Write a fixed-width, null-padded field.
///
/// Truncated rather than refused: these are descriptions, and a long
/// hostname should shorten rather than fail a handshake.
fn field(out: &mut Vec<u8>, text: &str, width: usize)
    ensures
        final(out)@ == old(out)@ + slot(text@, width as nat),
{
    let held: &[u8] = text.as_bytes();
    let most: usize = if width > 0 {
        width - 1
    } else {
        0
    };
    let len: usize = if held.len() < most {
        held.len()
    } else {
        most
    };
    bytes::push_front(out, held, len);
    bytes::push_nulls(out, width - len);
    assert(out@ =~= old(out)@ + slot(text@, width as nat));
}

/// Build the payload.
#[must_use]
pub fn payload(application: &str, host: &str) -> (res: Vec<u8>)
    ensures
        res@ == description(application@, host@),
        res@.len() == PAYLOAD_SIZE,
{
    let mut out: Vec<u8> = Vec::new();
    bytes::push_u32(&mut out, TYPE_VIRTUAL_MIXER);
    bytes::push_u32(&mut out, FEATURE_TEXT);
    bytes::push_u32(&mut out, 0);  // no extended features
    bytes::push_u32(&mut out, 48_000);  // preferred rate
    bytes::push_u32(&mut out, 8_000);  // minimum
    bytes::push_u32(&mut out, 192_000);  // maximum
    bytes::push_u32(&mut out, 0x0071_c399);  // the colour the mixer is drawn in
    // Version, as four bytes rather than a number.
    bytes::push_front(&mut out, &[0, 1, 0, 0], 4);
    assert(out@ =~= figures());
    bytes::push_nulls(&mut out, 8 + 8);  // GPS and user position
    field(&mut out, "EN", 8);
    bytes::push_nulls(&mut out, 8 + 64);  // reserved, then reserved extended
    bytes::push_nulls(&mut out, 32);  // distant IP, filled in by the asker
    bytes::push_u16(&mut out, 0);  // distant port
    bytes::push_u16(&mut out, 0);  // distant reserved
    assert(out@ =~= figures() + surroundings());
    field(&mut out, "PipeMeeter", 64);  // device
    field(&mut out, "PipeMeeter", 64);  // manufacturer
    field(&mut out, application, 64);
    field(&mut out, host, 64);
    field(&mut out, "", 128);  // user name
    field(&mut out, "A Voicemeeter-shaped mixer for PipeWire", 128);
    assert(out@ =~= description(application@, host@));
    out
}

/// A pong is the size the protocol says, whatever names are in it, and fits
/// in a packet.
pub proof fn law_pong_size(frame: u32, application: Seq<char>, host: Seq<char>)
    ensures
        description(application, host).len() == PAYLOAD_SIZE,
        (packet::pong(frame).wire() + description(application, host)).len() == PACKET_SIZE,
        PACKET_SIZE <= MAX_PACKET_SIZE,
{
}

/// A pong calls itself a mixer, and says that it takes text: the first two
/// fields, which a client reads first.
pub proof fn law_pong_is_a_mixer(application: Seq<char>, host: Seq<char>)
    ensures
        bytes::le4_value(description(application, host).subrange(0, 4)) == TYPE_VIRTUAL_MIXER,
        bytes::le4_value(description(application, host).subrange(4, 8)) == FEATURE_TEXT,
{
    let out = description(application, host);
    assert(out.subrange(0, 4) =~= bytes::le4(TYPE_VIRTUAL_MIXER as int));
    assert(out.subrange(4, 8) =~= bytes::le4(FEATURE_TEXT as int));
    bytes::lemma_le4_value(TYPE_VIRTUAL_MIXER as int);
    bytes::lemma_le4_value(FEATURE_TEXT as int);
}

/// However long a name is, it stays in its field: the field ends in a null,
/// and no byte outside the two fields depends on the names.
pub proof fn law_names_stay_in_their_fields(
    application: Seq<char>,
    host: Seq<char>,
    other_application: Seq<char>,
    other_host: Seq<char>,
)
    ensures
        description(application, host).subrange(292, 356) == slot(application, 64),
        description(application, host).subrange(356, 420) == slot(host, 64),
        slot(application, 64).last() == 0,
        slot(host, 64).last() == 0,
        forall|i: int|
            0 <= i < 292 || 420 <= i < PAYLOAD_SIZE ==> description(application, host)[i]
                == description(other_application, other_host)[i],
{
    let out = description(application, host);
    let other = description(other_application, other_host);
    assert(out.subrange(292, 356) =~= slot(application, 64));
    assert(out.subrange(356, 420) =~= slot(host, 64));
}

/// A name that fits its field is what the field holds.
pub proof fn law_short_name_is_kept(text: Seq<char>, width: nat)
    requires
        encode_utf8(text).len() < width,
        !text.contains('\0'),
    ensures
        bytes::unpadded(slot(text, width)) == encode_utf8(text),
{
    let held = encode_utf8(text);
    assert(bytes::front(held, room(width)) =~= held);
    crate::text::lemma_encoded_nulls(text);
    bytes::lemma_unpadded_padded(held, width);
}

/// What each byte of a pong's payload is that does not depend on the names:
/// the seven numbers with their low byte first, the version, and the fields
/// that are always the same.
#[verifier::spinoff_prover]
#[verifier::rlimit(40)]
pub proof fn law_pong_is_laid_out_byte_for_byte(application: Seq<char>, host: Seq<char>)
    ensures
        ({
            let out = description(application, host);
            let figures: Seq<int> = seq![0x20, 0x1_0000, 0, 48_000, 8_000, 192_000, 0x71_c399];
            let device = "PipeMeeter"@;
            let comment = "A Voicemeeter-shaped mixer for PipeWire"@;
            &&& out.len() == 676
            &&& forall|i: int|
                0 <= i < 7 ==> {
                    let x = (#[trigger] figures[i]);
                    &&& out[4 * i] == x % 256
                    &&& out[4 * i + 1] == x / 256 % 256
                    &&& out[4 * i + 2] == x / 65536 % 256
                    &&& out[4 * i + 3] == x / 16777216
                }
            &&& out[28] == 0 && out[29] == 1 && out[30] == 0 && out[31] == 0
            &&& forall|i: int| 32 <= i < 48 ==> #[trigger] out[i] == 0
            &&& out[48] == 0x45 && out[49] == 0x4E
            &&& forall|i: int| 50 <= i < 164 ==> #[trigger] out[i] == 0
            &&& forall|i: int|
                164 <= i < 228 ==> #[trigger] out[i] == if i - 164 < device.len() {
                    device[i - 164] as u8
                } else {
                    0u8
                }
            &&& forall|i: int|
                228 <= i < 292 ==> #[trigger] out[i] == if i - 228 < device.len() {
                    device[i - 228] as u8
                } else {
                    0u8
                }
            &&& forall|i: int| 420 <= i < 548 ==> #[trigger] out[i] == 0
            &&& forall|i: int|
                548 <= i < 676 ==> #[trigger] out[i] == if i - 548 < comment.len() {
                    comment[i - 548] as u8
                } else {
                    0u8
                }
        }),
{
    reveal_strlit("EN");
    reveal_strlit("PipeMeeter");
    reveal_strlit("");
    reveal_strlit("A Voicemeeter-shaped mixer for PipeWire");
    is_ascii_chars_encode_utf8("EN"@);
    is_ascii_chars_encode_utf8("PipeMeeter"@);
    is_ascii_chars_encode_utf8(""@);
    is_ascii_chars_encode_utf8("A Voicemeeter-shaped mixer for PipeWire"@);
    assert("PipeMeeter"@.len() == 10);
    assert("A Voicemeeter-shaped mixer for PipeWire"@.len() == 39);
}

/// What each byte of the two names is: as many bytes of the name as its field
/// has room for before its last byte, and nulls after that.
#[verifier::spinoff_prover]
#[verifier::rlimit(40)]
pub proof fn law_names_are_laid_out_byte_for_byte(application: Seq<char>, host: Seq<char>)
    ensures
        ({
            let out = description(application, host);
            let first = encode_utf8(application);
            let second = encode_utf8(host);
            &&& forall|i: int|
                292 <= i < 356 ==> #[trigger] out[i] == if i - 292 < 63 && i - 292 < first.len() {
                    first[i - 292]
                } else {
                    0
                }
            &&& forall|i: int|
                356 <= i < 420 ==> #[trigger] out[i] == if i - 356 < 63 && i - 356 < second.len() {
                    second[i - 356]
                } else {
                    0
                }
        }),
{
}

/// The numbers that the protocol gives a pong.
pub proof fn law_pong_numbers()
    ensures
        PAYLOAD_SIZE == 676,
        PACKET_SIZE == 704,
        TYPE_VIRTUAL_MIXER == 0x20,
        FEATURE_TEXT == 0x1_0000,
{
}

} // verus!
