//! The header that every packet starts with.

use crate::bytes;
use crate::text;
use crate::{HEADER_SIZE, MAGIC, STREAM_NAME_SIZE};
use vstd::prelude::*;
use vstd::utf8::*;

verus! {

/// Which sub-protocol a packet carries, held in the top three bits of the
/// first format byte.
#[derive(Debug, Clone, Copy, PartialEq, Eq, Structural)]
pub enum SubProtocol {
    Audio,
    Serial,
    Text,
    Service,
}

impl SubProtocol {
    /// The mask that isolates the sub-protocol bits.
    const MASK: u8 = 0xE0;

    /// The sub-protocol that the top three bits of a format byte stand for.
    ///
    /// Nought is audio, and the four undefined values are not ours to guess
    /// at: treating them as audio means they are declined, which is the
    /// right answer for anything we do not know.
    pub open spec fn held_in(format_sr: u8) -> SubProtocol {
        let top = format_sr / 0x20;
        if top == 1 {
            SubProtocol::Serial
        } else if top == 2 {
            SubProtocol::Text
        } else if top == 3 {
            SubProtocol::Service
        } else {
            SubProtocol::Audio
        }
    }

    /// The format byte that says this and nothing else.
    pub open spec fn tag(self) -> u8 {
        match self {
            SubProtocol::Audio => 0x00,
            SubProtocol::Serial => 0x20,
            SubProtocol::Text => 0x40,
            SubProtocol::Service => 0x60,
        }
    }

    /// Read the sub-protocol off the first format byte.
    #[must_use]
    pub fn from_format(format_sr: u8) -> (res: Self)
        ensures
            res == Self::held_in(format_sr),
    {
        assert((format_sr & 0xE0 == 0x20) == (format_sr / 0x20 == 1)) by (bit_vector);
        assert((format_sr & 0xE0 == 0x40) == (format_sr / 0x20 == 2)) by (bit_vector);
        assert((format_sr & 0xE0 == 0x60) == (format_sr / 0x20 == 3)) by (bit_vector);
        match format_sr & Self::MASK {
            0x20 => Self::Serial,
            0x40 => Self::Text,
            0x60 => Self::Service,
            _ => Self::Audio,
        }
    }

    /// The bits of the first format byte that say this.
    #[must_use]
    pub fn bits(self) -> (res: u8)
        ensures
            res == self.tag(),
    {
        match self {
            Self::Audio => 0x00,
            Self::Serial => 0x20,
            Self::Text => 0x40,
            Self::Service => 0x60,
        }
    }
}

/// What a SERVICE packet is asking for, held in its third format byte.
#[derive(Debug, Clone, Copy, PartialEq, Eq, Structural)]
pub enum Service {
    /// A ping, which expects a pong carrying who we are.
    Ping,
    /// Subscribe to state packets. Its fourth format byte is how many
    /// seconds the subscription lasts.
    RegisterRt,
    /// A state packet, which is what we send rather than receive.
    RtPacket,
    /// Something else, kept as its number so a log can name it.
    Other(u8),
}

impl Service {
    /// The service that a number names.
    pub open spec fn named(byte: u8) -> Service {
        if byte == 0 {
            Service::Ping
        } else if byte == 32 {
            Service::RegisterRt
        } else if byte == 33 {
            Service::RtPacket
        } else {
            Service::Other(byte)
        }
    }

    /// The number that names this service.
    pub open spec fn number(self) -> u8 {
        match self {
            Service::Ping => 0,
            Service::RegisterRt => 32,
            Service::RtPacket => 33,
            Service::Other(byte) => byte,
        }
    }

    /// Read the service off the third format byte.
    #[must_use]
    pub fn from_byte(byte: u8) -> (res: Self)
        ensures
            res == Self::named(byte),
    {
        match byte {
            0 => Self::Ping,
            32 => Self::RegisterRt,
            33 => Self::RtPacket,
            other => Self::Other(other),
        }
    }

    /// The third format byte that asks for this.
    #[must_use]
    pub fn to_byte(self) -> (res: u8)
        ensures
            res == self.number(),
    {
        match self {
            Self::Ping => 0,
            Self::RegisterRt => 32,
            Self::RtPacket => 33,
            Self::Other(byte) => byte,
        }
    }
}

/// A packet's header, decoded.
#[derive(Debug, Clone, PartialEq, Eq)]
pub struct Header {
    pub protocol: SubProtocol,
    /// The remaining five bits of the first format byte. For TEXT this is
    /// a baud rate index, which a text command channel does not use.
    pub format_sr: u8,
    pub format_nbs: u8,
    pub format_nbc: u8,
    pub format_bit: u8,
    /// The stream name, trimmed of its null padding. Clients send
    /// `Command1` by default; the name is how one mixer is picked out of
    /// several on a network.
    pub stream_name: String,
    pub frame: u32,
}

/// What a header says: its fields, with the name as characters.
#[verifier::ext_equal]
pub struct HeaderView {
    pub protocol: SubProtocol,
    pub format_sr: u8,
    pub format_nbs: u8,
    pub format_nbc: u8,
    pub format_bit: u8,
    pub stream_name: Seq<char>,
    pub frame: u32,
}

impl View for Header {
    type V = HeaderView;

    open spec fn view(&self) -> HeaderView {
        HeaderView {
            protocol: self.protocol,
            format_sr: self.format_sr,
            format_nbs: self.format_nbs,
            format_nbc: self.format_nbc,
            format_bit: self.format_bit,
            stream_name: self.stream_name@,
            frame: self.frame,
        }
    }
}

/// Whether a datagram starts with a header: it is long enough and marked.
pub open spec fn has_header(data: Seq<u8>) -> bool {
    data.len() >= HEADER_SIZE && data.take(4) == MAGIC@
}

/// The sixteen bytes that a header keeps its stream name in.
pub open spec fn name_field(data: Seq<u8>) -> Seq<u8> {
    data.subrange(8, 8 + STREAM_NAME_SIZE)
}

/// What the header at the front of a datagram says, under a stream name that
/// has been read off it.
pub open spec fn header_under(data: Seq<u8>, stream_name: Seq<char>) -> HeaderView {
    HeaderView {
        protocol: SubProtocol::held_in(data[4]),
        format_sr: data[4] % 0x20,
        format_nbs: data[5],
        format_nbc: data[6],
        format_bit: data[7],
        stream_name,
        frame: bytes::le4_value(data.subrange(24, 28)) as u32,
    }
}

/// What the header at the front of a datagram says.
pub open spec fn header_in(data: Seq<u8>) -> HeaderView {
    header_under(data, text::read_as(bytes::unpadded(name_field(data))))
}

impl HeaderView {
    /// The bytes that say it. A name too long for its field is cut.
    pub open spec fn wire(self) -> Seq<u8> {
        MAGIC@ + seq![
            (self.protocol.tag() + self.format_sr % 0x20) as u8,
            self.format_nbs,
            self.format_nbc,
            self.format_bit,
        ] + bytes::padded(
            bytes::front(encode_utf8(self.stream_name), STREAM_NAME_SIZE as nat),
            STREAM_NAME_SIZE as nat,
        ) + bytes::le4(self.frame as int)
    }

    /// Whether the wire has room for all of it: the five bits are five bits
    /// and the name fits its field, without a null that would end it early.
    pub open spec fn fits(self) -> bool {
        &&& self.format_sr < 0x20
        &&& encode_utf8(self.stream_name).len() <= STREAM_NAME_SIZE
        &&& !self.stream_name.contains('\0')
    }
}

impl Header {
    /// Read a header off the front of a datagram.
    ///
    /// Returns nothing for anything too short or not VBAN at all, which on
    /// an open UDP port is most of what arrives.
    ///
    /// A name that is not UTF-8 is read as far as it can be: it is for logs
    /// and for matching, and a packet with a bad byte in it should not
    /// vanish silently.
    #[must_use]
    pub fn parse(data: &[u8]) -> (res: Option<Self>)
        ensures
            match res {
                Some(header) => {
                    &&& has_header(data@)
                    &&& header@ == header_in(data@)
                    &&& !header.stream_name@.contains('\0')
                },
                None => !has_header(data@),
            },
    {
        if !starts_header(data) {
            return None;
        }
        let field: &[u8] = vstd::slice::slice_subrange(data, 8, 8 + STREAM_NAME_SIZE);
        proof {
            bytes::lemma_text_len(field@);
        }
        let stream_name: String = text::read_text(bytes::trim_padding(field));
        Some(Self::with_name(data, stream_name))
    }

    /// The header at the front of a datagram, under a stream name that has
    /// been read off it.
    #[must_use]
    pub fn with_name(data: &[u8], stream_name: String) -> (res: Self)
        requires
            data@.len() >= HEADER_SIZE,
        ensures
            res@ == header_under(data@, stream_name@),
    {
        let format_sr: u8 = data[4];
        assert(format_sr & !0xE0u8 == format_sr % 0x20) by (bit_vector);
        proof {
            bytes::lemma_le4_of_value(data@.subrange(24, 28));
        }
        Self {
            protocol: SubProtocol::from_format(format_sr),
            // Only the bits that are not the sub-protocol: the protocol is
            // held once, in its own field, so that a header cannot be built
            // claiming one thing in two places and disagreeing.
            format_sr: format_sr & !SubProtocol::MASK,
            format_nbs: data[5],
            format_nbc: data[6],
            format_bit: data[7],
            stream_name,
            frame: bytes::read_u32(data, 24),
        }
    }

    /// Write a header out.
    #[must_use]
    pub fn to_bytes(&self) -> (res: [u8; HEADER_SIZE])
        ensures
            res@ == self@.wire(),
    {
        let mut out: [u8; HEADER_SIZE] = [0u8; HEADER_SIZE];
        out[0] = MAGIC[0];
        out[1] = MAGIC[1];
        out[2] = MAGIC[2];
        out[3] = MAGIC[3];
        // The protocol bits win over whatever the rest of the byte holds,
        // so a header built by hand cannot claim to be two things.
        out[4] = (self.format_sr & !SubProtocol::MASK) | self.protocol.bits();
        proof {
            let sr = self.format_sr;
            let tag = self.protocol.tag();
            assert(tag & 0x1F == 0 ==> (sr & !0xE0u8) | tag == tag + sr % 0x20) by (bit_vector);
            assert(0u8 & 0x1F == 0 && 0x20u8 & 0x1F == 0 && 0x40u8 & 0x1F == 0 && 0x60u8 & 0x1F
                == 0) by (bit_vector);
        }
        out[5] = self.format_nbs;
        out[6] = self.format_nbc;
        out[7] = self.format_bit;
        let name: &[u8] = self.stream_name.as_str().as_bytes();
        let len: usize = if name.len() < STREAM_NAME_SIZE {
            name.len()
        } else {
            STREAM_NAME_SIZE
        };
        let ghost before = out@;
        let mut i: usize = 0;
        while i < len
            invariant
                i <= len <= name@.len(),
                len <= STREAM_NAME_SIZE,
                out@.len() == HEADER_SIZE,
                forall|j: int|
                    0 <= j < HEADER_SIZE ==> out@[j] == if 8 <= j < 8 + i {
                        name@[j - 8]
                    } else {
                        before[j]
                    },
            decreases len - i,
        {
            out[8 + i] = name[i];
            i = i + 1;
        }
        out[24] = (self.frame % 0x100) as u8;
        out[25] = (self.frame / 0x100 % 0x100) as u8;
        out[26] = (self.frame / 0x1_0000 % 0x100) as u8;
        out[27] = (self.frame / 0x100_0000) as u8;
        assert(out@ =~= self@.wire());
        out
    }

    /// What a SERVICE packet is asking for. Meaningless for the others, so
    /// they get nothing rather than a wrong answer.
    #[must_use]
    pub fn service(&self) -> (res: Option<Service>)
        ensures
            res == if self.protocol == SubProtocol::Service {
                Some(Service::named(self.format_nbc))
            } else {
                None
            },
    {
        if self.protocol == SubProtocol::Service {
            Some(Service::from_byte(self.format_nbc))
        } else {
            None
        }
    }
}

/// Whether a datagram starts with a header.
fn starts_header(data: &[u8]) -> (yes: bool)
    ensures
        yes == has_header(data@),
{
    if data.len() < HEADER_SIZE {
        return false;
    }
    let marked: bool = data[0] == MAGIC[0] && data[1] == MAGIC[1] && data[2] == MAGIC[2]
        && data[3] == MAGIC[3];
    proof {
        if marked {
            assert(data@.take(4) =~= MAGIC@);
        } else {
            assert(data@.take(4)[0] == data@[0] && data@.take(4)[1] == data@[1] && data@.take(4)[2]
                == data@[2] && data@.take(4)[3] == data@[3]);
        }
    }
    marked
}

/// Every number names one service, and that service is written as that
/// number.
pub proof fn law_service_number_survives(byte: u8)
    ensures
        Service::named(byte).number() == byte,
{
}

/// A service is read back from its number, unless it is `Other` under a
/// number that has a name.
pub proof fn law_service_survives(service: Service)
    requires
        service matches Service::Other(byte) ==> byte != 0 && byte != 32 && byte != 33,
    ensures
        Service::named(service.number()) == service,
{
}

/// The sub-protocol is read back from the byte it is written in, whatever the
/// other five bits of that byte are, and those five bits are read back too.
pub proof fn law_protocol_bits_survive(protocol: SubProtocol, rest: u8)
    requires
        rest < 0x20,
    ensures
        protocol.tag() + rest <= u8::MAX,
        SubProtocol::held_in((protocol.tag() + rest) as u8) == protocol,
        (protocol.tag() + rest) as u8 % 0x20 == rest,
{
}

/// Whatever a header holds, a datagram that starts with its bytes starts with
/// a header, and that one says the same of everything but what the wire has
/// no room for: three bits of the first format byte, and what the name has
/// past its field or past its first null.
pub proof fn law_header_is_read(header: HeaderView, rest: Seq<u8>)
    ensures
        header.wire().len() == HEADER_SIZE,
        has_header(header.wire() + rest),
        header_in(header.wire() + rest) == (HeaderView {
            format_sr: header.format_sr % 0x20,
            stream_name: text::read_as(
                bytes::unpadded(
                    bytes::front(encode_utf8(header.stream_name), STREAM_NAME_SIZE as nat),
                ),
            ),
            ..header
        }),
{
    let data = header.wire() + rest;
    let name = bytes::front(encode_utf8(header.stream_name), STREAM_NAME_SIZE as nat);
    assert(data.take(4) =~= MAGIC@);
    assert(name_field(data) =~= bytes::padded(name, STREAM_NAME_SIZE as nat));
    bytes::lemma_unpadded_padded(name, STREAM_NAME_SIZE as nat);
    assert(data.subrange(24, 28) =~= bytes::le4(header.frame as int));
    bytes::lemma_le4_value(header.frame as int);
    law_protocol_bits_survive(header.protocol, header.format_sr % 0x20);
}

/// A header that fits reads back as it was written, whatever follows it.
pub proof fn law_header_reads_back(header: HeaderView, rest: Seq<u8>)
    requires
        header.fits(),
    ensures
        has_header(header.wire() + rest),
        header_in(header.wire() + rest) == header,
{
    let name = encode_utf8(header.stream_name);
    law_header_is_read(header, rest);
    assert(bytes::front(name, STREAM_NAME_SIZE as nat) =~= name);
    text::lemma_encoded_nulls(header.stream_name);
    bytes::lemma_unpadded_padded(name, STREAM_NAME_SIZE as nat);
    text::lemma_reads_back(header.stream_name);
}

/// The bytes of a header are written back as they were read, where a header
/// is how they got there: the sub-protocol is one of the four, and the name
/// is text with nothing but nulls after it.
pub proof fn law_bytes_read_back(data: Seq<u8>)
    requires
        has_header(data),
        data[4] < 0x80,
        valid_utf8(bytes::unpadded(name_field(data))),
        name_field(data) == bytes::padded(
            bytes::unpadded(name_field(data)),
            STREAM_NAME_SIZE as nat,
        ),
    ensures
        header_in(data).wire() == data.take(HEADER_SIZE as int),
{
    let held = bytes::unpadded(name_field(data));
    bytes::lemma_text_len(name_field(data));
    decode_utf8_encode_utf8(held);
    assert(bytes::front(held, STREAM_NAME_SIZE as nat) =~= held);
    bytes::lemma_le4_of_value(data.subrange(24, 28));
    let out = header_in(data).wire();
    let frame = data.subrange(24, 28);
    assert forall|i: int| 0 <= i < HEADER_SIZE implies out[i] == data[i] by {
        if i < 4 {
            assert(data.take(4)[i] == data[i]);
        } else if 8 <= i < 24 {
            assert(name_field(data)[i - 8] == data[i]);
        } else if i >= 24 {
            assert(frame[i - 24] == data[i]);
        }
    }
    assert(out =~= data.take(HEADER_SIZE as int));
}

/// A header's view leaves nothing out.
pub proof fn law_header_view_is_whole(header: Header)
    ensures
        header@.protocol == header.protocol,
        header@.format_sr == header.format_sr,
        header@.format_nbs == header.format_nbs,
        header@.format_nbc == header.format_nbc,
        header@.format_bit == header.format_bit,
        header@.stream_name == header.stream_name@,
        header@.frame == header.frame,
{
}

/// Each sub-protocol has its own stretch of the first format byte, and starts
/// it. Audio has what is left as well.
pub proof fn law_protocols_part_the_format_byte(byte: u8)
    ensures
        SubProtocol::held_in(byte) == SubProtocol::Serial <==> 0x20 <= byte < 0x40,
        SubProtocol::held_in(byte) == SubProtocol::Text <==> 0x40 <= byte < 0x60,
        SubProtocol::held_in(byte) == SubProtocol::Service <==> 0x60 <= byte < 0x80,
        SubProtocol::held_in(byte) == SubProtocol::Audio <==> byte < 0x20 || byte >= 0x80,
        SubProtocol::Audio.tag() == 0,
        SubProtocol::Serial.tag() == 0x20,
        SubProtocol::Text.tag() == 0x40,
        SubProtocol::Service.tag() == 0x60,
{
}

/// Three numbers have a name, and every other number is kept as it is.
pub proof fn law_services_have_their_numbers(byte: u8)
    ensures
        Service::named(byte) == Service::Ping <==> byte == 0,
        Service::named(byte) == Service::RegisterRt <==> byte == 32,
        Service::named(byte) == Service::RtPacket <==> byte == 33,
        Service::named(byte) == Service::Other(byte) <==> byte != 0 && byte != 32 && byte != 33,
        Service::Ping.number() == 0,
        Service::RegisterRt.number() == 32,
        Service::RtPacket.number() == 33,
        Service::Other(byte).number() == byte,
{
}

/// What each byte of a written header is, for every header of every
/// sub-protocol: the mark, the sub-protocol over five bits, the three other
/// format bytes in their order, the name cut and padded, and the frame with
/// its low byte first.
pub proof fn law_header_is_written_byte_for_byte(header: HeaderView)
    ensures
        ({
            let out = header.wire();
            let name = encode_utf8(header.stream_name);
            &&& out.len() == 28
            &&& out[0] == 0x56 && out[1] == 0x42 && out[2] == 0x41 && out[3] == 0x4E
            &&& out[4] / 32 == match header.protocol {
                SubProtocol::Audio => 0u8,
                SubProtocol::Serial => 1u8,
                SubProtocol::Text => 2u8,
                SubProtocol::Service => 3u8,
            }
            &&& out[4] % 32 == header.format_sr % 32
            &&& out[5] == header.format_nbs
            &&& out[6] == header.format_nbc
            &&& out[7] == header.format_bit
            &&& forall|i: int|
                8 <= i < 24 ==> #[trigger] out[i] == if i - 8 < name.len() {
                    name[i - 8]
                } else {
                    0
                }
            &&& out[24] == header.frame % 256
            &&& out[25] == header.frame / 256 % 256
            &&& out[26] == header.frame / 65536 % 256
            &&& out[27] == header.frame / 16777216
        }),
{
}

/// A datagram starts with a header when it has 28 bytes and the mark, and
/// only then.
pub proof fn law_header_is_recognised_by_its_mark(data: Seq<u8>)
    ensures
        has_header(data) <==> {
            &&& data.len() >= 28
            &&& data[0] == 0x56 && data[1] == 0x42 && data[2] == 0x41 && data[3] == 0x4E
        },
{
    if data.len() >= 28 {
        let mark = data.take(4);
        assert(mark[0] == data[0] && mark[1] == data[1] && mark[2] == data[2] && mark[3]
            == data[3]);
        if data[0] == 0x56 && data[1] == 0x42 && data[2] == 0x41 && data[3] == 0x4E {
            assert(mark =~= MAGIC@);
        }
    }
}

/// Which byte of a datagram each field of its header is read from, for every
/// datagram: the format bytes in their order, and the frame with its low byte
/// first.
pub proof fn law_header_is_read_byte_for_byte(data: Seq<u8>, stream_name: Seq<char>)
    requires
        data.len() >= 28,
    ensures
        ({
            let header = header_under(data, stream_name);
            &&& header.protocol == SubProtocol::Serial <==> data[4] / 32 == 1
            &&& header.protocol == SubProtocol::Text <==> data[4] / 32 == 2
            &&& header.protocol == SubProtocol::Service <==> data[4] / 32 == 3
            &&& header.format_sr == data[4] % 32
            &&& header.format_nbs == data[5]
            &&& header.format_nbc == data[6]
            &&& header.format_bit == data[7]
            &&& header.stream_name == stream_name
            &&& header.frame == data[24] + data[25] * 256 + data[26] * 65536 + data[27] * 16777216
        }),
        header_in(data) == header_under(data, header_in(data).stream_name),
{
    let frame = data.subrange(24, 28);
    assert(frame[0] == data[24] && frame[1] == data[25] && frame[2] == data[26] && frame[3]
        == data[27]);
}

/// The stream name that is read is the text of the bytes from the eighth on,
/// up to the first null or the end of the field.
pub proof fn law_stream_name_is_read(data: Seq<u8>, len: int)
    requires
        data.len() >= 28,
        0 <= len <= 16,
        forall|i: int| 8 <= i < 8 + len ==> data[i] != 0,
        len < 16 ==> data[8 + len] == 0,
    ensures
        valid_utf8(data.subrange(8, 8 + len)) ==> encode_utf8(header_in(data).stream_name)
            == data.subrange(8, 8 + len),
        !valid_utf8(data.subrange(8, 8 + len)) ==> header_in(data).stream_name == text::mended(
            data.subrange(8, 8 + len),
        ),
{
    let field = name_field(data);
    bytes::lemma_text_len_is(field, len as nat);
    assert(field.take(len) =~= data.subrange(8, 8 + len));
    if valid_utf8(data.subrange(8, 8 + len)) {
        decode_utf8_encode_utf8(data.subrange(8, 8 + len));
    }
}

} // verus!
