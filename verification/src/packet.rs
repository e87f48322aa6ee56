//! Whole packets: a header and what follows it.

use crate::bytes;
use crate::header::{self, Header, HeaderView, Service, SubProtocol};
use crate::text;
use crate::HEADER_SIZE;
use vstd::prelude::*;
use vstd::utf8::*;

verus! {

/// A whole packet, decoded as far as its sub-protocol allows.
#[derive(Debug, Clone, PartialEq)]
pub enum Packet {
    /// A line of parameter assignments.
    Text { header: Header, body: String },
    /// A service request. The payload is kept for the ones that carry one.
    Service {
        header: Header,
        service: Service,
        /// How long an RT subscription should last, in seconds.
        timeout: u8,
    },
    /// Audio or serial, recognised and not ours.
    Other { header: Header },
}

/// What a packet says.
#[verifier::ext_equal]
pub enum PacketView {
    Text { header: HeaderView, body: Seq<char> },
    Service { header: HeaderView, service: Service, timeout: u8 },
    Other { header: HeaderView },
}

impl View for Packet {
    type V = PacketView;

    open spec fn view(&self) -> PacketView {
        match *self {
            Packet::Text { header, body } => PacketView::Text { header: header@, body: body@ },
            Packet::Service { header, service, timeout } => PacketView::Service {
                header: header@,
                service,
                timeout,
            },
            Packet::Other { header } => PacketView::Other { header: header@ },
        }
    }
}

impl PacketView {
    /// The header that every packet has.
    pub open spec fn header(self) -> HeaderView {
        match self {
            PacketView::Text { header, .. } => header,
            PacketView::Service { header, .. } => header,
            PacketView::Other { header } => header,
        }
    }
}

/// The packet that a header starts, where what follows it reads as `text`.
pub open spec fn packet_of(header: HeaderView, text: Seq<char>) -> PacketView {
    match header.protocol {
        SubProtocol::Text => PacketView::Text { header, body: text },
        SubProtocol::Service => PacketView::Service {
            header,
            service: Service::named(header.format_nbc),
            timeout: header.format_bit,
        },
        _ => PacketView::Other { header },
    }
}

/// The text that a datagram carries behind its header, up to the first null.
pub open spec fn text_in(data: Seq<u8>) -> Seq<char> {
    text::read_as(bytes::unpadded(data.skip(HEADER_SIZE as int)))
}

/// What a datagram that starts with a header says.
pub open spec fn packet_in(data: Seq<u8>) -> PacketView {
    packet_of(header::header_in(data), text_in(data))
}

impl Packet {
    /// The packet that a header starts, where what follows it reads as
    /// `text`. Only a TEXT packet keeps it.
    #[must_use]
    pub fn new(header: Header, text: String) -> (res: Self)
        ensures
            res@ == packet_of(header@, text@),
    {
        match header.protocol {
            SubProtocol::Text => Packet::Text { header, body: text },
            SubProtocol::Service => {
                let service: Service = Service::from_byte(header.format_nbc);
                let timeout: u8 = header.format_bit;
                Packet::Service { header, service, timeout }
            },
            _ => Packet::Other { header },
        }
    }
}

/// Decode a datagram.
#[must_use]
pub fn parse(data: &[u8]) -> (res: Option<Packet>)
    ensures
        match res {
            Some(packet) => {
                &&& header::has_header(data@)
                &&& packet@ == packet_in(data@)
                &&& packet matches Packet::Text { body, .. } ==> !body@.contains('\0')
            },
            None => !header::has_header(data@),
        },
{
    let header: Header = match Header::parse(data) {
        Some(header) => header,
        None => {
            return None;
        },
    };
    if header.protocol != SubProtocol::Text {
        return Some(Packet::new(header, String::new()));
    }
    // Trailing nulls are padding, not text. A client that pads to a fixed
    // size would otherwise hand us a parameter name with a null on the end
    // that matches nothing.
    let body: &[u8] = vstd::slice::slice_subrange(data, HEADER_SIZE, data.len());
    proof {
        assert(body@ =~= data@.skip(HEADER_SIZE as int));
        bytes::lemma_text_len(body@);
    }
    let text: String = text::read_text(bytes::trim_padding(body));
    Some(Packet::new(header, text))
}

/// Build a packet to send back.
#[must_use]
pub fn encode(header: &Header, body: &[u8]) -> (res: Vec<u8>)
    ensures
        res@ == header@.wire() + body@,
{
    let mut out: Vec<u8> = Vec::new();
    let front: [u8; HEADER_SIZE] = header.to_bytes();
    bytes::push_front(&mut out, &front, HEADER_SIZE);
    bytes::push_front(&mut out, body, body.len());
    assert(out@ =~= header@.wire() + body@);
    out
}

/// What the header of a pong says.
pub open spec fn pong(frame: u32) -> HeaderView {
    HeaderView {
        protocol: SubProtocol::Service,
        format_sr: 0,
        format_nbs: 0,
        format_nbc: Service::Ping.number(),
        format_bit: 0,
        stream_name: "PING0"@,
        frame,
    }
}

/// What the header of a reply says.
pub open spec fn reply(frame: u32) -> HeaderView {
    HeaderView {
        protocol: SubProtocol::Service,
        format_sr: 0,
        format_nbs: 0x80,
        format_nbc: 0x02,
        format_bit: 0,
        stream_name: "Request Reply"@,
        frame,
    }
}

/// What the header of a state packet says.
pub open spec fn rt(frame: u32) -> HeaderView {
    HeaderView {
        protocol: SubProtocol::Service,
        format_sr: 0,
        format_nbs: 0,
        format_nbc: Service::RtPacket.number(),
        format_bit: 0,
        stream_name: "Voicemeeter-RTP"@,
        frame,
    }
}

/// The header of a pong, which answers a ping.
///
/// A pong is a service packet whose sub-type is the same as a ping's: the
/// two are told apart by which direction it went and by carrying a payload.
#[must_use]
pub fn pong_header(frame: u32) -> (res: Header)
    ensures
        res@ == pong(frame),
{
    Header {
        protocol: SubProtocol::Service,
        format_sr: 0,
        format_nbs: 0,
        format_nbc: Service::Ping.to_byte(),
        format_bit: 0,
        stream_name: "PING0".to_owned(),
        frame,
    }
}

/// The header of a reply to a query.
///
/// A client that ends a request with `?` waits for one of these. It is a
/// service packet like the others, told apart by carrying the reply
/// sub-type in the second format byte as well as the third.
#[must_use]
pub fn reply_header(frame: u32) -> (res: Header)
    ensures
        res@ == reply(frame),
{
    Header {
        protocol: SubProtocol::Service,
        format_sr: 0,
        // `FNCT_REPLY`, which is what marks this an answer rather than a
        // request of the same kind.
        format_nbs: 0x80,
        format_nbc: 0x02,
        format_bit: 0,
        stream_name: "Request Reply".to_owned(),
        frame,
    }
}

/// The header of a state packet.
#[must_use]
pub fn rt_header(frame: u32) -> (res: Header)
    ensures
        res@ == rt(frame),
{
    Header {
        protocol: SubProtocol::Service,
        format_sr: 0,
        format_nbs: 0,
        format_nbc: Service::RtPacket.to_byte(),
        format_bit: 0,
        stream_name: "Voicemeeter-RTP".to_owned(),
        frame,
    }
}

/// Whatever a packet carries, its header is the one at the front of the
/// datagram, and which kind of packet it is is what that header says.
pub proof fn law_packet_keeps_its_header(data: Seq<u8>)
    ensures
        packet_in(data).header() == header::header_in(data),
        packet_in(data) is Text <==> header::header_in(data).protocol == SubProtocol::Text,
        packet_in(data) is Service <==> header::header_in(data).protocol == SubProtocol::Service,
{
}

/// A text packet carries its line: what comes back is the header and the
/// line, and neither the padding after the line nor what follows the padding
/// is part of it.
pub proof fn law_text_reads_back(header: HeaderView, line: Seq<char>, padding: nat, rest: Seq<u8>)
    requires
        header.fits(),
        header.protocol == SubProtocol::Text,
        !line.contains('\0'),
        padding > 0 || rest.len() == 0,
    ensures
        header::has_header(header.wire() + encode_utf8(line) + bytes::nulls(padding) + rest),
        packet_in(header.wire() + encode_utf8(line) + bytes::nulls(padding) + rest)
            == (PacketView::Text { header, body: line }),
{
    let body = encode_utf8(line) + bytes::nulls(padding) + rest;
    let data = header.wire() + encode_utf8(line) + bytes::nulls(padding) + rest;
    assert(data =~= header.wire() + body);
    header::law_header_is_read(header, body);
    header::law_header_reads_back(header, body);
    assert(data.skip(HEADER_SIZE as int) =~= body);
    text::lemma_encoded_nulls(line);
    let len = encode_utf8(line).len();
    assert forall|i: int| 0 <= i < len implies body[i] != 0 by {
        assert(encode_utf8(line).contains(encode_utf8(line)[i]));
    }
    bytes::lemma_text_len_is(body, len);
    assert(body.take(len as int) =~= encode_utf8(line));
    text::lemma_reads_back(line);
}

/// A service packet carries what it asks for and for how long, and nothing
/// that follows its header changes that.
pub proof fn law_service_reads_back(header: HeaderView, body: Seq<u8>)
    requires
        header.fits(),
        header.protocol == SubProtocol::Service,
    ensures
        header::has_header(header.wire() + body),
        packet_in(header.wire() + body) == (PacketView::Service {
            header,
            service: Service::named(header.format_nbc),
            timeout: header.format_bit,
        }),
{
    header::law_header_reads_back(header, body);
}

/// Audio and serial are recognised and left alone.
pub proof fn law_other_reads_back(header: HeaderView, body: Seq<u8>)
    requires
        header.fits(),
        header.protocol == SubProtocol::Audio || header.protocol == SubProtocol::Serial,
    ensures
        header::has_header(header.wire() + body),
        packet_in(header.wire() + body) == (PacketView::Other { header }),
{
    header::law_header_reads_back(header, body);
}

/// The three headers that we send fit the wire, so each reads back as it was
/// written, and each is the service packet that it should be.
pub proof fn law_answers_read_back(frame: u32, body: Seq<u8>)
    ensures
        header::has_header(pong(frame).wire() + body),
        header::has_header(reply(frame).wire() + body),
        header::has_header(rt(frame).wire() + body),
        packet_in(pong(frame).wire() + body) == (PacketView::Service {
            header: pong(frame),
            service: Service::Ping,
            timeout: 0,
        }),
        packet_in(reply(frame).wire() + body) == (PacketView::Service {
            header: reply(frame),
            service: Service::Other(0x02),
            timeout: 0,
        }),
        packet_in(rt(frame).wire() + body) == (PacketView::Service {
            header: rt(frame),
            service: Service::RtPacket,
            timeout: 0,
        }),
{
    reveal_strlit("PING0");
    reveal_strlit("Request Reply");
    reveal_strlit("Voicemeeter-RTP");
    is_ascii_chars_encode_utf8("PING0"@);
    is_ascii_chars_encode_utf8("Request Reply"@);
    is_ascii_chars_encode_utf8("Voicemeeter-RTP"@);
    law_service_reads_back(pong(frame), body);
    law_service_reads_back(reply(frame), body);
    law_service_reads_back(rt(frame), body);
}

/// A packet's view leaves nothing out.
pub proof fn law_packet_view_is_whole(packet: Packet)
    ensures
        packet matches Packet::Text { header, body } ==> packet@ == (PacketView::Text {
            header: header@,
            body: body@,
        }),
        packet matches Packet::Service { header, service, timeout } ==> packet@
            == (PacketView::Service { header: header@, service, timeout }),
        packet matches Packet::Other { header } ==> packet@ == (PacketView::Other {
            header: header@,
        }),
{
}

/// The sub-protocol alone decides what a packet is, and the packet takes its
/// header over unchanged: text for TEXT, the third and fourth format bytes
/// for SERVICE, nothing more for the rest.
pub proof fn law_packet_is_what_its_protocol_says(header: HeaderView, text: Seq<char>)
    ensures
        header.protocol == SubProtocol::Text ==> packet_of(header, text) == (PacketView::Text {
            header,
            body: text,
        }),
        header.protocol == SubProtocol::Service ==> {
            &&& packet_of(header, text) matches PacketView::Service {
                header: kept,
                service,
                timeout,
            }
            &&& kept == header
            &&& service.number() == header.format_nbc
            &&& !(service is Other && (header.format_nbc == 0 || header.format_nbc == 32
                || header.format_nbc == 33))
            &&& timeout == header.format_bit
        },
        header.protocol == SubProtocol::Audio || header.protocol == SubProtocol::Serial
            ==> packet_of(header, text) == (PacketView::Other { header }),
{
}

/// What is read of a datagram, by its fifth byte: the text behind the header
/// up to the first null, or what is asked for and for how long, or nothing.
pub proof fn law_datagram_is_read(data: Seq<u8>, len: int)
    requires
        data.len() >= 28,
        0 <= len <= data.len() - 28,
        forall|i: int| 28 <= i < 28 + len ==> data[i] != 0,
        28 + len < data.len() ==> data[28 + len] == 0,
    ensures
        0x40 <= data[4] < 0x60 ==> {
            &&& packet_in(data) matches PacketView::Text { header, body }
            &&& header == header::header_in(data)
            &&& valid_utf8(data.subrange(28, 28 + len)) ==> encode_utf8(body) == data.subrange(
                28,
                28 + len,
            )
            &&& !valid_utf8(data.subrange(28, 28 + len)) ==> body == text::mended(
                data.subrange(28, 28 + len),
            )
        },
        0x60 <= data[4] < 0x80 ==> {
            &&& packet_in(data) matches PacketView::Service { header, service, timeout }
            &&& header == header::header_in(data)
            &&& service.number() == data[6]
            &&& timeout == data[7]
        },
        data[4] < 0x40 || data[4] >= 0x80 ==> {
            &&& packet_in(data) matches PacketView::Other { header }
            &&& header == header::header_in(data)
        },
{
    let body = data.skip(HEADER_SIZE as int);
    bytes::lemma_text_len_is(body, len as nat);
    assert(body.take(len) =~= data.subrange(28, 28 + len));
    if valid_utf8(data.subrange(28, 28 + len)) {
        decode_utf8_encode_utf8(data.subrange(28, 28 + len));
    }
}

/// What we send says what it is and which frame it is: for every frame, the
/// three headers carry that frame, and their last four bytes stand for it.
pub proof fn law_answers_carry_their_frame(frame: u32)
    ensures
        pong(frame).frame == frame,
        reply(frame).frame == frame,
        rt(frame).frame == frame,
        forall|header: HeaderView|
            header == pong(frame) || header == reply(frame) || header == rt(frame) ==> {
                let out = (#[trigger] header.wire());
                &&& out[4] == 0x60
                &&& out[5] == header.format_nbs
                &&& out[6] == header.format_nbc
                &&& out[7] == 0
                &&& out[24] == frame % 256
                &&& out[25] == frame / 256 % 256
                &&& out[26] == frame / 65536 % 256
                &&& out[27] == frame / 16777216
                &&& out[24] + out[25] * 256 + out[26] * 65536 + out[27] * 16777216 == frame
            },
{
    header::law_header_is_written_byte_for_byte(pong(frame));
    header::law_header_is_written_byte_for_byte(reply(frame));
    header::law_header_is_written_byte_for_byte(rt(frame));
}

/// What we send says who it is: for every frame, each of the three headers is
/// a service packet under its own name and number, and only a reply is marked
/// as one.
pub proof fn law_answers_say_who_they_are(frame: u32)
    ensures
        pong(frame).protocol == SubProtocol::Service,
        pong(frame).stream_name == seq!['P', 'I', 'N', 'G', '0'],
        pong(frame).format_sr == 0 && pong(frame).format_nbs == 0 && pong(frame).format_nbc == 0
            && pong(frame).format_bit == 0,
        reply(frame).protocol == SubProtocol::Service,
        reply(frame).stream_name == seq!['R', 'e', 'q', 'u', 'e', 's', 't', ' '] + seq![
            'R',
            'e',
            'p',
            'l',
            'y',
        ],
        reply(frame).format_sr == 0 && reply(frame).format_nbs == 0x80 && reply(frame).format_nbc
            == 2 && reply(frame).format_bit == 0,
        rt(frame).protocol == SubProtocol::Service,
        rt(frame).stream_name == seq!['V', 'o', 'i', 'c', 'e', 'm', 'e', 'e', 't', 'e', 'r'] + seq![
            '-',
            'R',
            'T',
            'P',
        ],
        rt(frame).format_sr == 0 && rt(frame).format_nbs == 0 && rt(frame).format_nbc == 33
            && rt(frame).format_bit == 0,
{
    reveal_strlit("PING0");
    reveal_strlit("Request Reply");
    reveal_strlit("Voicemeeter-RTP");
    assert("PING0"@ =~= seq!['P', 'I', 'N', 'G', '0']);
    assert("Request Reply"@ =~= seq!['R', 'e', 'q', 'u', 'e', 's', 't', ' '] + seq![
        'R',
        'e',
        'p',
        'l',
        'y',
    ]);
    assert("Voicemeeter-RTP"@ =~= seq!['V', 'o', 'i', 'c', 'e', 'm', 'e', 'e', 't', 'e', 'r']
        + seq!['-', 'R', 'T', 'P']);
}

} // verus!
