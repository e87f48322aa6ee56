//! The VBAN wire format, as much of it as a control server needs.
//!
//! VBAN is VB-Audio's audio-over-UDP protocol, and the same packet carries
//! four sub-protocols in its top three format bits. Two of them matter here:
//! TEXT, which carries a line of parameter assignments, and SERVICE, which
//! carries pings and the registration for state packets. Audio and serial
//! are recognised and declined rather than parsed: this crate is how the
//! mixer is *controlled*, not how audio reaches it.
//!
//! Every layout is given once as a value, a sequence of bytes or of
//! characters, and every function is proved to read or write that value.
//! What holds of writing and reading together stands beside them as proof
//! functions whose names start with `law_`.

use vstd::prelude::*;

pub mod bytes;
pub mod header;
pub mod number;
pub mod packet;
pub mod parameter;
pub mod pong;
pub mod rt;
pub mod text;

pub use header::{Header, HeaderView, Service, SubProtocol};
pub use packet::{encode, parse, pong_header, reply_header, rt_header, Packet, PacketView};
pub use parameter::{parse_request, Parameter, ParameterView, Target};

verus! {

/// Every VBAN packet starts with this, and it is a fixed size.
///
/// `VBAN` | four format bytes | sixteen-byte stream name | frame counter.
pub const HEADER_SIZE: usize = 4 + 4 + 16 + 4;

/// The magic the first four bytes must hold: `VBAN`.
pub const MAGIC: &'static [u8; 4] = &[0x56, 0x42, 0x41, 0x4E];

/// A stream name is a fixed sixteen bytes, padded with nulls.
pub const STREAM_NAME_SIZE: usize = 16;

/// VB-Audio's registered port, and what every client tries first.
pub const DEFAULT_PORT: u16 = 6980;

/// The largest packet the protocol allows.
pub const MAX_PACKET_SIZE: usize = 1436;

/// The numbers that the protocol gives every packet.
pub proof fn law_protocol_numbers()
    ensures
        HEADER_SIZE == 28,
        MAGIC@ == seq![0x56u8, 0x42, 0x41, 0x4E],
        STREAM_NAME_SIZE == 16,
        DEFAULT_PORT == 6980,
        MAX_PACKET_SIZE == 1436,
{
}

} // verus!
