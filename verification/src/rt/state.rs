//! The bits of a channel's state word.
//!
//! One word per strip and per bus, and a client reads every switch out of
//! it. The values are the protocol's; the names are ours.

use vstd::prelude::*;

verus! {

pub const MUTE: u32 = 0x0000_0001;

pub const SOLO: u32 = 0x0000_0002;

pub const MONO: u32 = 0x0000_0004;

pub const MC: u32 = 0x0000_0008;

/// A bus's mode lives in these four bits as a number, not as flags.
pub const MODE_MASK: u32 = 0x0000_00F0;

/// How far to shift [`MODE_MASK`] to read it as a number.
pub const MODE_SHIFT: u32 = 4;

pub const EQ_ON: u32 = 0x0000_0100;

pub const EQ_AB: u32 = 0x0000_0800;

/// The eight routing buttons. A5 is out of line with the rest, which
/// is the protocol's doing and not a slip.
pub const BUS_A: [u32; 5] = [0x0000_1000, 0x0000_2000, 0x0000_4000, 0x0000_8000, 0x0008_0000];

pub const BUS_B: [u32; 3] = [0x0001_0000, 0x0002_0000, 0x0004_0000];

pub const POST_REVERB: u32 = 0x0100_0000;

pub const POST_DELAY: u32 = 0x0200_0000;

pub const POST_FX1: u32 = 0x0400_0000;

pub const POST_FX2: u32 = 0x0800_0000;

pub const SEL: u32 = 0x1000_0000;

pub const MONITOR: u32 = 0x2000_0000;

/// The bits are the protocol's, one for each switch, and the mode has four of
/// its own.
pub proof fn law_bits_are_the_protocols()
    ensures
        MUTE == 0x1,
        SOLO == 0x2,
        MONO == 0x4,
        MC == 0x8,
        MODE_MASK == 0xF0,
        MODE_SHIFT == 4,
        EQ_ON == 0x100,
        EQ_AB == 0x800,
        BUS_A@ == seq![0x1000u32, 0x2000, 0x4000, 0x8000, 0x8_0000],
        BUS_B@ == seq![0x1_0000u32, 0x2_0000, 0x4_0000],
        POST_REVERB == 0x100_0000,
        POST_DELAY == 0x200_0000,
        POST_FX1 == 0x400_0000,
        POST_FX2 == 0x800_0000,
        SEL == 0x1000_0000,
        MONITOR == 0x2000_0000,
{
}

} // verus!
