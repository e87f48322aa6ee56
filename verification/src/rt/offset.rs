//! Where each field sits, measured from the start of the whole packet,
//! header included, because that is how the clients index it.

use vstd::prelude::*;

verus! {

pub const KIND: usize = 28;

pub const BUFFER_SIZE: usize = 30;

pub const VERSION: usize = 32;

pub const OPTIONS: usize = 36;

pub const SAMPLE_RATE: usize = 40;

pub const STRIP_LEVELS: usize = 44;

pub const BUS_LEVELS: usize = 112;

pub const TRANSPORT: usize = 240;

pub const STRIP_STATE: usize = 244;

pub const BUS_STATE: usize = 276;

pub const STRIP_GAIN_LAYERS: usize = 308;

pub const BUS_GAIN: usize = 436;

pub const STRIP_LABELS: usize = 452;

pub const BUS_LABELS: usize = 932;

pub const END: usize = 1412;

/// The offsets are the protocol's.
pub proof fn law_offsets_are_the_protocols()
    ensures
        KIND == 28,
        BUFFER_SIZE == 30,
        VERSION == 32,
        OPTIONS == 36,
        SAMPLE_RATE == 40,
        STRIP_LEVELS == 44,
        BUS_LEVELS == 112,
        TRANSPORT == 240,
        STRIP_STATE == 244,
        BUS_STATE == 276,
        STRIP_GAIN_LAYERS == 308,
        BUS_GAIN == 436,
        STRIP_LABELS == 452,
        BUS_LABELS == 932,
        END == 1412,
{
}

} // verus!
