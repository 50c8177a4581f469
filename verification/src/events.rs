use vstd::prelude::*;

use crate::bits::Bits;

verus! {

/// A timed update of one pin: at `time` the target pin takes `value`.
/// The engine pops these in ascending order of `time`.
#[derive(Debug)]
pub struct PinUpdateEvent {
    pub time: u64,
    pub target_pin_id: usize,
    pub value: Bits,
}

/// A wakeup of one gate after one of its pins changed; drained
/// first-in first-out.
#[derive(Debug)]
pub struct GateUpdateEvent {
    pub sender_pin_id: usize,
    pub target_gate_id: usize,
}

/// A broadcast of a new value over one lump, carrying the pin that
/// drove it; drained first-in first-out.
#[derive(Debug)]
pub struct LumpUpdateEvent {
    pub sender_pin_id: usize,
    pub target_lump_id: usize,
    pub bits: Bits,
}

} // verus!
