//! The per-tick records: elevators and floors as the driver reports them.

use vstd::prelude::*;

verus! {

/// IEEE-754 single-precision bit pattern of 0.8.
pub const HEAVY_LOAD_BITS: u32 = 0x3f4c_cccd;

/// IEEE-754 single-precision bit pattern of 0.1.
pub const EMPTY_LOAD_BITS: u32 = 0x3dcc_cccd;

/// IEEE-754 single-precision bit pattern of positive infinity.
pub const POS_INF_BITS: u32 = 0x7f80_0000;

/// IEEE-754 single-precision bit pattern of negative infinity.
pub const NEG_INF_BITS: u32 = 0xff80_0000;

/// The load fraction whose single-precision bits are `bits` compares greater
/// than 0.8: positive, not NaN, and above 0.8 in the bit order that positive
/// floats share with their values.
pub open spec fn is_heavy(bits: u32) -> bool {
    HEAVY_LOAD_BITS < bits && bits <= POS_INF_BITS
}

/// The load fraction whose single-precision bits are `bits` compares less than
/// 0.1: a non-negative value below it, or any negative value (NaN excluded).
pub open spec fn is_empty(bits: u32) -> bool {
    bits < EMPTY_LOAD_BITS || (0x8000_0000u32 <= bits && bits <= NEG_INF_BITS)
}

/// One elevator as reported for a tick. `load_bits` holds the single-precision
/// bit pattern of the load fraction, exactly as it arrives on the wire.
pub struct Elevator {
    pub id: u32,
    pub current_floor_val: i32,
    pub destination_floor_val: Option<i32>,
    pub load_bits: u32,
    pub pressed_buttons: Vec<i32>,
    pub commands: Vec<(u32, i32)>,
}

impl Elevator {
    pub fn new(
        id: u32,
        current_floor: i32,
        destination_floor: Option<i32>,
        load_bits: u32,
        pressed: Vec<i32>,
    ) -> (r: Elevator)
        ensures
            r.id == id,
            r.current_floor_val == current_floor,
            r.destination_floor_val == destination_floor,
            r.load_bits == load_bits,
            r.pressed_buttons@ == pressed@,
            r.commands@.len() == 0,
    {
        Elevator {
            id,
            current_floor_val: current_floor,
            destination_floor_val: destination_floor,
            load_bits,
            pressed_buttons: pressed,
            commands: Vec::new(),
        }
    }

    pub fn current_floor(&self) -> (r: i32)
        ensures
            r == self.current_floor_val,
    {
        self.current_floor_val
    }

    pub fn destination_floor(&self) -> (r: Option<i32>)
        ensures
            r == self.destination_floor_val,
    {
        self.destination_floor_val
    }

    /// The single-precision bit pattern of the load fraction.
    pub fn load_bits(&self) -> (r: u32)
        ensures
            r == self.load_bits,
    {
        self.load_bits
    }

    pub fn pressed_floor_buttons(&self) -> (r: &[i32])
        ensures
            r@ == self.pressed_buttons@,
    {
        self.pressed_buttons.as_slice()
    }

    /// Queues a command sending this elevator to `floor`.
    pub fn go_to_floor(&mut self, floor: i32)
        ensures
            final(self).commands@ == old(self).commands@.push((old(self).id, floor)),
            final(self).id == old(self).id,
            final(self).current_floor_val == old(self).current_floor_val,
            final(self).destination_floor_val == old(self).destination_floor_val,
            final(self).load_bits == old(self).load_bits,
            final(self).pressed_buttons@ == old(self).pressed_buttons@,
    {
        let id = self.id;
        self.commands.push((id, floor));
    }

    /// The commands queued so far, in the order they were queued.
    pub fn queued_commands(&self) -> (r: &[(u32, i32)])
        ensures
            r@ == self.commands@,
    {
        self.commands.as_slice()
    }
}

/// One floor and its hall-call buttons.
#[derive(Clone, Copy, PartialEq, Eq, Structural, Debug)]
pub struct Floor {
    pub level_val: i32,
    pub up: bool,
    pub down: bool,
}

impl Floor {
    pub fn new(level: i32, up: bool, down: bool) -> (r: Floor)
        ensures
            r == (Floor { level_val: level, up, down }),
    {
        Floor { level_val: level, up, down }
    }

    pub fn level(&self) -> (r: i32)
        ensures
            r == self.level_val,
    {
        self.level_val
    }

    pub fn button_up(&self) -> (r: bool)
        ensures
            r == self.up,
    {
        self.up
    }

    pub fn button_down(&self) -> (r: bool)
        ensures
            r == self.down,
    {
        self.down
    }

    /// Whether either hall-call button is lit.
    pub open spec fn has_call(self) -> bool {
        self.up || self.down
    }
}

} // verus!
