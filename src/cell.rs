//! The atomic unit of the simulation: an alive flag and a heat value that
//! fades away after the cell dies.

use vstd::prelude::*;

verus! {

/// Heat of a cell that is alive, or has just been made alive.
pub const MAX_HEAT: u8 = 255;

/// Heat lost per generation by a cell that is dead.
pub const COOLING_RATE: u8 = 50;

/// A draw of the random stream is read as the fraction `(u mod 2^23) / 2^23`
/// of the unit interval; the cell it stands for is alive when that fraction
/// lies above three tenths.
pub const DRAW_FRACTION_BITS: u32 = 0x7f_ffff;

/// The largest 23-bit fraction that does not lie above three tenths.
pub const ALIVE_THRESHOLD: u32 = 2516582;

/// One cell of the grid.
#[derive(Clone, Copy, Debug, PartialEq, Eq, Structural)]
pub struct Cell {
    /// Whether the cell takes part in the current generation.
    pub alive: bool,
    /// Trail value; refreshed when the cell comes alive, fades while dead.
    pub heat: u8,
}

/// A fresh cell: fully hot when alive, cold when dead.
pub open spec fn fresh_cell(alive: bool) -> Cell {
    Cell { alive, heat: if alive { MAX_HEAT } else { 0 } }
}

/// The cell `c` once its flag is written: becoming alive refreshes the heat,
/// dying keeps it.
pub open spec fn with_alive(c: Cell, alive: bool) -> Cell {
    Cell { alive, heat: if alive { MAX_HEAT } else { c.heat } }
}

/// `a - b`, floored at zero.
pub open spec fn sat_sub(a: u8, b: u8) -> u8 {
    if a >= b { (a - b) as u8 } else { 0 }
}

/// The cell `c` after one cooling step of `amount`: only a dead cell cools.
pub open spec fn cooled(c: Cell, amount: u8) -> Cell {
    if c.alive { c } else { Cell { alive: false, heat: sat_sub(c.heat, amount) } }
}

/// Whether a draw `u` of the random stream, read as a fraction of the unit
/// interval, lies above three tenths.
pub open spec fn exceeds_alive_threshold(u: u32) -> bool {
    (u as int % 0x80_0000) * 10 > 3 * 0x80_0000
}

/// The four colour bytes shown for a cell: a fixed colour while alive, a
/// fading tint of the heat while dead.
pub open spec fn color_of(c: Cell) -> Seq<u8> {
    if c.alive {
        seq![50u8, 0u8, 0xffu8, 0xffu8]
    } else {
        seq![sat_sub(c.heat, 100), 0u8, sat_sub(c.heat, 30), sat_sub(c.heat, 30)]
    }
}

/// Cooling a dead cell that still has heat takes `min(heat, amount)` off
/// its heat, so the heat never wraps below zero, and the cell stays dead.
pub proof fn lemma_cooling_takes_min(c: Cell, amount: u8)
    requires
        !c.alive,
        c.heat > 0,
    ensures
        cooled(c, amount).heat == c.heat - (if c.heat < amount { c.heat } else { amount }),
        !cooled(c, amount).alive,
{
}

/// Setting a cell alive always leaves it at full heat, whatever its heat
/// was; setting it dead never changes its heat.
pub proof fn lemma_set_heat(c: Cell)
    ensures
        with_alive(c, true).heat == MAX_HEAT,
        with_alive(c, false).heat == c.heat,
{
}

impl Cell {
    /// A cell that is alive with full heat, or dead and cold.
    pub fn new(alive: bool) -> (r: Cell)
        ensures
            r == fresh_cell(alive),
    {
        let heat: u8 = if alive { MAX_HEAT } else { 0 };
        Cell { alive: alive, heat: heat }
    }

    /// Lowers the heat of a dead cell by `subtract_count`, never below zero.
    pub fn cool_if_dead(&mut self, subtract_count: u8)
        ensures
            *final(self) == cooled(*old(self), subtract_count),
    {
        if !self.alive && self.heat > 0 {
            self.heat = self.heat.saturating_sub(subtract_count);
        }
    }

    /// Writes the alive flag; a cell set alive gets full heat back.
    pub fn set(&mut self, alive: bool)
        ensures
            *final(self) == with_alive(*old(self), alive),
    {
        self.alive = alive;
        if self.alive {
            self.heat = MAX_HEAT;
        }
    }

    /// The fresh cell that the random draw `u` stands for.
    pub fn from_draw(u: u32) -> (r: Cell)
        ensures
            r == fresh_cell(exceeds_alive_threshold(u)),
    {
        Cell::new(draw_exceeds_threshold(u))
    }

    /// The colour bytes that stand for this cell in a frame.
    pub fn color(&self) -> (r: [u8; 4])
        ensures
            r@ == color_of(*self),
    {
        let r: [u8; 4] = if !self.alive {
            [self.heat.saturating_sub(100), 0, self.heat.saturating_sub(30), self.heat.saturating_sub(30)]
        } else {
            [50, 0, 0xff, 0xff]
        };
        assert(r@ =~= color_of(*self));
        r
    }
}

/// Whether the random draw `u` makes a cell alive (or kills an alive one).
pub fn draw_exceeds_threshold(u: u32) -> (r: bool)
    ensures
        r == exceeds_alive_threshold(u),
{
    let frac: u32 = u & DRAW_FRACTION_BITS;
    assert(u & 0x7f_ffffu32 == u % 0x80_0000u32) by (bit_vector);
    frac > ALIVE_THRESHOLD
}

} // verus!
