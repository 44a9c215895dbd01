use vstd::prelude::*;
use crate::arith::lemma_square_bound;

verus! {

/// Identifier of a region: a small integer, reused as a label.
pub type RegionId = usize;

/// A cell of the grid.
#[derive(Clone, Copy, Debug, PartialEq, Eq, Hash, Structural)]
pub struct Location {
    pub row: u16,
    pub col: u16,
}

/// A colour of the quantised cube, one value per channel.
#[derive(Clone, Copy, Debug, PartialEq, Eq, Hash, Structural)]
pub struct Color {
    pub red: u8,
    pub green: u8,
    pub blue: u8,
}

/// A displacement in colour space.
#[derive(Clone, Copy, Debug, PartialEq, Eq, Hash, Structural)]
pub struct ColorOffset {
    pub red: i16,
    pub green: i16,
    pub blue: i16,
}

/// Squared Euclidean distance between two cells.
pub open spec fn squared_distance(a: Location, b: Location) -> int {
    (a.row - b.row) * (a.row - b.row) + (a.col - b.col) * (a.col - b.col)
}

/// Squared length of a displacement.
pub open spec fn squared_magnitude(o: ColorOffset) -> int {
    o.red * o.red + o.green * o.green + o.blue * o.blue
}

/// A cell lies on a grid of the given side.
pub open spec fn in_grid(loc: Location, side: int) -> bool {
    loc.row < side && loc.col < side
}

/// Position of a cell when the grid is read row by row.
pub open spec fn flat_index(loc: Location, side: int) -> int {
    loc.row * side + loc.col
}

/// Number that stands for a cell in hashed collections; distinct cells get
/// distinct numbers.
pub open spec fn location_key(loc: Location) -> u32 {
    (loc.row * 65536 + loc.col) as u32
}

/// Number that stands for a colour in hashed collections; distinct colours
/// get distinct numbers.
pub open spec fn color_key(c: Color) -> u32 {
    (c.red * 65536 + c.green * 256 + c.blue) as u32
}

/// Squared Euclidean distance between two cells.
pub fn squared_location_distance(loc: &Location, oth_loc: &Location) -> (d: u64)
    ensures
        d == squared_distance(*loc, *oth_loc),
        d <= 2 * 65535 * 65535,
{
    let dx: i64 = loc.row as i64 - oth_loc.row as i64;
    let dy: i64 = loc.col as i64 - oth_loc.col as i64;
    proof {
        lemma_square_bound(dx as int, 65535);
        lemma_square_bound(dy as int, 65535);
    }
    (dx * dx + dy * dy) as u64
}

/// The number that stands for a cell.
pub fn location_key_of(loc: &Location) -> (k: u32)
    ensures
        k == location_key(*loc),
{
    (loc.row as u32) * 65536 + (loc.col as u32)
}

/// The number that stands for a colour.
pub fn color_key_of(c: &Color) -> (k: u32)
    ensures
        k == color_key(*c),
{
    (c.red as u32) * 65536 + (c.green as u32) * 256 + (c.blue as u32)
}

/// Two colours have the same number only if they are the same colour.
pub proof fn lemma_color_key_injective(a: Color, b: Color)
    ensures
        color_key(a) == color_key(b) <==> a == b,
{
}

} // verus!
