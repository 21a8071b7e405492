//! Guidelines of a font's masters and layers.
use vstd::prelude::*;

verus! {

/// A point with an angle. The angle is held as the bit pattern of its
/// 32-bit floating-point value (0 is an angle of zero degrees).
#[derive(Debug, Clone, Copy, PartialEq, Eq)]
pub struct Position {
    pub x: i32,
    pub y: i32,
    pub angle_bits: u32,
}

impl Position {
    /// The origin, with no angle.
    pub fn zero() -> (r: Position)
        ensures
            r == (Position { x: 0, y: 0, angle_bits: 0 }),
    {
        Position { x: 0, y: 0, angle_bits: 0 }
    }
}

/// A color as red, green, blue and alpha channels.
#[derive(Debug, Clone, Copy, PartialEq, Eq)]
pub struct Color {
    pub r: i32,
    pub g: i32,
    pub b: i32,
    pub a: i32,
}

/// A guideline: where it runs, and optionally a name and a color.
#[derive(Debug)]
pub struct Guide {
    pub pos: Position,
    pub name: Option<String>,
    pub color: Option<Color>,
}

impl Guide {
    /// A guide at the origin with no angle, name or color.
    pub fn new() -> (r: Self)
        ensures
            r.pos == Position::zero_spec(),
            r.name is None,
            r.color is None,
    {
        Guide { pos: Position::zero(), name: None, color: None }
    }
}

impl Position {
    pub open spec fn zero_spec() -> Position {
        Position { x: 0, y: 0, angle_bits: 0 }
    }
}

} // verus!
