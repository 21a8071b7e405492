//! Components within a composite glyph.
use vstd::prelude::*;

verus! {

/// If this is set, the arguments are 16-bit (uint16 or int16); otherwise, they are bytes (uint8 or int8).
pub const ARG_1_AND_2_ARE_WORDS: u16 = 0x0001u16;

/// If this is set, the arguments are signed xy values; otherwise, they are unsigned point numbers.
pub const ARGS_ARE_XY_VALUES: u16 = 0x0002u16;

/// For the xy values if the preceding is true.
pub const ROUND_XY_TO_GRID: u16 = 0x0004u16;

/// The transform matrix is a simple linear scale.
pub const WE_HAVE_A_SCALE: u16 = 0x0008u16;

/// Indicates at least one more component after this one.
pub const MORE_COMPONENTS: u16 = 0x0020u16;

/// The transform matrix is a scaling transform with independent X and Y scales.
pub const WE_HAVE_AN_X_AND_Y_SCALE: u16 = 0x0040u16;

/// The transform matrix is a full two-by-two matrix with scaleXY and scaleYX values.
pub const WE_HAVE_A_TWO_BY_TWO: u16 = 0x0080u16;

/// TrueType instructions follow this component.
pub const WE_HAVE_INSTRUCTIONS: u16 = 0x0100u16;

/// The metrics of the composite glyph should be the same as the metrics of this component.
pub const USE_MY_METRICS: u16 = 0x0200u16;

/// The contours of the components overlap.
pub const OVERLAP_COMPOUND: u16 = 0x0400u16;

/// The component's offset should be scaled.
pub const SCALED_COMPONENT_OFFSET: u16 = 0x0800u16;

/// The component's offset should not be scaled.
pub const UNSCALED_COMPONENT_OFFSET: u16 = 0x1000u16;

/// The flags that a user may set; the others are computed on writing.
pub const USER_FLAGS: u16 = 0x1e04u16;

/// The F2DOT14 pattern of 1.0.
pub const F2DOT14_ONE: i16 = 0x4000i16;

/// An affine transformation as stored in a component: the four matrix entries as
/// F2DOT14 patterns (16384 is 1.0) and the offset in font units. Applied to a point
/// (x, y) it gives (x_scale·x + scale10·y + translate_x, scale01·x + y_scale·y + translate_y).
#[derive(Debug, PartialEq, Clone, Copy)]
pub struct Transform {
    pub x_scale: i16,
    pub scale01: i16,
    pub scale10: i16,
    pub y_scale: i16,
    pub translate_x: i16,
    pub translate_y: i16,
}

/// A high-level representation of a component within a glyph
#[derive(Debug, PartialEq, Clone, Copy)]
pub struct Component {
    /// The glyph ID that this component references.
    pub glyph_index: u16,
    /// An affine transformation applied to the component's contours.
    pub transformation: Transform,
    /// Alternate, and rarely used, method of positioning components using contour point numbers.
    pub match_points: Option<(u16, u16)>,
    /// Flags.
    /// Most of these are calculated automatically on serialization. Those which can be
    /// meaningfully manually set are `ROUND_XY_TO_GRID`, `USE_MY_METRICS`,
    /// `SCALED_COMPONENT_OFFSET`, `UNSCALED_COMPONENT_OFFSET` and `OVERLAP_COMPOUND`.
    pub flags: u16,
}

impl Transform {
    /// The identity transformation.
    pub fn identity() -> (r: Transform)
        ensures
            r == (Transform {
                x_scale: F2DOT14_ONE,
                scale01: 0,
                scale10: 0,
                y_scale: F2DOT14_ONE,
                translate_x: 0,
                translate_y: 0,
            }),
    {
        Transform {
            x_scale: F2DOT14_ONE,
            scale01: 0,
            scale10: 0,
            y_scale: F2DOT14_ONE,
            translate_x: 0,
            translate_y: 0,
        }
    }
}

/// The flags written for component `c`: its user flags, then "more components" if
/// `more`, else "instructions" if `instructions`; word arguments if the point numbers
/// exceed 255 or the offsets leave -128..=127; and the smallest scale form that holds
/// the matrix.
pub open spec fn component_flags(c: Component, more: bool, instructions: bool) -> u16 {
    let f0 = c.flags & USER_FLAGS;
    let f1 = if more {
        f0 | MORE_COMPONENTS
    } else if instructions {
        f0 | WE_HAVE_INSTRUCTIONS
    } else {
        f0
    };
    let t = c.transformation;
    let f2 = match c.match_points {
        Some((x, y)) => if !(x <= 255 && y <= 255) {
            f1 | ARG_1_AND_2_ARE_WORDS
        } else {
            f1
        },
        None => {
            let g = f1 | ARGS_ARE_XY_VALUES;
            if !(-128 <= t.translate_x <= 127 && -128 <= t.translate_y <= 127) {
                g | ARG_1_AND_2_ARE_WORDS
            } else {
                g
            }
        },
    };
    if t.scale01 != 0 || t.scale10 != 0 {
        f2 | WE_HAVE_A_TWO_BY_TWO
    } else if t.x_scale != t.y_scale {
        f2 | WE_HAVE_AN_X_AND_Y_SCALE
    } else if t.x_scale != F2DOT14_ONE {
        f2 | WE_HAVE_A_SCALE
    } else {
        f2
    }
}

impl Component {
    /// Recompute the flags prior to serialization. `more` should be true if this
    /// is not the final component in a glyph; `instructions` should be true if
    /// there are TrueType instructions in the glyph.
    pub fn recompute_flags(&self, more: bool, instructions: bool) -> (r: u16)
        ensures
            r == component_flags(*self, more, instructions),
    {
        let mut flags = self.flags & USER_FLAGS;
        if more {
            flags = flags | MORE_COMPONENTS;
        } else if instructions {
            flags = flags | WE_HAVE_INSTRUCTIONS;
        }
        let t = self.transformation;
        match self.match_points {
            Some((x, y)) => {
                if !(x <= 255 && y <= 255) {
                    flags = flags | ARG_1_AND_2_ARE_WORDS;
                }
            },
            None => {
                flags = flags | ARGS_ARE_XY_VALUES;
                if !(-128 <= t.translate_x && t.translate_x <= 127 && -128 <= t.translate_y
                    && t.translate_y <= 127) {
                    flags = flags | ARG_1_AND_2_ARE_WORDS;
                }
            },
        }
        if t.scale01 != 0 || t.scale10 != 0 {
            flags = flags | WE_HAVE_A_TWO_BY_TWO;
        } else if t.x_scale != t.y_scale {
            flags = flags | WE_HAVE_AN_X_AND_Y_SCALE;
        } else if t.x_scale != F2DOT14_ONE {
            flags = flags | WE_HAVE_A_SCALE;
        }
        flags
    }
}

} // verus!
