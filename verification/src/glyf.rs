//! The `glyf` table: TrueType outlines.
pub mod glyph;
pub mod component;
pub mod reading;
pub mod table;
pub mod roundtrip;
pub mod composite_roundtrip;
pub mod outline;
