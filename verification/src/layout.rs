//! OpenType layout subtables (GSUB and GPOS) in their binary form.
pub mod valuerecord;
pub mod ordered;
pub mod tagged;
pub mod common;
pub mod common_proofs;
pub mod gpos2_proofs;
pub mod gpos2;
pub mod gsub1;
pub mod gsub2;
pub mod gsub3;
pub mod gsub4;
