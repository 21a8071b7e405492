//! Verified reading and writing of OpenType font tables.
#![allow(non_camel_case_types, non_snake_case)]

pub mod binary;
pub mod coverage;
pub mod packed;
pub mod hhea;
pub mod head;
pub mod maxp;
pub mod hmtx;
pub mod loca;
pub mod gasp;
pub mod avar;
pub mod glyf;
pub mod table_store;
pub mod guide;
pub mod fontinfo;
pub mod cmap;
pub mod otvar;
pub mod post;
pub mod os2;
pub mod fvar;
pub mod gvar;
pub mod layout;
