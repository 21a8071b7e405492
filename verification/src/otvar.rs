//! Variation data: tuple variation headers and stores, and item variation stores.
pub mod header;
pub mod store;
pub mod item_variation;
