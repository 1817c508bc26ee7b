//! The compression algorithms of the game's file formats.
pub mod bma_collision_rle;
pub mod bma_layer_nrl;
pub mod bpc_image;
pub mod bpc_tilemap;
pub mod custom_999;
pub mod nrl;
pub mod px;
