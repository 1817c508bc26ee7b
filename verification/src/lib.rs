use vstd::prelude::*;

pub mod bytes;
pub mod compression;
pub mod dse;
pub mod encoding;
pub mod image;
pub mod no_python;
pub mod python;
pub mod romfs;
pub mod st_at3px;
pub mod st_at4pn;
pub mod st_at_common;
pub mod st_atupx;
pub mod st_bg_list_dat;
pub mod st_bma;
pub mod st_bma_image;
pub mod st_bgp;
pub mod st_bpa;
pub mod st_bpc;
pub mod st_bpl;
pub mod st_dbg;
pub mod st_dma;
pub mod st_dpc;
pub mod st_dpci;
pub mod st_dpl;
pub mod st_dpla;
pub mod st_kao;

verus! {

} // verus!
