//! The DSE sound formats: SMDL sequences and SWDL sound banks.
pub mod date;
pub mod filename;
pub mod st_smdl;
pub mod st_swdl;
