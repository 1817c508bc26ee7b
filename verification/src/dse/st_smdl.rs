//! SMDL: sequenced music (song, tracks of events, end of content).
pub mod eoc;
pub mod event;
pub mod smdl;
pub mod song;
pub mod trk;
