//! SWDL: the sound banks (sample table, programs, key groups and sample data).
pub mod kgrp;
pub mod pcmd;
pub mod prgi;
pub mod swdl;
pub mod wavi;
