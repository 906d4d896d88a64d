//! Tools for PlayStation SFX sound banks: the bank file format, SPU ADPCM
//! block decoding and the SPU pitch tables.
pub mod adpcm;
pub mod args;
pub mod config;
pub mod libpsxav;
pub mod sfx;
pub mod spu;
