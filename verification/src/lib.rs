//! E-AC-3 with Joint Object Coding: frames, metadata containers and payloads.

pub mod alloc_tables;
pub mod atmos;
pub mod atmos_laws;
pub mod bits;
pub mod block_laws;
pub mod bsi;
pub mod crc;
pub mod damf;
pub mod damf_laws;
pub mod eac3;
pub mod eac3_audblk;
pub mod emdf;
pub mod hex;
pub mod hex_laws;
pub mod inject;
pub mod joc;
pub mod joc_laws;
pub mod oamd;
pub mod oamd_laws;
pub mod passes;
pub mod passes_laws;
pub mod protect;
pub mod render;
pub mod render_laws;
pub mod stream;
pub mod tally;
pub mod walk_laws;
