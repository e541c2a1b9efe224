//! Verified core of a photo-recovery tool: signature detection and carving of
//! deleted images on a raw volume, the scan that drives it, and the rules that
//! name, place and index what is recovered.

pub mod bytes;
pub mod carve_laws;
pub mod carvers;
pub mod checksums;
pub mod domain;
pub mod index;
pub mod logging;
pub mod platform;
pub mod recovery;
pub mod requests;
pub mod scanner;
pub mod session;
pub mod signatures;
pub mod text;
