//! Tools for the archive and text formats of the KiriKiri engine.

pub mod encoding;
pub mod header;
pub mod ksd;
pub mod paths;
pub mod psb;
pub mod scramble;
pub mod zlib;
pub mod xp3;
