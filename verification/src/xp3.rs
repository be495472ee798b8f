//! The XP3 archive format of the KiriKiri engine.

pub mod archive;
pub mod index;
pub mod index_laws;
pub mod le;
pub mod pack;
