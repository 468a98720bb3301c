//! A verified model of the hosts file: the plain-text table that maps IP
//! addresses to host names and is consulted ahead of DNS.
//!
//! The library turns raw file content into structured entries, flips the
//! comment state of all lines that carry a given address, and plans the
//! backup-before-write mutation pipeline.  Everything here is pure text
//! processing with proved contracts; reading and writing the file itself,
//! and the privilege-elevation helper, live outside the library.

pub mod address;
pub mod errors;
pub mod parser;
pub mod pipeline;
pub mod text;
pub mod toggle;
