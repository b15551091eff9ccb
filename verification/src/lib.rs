//! Identity records for the members of a team, packed for the name-service
//! resolver of the host.

pub mod buffer;
pub mod cstructs;
pub mod cursor;
pub mod laws;
pub mod layout;
pub mod memory;
pub mod nss;
pub mod pam;
pub mod roster;
pub mod status;
pub mod store;
pub mod text;
