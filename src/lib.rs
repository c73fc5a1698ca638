//! Enumerates the edge pairings of a rotation system and tallies the genus
//! of every connected embedding.

pub mod perm;
pub mod rotation;
pub mod connect;
pub mod genus;
pub mod enumerate;
pub mod laws;
