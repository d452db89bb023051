//! An owner-scoped to-do record store: a sequence of identifiers, an ordered
//! table of records, ownership-gated mutation and a paginated listing by owner.

pub mod contract;
pub mod error;
pub mod laws;
pub mod msg;
pub mod sequence;
pub mod state;
pub mod table;
