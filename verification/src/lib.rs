//! A hotel reservation ledger: validated value types, the in-memory domain
//! model with its invariants, and the interpreter of the operator's command
//! language.

pub mod bignum;
pub mod category;
pub mod data;
pub mod date;
pub mod decimal;
pub mod error;
pub mod handler;
pub mod hotel_id;
pub mod listing;
pub mod model;
pub mod price;
pub mod state;
