//! Nine Men's Morris engine core: bitboard positions, full rule
//! enforcement, Zobrist hashing and an alpha-beta search, with contracts
//! checked by Verus.

pub mod types;
pub mod board;
pub mod position;
pub mod rules;
pub mod moves;
pub mod zobrist;
pub mod search;
pub mod session;
