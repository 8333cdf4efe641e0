pub mod pieces;
pub mod zobrist;
pub mod state;
pub mod attacks;
pub mod movegen;
pub mod legal;
pub mod search;
pub mod validate;
pub mod initial;
pub mod rng;
pub mod backward;
pub mod notation;
pub mod dfpn;
pub mod generate;
pub mod keys;
pub mod collect;
