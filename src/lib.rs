//! Pairing, ranking and bracket engine for a multi-stage pétanque tournament.

mod external;

pub mod bracket;
pub mod error;
pub mod models;
pub mod pairing;
pub mod ranking;
pub mod rules;
pub mod standings;
