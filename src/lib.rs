//! A stigmergic trail-formation model: agents deposit and sense a scalar
//! field on a toroidal grid.

pub mod agent;
pub mod arith;
pub mod world;
pub mod simulate;
