//! Representation and transport of proof-goal syntax terms: an append-only
//! arena of term nodes, a hole-filling term builder, a canonical tagged-array
//! wire codec with its text form, and a non-blocking message queue for the
//! control loop.
pub mod channel;
pub mod codec;
pub mod json;
pub mod message;
pub mod store;
pub mod syntax;
pub mod tactic;
pub mod termbuilder;
pub mod wire;
