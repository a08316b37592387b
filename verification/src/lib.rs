//! The conformance and peer-parity gates of the Agent Pontifex wire contract:
//! fixtures validated against the authored JSON Schemas and the rules schema
//! cannot express, and the authored and TypeSpec-generated schemas held to
//! the same verdicts, enum values and wire shapes.

pub mod canonical;
pub mod conformance;
pub mod fixtures;
pub mod invariants;
pub mod json;
pub mod order;
pub mod parity;
pub mod refs;
pub mod shape;
pub mod text;
pub mod verdict;
