//! WeaveLang: a small language for sensor-driven behaviour rules, with a
//! verified interpreter. A program senses named channels, compares readings
//! against an internal scalar model, records the tension between them,
//! fires actions, and lets model parameters drift and resolve toward what
//! is sensed. Scalars are fixed-point numbers carried in `i64`. The meaning
//! of every statement is written out in `sem`, the interpreter in `interp`
//! is proved to follow it for every host and every random draw, and `laws`
//! states the properties that hold of whole programs.

pub mod ast;
pub mod bytes;
pub mod compose;
pub mod dict;
pub mod interp;
pub mod laws;
pub mod parser;
pub mod scalar;
pub mod sem;
