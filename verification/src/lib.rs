//! Turns an analyzed Veryl module into a style sheet that computes what the module computes.

pub mod acceptance;
pub mod branch;
pub mod comparison;
pub mod constant;
pub mod context;
pub mod css;
pub mod cycle;
pub mod delivery;
pub mod error;
pub mod expr;
pub mod ir;
pub mod lines;
pub mod literal;
pub mod module;
pub mod names;
pub mod naming;
pub mod numeral;
pub mod order;
pub mod parts;
pub mod reading;
pub mod refusal;
pub mod scope;
pub mod semantics;
pub mod signal;
pub mod statement;
pub mod text;
pub mod value;
pub mod written;

pub use error::Error;
pub use module::{emit, Output};
