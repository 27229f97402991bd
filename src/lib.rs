//! Discrete probability distributions over integer outcomes, with fixed-point
//! probability masses and a type-level soundness tag.

mod error;
pub mod numerics;
pub mod laws;
pub mod pdf;
pub mod table;

pub use error::LlDoiceError;
pub use numerics::{Fpp, Number};
pub use pdf::PDF;
pub use table::Sample;
