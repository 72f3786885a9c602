//! Validation of chain blocks against their sequencing commitments.

pub mod errors;
pub mod model;
pub mod validator;
