//! Drawdown analysis of return paths and block-bootstrap resampling of quote
//! histories, with their behaviour stated as contracts and proved.

pub mod growth;
pub mod drawdown;
pub mod sample;
