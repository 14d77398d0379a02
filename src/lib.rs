//! Validation of building records and the oldest building of each district.
pub mod building;
pub mod validate;
pub mod dataset;
pub mod oldest;
