pub mod address;
pub mod errors;
pub mod index;
pub mod topology;
pub mod notes;
pub mod stake;
pub mod bribe;
pub mod laws;
