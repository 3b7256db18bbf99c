pub mod error;
pub mod socket;
pub mod wire;
