pub mod buffer;
pub mod incoming;
pub mod laws;
pub mod model;
pub mod outgoing;
pub mod tcp;
