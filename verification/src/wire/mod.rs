pub mod capture;
pub mod checksum;
pub mod ethernet;
pub mod ip;
pub mod laws;
pub mod ring;
pub mod switch;
pub mod tcp;
