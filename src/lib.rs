pub mod address;
pub mod json;
pub mod controller;
pub mod peer;
pub mod v6;
