pub mod chain;
pub mod clock;
pub mod laws;
pub mod model;
pub mod service;
pub mod types;
