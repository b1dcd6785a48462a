//! The jobs of the service.

pub mod github;
