//! Access to repositories on GitHub.

pub mod github;
