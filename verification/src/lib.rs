//! Path-placeholder substitution for HTTP request URLs, and the pure parts of
//! the database migrations that accompany it.

pub mod text;
pub mod json;
pub mod placeholders;
pub mod migration;
pub mod rename;
