//! A web file manager's logic: logging in with a lockout after repeated
//! failures, ordering and rendering directory listings, and reading the
//! requests of its routes.

pub mod listing;
pub mod login;
pub mod page;
pub mod routes;
pub mod templates;
pub mod text;
pub mod url;
