//! Verified core of a small administration client: assembling a flat,
//! permission-scoped list of menu records into an ordered, collapsible
//! menu tree, together with the plain data types the surrounding
//! client and server glue exchanges.

pub mod auth;
pub mod config;
pub mod context;
pub mod log_ext;
pub mod menu;
