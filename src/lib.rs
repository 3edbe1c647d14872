//! A reader for a small brace/bracket configuration format.
//!
//! A file is a sequence of members. A member is either `name: value`,
//! `name { members }` (an object) or `name [ containers ]` (an array whose
//! elements are unnamed objects or arrays). The result is a flat mapping from
//! dotted paths (`server.hosts.0.name`) to trimmed values.
pub mod configuration;
pub mod document;
pub mod error;
pub mod grammar;
pub mod text;

pub use configuration::Configuration;
pub use error::Error;
