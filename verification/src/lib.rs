//! Core of a command-line HTTP client: the request-item micro-language
//! (tokenizer, separator resolution, classification) and the request
//! assembly engine that turns an ordered list of classified items into a
//! full request descriptor (URL with query string, headers, encoded body).
//!
//! Everything here is verified; calls into outside crates (JSON codec,
//! form encoding, URL parsing) go through small trusted wrappers whose
//! contracts name exactly what those crates compute.

pub mod json;
pub mod output;
pub mod request;
pub mod request_item;
