//! Resolution of `$ref` members in JSON Schema documents.
//!
//! An engine walks a document, replaces each reference by the resolved
//! content that it points to, and stops with a request where that content
//! lies in a document that has not been loaded yet. Loading is left to the
//! caller, who provides the document and resolves again.

pub mod cache;
pub mod engine;
pub mod error;
pub mod json;
pub mod laws;
pub mod location;
pub mod order;
pub mod outcome;
pub mod pointer;
pub mod text;
pub mod walk;

pub use engine::JsonRef;
pub use error::Error;
pub use error::ErrorKind;
pub use json::Json;
pub use json::Number;
pub use outcome::Request;
pub use outcome::Stop;
pub use outcome::Transport;
