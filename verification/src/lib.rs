//! A radix-tree route matcher: path patterns made of literal text, named
//! `:param` segments and trailing `*catchall` segments are inserted with a
//! value, and a query path is answered with the matching value and the
//! substrings bound to each parameter name.

pub mod bytes;
pub mod error;
pub mod params;
pub mod parser;
pub mod tree;

pub use error::InsertError;
pub use params::Params;
pub use tree::Tree;
