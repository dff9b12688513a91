//! A capture of the calls that a value makes into a push-based serialization
//! protocol, stored as a tree that can be inspected, edited and replayed.
pub mod ast;
pub mod call;
pub mod capture;
pub mod equality;
pub mod laws;
pub mod ser;

pub use ast::Ast;
pub use ser::Serializer;
