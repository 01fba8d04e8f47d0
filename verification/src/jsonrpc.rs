//! The JSON-RPC API: public records and the methods that answer with them.

pub mod handlers;
pub mod laws;
pub mod records;
pub mod service;
