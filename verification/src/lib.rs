//! A counter service: the wire protocol, the shared counter, and the rules by
//! which the server answers a request and the client chooses one.

pub mod protocol;
pub mod decimal;
pub mod text;
pub mod escape;
pub mod json;
pub mod schema;
pub mod codec;
pub mod counter;
pub mod store;
pub mod server;
pub mod client;
