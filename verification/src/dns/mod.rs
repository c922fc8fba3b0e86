//! DNS wire format and resolver logic.

pub mod error;
pub mod wire;
pub mod text;
pub mod name;
pub mod buffer;
pub mod header;
pub mod question;
pub mod record;
pub mod packet;
pub mod resolver;
pub mod laws;
pub mod behaviour;
