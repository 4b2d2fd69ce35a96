//! A typed in-memory model of the wire's tags message: the whole message
//! with its list-of-lists tag payload, and one tag record.

pub mod message;
pub mod record;
