//! A line-framed JSON gateway: the framing channel, the connection table and
//! the address-rewriting rules that multiplex many clients onto one router.

pub mod json;
pub mod framing;
pub mod escape;
pub mod address;
pub mod table;
pub mod gateway;
