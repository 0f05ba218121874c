//! The verified core of a packet sender and receiver.

pub mod addr;
pub mod arrivals;
pub mod interface;
pub mod ipv4;
pub mod lengths;
pub mod packet;
pub mod receiver;
pub mod record;
pub mod sender;
pub mod settings;
pub mod text;
