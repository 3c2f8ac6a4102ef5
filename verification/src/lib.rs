use vstd::prelude::*;

pub mod clock;
pub mod codec;
pub mod message;
pub mod peer;
pub mod registry;
pub mod service;
mod ident;
mod strutil;

verus! {

/// A network address as observed on an inbound datagram.
#[derive(Clone, Copy, PartialEq, Eq, Structural, Debug)]
pub enum IpAddress {
    V4(u8, u8, u8, u8),
    V6(u16, u16, u16, u16, u16, u16, u16, u16),
}

} // verus!
