//! Per-request sessions over two backends: a server-side store reached by
//! the caller, and a key/value map carried in a signed cookie.
//!
//! - `codec`: the byte encoding of one session value.
//! - `cookie_map`: the cookie backend, its serialized form and size bound.
//! - `transport`: signing and hex framing of the cookie value.
//! - `driver`: the uniform operations and the server store's hydration.
use vstd::prelude::*;

pub mod codec;
pub mod cookie_map;
pub mod driver;
pub mod transport;

verus! {

} // verus!
