#![allow(non_snake_case)]

use vstd::prelude::*;

pub mod builder;
pub mod delta;
pub mod delta_spec;
pub mod key_table;
pub mod laws;
pub mod snap;
pub mod unpack_spec;
pub mod unpacked;

verus! {

/// Maximum number of items that a snapshot may hold.
pub const SNAPSHOT_MAX_ITEMS: usize = 1024;

} // verus!
