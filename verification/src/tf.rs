//! Numbers of the transfer functions, as the surface shader knows them.
use vstd::prelude::*;

verus! {

pub const PASSTHROUGH: i32 = 0;

pub const SRGB: i32 = 1;

pub const BT1886: i32 = 2;

pub const GAMMA22: i32 = 3;

pub const ST2084_PQ: i32 = 4;

pub const HLG: i32 = 5;

pub const EXT_LINEAR: i32 = 6;

} // verus!
