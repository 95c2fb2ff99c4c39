//! Way classes. The numbering is part of the wire format: never renumber,
//! append.
use vstd::prelude::*;

verus! {

pub const ROAD: u8 = 0;

pub const PATH: u8 = 1;

pub const TRACK: u8 = 2;

pub const FOOTWAY: u8 = 3;

pub const STEPS: u8 = 4;

pub const CYCLEWAY: u8 = 5;

} // verus!
