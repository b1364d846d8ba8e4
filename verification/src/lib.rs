//! The route map data of HowFastly, verified: the levels that cut the world
//! into square cells, the text format of a cell file and its reader, and the
//! generator that cuts the Natural Earth layers into those files.
use vstd::prelude::*;

pub mod text;
pub mod cells;
pub mod gen;

verus! {
} // verus!
