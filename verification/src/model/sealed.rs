//! Traits that only this crate can implement.
use vstd::prelude::*;

verus! {

pub trait Symbols {}

pub trait Topology {}

} // verus!
