//! The armor-class axis of the mitigation matrix (damage *type* vs target *armor class*).
use vstd::prelude::*;

verus! {

/// Target armor class for the mitigation matrix.
#[derive(Clone, Copy, PartialEq, Eq, Debug, Default, Structural)]
pub enum ArmorClass {
    Padding,
    #[default]
    Mail,
    Plate,
}

} // verus!
