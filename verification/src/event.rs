//! Breach vectors of the structured combat trace.
use vstd::prelude::*;

verus! {

/// How a breach reached its victim.
#[derive(Clone, Copy, Debug, PartialEq, Eq, Structural)]
pub enum BreachVector {
    /// A netrunner's hack.
    Hack,
    /// A physical EMP pulse.
    Emp,
    /// A worm / logic-bomb.
    Worm,
}

impl BreachVector {
    /// The vector's stable lower-case name, as written into a trace.
    pub fn as_str(self) -> (s: &'static str)
        ensures
            s@ == match self {
                BreachVector::Hack => "hack"@,
                BreachVector::Emp => "emp"@,
                BreachVector::Worm => "worm"@,
            },
    {
        match self {
            BreachVector::Hack => "hack",
            BreachVector::Emp => "emp",
            BreachVector::Worm => "worm",
        }
    }
}

} // verus!
