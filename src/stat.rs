use vstd::prelude::*;

verus! {

/// The transistor cost of one subcircuit and how often it is instantiated.
#[derive(Clone, Copy, Debug, PartialEq, Eq, Structural)]
pub struct Stat {
    /// Primitive transistor elements in one instance.
    pub transistors: i64,
    /// Instantiations found in the structural netlist.
    pub count: i64,
}

impl Stat {
    pub fn new(transistors: i64, count: i64) -> (r: Self)
        ensures
            r.transistors == transistors,
            r.count == count,
    {
        Stat { transistors, count }
    }
}

} // verus!
