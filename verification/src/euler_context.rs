//! The context in which a single puzzle is solved.
use vstd::prelude::*;

verus! {

/// The context in which a problem is solved: currently just its name.
pub struct EulerContext {
    name: String,
}

impl EulerContext {
    /// The wrapped problem name.
    pub closed spec fn spec_name(&self) -> Seq<char> {
        self.name@
    }

    /// Wrap a problem name.
    pub fn new(name: String) -> (r: EulerContext)
        ensures
            r.spec_name() == name@,
    {
        EulerContext { name }
    }

    /// The name of the problem being solved.
    pub fn name(&self) -> (r: &str)
        ensures
            r@ == self.spec_name(),
    {
        self.name.as_str()
    }
}

} // verus!
