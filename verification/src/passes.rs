//! Compiler-pass descriptors.  The passes themselves rewrite the
//! intermediate representation and run in the surrounding tooling; here the
//! library holds their registry metadata.

use vstd::prelude::*;

verus! {

/// The pass that rewrites call-like invoke statements into primitive group
/// enables.
pub struct CompileInvoke;

impl CompileInvoke {
    /// The name the pass is registered under.
    pub fn name() -> (r: &'static str)
        ensures
            r@ == "compile-invoke"@,
    {
        "compile-invoke"
    }

    /// A one-line description of what the pass does.
    pub fn description() -> (r: &'static str)
        ensures
            r@ == "Rewrites invoke statements to group enables"@,
    {
        "Rewrites invoke statements to group enables"
    }
}

impl Default for CompileInvoke {
    fn default() -> (r: CompileInvoke)
        ensures
            r == CompileInvoke,
    {
        CompileInvoke
    }
}

} // verus!
