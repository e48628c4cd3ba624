//! The shader package of this library: the names and sources of the compute
//! programs that the surrounding GPU layer compiles and dispatches.

use vstd::prelude::*;

pub mod selection;

verus! {

/// The root shader package.
pub struct Mod;

impl Mod {
    /// The package name.
    pub fn name(&self) -> (r: &'static str)
        ensures
            r@ == "wgpu_3dgs_editor"@,
    {
        "wgpu_3dgs_editor"
    }

    /// The root package has no source of its own.
    pub fn source(&self) -> (r: &'static str)
        ensures
            r@.len() == 0,
    {
        proof {
            reveal_strlit("");
        }
        ""
    }

    /// The names of the submodules of this package.
    pub fn submodule_names(&self) -> (r: Vec<&'static str>)
        ensures
            r@.len() == 1,
            r@[0]@ == "selection"@,
    {
        let mut v: Vec<&'static str> = Vec::new();
        v.push("selection");
        v
    }
}

} // verus!
