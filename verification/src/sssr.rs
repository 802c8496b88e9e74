//! Stochastic screen-space reflections: the plugin's name and march limit.

use vstd::prelude::*;

use crate::plugin::Plugin;

verus! {

pub const NAME: &'static str = "ffx-sssr";
pub const MAX_TRAVERSAL_INTERSECTIONS: u32 = 128;

pub struct SssrPlugin;

impl Plugin for SssrPlugin {
    fn name(&self) -> (n: &'static str)
        ensures
            n@ == NAME@,
    {
        NAME
    }
}

} // verus!
