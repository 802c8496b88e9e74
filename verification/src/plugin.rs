//! The plugin contract the host sees: a name and the ABI it was built for,
//! and the loader that keeps plugin libraries alive. The loader loads
//! nothing yet: a sample runs without ever opening a library.

use vstd::prelude::*;

verus! {

pub const PLUGIN_ABI_VERSION: u32 = 1;

/// What a plugin tells the host about itself.
pub trait Plugin: Send + Sync {
    fn name(&self) -> &'static str;

    /// The ABI a plugin was built for; unless a plugin says otherwise, the
    /// one the host was built for.
    fn abi_version(&self) -> (v: u32)
        default_ensures
            v == PLUGIN_ABI_VERSION,
    {
        PLUGIN_ABI_VERSION
    }
}

/// Why a plugin could not be loaded.
#[derive(Debug)]
pub enum PluginError {
    Load(String),
    Message(String),
}

/// The plugin libraries kept alive for the life of the process.
pub struct PluginLoader {
    loaded: usize,
}

impl PluginLoader {
    /// How many libraries are held.
    pub closed spec fn spec_loaded(&self) -> nat {
        self.loaded as nat
    }

    pub fn new() -> (l: Self)
        ensures
            l.spec_loaded() == 0,
    {
        PluginLoader { loaded: 0 }
    }

    /// Reserved: succeeds without loading anything from `path`.
    pub fn load_dir(&mut self, path: &str) -> (r: Result<(), PluginError>)
        ensures
            r is Ok,
            final(self).spec_loaded() == old(self).spec_loaded(),
    {
        Ok(())
    }

    pub fn is_empty(&self) -> (b: bool)
        ensures
            b == (self.spec_loaded() == 0),
    {
        self.loaded == 0
    }
}

impl Default for PluginLoader {
    fn default() -> (l: Self)
        ensures
            l.spec_loaded() == 0,
    {
        PluginLoader::new()
    }
}

} // verus!
