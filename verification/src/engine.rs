use vstd::prelude::*;

verus! {

pub const ENGINE_NAME: &'static str = "harpia";

pub const ENGINE_VERSION_MAJOR: u32 = 0;
pub const ENGINE_VERSION_MINOR: u32 = 1;
pub const ENGINE_VERSION_PATCH: u32 = 0;

/// Packed as Vulkan `make_api_version` variant 0: major, minor, patch.
pub open spec fn spec_vk_version(major: u32, minor: u32, patch: u32) -> int {
    major as int * 0x400000 + minor as int * 0x1000 + patch as int
}

pub fn engine_vk_version() -> (v: u32)
    ensures
        v == spec_vk_version(ENGINE_VERSION_MAJOR, ENGINE_VERSION_MINOR, ENGINE_VERSION_PATCH),
{
    let v = (ENGINE_VERSION_MAJOR << 22) | (ENGINE_VERSION_MINOR << 12) | ENGINE_VERSION_PATCH;
    assert(((0u32 << 22) | (1u32 << 12) | 0u32) == 0x1000u32) by (bit_vector);
    v
}

/// An engine error: a message.
#[derive(Debug)]
pub enum Error {
    Message(String),
}

impl Error {
    pub fn msg(text: &str) -> (e: Error)
        ensures
            e matches Error::Message(m) && m@ == text@,
    {
        Error::Message(text.to_owned())
    }
}

/// Monotonic frame counter of the app loop (not the in-flight slot).
#[derive(Clone, Copy, Debug, Default, PartialEq, Eq, Hash, PartialOrd, Ord)]
pub struct FrameNumber(pub u64);

/// Bindless heap size. Slot 0 is the null texture, for ever.
pub const BINDLESS_HEAP_SIZE: u32 = 8192;
pub const BINDLESS_NULL_SLOT: u32 = 0;

} // verus!
