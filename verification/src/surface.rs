//! What the swapchain and the device are made with: the surface format, the
//! present mode, the extent and image count, and which GPU is taken.
//!
//! The driver reports what it supports; these functions decide. Vulkan enum
//! values travel as their raw codes.

use vstd::prelude::*;

use crate::null_gpu::{is_message, RhiError};
use crate::engine::BINDLESS_HEAP_SIZE;
use crate::rhi::{Extent2D, Format};
use crate::text::{decimal, new_text, push_decimal, push_text};

verus! {

/// Raw codes of the Vulkan formats the engine names.
pub const VK_FORMAT_R8G8B8A8_UNORM: i32 = 37;
pub const VK_FORMAT_R8G8B8A8_SRGB: i32 = 43;
pub const VK_FORMAT_B8G8R8A8_UNORM: i32 = 44;
pub const VK_FORMAT_B8G8R8A8_SRGB: i32 = 50;
pub const VK_FORMAT_R16G16_SFLOAT: i32 = 83;
pub const VK_FORMAT_R16G16B16A16_SFLOAT: i32 = 97;
pub const VK_FORMAT_R32_SFLOAT: i32 = 100;
pub const VK_FORMAT_D32_SFLOAT: i32 = 126;
/// `VK_COLOR_SPACE_SRGB_NONLINEAR_KHR`.
pub const VK_COLOR_SPACE_SRGB_NONLINEAR: i32 = 0;
/// `VK_PRESENT_MODE_FIFO_KHR`: always supported, waits for vertical blank.
pub const VK_PRESENT_MODE_FIFO: i32 = 2;
/// `VK_PRESENT_MODE_IMMEDIATE_KHR`: presents at once, may tear.
pub const VK_PRESENT_MODE_IMMEDIATE: i32 = 0;
/// `VK_PRESENT_MODE_MAILBOX_KHR`: replaces the queued image, no tearing.
pub const VK_PRESENT_MODE_MAILBOX: i32 = 1;
/// Device types, as scored by [`device_score`].
pub const VK_DEVICE_TYPE_INTEGRATED_GPU: i32 = 1;
pub const VK_DEVICE_TYPE_DISCRETE_GPU: i32 = 2;

/// A format the surface offers, in a colour space.
#[derive(Clone, Copy, Debug, PartialEq, Eq)]
pub struct SurfaceFormat {
    pub format: i32,
    pub color_space: i32,
}

/// What the surface allows for a swapchain.
#[derive(Clone, Copy, Debug, PartialEq, Eq)]
pub struct SurfaceCaps {
    pub min_image_count: u32,
    /// 0 when there is no upper limit.
    pub max_image_count: u32,
    /// `u32::MAX` wide when the surface lets the swapchain decide.
    pub current_extent: Extent2D,
    pub min_image_extent: Extent2D,
    pub max_image_extent: Extent2D,
}

/// The engine format of a swapchain format code.
pub open spec fn spec_format_from_vk(code: i32) -> Format {
    if code == VK_FORMAT_B8G8R8A8_UNORM {
        Format::Bgra8Unorm
    } else if code == VK_FORMAT_B8G8R8A8_SRGB {
        Format::Bgra8Srgb
    } else if code == VK_FORMAT_R8G8B8A8_UNORM {
        Format::Rgba8Unorm
    } else if code == VK_FORMAT_R8G8B8A8_SRGB {
        Format::Rgba8Srgb
    } else {
        Format::Unknown(code as u32)
    }
}

pub fn format_from_vk(code: i32) -> (f: Format)
    ensures
        f == spec_format_from_vk(code),
{
    if code == VK_FORMAT_B8G8R8A8_UNORM {
        Format::Bgra8Unorm
    } else if code == VK_FORMAT_B8G8R8A8_SRGB {
        Format::Bgra8Srgb
    } else if code == VK_FORMAT_R8G8B8A8_UNORM {
        Format::Rgba8Unorm
    } else if code == VK_FORMAT_R8G8B8A8_SRGB {
        Format::Rgba8Srgb
    } else {
        Format::Unknown(code as u32)
    }
}

/// The Vulkan code of each engine format; unknown formats have none.
pub open spec fn spec_vk_format(format: Format) -> Option<i32> {
    match format {
        Format::Rgba8Unorm => Some(VK_FORMAT_R8G8B8A8_UNORM),
        Format::Rgba8Srgb => Some(VK_FORMAT_R8G8B8A8_SRGB),
        Format::Bgra8Unorm => Some(VK_FORMAT_B8G8R8A8_UNORM),
        Format::Bgra8Srgb => Some(VK_FORMAT_B8G8R8A8_SRGB),
        Format::Rgba16Float => Some(VK_FORMAT_R16G16B16A16_SFLOAT),
        Format::R32Float => Some(VK_FORMAT_R32_SFLOAT),
        Format::Rg16Float => Some(VK_FORMAT_R16G16_SFLOAT),
        Format::D32Float => Some(VK_FORMAT_D32_SFLOAT),
        Format::Unknown(_) => None,
    }
}

pub fn vk_format(format: Format) -> (r: Result<i32, RhiError>)
    ensures
        match r {
            Ok(code) => spec_vk_format(format) == Some(code),
            Err(e) => spec_vk_format(format) is None && is_message(e, "unknown texture format"@),
        },
{
    match format {
        Format::Rgba8Unorm => Ok(VK_FORMAT_R8G8B8A8_UNORM),
        Format::Rgba8Srgb => Ok(VK_FORMAT_R8G8B8A8_SRGB),
        Format::Bgra8Unorm => Ok(VK_FORMAT_B8G8R8A8_UNORM),
        Format::Bgra8Srgb => Ok(VK_FORMAT_B8G8R8A8_SRGB),
        Format::Rgba16Float => Ok(VK_FORMAT_R16G16B16A16_SFLOAT),
        Format::R32Float => Ok(VK_FORMAT_R32_SFLOAT),
        Format::Rg16Float => Ok(VK_FORMAT_R16G16_SFLOAT),
        Format::D32Float => Ok(VK_FORMAT_D32_SFLOAT),
        Format::Unknown(_) => Err(RhiError::msg("unknown texture format")),
    }
}

/// Every engine format maps to a code that maps back, for the formats a
/// swapchain can have.
pub proof fn swapchain_formats_round_trip(format: Format)
    requires
        format == Format::Bgra8Unorm || format == Format::Bgra8Srgb || format == Format::Rgba8Unorm || format
            == Format::Rgba8Srgb,
    ensures
        spec_format_from_vk(spec_vk_format(format).unwrap()) == format,
{
}

/// The preferred formats, best first: BGRA before RGBA, UNORM before sRGB.
pub open spec fn preferred(k: int) -> i32 {
    if k == 0 {
        VK_FORMAT_B8G8R8A8_UNORM
    } else if k == 1 {
        VK_FORMAT_B8G8R8A8_SRGB
    } else if k == 2 {
        VK_FORMAT_R8G8B8A8_UNORM
    } else {
        VK_FORMAT_R8G8B8A8_SRGB
    }
}

/// `f` is preferred format `k` in the sRGB non-linear colour space.
pub open spec fn is_preferred(f: SurfaceFormat, k: int) -> bool {
    f.format == preferred(k) && f.color_space == VK_COLOR_SPACE_SRGB_NONLINEAR
}

/// The first of the first `n` offered formats that is preferred format `k`.
pub open spec fn first_preferred(formats: Seq<SurfaceFormat>, k: int, n: int) -> Option<int>
    decreases n,
{
    if n <= 0 {
        None
    } else {
        match first_preferred(formats, k, n - 1) {
            Some(i) => Some(i),
            None => if is_preferred(formats[n - 1], k) {
                Some(n - 1)
            } else {
                None
            },
        }
    }
}

/// The first offered format that is preferred format `k`, if any.
pub open spec fn first_offered(formats: Seq<SurfaceFormat>, k: int) -> Option<int> {
    first_preferred(formats, k, formats.len() as int)
}

proof fn lemma_first_preferred_stays(formats: Seq<SurfaceFormat>, k: int, m: int, n: int)
    requires
        0 <= m <= n,
        first_preferred(formats, k, m) is Some,
    ensures
        first_preferred(formats, k, n) == first_preferred(formats, k, m),
    decreases n - m,
{
    if m < n {
        lemma_first_preferred_stays(formats, k, m, n - 1);
    }
}

proof fn lemma_first_preferred_bounded(formats: Seq<SurfaceFormat>, k: int, n: int)
    ensures
        first_preferred(formats, k, n) matches Some(i) ==> 0 <= i < n && is_preferred(formats[i], k),
    decreases n,
{
    if n > 0 {
        lemma_first_preferred_bounded(formats, k, n - 1);
    }
}

/// The format chosen for the swapchain: the best preferred format on offer
/// (the first offered entry of it), else the first offered.
pub open spec fn chosen_format(formats: Seq<SurfaceFormat>) -> SurfaceFormat {
    if first_offered(formats, 0) is Some {
        formats[first_offered(formats, 0).unwrap()]
    } else if first_offered(formats, 1) is Some {
        formats[first_offered(formats, 1).unwrap()]
    } else if first_offered(formats, 2) is Some {
        formats[first_offered(formats, 2).unwrap()]
    } else if first_offered(formats, 3) is Some {
        formats[first_offered(formats, 3).unwrap()]
    } else {
        formats[0]
    }
}

/// The first index of a preferred format `k`, or `None`.
fn find_preferred(formats: &[SurfaceFormat], code: i32, k: Ghost<int>) -> (r: Option<usize>)
    requires
        code == preferred(k@),
    ensures
        match first_offered(formats@, k@) {
            Some(i) => r == Some(i as usize) && 0 <= i < formats@.len(),
            None => r is None,
        },
{
    let mut i: usize = 0;
    while i < formats.len()
        invariant
            i <= formats@.len(),
            code == preferred(k@),
            first_preferred(formats@, k@, i as int) is None,
        decreases formats.len() - i,
    {
        let f = formats[i];
        if f.format == code && f.color_space == VK_COLOR_SPACE_SRGB_NONLINEAR {
            proof {
                assert(first_preferred(formats@, k@, i + 1) == Some(i as int));
                lemma_first_preferred_stays(formats@, k@, i + 1, formats@.len() as int);
            }
            return Some(i);
        }
        i = i + 1;
    }
    None
}

proof fn lemma_first_preferred_found(formats: Seq<SurfaceFormat>, k: int, i: int, n: int)
    requires
        0 <= i < n,
        is_preferred(formats[i], k),
    ensures
        first_preferred(formats, k, n) is Some,
    decreases n,
{
    if i < n - 1 {
        lemma_first_preferred_found(formats, k, i, n - 1);
    }
}

/// Whenever the surface offers BGRA UNORM in sRGB non-linear space, that is
/// the format chosen; and whatever is chosen is one the surface offered.
pub proof fn bgra_unorm_wins_when_offered(formats: Seq<SurfaceFormat>, i: int)
    requires
        0 <= i < formats.len(),
    ensures
        is_preferred(formats[i], 0) ==> is_preferred(chosen_format(formats), 0),
        formats.contains(chosen_format(formats)),
{
    let n = formats.len() as int;
    if is_preferred(formats[i], 0) {
        lemma_first_preferred_found(formats, 0, i, n);
    }
    lemma_first_preferred_bounded(formats, 0, n);
    lemma_first_preferred_bounded(formats, 1, n);
    lemma_first_preferred_bounded(formats, 2, n);
    lemma_first_preferred_bounded(formats, 3, n);
    if first_offered(formats, 0) is Some {
        assert(formats[first_offered(formats, 0).unwrap()] == chosen_format(formats));
    } else if first_offered(formats, 1) is Some {
        assert(formats[first_offered(formats, 1).unwrap()] == chosen_format(formats));
    } else if first_offered(formats, 2) is Some {
        assert(formats[first_offered(formats, 2).unwrap()] == chosen_format(formats));
    } else if first_offered(formats, 3) is Some {
        assert(formats[first_offered(formats, 3).unwrap()] == chosen_format(formats));
    } else {
        assert(formats[0] == chosen_format(formats));
    }
}

/// The surface offers format `code` in the sRGB non-linear colour space.
pub open spec fn offers_format(formats: Seq<SurfaceFormat>, code: i32) -> bool {
    exists|i: int|
        0 <= i < formats.len() && (#[trigger] formats[i]).format == code && formats[i].color_space
            == VK_COLOR_SPACE_SRGB_NONLINEAR
}

proof fn lemma_offered_is_first(formats: Seq<SurfaceFormat>, k: int)
    requires
        0 <= k < 4,
    ensures
        offers_format(formats, preferred(k)) <==> first_offered(formats, k) is Some,
{
    lemma_first_preferred_bounded(formats, k, formats.len() as int);
    if offers_format(formats, preferred(k)) {
        let i = choose|i: int|
            0 <= i < formats.len() && (#[trigger] formats[i]).format == preferred(k) && formats[i].color_space
                == VK_COLOR_SPACE_SRGB_NONLINEAR;
        lemma_first_preferred_found(formats, k, i, formats.len() as int);
    }
    if first_offered(formats, k) is Some {
        let i = first_offered(formats, k).unwrap();
        assert(formats[i].format == preferred(k));
    }
}

/// The swapchain format follows the order of preference, in the sRGB
/// non-linear colour space: BGRA UNORM, then BGRA sRGB, then RGBA UNORM,
/// then RGBA sRGB; the first of these that the surface offers is chosen,
/// and when it offers none of them, its first format is.
pub proof fn formats_are_chosen_in_order_of_preference(formats: Seq<SurfaceFormat>)
    requires
        formats.len() > 0,
    ensures
        ({
            let c = chosen_format(formats);
            let nl = VK_COLOR_SPACE_SRGB_NONLINEAR;
            &&& offers_format(formats, VK_FORMAT_B8G8R8A8_UNORM) ==> c.format == VK_FORMAT_B8G8R8A8_UNORM
                && c.color_space == nl
            &&& !offers_format(formats, VK_FORMAT_B8G8R8A8_UNORM) && offers_format(formats, VK_FORMAT_B8G8R8A8_SRGB)
                ==> c.format == VK_FORMAT_B8G8R8A8_SRGB && c.color_space == nl
            &&& !offers_format(formats, VK_FORMAT_B8G8R8A8_UNORM) && !offers_format(formats, VK_FORMAT_B8G8R8A8_SRGB)
                && offers_format(formats, VK_FORMAT_R8G8B8A8_UNORM) ==> c.format == VK_FORMAT_R8G8B8A8_UNORM
                && c.color_space == nl
            &&& !offers_format(formats, VK_FORMAT_B8G8R8A8_UNORM) && !offers_format(formats, VK_FORMAT_B8G8R8A8_SRGB)
                && !offers_format(formats, VK_FORMAT_R8G8B8A8_UNORM) && offers_format(formats, VK_FORMAT_R8G8B8A8_SRGB)
                ==> c.format == VK_FORMAT_R8G8B8A8_SRGB && c.color_space == nl
            &&& !offers_format(formats, VK_FORMAT_B8G8R8A8_UNORM) && !offers_format(formats, VK_FORMAT_B8G8R8A8_SRGB)
                && !offers_format(formats, VK_FORMAT_R8G8B8A8_UNORM) && !offers_format(formats, VK_FORMAT_R8G8B8A8_SRGB)
                ==> c == formats[0]
            &&& formats.contains(c)
        }),
{
    lemma_offered_is_first(formats, 0);
    lemma_offered_is_first(formats, 1);
    lemma_offered_is_first(formats, 2);
    lemma_offered_is_first(formats, 3);
    bgra_unorm_wins_when_offered(formats, 0);
    let n = formats.len() as int;
    lemma_first_preferred_bounded(formats, 0, n);
    lemma_first_preferred_bounded(formats, 1, n);
    lemma_first_preferred_bounded(formats, 2, n);
    lemma_first_preferred_bounded(formats, 3, n);
}

/// Picks the swapchain format: BGRA UNORM if the surface has it in sRGB
/// non-linear space, then BGRA sRGB, RGBA UNORM, RGBA sRGB; else whatever
/// comes first. Never assumes RGBA.
pub fn select_surface_format(formats: &[SurfaceFormat]) -> (r: Result<SurfaceFormat, RhiError>)
    ensures
        match r {
            Ok(f) => formats@.len() > 0 && f == chosen_format(formats@),
            Err(e) => formats@.len() == 0 && is_message(e, "surface has no formats"@),
        },
{
    if formats.len() == 0 {
        return Err(RhiError::msg("surface has no formats"));
    }
    if let Some(i) = find_preferred(formats, VK_FORMAT_B8G8R8A8_UNORM, Ghost(0)) {
        return Ok(formats[i]);
    }
    if let Some(i) = find_preferred(formats, VK_FORMAT_B8G8R8A8_SRGB, Ghost(1)) {
        return Ok(formats[i]);
    }
    if let Some(i) = find_preferred(formats, VK_FORMAT_R8G8B8A8_UNORM, Ghost(2)) {
        return Ok(formats[i]);
    }
    if let Some(i) = find_preferred(formats, VK_FORMAT_R8G8B8A8_SRGB, Ghost(3)) {
        return Ok(formats[i]);
    }
    Ok(formats[0])
}

/// FIFO when offered (it always should be), else the first mode offered,
/// else FIFO.
pub fn select_present_mode(modes: &[i32]) -> (m: i32)
    ensures
        m == if modes@.contains(VK_PRESENT_MODE_FIFO) {
            VK_PRESENT_MODE_FIFO
        } else if modes@.len() > 0 {
            modes@[0]
        } else {
            VK_PRESENT_MODE_FIFO
        },
{
    let mut i: usize = 0;
    while i < modes.len()
        invariant
            i <= modes@.len(),
            forall|j: int| 0 <= j < i ==> modes@[j] != VK_PRESENT_MODE_FIFO,
        decreases modes.len() - i,
    {
        if modes[i] == VK_PRESENT_MODE_FIFO {
            return VK_PRESENT_MODE_FIFO;
        }
        i = i + 1;
    }
    if modes.len() > 0 {
        modes[0]
    } else {
        VK_PRESENT_MODE_FIFO
    }
}

fn offers(modes: &[i32], mode: i32) -> (r: bool)
    ensures
        r == modes@.contains(mode),
{
    let mut i: usize = 0;
    while i < modes.len()
        invariant
            i <= modes@.len(),
            forall|j: int| 0 <= j < i ==> modes@[j] != mode,
        decreases modes.len() - i,
    {
        if modes[i] == mode {
            assert(modes@[i as int] == mode);
            return true;
        }
        i = i + 1;
    }
    false
}

pub open spec fn spec_present_mode_for(modes: Seq<i32>, vsync: bool) -> i32 {
    if !vsync && modes.contains(VK_PRESENT_MODE_IMMEDIATE) {
        VK_PRESENT_MODE_IMMEDIATE
    } else if !vsync && modes.contains(VK_PRESENT_MODE_MAILBOX) {
        VK_PRESENT_MODE_MAILBOX
    } else if modes.contains(VK_PRESENT_MODE_FIFO) {
        VK_PRESENT_MODE_FIFO
    } else if modes.len() > 0 {
        modes[0]
    } else {
        VK_PRESENT_MODE_FIFO
    }
}

/// The present mode for a device with or without vsync: with vsync, as
/// [`select_present_mode`]; without, the fastest mode offered (immediate,
/// then mailbox), else as with vsync.
pub fn select_present_mode_for(modes: &[i32], vsync: bool) -> (m: i32)
    ensures
        m == spec_present_mode_for(modes@, vsync),
{
    if !vsync {
        if offers(modes, VK_PRESENT_MODE_IMMEDIATE) {
            return VK_PRESENT_MODE_IMMEDIATE;
        }
        if offers(modes, VK_PRESENT_MODE_MAILBOX) {
            return VK_PRESENT_MODE_MAILBOX;
        }
    }
    select_present_mode(modes)
}

pub open spec fn clamp_u32(v: u32, lo: u32, hi: u32) -> u32 {
    if v < lo {
        lo
    } else if v > hi {
        hi
    } else {
        v
    }
}

/// Clamping is defined when the bounds are in order (else `clamp` panics).
pub open spec fn extent_bounds_ordered(caps: SurfaceCaps) -> bool {
    caps.min_image_extent.width <= caps.max_image_extent.width && caps.min_image_extent.height
        <= caps.max_image_extent.height
}

/// The surface's own extent when it has one; else the requested size,
/// clamped to what the surface allows.
pub fn clamp_extent(caps: &SurfaceCaps, requested: Extent2D) -> (e: Extent2D)
    requires
        caps.current_extent.width == u32::MAX ==> extent_bounds_ordered(*caps),
    ensures
        e == if caps.current_extent.width != u32::MAX {
            caps.current_extent
        } else {
            Extent2D {
                width: clamp_u32(requested.width, caps.min_image_extent.width, caps.max_image_extent.width),
                height: clamp_u32(requested.height, caps.min_image_extent.height, caps.max_image_extent.height),
            }
        },
{
    if caps.current_extent.width != u32::MAX {
        caps.current_extent
    } else {
        Extent2D {
            width: clamp(requested.width, caps.min_image_extent.width, caps.max_image_extent.width),
            height: clamp(requested.height, caps.min_image_extent.height, caps.max_image_extent.height),
        }
    }
}

fn clamp(v: u32, lo: u32, hi: u32) -> (r: u32)
    requires
        lo <= hi,
    ensures
        r == clamp_u32(v, lo, hi),
{
    if v < lo {
        lo
    } else if v > hi {
        hi
    } else {
        v
    }
}

/// Images to ask for: one more than the minimum (at least two), within the
/// maximum when there is one, and never below the minimum.
pub open spec fn spec_image_count(caps: SurfaceCaps) -> u32 {
    let more = if caps.min_image_count < u32::MAX { (caps.min_image_count + 1) as u32 } else { u32::MAX };
    let n = if more >= 2 { more } else { 2 };
    let n = if caps.max_image_count > 0 && caps.max_image_count < n { caps.max_image_count } else { n };
    if n >= caps.min_image_count { n } else { caps.min_image_count }
}

pub fn image_count(caps: &SurfaceCaps) -> (n: u32)
    ensures
        n == spec_image_count(*caps),
        n >= caps.min_image_count,
{
    let more = caps.min_image_count.saturating_add(1);
    let mut n = if more >= 2 { more } else { 2 };
    if caps.max_image_count > 0 && caps.max_image_count < n {
        n = caps.max_image_count;
    }
    if n >= caps.min_image_count {
        n
    } else {
        caps.min_image_count
    }
}

/// What the driver says of one GPU.
#[derive(Clone, Copy, Debug, PartialEq, Eq)]
pub struct DeviceCandidate {
    /// Packed Vulkan API version.
    pub api_version: u32,
    pub has_swapchain: bool,
    /// The first queue family that draws and presents, if any.
    pub graphics_present_family: Option<u32>,
    pub device_type: i32,
}

/// At least Vulkan 1.3: major above 1, or 1 with minor at least 3.
pub open spec fn supports_1_3(api_version: u32) -> bool {
    let major = api_version as int / 0x40_0000 % 128;
    let minor = api_version as int / 0x1000 % 1024;
    major > 1 || (major == 1 && minor >= 3)
}

/// Discrete before integrated before anything else.
pub open spec fn device_score(device_type: i32) -> int {
    if device_type == VK_DEVICE_TYPE_DISCRETE_GPU {
        1000
    } else if device_type == VK_DEVICE_TYPE_INTEGRATED_GPU {
        100
    } else {
        10
    }
}

pub open spec fn usable(c: DeviceCandidate) -> bool {
    supports_1_3(c.api_version) && c.has_swapchain && c.graphics_present_family is Some
}

/// The index of the best usable GPU among the first `n`: the first one of
/// the highest score.
pub open spec fn best_upto(cs: Seq<DeviceCandidate>, n: int) -> Option<int>
    decreases n,
{
    if n <= 0 {
        None
    } else {
        let prev = best_upto(cs, n - 1);
        let c = cs[n - 1];
        if !usable(c) {
            prev
        } else {
            match prev {
                None => Some(n - 1),
                Some(b) => if device_score(cs[b].device_type) < device_score(c.device_type) {
                    Some(n - 1)
                } else {
                    prev
                },
            }
        }
    }
}

fn score(device_type: i32) -> (s: i32)
    ensures
        s == device_score(device_type),
{
    if device_type == VK_DEVICE_TYPE_DISCRETE_GPU {
        1000
    } else if device_type == VK_DEVICE_TYPE_INTEGRATED_GPU {
        100
    } else {
        10
    }
}

/// The GPU to use and its queue family: Vulkan 1.3, a swapchain, a queue that
/// draws and presents; discrete first; among equals, the first reported.
pub fn pick_device(candidates: &[DeviceCandidate]) -> (r: Result<(usize, u32), RhiError>)
    ensures
        match r {
            Ok((i, family)) => best_upto(candidates@, candidates@.len() as int) == Some(i as int)
                && candidates@[i as int].graphics_present_family == Some(family),
            Err(e) => best_upto(candidates@, candidates@.len() as int) is None && e is NoDevice,
        },
{
    let mut best: Option<(i32, usize, u32)> = None;
    let mut k: usize = 0;
    while k < candidates.len()
        invariant
            k <= candidates@.len(),
            match best {
                None => best_upto(candidates@, k as int) is None,
                Some((s, i, f)) => best_upto(candidates@, k as int) == Some(i as int) && i < k && s == device_score(
                    candidates@[i as int].device_type,
                ) && candidates@[i as int].graphics_present_family == Some(f),
            },
        decreases candidates.len() - k,
    {
        let c = candidates[k];
        let major = c.api_version / 0x40_0000 % 128;
        let minor = c.api_version / 0x1000 % 1024;
        let api_ok = major > 1 || (major == 1 && minor >= 3);
        if api_ok && c.has_swapchain {
            if let Some(family) = c.graphics_present_family {
                let s = score(c.device_type);
                let better = match best {
                    None => true,
                    Some((b, _, _)) => b < s,
                };
                if better {
                    best = Some((s, k, family));
                }
            }
        }
        k = k + 1;
    }
    match best {
        Some((_, i, f)) => Ok((i, f)),
        None => Err(RhiError::NoDevice),
    }
}

/// The first queue family that draws and can present to the surface.
pub fn find_graphics_present(graphics: &[bool], present: &[bool]) -> (r: Option<u32>)
    requires
        graphics@.len() == present@.len(),
        graphics@.len() <= u32::MAX,
    ensures
        match r {
            Some(i) => i < graphics@.len() && graphics@[i as int] && present@[i as int] && forall|j: int|
                0 <= j < i ==> !(graphics@[j] && present@[j]),
            None => forall|j: int| 0 <= j < graphics@.len() ==> !(graphics@[j] && present@[j]),
        },
{
    let mut i: usize = 0;
    while i < graphics.len()
        invariant
            i <= graphics@.len(),
            graphics@.len() == present@.len(),
            graphics@.len() <= u32::MAX,
            forall|j: int| 0 <= j < i ==> !(graphics@[j] && present@[j]),
        decreases graphics.len() - i,
    {
        if graphics[i] && present[i] {
            return Some(i as u32);
        }
        i = i + 1;
    }
    None
}

/// The features and limit of a GPU that the bindless heap and dynamic
/// rendering need, as the driver reports them.
#[derive(Clone, Copy, Debug)]
pub struct DeviceFeatures {
    pub dynamic_rendering: bool,
    pub descriptor_indexing: bool,
    pub descriptor_binding_partially_bound: bool,
    pub descriptor_binding_sampled_image_update_after_bind: bool,
    pub descriptor_binding_variable_descriptor_count: bool,
    pub runtime_descriptor_array: bool,
    pub shader_sampled_image_array_non_uniform_indexing: bool,
    pub max_update_after_bind_sampled_images: u32,
}

/// Refuses a missing feature by its name.
pub fn require_true(flag: bool, name: &str) -> (r: Result<(), RhiError>)
    ensures
        match r {
            Ok(_) => flag,
            Err(e) => !flag && is_message(e, "GPU lacks "@ + name@),
        },
{
    if !flag {
        let mut m = new_text("GPU lacks ");
        push_text(&mut m, name);
        return Err(RhiError::Message(m));
    }
    Ok(())
}

/// The features the engine needs, by the names the driver gives them, in
/// the order they are checked.
pub open spec fn feature_flags(f: DeviceFeatures) -> Seq<(bool, Seq<char>)> {
    seq![
        (f.descriptor_indexing, "descriptorIndexing"@),
        (f.descriptor_binding_partially_bound, "descriptorBindingPartiallyBound"@),
        (f.descriptor_binding_sampled_image_update_after_bind, "descriptorBindingSampledImageUpdateAfterBind"@),
        (f.descriptor_binding_variable_descriptor_count, "descriptorBindingVariableDescriptorCount"@),
        (f.runtime_descriptor_array, "runtimeDescriptorArray"@),
        (f.shader_sampled_image_array_non_uniform_indexing, "shaderSampledImageArrayNonUniformIndexing"@),
    ]
}

/// The first missing feature among the first `n`, if any.
pub open spec fn first_missing(flags: Seq<(bool, Seq<char>)>, n: int) -> Option<Seq<char>>
    decreases n,
{
    if n <= 0 {
        None
    } else {
        match first_missing(flags, n - 1) {
            Some(name) => Some(name),
            None => if !flags[n - 1].0 {
                Some(flags[n - 1].1)
            } else {
                None
            },
        }
    }
}

pub open spec fn limit_message(have: u32) -> Seq<char> {
    "GPU maxDescriptorSetUpdateAfterBindSampledImages is "@ + decimal(have as nat) + " (need "@ + decimal(
        BINDLESS_HEAP_SIZE as nat,
    ) + ")"@
}

/// The first step of opening the Vulkan device: it needs a window to present
/// to, and the window's extent is the one asked for, at least one texel a
/// side.
pub fn window_extent(has_window: bool, width: u32, height: u32) -> (r: Result<Extent2D, RhiError>)
    ensures
        match r {
            Ok(e) => has_window && e == (Extent2D {
                width: if width >= 1 { width } else { 1 },
                height: if height >= 1 { height } else { 1 },
            }),
            Err(e) => !has_window && e is WindowRequired,
        },
{
    if !has_window {
        return Err(RhiError::WindowRequired);
    }
    Ok(Extent2D { width: if width >= 1 { width } else { 1 }, height: if height >= 1 { height } else { 1 } })
}

/// Whether a GPU can run the engine: dynamic rendering first, then each
/// descriptor-indexing feature in turn, then room for the whole bindless
/// heap. The first lack found is the one reported.
pub fn check_device_features(f: &DeviceFeatures) -> (r: Result<(), RhiError>)
    ensures
        match r {
            Ok(_) => f.dynamic_rendering && first_missing(feature_flags(*f), 6) is None
                && f.max_update_after_bind_sampled_images >= BINDLESS_HEAP_SIZE,
            Err(e) => if !f.dynamic_rendering {
                is_message(e, "GPU lacks dynamic rendering (Vulkan 1.3)"@)
            } else {
                match first_missing(feature_flags(*f), 6) {
                    Some(name) => is_message(e, "GPU lacks "@ + name),
                    None => f.max_update_after_bind_sampled_images < BINDLESS_HEAP_SIZE && is_message(
                        e,
                        limit_message(f.max_update_after_bind_sampled_images),
                    ),
                }
            },
        },
{
    if !f.dynamic_rendering {
        return Err(RhiError::msg("GPU lacks dynamic rendering (Vulkan 1.3)"));
    }
    let ghost flags = feature_flags(*f);
    assert(first_missing(flags, 0) is None);
    require_true(f.descriptor_indexing, "descriptorIndexing")?;
    assert(first_missing(flags, 1) is None);
    require_true(f.descriptor_binding_partially_bound, "descriptorBindingPartiallyBound")?;
    assert(first_missing(flags, 2) is None);
    require_true(
        f.descriptor_binding_sampled_image_update_after_bind,
        "descriptorBindingSampledImageUpdateAfterBind",
    )?;
    assert(first_missing(flags, 3) is None);
    require_true(f.descriptor_binding_variable_descriptor_count, "descriptorBindingVariableDescriptorCount")?;
    assert(first_missing(flags, 4) is None);
    require_true(f.runtime_descriptor_array, "runtimeDescriptorArray")?;
    assert(first_missing(flags, 5) is None);
    require_true(f.shader_sampled_image_array_non_uniform_indexing, "shaderSampledImageArrayNonUniformIndexing")?;
    assert(first_missing(flags, 6) is None);
    let have = f.max_update_after_bind_sampled_images;
    if have < BINDLESS_HEAP_SIZE {
        let mut m = new_text("GPU maxDescriptorSetUpdateAfterBindSampledImages is ");
        push_decimal(&mut m, have as u64);
        push_text(&mut m, " (need ");
        push_decimal(&mut m, BINDLESS_HEAP_SIZE as u64);
        push_text(&mut m, ")");
        return Err(RhiError::Message(m));
    }
    Ok(())
}

} // verus!
