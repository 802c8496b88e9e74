//! The frame protocol of the Vulkan device around its swapchain: when a
//! frame is skipped, when the swapchain is rebuilt, how many times an image
//! is asked for, and what a present leaves behind. The device makes each
//! driver call and hands its outcome to these steps; Vulkan result codes are
//! those of the specification.

use vstd::prelude::*;

use crate::null_gpu::{is_message, RhiError};
use crate::rhi::{Extent2D, Format, FrameInfo, FRAMES_IN_FLIGHT};

verus! {

pub const VK_SUCCESS: i32 = 0;
pub const VK_TIMEOUT: i32 = 2;
pub const VK_SUBOPTIMAL_KHR: i32 = 1000001003;
pub const VK_ERROR_DEVICE_LOST: i32 = -4;
pub const VK_ERROR_OUT_OF_DATE_KHR: i32 = -1000001004;

/// How many times one frame asks the swapchain for an image.
pub const ACQUIRE_TRIES: u32 = 3;

/// The device's error for a failed driver call: a lost device has its own.
pub open spec fn spec_from_vk(code: i32) -> RhiError {
    if code == VK_ERROR_DEVICE_LOST {
        RhiError::DeviceLost
    } else {
        RhiError::Vulkan(code)
    }
}

/// The frame bookkeeping of the swapchain device.
#[derive(Clone, Copy, Debug)]
pub struct SwapchainFrames {
    pub in_frame: bool,
    pub in_pass: bool,
    /// The open pass renders to textures, not to the swapchain.
    pub offscreen: bool,
    /// The window is 0 wide or high: frames are skipped until it is not.
    pub zero_extent: bool,
    /// The swapchain went stale; it is rebuilt before the next frame.
    pub pending_recreate: bool,
    pub frame_index: u64,
    pub window_extent: Extent2D,
    pub swapchain_extent: Extent2D,
}

/// How a frame starts: skipped, or opened on a frame slot, after a rebuild
/// of the swapchain when one is pending.
#[derive(Clone, Copy, Debug, PartialEq, Eq, Structural)]
pub enum FrameStart {
    Skip,
    Open { recreate_first: bool, slot: u32 },
}

/// What asking the swapchain for an image gave.
#[derive(Clone, Copy, Debug, PartialEq, Eq, Structural)]
pub enum AcquireOutcome {
    Acquired { index: u32, suboptimal: bool },
    Failed(i32),
}

/// What the frame does next: draw to an image (rebuilding the swapchain at
/// the next frame when it was suboptimal), rebuild now and ask again, or
/// give up.
#[derive(Debug)]
pub enum AcquireStep {
    Use { index: u32, recreate_later: bool },
    RecreateAndRetry,
    Fail(RhiError),
}

/// What a resize asks of the device.
#[derive(Clone, Copy, Debug, PartialEq, Eq, Structural)]
pub enum ResizeStep {
    Nothing,
    Recreate,
}

/// How the next frame starts; none while a frame is open.
pub open spec fn spec_frame_start(s: SwapchainFrames) -> Option<FrameStart> {
    if s.in_frame {
        None
    } else if s.zero_extent {
        Some(FrameStart::Skip)
    } else {
        Some(
            FrameStart::Open {
                recreate_first: s.pending_recreate,
                slot: (s.frame_index % FRAMES_IN_FLIGHT as u64) as u32,
            },
        )
    }
}

/// The step an acquire outcome leads to.
pub open spec fn spec_acquire_step(outcome: AcquireOutcome) -> AcquireStep {
    match outcome {
        AcquireOutcome::Acquired { index, suboptimal } => AcquireStep::Use { index, recreate_later: suboptimal },
        AcquireOutcome::Failed(code) => if code == VK_ERROR_OUT_OF_DATE_KHR {
            AcquireStep::RecreateAndRetry
        } else if code == VK_TIMEOUT {
            AcquireStep::Fail(RhiError::FrameTimeout)
        } else {
            AcquireStep::Fail(spec_from_vk(code))
        },
    }
}

/// The state once a frame is open on `image`: in a frame, no pass, a
/// suboptimal image remembered for the next frame.
pub open spec fn spec_frame_opened(s: SwapchainFrames, recreate_later: bool) -> SwapchainFrames {
    SwapchainFrames {
        in_frame: true,
        in_pass: false,
        offscreen: false,
        pending_recreate: s.pending_recreate || recreate_later,
        ..s
    }
}

/// The state after the present of a frame whose result code is `code`
/// (`VK_SUCCESS` when it went through).
pub open spec fn spec_presented(s: SwapchainFrames, code: i32) -> SwapchainFrames {
    SwapchainFrames {
        in_frame: false,
        frame_index: (s.frame_index + 1) as u64,
        pending_recreate: s.pending_recreate || code == VK_ERROR_OUT_OF_DATE_KHR || code == VK_SUBOPTIMAL_KHR,
        ..s
    }
}

/// A present result that ends the frame normally.
pub open spec fn present_went_through(code: i32) -> bool {
    code == VK_SUCCESS || code == VK_ERROR_OUT_OF_DATE_KHR || code == VK_SUBOPTIMAL_KHR
}

/// The state and request after the window became `width` x `height`.
pub open spec fn spec_resized(s: SwapchainFrames, width: u32, height: u32) -> (SwapchainFrames, ResizeStep) {
    let w = SwapchainFrames { window_extent: Extent2D { width, height }, ..s };
    if width == 0 || height == 0 {
        (SwapchainFrames { zero_extent: true, ..w }, ResizeStep::Nothing)
    } else if !s.zero_extent && width == s.swapchain_extent.width && height == s.swapchain_extent.height {
        (w, ResizeStep::Nothing)
    } else {
        (SwapchainFrames { zero_extent: false, ..w }, ResizeStep::Recreate)
    }
}

impl SwapchainFrames {
    /// The bookkeeping of a new device on a window of `width` x `height`
    /// (each at least 1), whose swapchain came out `swapchain_extent`.
    pub fn new(width: u32, height: u32, swapchain_extent: Extent2D) -> (s: Self)
        ensures
            s == (SwapchainFrames {
                in_frame: false,
                in_pass: false,
                offscreen: false,
                zero_extent: false,
                pending_recreate: false,
                frame_index: 0,
                window_extent: Extent2D {
                    width: if width >= 1 {
                        width
                    } else {
                        1
                    },
                    height: if height >= 1 {
                        height
                    } else {
                        1
                    },
                },
                swapchain_extent,
            }),
    {
        SwapchainFrames {
            in_frame: false,
            in_pass: false,
            offscreen: false,
            zero_extent: false,
            pending_recreate: false,
            frame_index: 0,
            window_extent: Extent2D {
                width: if width >= 1 {
                    width
                } else {
                    1
                },
                height: if height >= 1 {
                    height
                } else {
                    1
                },
            },
            swapchain_extent,
        }
    }

    /// How the next frame starts. A frame is never opened twice; a window
    /// with no area skips frames; the frame slot cycles through the frames
    /// in flight.
    pub fn begin_frame(&self) -> (r: Result<FrameStart, RhiError>)
        ensures
            match r {
                Ok(start) => spec_frame_start(*self) == Some(start),
                Err(e) => self.in_frame && is_message(e, "begin_frame while a frame is open"@),
            },
    {
        if self.in_frame {
            return Err(RhiError::msg("begin_frame while a frame is open"));
        }
        if self.zero_extent {
            return Ok(FrameStart::Skip);
        }
        Ok(FrameStart::Open { recreate_first: self.pending_recreate, slot: (self.frame_index % (FRAMES_IN_FLIGHT as u64)) as u32 })
    }

    /// The frame reported for a skipped frame: the window's extent, the
    /// swapchain's format, the current frame number.
    pub fn skipped_info(&self, format: Format) -> (f: FrameInfo)
        ensures
            f == (FrameInfo { extent: self.window_extent, format, frame_index: self.frame_index, skipped: true }),
    {
        FrameInfo { extent: self.window_extent, format, frame_index: self.frame_index, skipped: true }
    }

    /// Whether the swapchain can be rebuilt now. A window with no area
    /// cannot have one; the device then skips frames instead.
    pub fn prepare_recreate(&mut self) -> (go: bool)
        ensures
            go == !(old(self).window_extent.width == 0 || old(self).window_extent.height == 0),
            *final(self) == if go {
                *old(self)
            } else {
                SwapchainFrames { zero_extent: true, ..*old(self) }
            },
    {
        if self.window_extent.is_zero() {
            self.zero_extent = true;
            return false;
        }
        true
    }

    /// Records the extent of a rebuilt swapchain; a rebuild asked for before
    /// the frame or by a resize is done.
    pub fn recreated(&mut self, extent: Extent2D, clears_pending: bool)
        ensures
            *final(self) == (SwapchainFrames {
                swapchain_extent: extent,
                pending_recreate: old(self).pending_recreate && !clears_pending,
                ..*old(self)
            }),
    {
        self.swapchain_extent = extent;
        if clears_pending {
            self.pending_recreate = false;
        }
    }

    /// Opens the frame once an image was acquired.
    pub fn frame_opened(&mut self, recreate_later: bool)
        ensures
            *final(self) == spec_frame_opened(*old(self), recreate_later),
    {
        self.in_frame = true;
        self.in_pass = false;
        self.offscreen = false;
        if recreate_later {
            self.pending_recreate = true;
        }
    }

    /// Whether the frame can be closed: open, and no pass left open.
    pub fn end_frame_check(&self) -> (r: Result<(), RhiError>)
        ensures
            match r {
                Ok(_) => self.in_frame && !self.in_pass,
                Err(e) => if !self.in_frame {
                    e is NotInFrame
                } else {
                    self.in_pass && e is PassMismatch
                },
            },
    {
        if !self.in_frame {
            return Err(RhiError::NotInFrame);
        }
        if self.in_pass {
            return Err(RhiError::PassMismatch);
        }
        Ok(())
    }

    /// Closes the frame after its present. A stale swapchain is rebuilt at
    /// the next frame; any other failure is the device's error, and the
    /// frame stays open.
    pub fn presented(&mut self, code: i32) -> (r: Result<(), RhiError>)
        requires
            old(self).frame_index < u64::MAX,
        ensures
            match r {
                Ok(_) => present_went_through(code) && *final(self) == spec_presented(*old(self), code),
                Err(e) => !present_went_through(code) && *final(self) == *old(self) && e == spec_from_vk(code),
            },
    {
        if code == VK_ERROR_OUT_OF_DATE_KHR || code == VK_SUBOPTIMAL_KHR {
            self.pending_recreate = true;
        } else if code != VK_SUCCESS {
            return Err(RhiError::from_vk(code));
        }
        self.in_frame = false;
        self.frame_index = self.frame_index + 1;
        Ok(())
    }

    /// The window became `width` x `height`. A window with no area stops
    /// frames; a window of the swapchain's size changes nothing; any other
    /// size rebuilds the swapchain.
    pub fn resize(&mut self, width: u32, height: u32) -> (step: ResizeStep)
        ensures
            (*final(self), step) == spec_resized(*old(self), width, height),
    {
        let was_zero = self.zero_extent;
        self.window_extent = Extent2D { width, height };
        if width == 0 || height == 0 {
            self.zero_extent = true;
            return ResizeStep::Nothing;
        }
        if !was_zero && width == self.swapchain_extent.width && height == self.swapchain_extent.height {
            return ResizeStep::Nothing;
        }
        self.zero_extent = false;
        ResizeStep::Recreate
    }
}

/// What waiting for a frame slot's fence gave: the slot is free, or the
/// frame fails: a timeout is a hung GPU.
pub fn fence_waited(code: i32) -> (r: Result<(), RhiError>)
    ensures
        match r {
            Ok(_) => code == VK_SUCCESS,
            Err(e) => code != VK_SUCCESS && e == if code == VK_TIMEOUT {
                RhiError::FrameTimeout
            } else {
                spec_from_vk(code)
            },
        },
{
    if code == VK_SUCCESS {
        Ok(())
    } else if code == VK_TIMEOUT {
        Err(RhiError::FrameTimeout)
    } else {
        Err(RhiError::from_vk(code))
    }
}

/// Counts one more request for an image; the fourth is refused.
pub fn next_acquire_try(tries: u32) -> (r: Result<u32, RhiError>)
    ensures
        match r {
            Ok(n) => tries < ACQUIRE_TRIES && n == tries + 1,
            Err(e) => tries >= ACQUIRE_TRIES && is_message(e, "swapchain acquire failed after recreate"@),
        },
{
    if tries >= ACQUIRE_TRIES {
        return Err(RhiError::msg("swapchain acquire failed after recreate"));
    }
    Ok(tries + 1)
}

/// What to do with the outcome of one request for an image.
pub fn acquire_step(outcome: AcquireOutcome) -> (step: AcquireStep)
    ensures
        step == spec_acquire_step(outcome),
{
    match outcome {
        AcquireOutcome::Acquired { index, suboptimal } => AcquireStep::Use { index, recreate_later: suboptimal },
        AcquireOutcome::Failed(code) => {
            if code == VK_ERROR_OUT_OF_DATE_KHR {
                AcquireStep::RecreateAndRetry
            } else if code == VK_TIMEOUT {
                AcquireStep::Fail(RhiError::FrameTimeout)
            } else {
                AcquireStep::Fail(RhiError::from_vk(code))
            }
        },
    }
}

/// The requests one frame makes for an image when the swapchain answers
/// `outcomes` in turn: each out-of-date answer rebuilds it and asks again,
/// up to the limit. The result is how many answers were used, and whether
/// the frame got an image.
pub open spec fn acquire_run(outcomes: Seq<AcquireOutcome>, tries: nat) -> (nat, bool)
    decreases ACQUIRE_TRIES - tries,
{
    if tries >= ACQUIRE_TRIES || tries >= outcomes.len() {
        (tries, false)
    } else {
        match spec_acquire_step(outcomes[tries as int]) {
            AcquireStep::Use { .. } => ((tries + 1) as nat, true),
            AcquireStep::RecreateAndRetry => acquire_run(outcomes, tries + 1),
            AcquireStep::Fail(_) => ((tries + 1) as nat, false),
        }
    }
}

/// A frame never waits on the swapchain for ever: it asks at most three
/// times, and an image answered on any of those is used.
pub proof fn acquiring_gives_up_after_three_tries(outcomes: Seq<AcquireOutcome>, tries: nat)
    requires
        tries <= ACQUIRE_TRIES,
    ensures
        acquire_run(outcomes, tries).0 <= ACQUIRE_TRIES,
        (tries < ACQUIRE_TRIES && tries < outcomes.len() && outcomes[tries as int] is Acquired) ==> acquire_run(
            outcomes,
            tries,
        ) == ((tries + 1) as nat, true),
    decreases ACQUIRE_TRIES - tries,
{
    if tries < ACQUIRE_TRIES && tries < outcomes.len() {
        if spec_acquire_step(outcomes[tries as int]) is RecreateAndRetry {
            acquiring_gives_up_after_three_tries(outcomes, tries + 1);
        }
    }
}

/// A window resized to no area skips every frame until it has one again;
/// resizing it back rebuilds the swapchain before the next frame is drawn.
pub proof fn a_window_without_area_skips_frames(s: SwapchainFrames, w: u32, h: u32, w2: u32, h2: u32)
    requires
        !s.in_frame,
        w == 0 || h == 0,
        w2 != 0 && h2 != 0,
    ensures
        spec_frame_start(spec_resized(s, w, h).0) == Some(FrameStart::Skip),
        spec_resized(spec_resized(s, w, h).0, w2, h2).1 == ResizeStep::Recreate,
        !spec_resized(spec_resized(s, w, h).0, w2, h2).0.zero_extent,
{
}

/// A present that found the swapchain stale has it rebuilt before the next
/// frame draws anything, and every present that went through counts one
/// frame.
pub proof fn a_stale_swapchain_is_rebuilt_at_the_next_frame(s: SwapchainFrames, code: i32)
    requires
        s.in_frame,
        !s.zero_extent,
        s.frame_index < u64::MAX,
        code == VK_ERROR_OUT_OF_DATE_KHR || code == VK_SUBOPTIMAL_KHR,
    ensures
        spec_frame_start(spec_presented(s, code)) matches Some(FrameStart::Open { recreate_first, .. })
            && recreate_first,
        spec_presented(s, code).frame_index == s.frame_index + 1,
{
}

/// Successive frames take the frame slots in turn.
pub proof fn frames_take_the_slots_in_turn(s: SwapchainFrames)
    requires
        !s.in_frame,
        !s.zero_extent,
        s.frame_index < u64::MAX,
    ensures
        ({
            let t = spec_presented(spec_frame_opened(s, false), VK_SUCCESS);
            &&& spec_frame_start(s) matches Some(FrameStart::Open { slot: a, .. })
            &&& spec_frame_start(t) matches Some(FrameStart::Open { slot: b, .. })
            &&& b == (a + 1) % (FRAMES_IN_FLIGHT as int)
        }),
{
    let i = s.frame_index as int;
    assert(i % 2 < 2 && (i + 1) % 2 < 2);
    assert((i + 1) % 2 == (i % 2 + 1) % 2);
}

} // verus!
