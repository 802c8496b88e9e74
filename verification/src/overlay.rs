//! The debug overlay's decisions: when it may draw over a frame, when it
//! must first wait for the other frames in flight, and when a texture it
//! dropped can really be freed. The device records the drawing itself.

use vstd::prelude::*;

use crate::null_gpu::RhiError;
use crate::rhi::FRAMES_IN_FLIGHT;

verus! {

/// What the overlay does this frame.
#[derive(Clone, Copy, Debug, PartialEq, Eq, Structural)]
pub enum UiStep {
    /// Nothing to draw, upload or free.
    Skip,
    /// Draw; with new texture data, after waiting for the other frames in
    /// flight, which may still sample the textures being rewritten.
    Draw { wait_other_frames: bool },
}

pub open spec fn spec_ui_step(
    in_frame: bool,
    in_pass: bool,
    primitives: usize,
    textures_set: usize,
    textures_free: usize,
) -> Result<UiStep, RhiError> {
    if !in_frame {
        Err(RhiError::NotInFrame)
    } else if in_pass {
        Err(RhiError::PassMismatch)
    } else if primitives == 0 && textures_set == 0 && textures_free == 0 {
        Ok(UiStep::Skip)
    } else {
        Ok(UiStep::Draw { wait_other_frames: textures_set > 0 })
    }
}

/// Decides the overlay's frame from the device's scope and the sizes of
/// what it is handed: it draws inside a frame, outside any pass, over a
/// swapchain image already presented; with nothing to draw, upload or free
/// it does nothing.
pub fn ui_step(
    in_frame: bool,
    in_pass: bool,
    primitives: usize,
    textures_set: usize,
    textures_free: usize,
) -> (r: Result<UiStep, RhiError>)
    ensures
        r == spec_ui_step(in_frame, in_pass, primitives, textures_set, textures_free),
{
    if !in_frame {
        return Err(RhiError::NotInFrame);
    }
    if in_pass {
        return Err(RhiError::PassMismatch);
    }
    if primitives == 0 && textures_set == 0 && textures_free == 0 {
        return Ok(UiStep::Skip);
    }
    Ok(UiStep::Draw { wait_other_frames: textures_set > 0 })
}

/// Textures dropped at frame `dropped` may be freed at frame `frame`: every
/// frame that could still sample them has finished.
pub open spec fn may_free(dropped: u64, frame: u64) -> bool {
    frame >= dropped + FRAMES_IN_FLIGHT
}

/// A batch that may be freed at `frame`.
pub open spec fn due_at<T>(frame: u64) -> spec_fn((u64, Vec<T>)) -> bool {
    |e: (u64, Vec<T>)| may_free(e.0, frame)
}

/// A batch that must wait past `frame`.
pub open spec fn waits_at<T>(frame: u64) -> spec_fn((u64, Vec<T>)) -> bool {
    |e: (u64, Vec<T>)| !may_free(e.0, frame)
}

/// Textures the overlay dropped, each batch with the frame it was dropped
/// in, oldest first.
pub struct PendingFree<T> {
    entries: Vec<(u64, Vec<T>)>,
}

impl<T> View for PendingFree<T> {
    type V = Seq<(u64, Vec<T>)>;

    closed spec fn view(&self) -> Seq<(u64, Vec<T>)> {
        self.entries@
    }
}

impl<T> PendingFree<T> {
    pub fn new() -> (p: Self)
        ensures
            p@ == Seq::<(u64, Vec<T>)>::empty(),
    {
        PendingFree { entries: Vec::new() }
    }

    /// Batches still waiting.
    pub fn len(&self) -> (n: usize)
        ensures
            n == self@.len(),
    {
        self.entries.len()
    }

    /// Takes out, oldest first, the batches that may be freed at
    /// `frame_index`; the others wait, in their order.
    pub fn release_due(&mut self, frame_index: u64) -> (freed: Vec<Vec<T>>)
        ensures
            final(self)@ == old(self)@.filter(waits_at(frame_index)),
            freed@ == old(self)@.filter(due_at(frame_index)).map_values(
                |e: (u64, Vec<T>)| e.1,
            ),
    {
        let ghost orig = self.entries@;
        let ghost due = due_at::<T>(frame_index);
        let ghost waits = waits_at::<T>(frame_index);
        let mut freed: Vec<Vec<T>> = Vec::new();
        let mut i: usize = 0;
        while i < self.entries.len()
            invariant
                i <= self.entries.len(),
                i + freed.len() <= orig.len(),
                due == due_at::<T>(frame_index),
                waits == waits_at::<T>(frame_index),
                self.entries@.take(i as int) == orig.take((i + freed.len()) as int).filter(waits),
                self.entries@.skip(i as int) == orig.skip((i + freed.len()) as int),
                freed@ == orig.take((i + freed.len()) as int).filter(due).map_values(|e: (u64, Vec<T>)| e.1),
            decreases self.entries.len() - i,
        {
            let ghost j = (i + freed.len()) as int;
            let ghost before = self.entries@;
            proof {
                assert(before.skip(i as int).len() == before.len() - i);
                assert(orig.skip(j).len() == orig.len() - j);
                assert(j < orig.len());
                assert(orig.skip(j)[0] == before.skip(i as int)[0]);
                assert(orig[j] == before[i as int]);
                assert(orig.take(j + 1).drop_last() =~= orig.take(j));
                assert(orig.take(j + 1).last() == orig[j]);
            }
            let dropped = self.entries[i].0;
            if frame_index >= FRAMES_IN_FLIGHT as u64 && dropped <= frame_index - FRAMES_IN_FLIGHT as u64 {
                let e = self.entries.remove(i);
                freed.push(e.1);
                proof {
                    assert(dropped == orig[j].0);
                    assert(may_free(orig[j].0, frame_index));
                    assert(due(orig[j]));
                    assert(self.entries@.take(i as int) =~= before.take(i as int));
                    assert forall|k: int| 0 <= k < self.entries@.skip(i as int).len() implies #[trigger] self.entries@.skip(
                        i as int,
                    )[k] == orig.skip(j + 1)[k] by {
                        assert(before.skip(i as int)[k + 1] == orig.skip(j)[k + 1]);
                    }
                    assert(self.entries@.skip(i as int) =~= orig.skip(j + 1));
                    reveal(Seq::filter);
                    assert(orig.take(j + 1).filter(due) == orig.take(j).filter(due).push(orig[j]));
                    assert(orig.take(j + 1).filter(due).map_values(|e: (u64, Vec<T>)| e.1) =~= orig.take(j).filter(
                        due,
                    ).map_values(|e: (u64, Vec<T>)| e.1).push(orig[j].1));
                }
            } else {
                proof {
                    assert(dropped == orig[j].0);
                    assert(!may_free(orig[j].0, frame_index));
                    assert(waits(orig[j]));
                    assert(self.entries@.take(i as int + 1) =~= before.take(i as int).push(before[i as int]));
                    assert forall|k: int| 0 <= k < self.entries@.skip(i as int + 1).len() implies #[trigger] self.entries@.skip(
                        i as int + 1,
                    )[k] == orig.skip(j + 1)[k] by {
                        assert(before.skip(i as int)[k + 1] == orig.skip(j)[k + 1]);
                    }
                    assert(self.entries@.skip(i as int + 1) =~= orig.skip(j + 1));
                    reveal(Seq::filter);
                    assert(orig.take(j + 1).filter(waits) == orig.take(j).filter(waits).push(orig[j]));
                }
                i = i + 1;
            }
        }
        proof {
            assert(orig.skip((i + freed.len()) as int).len() == 0);
            assert(orig.take((i + freed.len()) as int) =~= orig);
            assert(self.entries@.take(i as int) =~= self.entries@);
        }
        freed
    }

    /// Keeps the textures dropped at `frame_index` until they may be freed;
    /// an empty batch is not kept.
    pub fn defer(&mut self, frame_index: u64, ids: Vec<T>)
        ensures
            final(self)@ == if ids.len() == 0 {
                old(self)@
            } else {
                old(self)@.push((frame_index, ids))
            },
    {
        if ids.len() > 0 {
            self.entries.push((frame_index, ids));
        }
    }
}

} // verus!
