use crate::hierarchy::{acyclic, slot_model};
use crate::model::{AnimatedBone, Animation, BoneTransformsUniform, LocalSample, Skeleton, MAX_BONES};
use crate::resolver::{parent_missing, resolve, resolve_recursive, ResolveError};
use vstd::prelude::*;

verus! {

/// Nanoseconds in one second; playback time is counted in nanoseconds.
pub const NANOS_PER_SECOND: u64 = 1_000_000_000;

/// Default sampling cadence: 24 frames per second.
pub const DEFAULT_FRAME_TIME: u64 = NANOS_PER_SECOND / 24;

/// Fixed-step playback state of one animated instance.
pub struct AnimationPlayer {
    /// Time accumulated since the last frame step, in nanoseconds.
    pub current_time: u64,
    /// Index of the keyframe to sample; wrapped per bone by the resolver.
    pub current_frame_index: usize,
    /// Length of one frame step, in nanoseconds.
    pub frame_time: u64,
}

impl AnimationPlayer {
    /// A player at frame 0 stepping at 24 frames per second.
    pub fn new() -> (r: AnimationPlayer)
        ensures
            r.current_time == 0,
            r.current_frame_index == 0,
            r.frame_time == DEFAULT_FRAME_TIME,
    {
        AnimationPlayer { current_time: 0, current_frame_index: 0, frame_time: DEFAULT_FRAME_TIME }
    }

    /// Back to frame 0 with no time accumulated; used on a clip switch.
    pub fn reset(&mut self)
        ensures
            final(self).current_frame_index == 0,
            final(self).current_time == 0,
            final(self).frame_time == old(self).frame_time,
    {
        self.current_frame_index = 0;
        self.current_time = 0;
    }

    /// The player state after `delta_time` more nanoseconds: once the
    /// accumulated time reaches the frame time, the frame index steps by one
    /// and the accumulator restarts at zero.
    pub open spec fn advanced(self, delta_time: u64) -> AnimationPlayer {
        let t = self.current_time + delta_time;
        if t >= self.frame_time {
            AnimationPlayer {
                current_time: 0,
                current_frame_index: if self.current_frame_index == usize::MAX {
                    0
                } else {
                    (self.current_frame_index + 1) as usize
                },
                frame_time: self.frame_time,
            }
        } else {
            AnimationPlayer {
                current_time: t as u64,
                current_frame_index: self.current_frame_index,
                frame_time: self.frame_time,
            }
        }
    }

    /// Accumulates `delta_time` nanoseconds (see `advanced`).
    pub fn advance(&mut self, delta_time: u64)
        ensures
            *final(self) == old(self).advanced(delta_time),
    {
        let t = self.current_time.saturating_add(delta_time);
        if t >= self.frame_time {
            self.current_frame_index = self.current_frame_index.wrapping_add(1);
            self.current_time = 0;
        } else {
            self.current_time = t;
        }
    }
}

impl AnimationPlayer {
    /// The local transform of `bone` at the current frame.
    pub fn get_bone_model_matrix(&self, bone: &AnimatedBone) -> (r: Option<LocalSample>)
        ensures
            r == bone.sample_at(self.current_frame_index as nat),
    {
        bone.sample(self.current_frame_index)
    }

    /// Resolves the skinning slots at the current frame with the ordered
    /// strategy, then advances by `delta_time` nanoseconds.
    pub fn animate_with_ordered_bones(
        &mut self,
        delta_time: u64,
        animation: &Animation,
        skeleton: &Skeleton,
    ) -> (r: BoneTransformsUniform)
        requires
            skeleton.ordered_wf(),
        ensures
            *final(self) == old(self).advanced(delta_time),
            r.transforms@.len() == MAX_BONES,
            forall|i: int|
                0 <= i < MAX_BONES ==> #[trigger] r.transforms@[i]@ == slot_model(
                    skeleton.parents(),
                    animation.name_samples(*skeleton, old(self).current_frame_index as nat),
                    skeleton.inverse_binds(),
                    i,
                ),
    {
        let out = resolve(skeleton, animation, self.current_frame_index);
        self.advance(delta_time);
        out
    }

    /// Resolves the skinning slots at the current frame with the memoized
    /// strategy, then advances by `delta_time` nanoseconds; on an error the
    /// player does not advance.
    pub fn animate(&mut self, delta_time: u64, animation: &Animation, skeleton: &Skeleton) -> (r:
        Result<BoneTransformsUniform, ResolveError>)
        requires
            skeleton.ids_dense(),
        ensures
            r is Ok ==> *final(self) == old(self).advanced(delta_time),
            r is Err ==> *final(self) == *old(self),
            r matches Err(ResolveError::ParentNotFound) <==> parent_missing(*skeleton, *animation),
            r matches Err(ResolveError::CyclicHierarchy) <==> !parent_missing(*skeleton, *animation)
                && !acyclic(skeleton.parents()),
            r matches Ok(u) ==> {
                &&& u.transforms@.len() == MAX_BONES
                &&& forall|i: int|
                    0 <= i < MAX_BONES ==> #[trigger] u.transforms@[i]@ == slot_model(
                        skeleton.parents(),
                        animation.id_samples(*skeleton, old(self).current_frame_index as nat),
                        skeleton.inverse_binds(),
                        i,
                    )
            },
    {
        let out = resolve_recursive(skeleton, animation, self.current_frame_index);
        if out.is_ok() {
            self.advance(delta_time);
        }
        out
    }
}

/// The clip after `selected` among `clip_count` clips, wrapping to the first.
pub fn next_clip(selected: usize, clip_count: usize) -> (r: usize)
    ensures
        r == if selected + 1 >= clip_count {
            0
        } else {
            selected + 1
        },
{
    if selected >= clip_count || selected + 1 >= clip_count {
        0
    } else {
        selected + 1
    }
}

} // verus!
