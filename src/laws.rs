use crate::hierarchy::{
    acyclic, lemma_parent_first_rooted, lemma_world_root, lemma_world_step, parents_resolve,
    rooted, slot_model, world_chain,
};
use crate::model::{Animation, LocalSample, MatrixBits, SlotModel, Skeleton, MAX_BONES};
use crate::player::AnimationPlayer;
use crate::resolver::{bad_parent, parent_missing};
use vstd::prelude::*;

verus! {

/// The two resolver strategies agree: on a parent-first skeleton whose
/// animation indexes the same tracks by id and by name, and gives tracks to
/// the parent of every bone that has tracks, the memoized strategy succeeds
/// (no missing parent, no cycle) and every slot equals the one the ordered
/// strategy produces.
pub proof fn lemma_strategies_agree(skeleton: Skeleton, animation: Animation, frame: nat)
    requires
        skeleton.ordered_wf(),
        animation.indexed_consistently(skeleton),
        forall|i: int|
            0 <= i < skeleton.bones_ordered@.len() && animation.bone_keyframes@.contains_key(
                i as usize,
            ) && (#[trigger] skeleton.bones_ordered@[i]).parent_id is Some
                ==> animation.bone_keyframes@.contains_key(
                skeleton.bones_ordered@[i].parent_id.unwrap(),
            ),
    ensures
        !parent_missing(skeleton, animation),
        parents_resolve(skeleton.parents()),
        acyclic(skeleton.parents()),
        animation.name_samples(skeleton, frame) == animation.id_samples(skeleton, frame),
        forall|i: int|
            0 <= i < MAX_BONES ==> #[trigger] slot_model(
                skeleton.parents(),
                animation.name_samples(skeleton, frame),
                skeleton.inverse_binds(),
                i,
            ) == slot_model(
                skeleton.parents(),
                animation.id_samples(skeleton, frame),
                skeleton.inverse_binds(),
                i,
            ),
{
    let ps = skeleton.parents();
    let n = ps.len();
    assert forall|i: int| 0 <= i < n implies match #[trigger] ps[i] {
        Some(p) => p < i,
        None => true,
    } by {
        assert(ps[i] == skeleton.bones_ordered@[i].parent_id);
    }
    assert forall|i: int| 0 <= i < n implies !#[trigger] bad_parent(skeleton, animation, i) by {
        assert(ps[i] == skeleton.bones_ordered@[i].parent_id);
        assert(skeleton.bones_ordered@[i] == skeleton.bones_ordered@[i]);
    }
    assert forall|i: int| 0 <= i < n implies #[trigger] rooted(ps, i) by {
        lemma_parent_first_rooted(ps, i);
    }
    let by_name = animation.name_samples(skeleton, frame);
    let by_id = animation.id_samples(skeleton, frame);
    assert forall|i: int| 0 <= i < n implies by_name[i] == by_id[i] by {
        let named = animation.named(skeleton.bones_ordered@[i].name@);
        if named is Some {
            assert(animation.bone_keyframes@[i as usize].tracks_equal(named.unwrap()));
        }
    }
    assert(by_name == by_id);
}

/// A root bone's slot is its own local transform times its inverse-bind matrix.
pub proof fn lemma_root_slot(
    parents: Seq<Option<usize>>,
    samples: Seq<Option<LocalSample>>,
    inverse_binds: Seq<MatrixBits>,
    i: int,
    s: LocalSample,
)
    requires
        0 <= i < parents.len(),
        parents[i] is None,
        samples[i] == Some(s),
    ensures
        slot_model(parents, samples, inverse_binds, i) == (SlotModel::Skinned {
            chain: seq![s],
            inverse_bind: inverse_binds[i],
        }),
{
    lemma_world_root(parents, samples, i);
    assert(Seq::<LocalSample>::empty().push(s) == seq![s]);
}

/// A child's world transform is its parent's world transform followed by the
/// child's own local transform: whatever moves the parent moves the child.
pub proof fn lemma_parent_propagation(
    parents: Seq<Option<usize>>,
    samples: Seq<Option<LocalSample>>,
    child: int,
    parent: usize,
    s: LocalSample,
)
    requires
        0 <= child < parents.len(),
        parent < parents.len(),
        parents[child] == Some(parent),
        rooted(parents, parent as int),
        samples[child] == Some(s),
    ensures
        world_chain(parents, samples, child) == world_chain(parents, samples, parent as int).push(
            s,
        ),
{
    lemma_world_step(parents, samples, child, parent);
}

/// Slots past the last bone hold the identity.
pub proof fn lemma_padding(
    parents: Seq<Option<usize>>,
    samples: Seq<Option<LocalSample>>,
    inverse_binds: Seq<MatrixBits>,
)
    ensures
        forall|i: int|
            parents.len() <= i < MAX_BONES ==> #[trigger] slot_model(
                parents,
                samples,
                inverse_binds,
                i,
            ) == SlotModel::Identity,
{
}

/// The player state after `count` calls of `advance(delta_time)`.
pub open spec fn advanced_times(p: AnimationPlayer, delta_time: u64, count: nat) -> AnimationPlayer
    decreases count,
{
    if count == 0 {
        p
    } else {
        advanced_times(p, delta_time, (count - 1) as nat).advanced(delta_time)
    }
}

/// Stepping by at least one frame time advances the frame index by exactly
/// one per call and leaves no time accumulated.
pub proof fn lemma_playback_cadence(p: AnimationPlayer, delta_time: u64, count: nat)
    requires
        delta_time >= p.frame_time,
        p.current_frame_index + count <= usize::MAX,
    ensures
        advanced_times(p, delta_time, count).current_frame_index == p.current_frame_index + count,
        advanced_times(p, delta_time, count).frame_time == p.frame_time,
        count > 0 ==> advanced_times(p, delta_time, count).current_time == 0,
    decreases count,
{
    if count > 0 {
        lemma_playback_cadence(p, delta_time, (count - 1) as nat);
    }
}

} // verus!
