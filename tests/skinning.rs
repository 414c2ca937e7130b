use cgmath::{Matrix4, Quaternion, SquareMatrix, Vector3};
use skeletal_anim::binder::{
    bind_to_skeleton, process_animations, AnimationError, Channel, ChannelOutputs,
};
use skeletal_anim::model::{
    AnimatedBone, Animation, Bone, BoneTransformsUniform, KeyRotation, KeyScale, KeyTranslation,
    LocalSample, MatrixBits, Skeleton, SlotTransform, MAX_BONES, ONE_BITS,
};
use skeletal_anim::player::{next_clip, AnimationPlayer, DEFAULT_FRAME_TIME, NANOS_PER_SECOND};
use skeletal_anim::resolver::{
    count_empty_tracks, count_wrapped_tracks, resolve, resolve_recursive, ResolveError,
};
use skeletal_anim::skeleton::{from_indexed_bones, process_skin, Joint, SkeletonError};
use std::collections::HashMap;

fn identity_bits() -> MatrixBits {
    let m: [[f32; 4]; 4] = Matrix4::<f32>::identity().into();
    to_bits(m)
}

fn to_bits(m: [[f32; 4]; 4]) -> MatrixBits {
    let mut r = [[0u32; 4]; 4];
    for c in 0..4 {
        for k in 0..4 {
            r[c][k] = m[c][k].to_bits();
        }
    }
    r
}

fn from_bits(m: MatrixBits) -> Matrix4<f32> {
    let mut r = [[0f32; 4]; 4];
    for c in 0..4 {
        for k in 0..4 {
            r[c][k] = f32::from_bits(m[c][k]);
        }
    }
    Matrix4::from(r)
}

fn compose(s: &LocalSample) -> Matrix4<f32> {
    let t = s.translation.map(f32::from_bits);
    let q = s.rotation.map(f32::from_bits);
    let sc = s.scale.map(f32::from_bits);
    Matrix4::from_translation(Vector3::from(t))
        * Matrix4::from(Quaternion::from(q))
        * Matrix4::from_nonuniform_scale(sc[0], sc[1], sc[2])
}

fn evaluate(slot: &SlotTransform) -> Matrix4<f32> {
    match slot {
        SlotTransform::Identity => Matrix4::identity(),
        SlotTransform::Skinned { chain, inverse_bind } => {
            let mut world = Matrix4::identity();
            for s in chain {
                world = world * compose(s);
            }
            world * from_bits(*inverse_bind)
        }
    }
}

fn close(a: Matrix4<f32>, b: Matrix4<f32>) -> bool {
    let a: [[f32; 4]; 4] = a.into();
    let b: [[f32; 4]; 4] = b.into();
    (0..4).all(|c| (0..4).all(|k| (a[c][k] - b[c][k]).abs() <= 1e-5))
}

fn sample(t: [f32; 3], r: [f32; 4], s: [f32; 3]) -> LocalSample {
    LocalSample {
        translation: t.map(f32::to_bits),
        rotation: r.map(f32::to_bits),
        scale: s.map(f32::to_bits),
    }
}

fn identity_sample() -> LocalSample {
    sample([0.0; 3], [0.0, 0.0, 0.0, 1.0], [1.0; 3])
}

fn animated(name: &str, frames: &[LocalSample]) -> AnimatedBone {
    AnimatedBone {
        bone_id: 0,
        bone_name: name.to_string(),
        parent_index: None,
        translation_keys: frames
            .iter()
            .enumerate()
            .map(|(i, f)| KeyTranslation { timestamp: (i as f32).to_bits(), translation: f.translation })
            .collect(),
        rotation_keys: frames
            .iter()
            .enumerate()
            .map(|(i, f)| KeyRotation { timestamp: (i as f32).to_bits(), rotation: f.rotation })
            .collect(),
        scale_keys: frames
            .iter()
            .enumerate()
            .map(|(i, f)| KeyScale { timestamp: (i as f32).to_bits(), scale: f.scale })
            .collect(),
    }
}

fn joint(name: &str, index: usize, children: &[usize]) -> Joint {
    Joint { name: name.to_string(), index, children: children.to_vec() }
}

fn bone(id: u32, name: &str, parent: Option<usize>) -> Bone {
    Bone {
        id,
        name: name.to_string(),
        parent_id: parent,
        inverse_bind_matrix: identity_bits(),
        index: id as usize,
    }
}

fn skeleton_of(bones: Vec<Bone>) -> Skeleton {
    from_indexed_bones("rig".to_string(), bones).expect("dense ids")
}

fn chain_skeleton() -> Skeleton {
    skeleton_of(vec![bone(0, "R", None), bone(1, "A", Some(0)), bone(2, "B", Some(1))])
}

fn animation_of(skeleton: &Skeleton, bones: Vec<AnimatedBone>) -> Animation {
    bind_to_skeleton("clip".to_string(), &bones, skeleton).0
}

#[test]
fn built_skeleton_orders_parents_first() {
    // joints listed child-first: 7 is the root, 5 its child, 3 the grandchild
    let joints = vec![joint("hand", 3, &[]), joint("arm", 5, &[3]), joint("root", 7, &[5])];
    let s = process_skin("rig".to_string(), &joints, &vec![identity_bits(); 3]).unwrap();
    let names: Vec<&str> = s.bones_ordered.iter().map(|b| b.name.as_str()).collect();
    assert_eq!(names, vec!["root", "arm", "hand"]);
    for (pos, b) in s.bones_ordered.iter().enumerate() {
        if let Some(p) = b.parent_id {
            assert!(p < pos);
        }
    }
    assert_eq!(s.bones_ordered[1].parent_id, Some(0));
    assert_eq!(s.bones_ordered[2].parent_id, Some(1));
    assert_eq!(s.bones_ordered[2].index, 3);
    assert_eq!(s.bones[&3].parent_id, Some(5));
    assert_eq!(s.bones[&7].parent_id, None);
    assert_eq!(s.bones.len(), 3);
}

#[test]
fn built_skeleton_ids_are_dense() {
    let joints = vec![
        joint("b", 10, &[]),
        joint("a", 20, &[10, 30]),
        joint("c", 30, &[]),
        joint("r", 40, &[20]),
    ];
    let s = process_skin("rig".to_string(), &joints, &vec![identity_bits(); 4]).unwrap();
    let mut ids: Vec<u32> = s.bones_ordered.iter().map(|b| b.id).collect();
    for (pos, id) in ids.iter().enumerate() {
        assert_eq!(*id as usize, pos);
    }
    ids.sort();
    assert_eq!(ids, vec![0, 1, 2, 3]);
    assert!(s.is_ordered());
    assert_eq!(s.joint_to_bone_id(40), 0);
    assert_eq!(s.joint_to_bone_id(99), 99);
}

#[test]
fn skeleton_errors() {
    let joints = vec![joint("a", 0, &[1]), joint("b", 1, &[])];
    assert_eq!(
        process_skin("s".to_string(), &joints, &vec![identity_bits(); 1]).err(),
        Some(SkeletonError::MissingInverseBindMatrix)
    );
    let cyclic = vec![joint("a", 0, &[1]), joint("b", 1, &[0])];
    assert_eq!(
        process_skin("s".to_string(), &cyclic, &vec![identity_bits(); 2]).err(),
        Some(SkeletonError::CycleOrMissingParent)
    );
    let selfish = vec![joint("a", 0, &[0])];
    assert_eq!(
        process_skin("s".to_string(), &selfish, &vec![identity_bits(); 1]).err(),
        Some(SkeletonError::CycleOrMissingParent)
    );
    let dup = vec![joint("a", 4, &[]), joint("b", 4, &[])];
    assert_eq!(
        process_skin("s".to_string(), &dup, &vec![identity_bits(); 2]).err(),
        Some(SkeletonError::DuplicateJointIndex)
    );
    let many: Vec<Joint> = (0..MAX_BONES + 1).map(|i| joint("j", i, &[])).collect();
    assert_eq!(
        process_skin("s".to_string(), &many, &vec![identity_bits(); MAX_BONES + 1]).err(),
        Some(SkeletonError::TooManyBones)
    );
    let at_cap: Vec<Joint> = (0..MAX_BONES).map(|i| joint("j", i, &[])).collect();
    assert!(process_skin("s".to_string(), &at_cap, &vec![identity_bits(); MAX_BONES]).is_ok());
}

#[test]
fn indexed_bones_need_dense_ids() {
    assert_eq!(
        from_indexed_bones("s".to_string(), vec![bone(0, "a", None), bone(2, "b", None)]).err(),
        Some(SkeletonError::InvalidBoneIds)
    );
    assert_eq!(
        from_indexed_bones("s".to_string(), vec![bone(1, "a", None), bone(1, "b", None)]).err(),
        Some(SkeletonError::InvalidBoneIds)
    );
    let s = from_indexed_bones("s".to_string(), vec![bone(1, "b", Some(0)), bone(0, "a", None)])
        .unwrap();
    assert_eq!(s.bones_ordered[0].name, "a");
    assert_eq!(s.bones_ordered[1].name, "b");
    assert_eq!(s.bones[&1].name, "b");
}

#[test]
fn identity_keyframes_give_identity_slot() {
    let s = skeleton_of(vec![bone(0, "root", None)]);
    let a = animation_of(&s, vec![animated("root", &[identity_sample()])]);
    let out = resolve(&s, &a, 0);
    assert!(close(evaluate(&out.transforms[0]), Matrix4::identity()));
}

#[test]
fn parent_translation_propagates_to_child() {
    let s = skeleton_of(vec![bone(0, "parent", None), bone(1, "child", Some(0))]);
    let moved = sample([1.0, 0.0, 0.0], [0.0, 0.0, 0.0, 1.0], [1.0; 3]);
    let a = animation_of(
        &s,
        vec![animated("parent", &[moved]), animated("child", &[identity_sample()])],
    );
    let out = resolve(&s, &a, 0);
    let child = evaluate(&out.transforms[1]);
    assert!(close(child, Matrix4::from_translation(Vector3::new(1.0, 0.0, 0.0))));
}

#[test]
fn strategies_agree() {
    let s = skeleton_of(vec![
        bone(0, "hips", None),
        bone(1, "spine", Some(0)),
        bone(2, "head", Some(1)),
        bone(3, "leg", Some(0)),
    ]);
    let f0 = sample([0.0, 1.0, 0.0], [0.0, 0.3826834, 0.0, 0.9238795], [1.0; 3]);
    let f1 = sample([0.5, 0.0, 0.25], [0.0, 0.0, 0.0, 1.0], [2.0, 1.0, 1.0]);
    let a = animation_of(
        &s,
        vec![
            animated("hips", &[f0, f1]),
            animated("spine", &[f1, f0]),
            animated("head", &[f0, f0]),
            animated("leg", &[f1, f1]),
        ],
    );
    for frame in 0..4 {
        let ordered = resolve(&s, &a, frame);
        let memo = resolve_recursive(&s, &a, frame).unwrap();
        for i in 0..MAX_BONES {
            assert!(close(evaluate(&ordered.transforms[i]), evaluate(&memo.transforms[i])));
        }
    }
}

#[test]
fn slots_past_skeleton_are_identity() {
    let s = chain_skeleton();
    let moved = sample([3.0, 0.0, 0.0], [0.0, 0.0, 0.0, 1.0], [1.0; 3]);
    let a = animation_of(&s, vec![animated("R", &[moved]), animated("A", &[moved]), animated("B", &[moved])]);
    let out = resolve(&s, &a, 0);
    assert_eq!(out.transforms.len(), MAX_BONES);
    for i in 3..MAX_BONES {
        assert!(matches!(out.transforms[i], SlotTransform::Identity));
        assert_eq!(evaluate(&out.transforms[i]), Matrix4::identity());
    }
    let fresh = BoneTransformsUniform::new();
    assert!(fresh.transforms.iter().all(|t| matches!(t, SlotTransform::Identity)));
}

#[test]
fn playback_steps_once_per_frame_time() {
    let mut p = AnimationPlayer::new();
    assert_eq!(p.frame_time, NANOS_PER_SECOND / 24);
    for _ in 0..24 {
        p.advance(DEFAULT_FRAME_TIME);
    }
    assert_eq!(p.current_frame_index, 24);
    assert_eq!(p.current_time, 0);
    let mut q = AnimationPlayer::new();
    q.advance(DEFAULT_FRAME_TIME - 1);
    assert_eq!(q.current_frame_index, 0);
    assert_eq!(q.current_time, DEFAULT_FRAME_TIME - 1);
    q.advance(1);
    assert_eq!(q.current_frame_index, 1);
    assert_eq!(q.current_time, 0);
}

#[test]
fn reset_returns_to_start() {
    let mut p = AnimationPlayer::new();
    for d in [5_000_000u64, 50_000_000, 7, 41_666_666, 100_000_000] {
        p.advance(d);
    }
    assert!(p.current_frame_index > 0 || p.current_time > 0);
    p.reset();
    assert_eq!(p.current_frame_index, 0);
    assert_eq!(p.current_time, 0);
}

#[test]
fn unbound_bone_passes_parent_world_through() {
    let s = chain_skeleton();
    let r_local = sample([1.0, 2.0, 0.0], [0.0, 0.0, 0.7071068, 0.7071068], [1.0; 3]);
    let b_local = sample([0.0, 0.5, 0.0], [0.0, 0.0, 0.0, 1.0], [2.0; 3]);
    let (a, unbound) = bind_to_skeleton(
        "clip".to_string(),
        &vec![animated("R", &[r_local]), animated("B", &[b_local]), animated("tail", &[b_local])],
        &s,
    );
    assert_eq!(unbound, vec!["tail".to_string()]);
    let out = resolve(&s, &a, 0);
    assert!(close(evaluate(&out.transforms[0]), compose(&r_local)));
    assert!(matches!(out.transforms[1], SlotTransform::Identity));
    assert!(close(evaluate(&out.transforms[2]), compose(&r_local) * compose(&b_local)));
    // the memoized strategy refuses a bone with tracks under a parent without any
    assert_eq!(resolve_recursive(&s, &a, 0).err(), Some(ResolveError::ParentNotFound));
}

#[test]
fn frame_index_wraps_per_bone() {
    let s = skeleton_of(vec![bone(0, "a", None), bone(1, "b", None)]);
    let f: Vec<LocalSample> =
        (0..3).map(|i| sample([i as f32, 0.0, 0.0], [0.0, 0.0, 0.0, 1.0], [1.0; 3])).collect();
    let a = animation_of(&s, vec![animated("a", &f[..3]), animated("b", &f[..2])]);
    let out = resolve(&s, &a, 5);
    assert!(close(evaluate(&out.transforms[0]), compose(&f[2])));
    assert!(close(evaluate(&out.transforms[1]), compose(&f[1])));
    let empty = animation_of(&s, vec![animated("a", &[])]);
    let out = resolve(&s, &empty, 0);
    assert!(matches!(out.transforms[0], SlotTransform::Identity));
}

#[test]
fn memoized_strategy_rejects_bad_hierarchies() {
    let cyclic = skeleton_of(vec![bone(0, "a", Some(1)), bone(1, "b", Some(0))]);
    let a = animation_of(&cyclic, vec![]);
    assert_eq!(resolve_recursive(&cyclic, &a, 0).err(), Some(ResolveError::CyclicHierarchy));
    assert!(!cyclic.is_ordered());
    let dangling = skeleton_of(vec![bone(0, "a", None), bone(1, "b", Some(9))]);
    assert_eq!(resolve_recursive(&dangling, &a, 0).err(), Some(ResolveError::ParentNotFound));
    let unordered = skeleton_of(vec![bone(0, "child", Some(1)), bone(1, "root", None)]);
    let moved = sample([0.0, 0.0, 4.0], [0.0, 0.0, 0.0, 1.0], [1.0; 3]);
    let anim = animation_of(&unordered, vec![animated("root", &[moved]), animated("child", &[moved])]);
    let out = resolve_recursive(&unordered, &anim, 0).unwrap();
    assert!(close(evaluate(&out.transforms[0]), compose(&moved) * compose(&moved)));
}

#[test]
fn player_animates_and_advances() {
    let s = chain_skeleton();
    let f: Vec<LocalSample> =
        (0..2).map(|i| sample([i as f32, 0.0, 0.0], [0.0, 0.0, 0.0, 1.0], [1.0; 3])).collect();
    let a = animation_of(&s, vec![animated("R", &f)]);
    let mut p = AnimationPlayer::new();
    let first = p.animate_with_ordered_bones(DEFAULT_FRAME_TIME, &a, &s);
    assert!(close(evaluate(&first.transforms[0]), compose(&f[0])));
    assert_eq!(p.current_frame_index, 1);
    let second = p.animate(DEFAULT_FRAME_TIME, &a, &s).unwrap();
    assert!(close(evaluate(&second.transforms[0]), compose(&f[1])));
    assert_eq!(p.get_bone_model_matrix(&a.bone_keyframes_name[0]), Some(f[0]));
    assert_eq!(next_clip(0, 3), 1);
    assert_eq!(next_clip(2, 3), 0);
    assert_eq!(next_clip(0, 0), 0);
}

fn channel(index: usize, name: &str, children: &[usize], times: usize, outputs: ChannelOutputs) -> Channel {
    Channel {
        target_index: index,
        target_name: name.to_string(),
        target_children: children.to_vec(),
        timestamps: (0..times).map(|i| (i as f32 / 24.0).to_bits()).collect(),
        outputs,
    }
}

#[test]
fn channels_group_and_bind_by_name() {
    let s = chain_skeleton();
    let one = 1.0f32.to_bits();
    let channels = vec![
        channel(11, "B", &[], 2, ChannelOutputs::Translations(vec![[one, 0, 0], [0, one, 0]])),
        channel(10, "R", &[11], 1, ChannelOutputs::Rotations(vec![[0, 0, 0, ONE_BITS]])),
        channel(11, "B", &[], 2, ChannelOutputs::Scales(vec![[one; 3], [one; 3]])),
        channel(11, "B", &[], 2, ChannelOutputs::Rotations(vec![[0, 0, 0, one], [0, 0, 0, one]])),
        channel(12, "ghost", &[], 1, ChannelOutputs::Other),
    ];
    let (a, unbound) = process_animations("walk".to_string(), &channels, &s).unwrap();
    assert_eq!(a.name, "walk");
    assert_eq!(unbound, vec!["ghost".to_string()]);
    let b = &a.bone_keyframes[&2];
    assert_eq!(b.bone_id, 2);
    assert_eq!(b.bone_name, "B");
    assert_eq!(b.parent_index, Some(10));
    assert_eq!(b.translation_keys.len(), 2);
    assert_eq!(b.translation_keys[1].translation, [0, one, 0]);
    assert_eq!(b.translation_keys[1].timestamp, (1.0f32 / 24.0).to_bits());
    assert_eq!(b.scale_keys.len(), 2);
    assert_eq!(a.bone_keyframes[&0].rotation_keys.len(), 1);
    assert!(!a.bone_keyframes.contains_key(&1));
    assert_eq!(a.bone_keyframes_name.len(), 2);
    assert_eq!(a.find_by_name(&"B".to_string()), Some(1));
}

#[test]
fn channel_without_timestamps_is_rejected() {
    let s = chain_skeleton();
    let channels = vec![channel(0, "R", &[], 0, ChannelOutputs::Translations(vec![[0, 0, 0]]))];
    assert_eq!(
        process_animations("x".to_string(), &channels, &s).err(),
        Some(AnimationError::EmptyTimestamps)
    );
}

#[test]
fn unbound_channels_are_dropped_not_fatal() {
    let s = chain_skeleton();
    let map: HashMap<usize, AnimatedBone> = HashMap::new();
    let empty = Animation { name: "none".to_string(), bone_keyframes: map, bone_keyframes_name: vec![] };
    let out = resolve(&s, &empty, 0);
    assert!(out.transforms.iter().all(|t| matches!(t, SlotTransform::Identity)));
    let (a, unbound) = bind_to_skeleton("x".to_string(), &vec![animated("nobody", &[identity_sample()])], &s);
    assert!(a.bone_keyframes.is_empty());
    assert_eq!(unbound, vec!["nobody".to_string()]);
}

#[test]
fn short_and_empty_tracks_are_counted() {
    let s = skeleton_of(vec![bone(0, "a", None), bone(1, "b", None), bone(2, "c", None)]);
    let f = identity_sample();
    let a = animation_of(&s, vec![animated("a", &[f, f, f]), animated("b", &[f]), animated("c", &[])]);
    assert_eq!(count_empty_tracks(&s, &a), 1);
    assert_eq!(count_wrapped_tracks(&s, &a, 0), 0);
    assert_eq!(count_wrapped_tracks(&s, &a, 1), 1);
    assert_eq!(count_wrapped_tracks(&s, &a, 3), 2);
}
