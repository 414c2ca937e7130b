use crate::model::{
    find_named, first_named, lemma_first_named, AnimatedBone, Animation, KeyRotation, KeyScale,
    KeyTranslation, Skeleton,
};
use std::collections::HashMap;
use vstd::prelude::*;

verus! {

broadcast use vstd::std_specs::hash::group_hash_axioms;

/// Some bone of `skeleton` is named `name`.
pub open spec fn skeleton_has_name(skeleton: Skeleton, name: Seq<char>) -> bool {
    exists|k: int|
        0 <= k < skeleton.bones_ordered@.len() && #[trigger] skeleton.bones_ordered@[k].name@ == name
}

/// Names of the first `upto` animated bones that match no bone of `skeleton`.
pub open spec fn unbound_names(animated: Seq<AnimatedBone>, skeleton: Skeleton, upto: int) -> Seq<
    Seq<char>,
>
    decreases upto,
{
    if upto <= 0 || upto > animated.len() {
        Seq::empty()
    } else if skeleton_has_name(skeleton, animated[upto - 1].bone_name@) {
        unbound_names(animated, skeleton, upto - 1)
    } else {
        unbound_names(animated, skeleton, upto - 1).push(animated[upto - 1].bone_name@)
    }
}

/// `animation` binds `animated` to `skeleton` by name: each skeleton bone
/// gets, under its own id, the first animated bone of the same name.
pub open spec fn bound_by_name(animation: Animation, animated: Seq<AnimatedBone>, skeleton: Skeleton) -> bool {
    let bones = skeleton.bones_ordered@;
    &&& forall|key: usize| #[trigger] animation.bone_keyframes@.contains_key(key) ==> key < bones.len()
    &&& forall|k: int|
        0 <= k < bones.len() ==> (#[trigger] animation.bone_keyframes@.contains_key(k as usize)
            <==> first_named(animated, bones[k].name@, 0) is Some)
    &&& forall|k: int|
        0 <= k < bones.len() && #[trigger] animation.bone_keyframes@.contains_key(k as usize) ==> {
            let src = animated[first_named(animated, bones[k].name@, 0).unwrap()];
            let b = animation.bone_keyframes@[k as usize];
            &&& b.bone_id == k as u32
            &&& b.bone_name@ == src.bone_name@
            &&& b.parent_index == src.parent_index
            &&& b.tracks_equal(src)
        }
    &&& animation.indexed_consistently(skeleton)
    &&& forall|e: int|
        0 <= e < animation.bone_keyframes_name@.len() ==> skeleton_has_name(
            skeleton,
            (#[trigger] animation.bone_keyframes_name@[e]).bone_name@,
        )
}

/// Re-keys animated bones by the skeleton: for each skeleton bone in order,
/// the first animated bone of the same name is stored under the bone's id and
/// listed for lookup by name. Also returns the names of the animated bones
/// that match no skeleton bone, which are left out.
pub fn bind_to_skeleton(name: String, animated: &Vec<AnimatedBone>, skeleton: &Skeleton) -> (r: (
    Animation,
    Vec<String>,
))
    ensures
        r.0.name == name,
        bound_by_name(r.0, animated@, *skeleton),
        r.1@.len() == unbound_names(animated@, *skeleton, animated@.len() as int).len(),
        forall|i: int|
            0 <= i < r.1@.len() ==> #[trigger] r.1@[i]@ == unbound_names(
                animated@,
                *skeleton,
                animated@.len() as int,
            )[i],
{
    let ghost bones = skeleton.bones_ordered@;
    let n = skeleton.bones_ordered.len();
    let mut by_id: HashMap<usize, AnimatedBone> = HashMap::new();
    let mut by_name: Vec<AnimatedBone> = Vec::new();
    let mut k: usize = 0;
    while k < n
        invariant
            n == bones.len(),
            bones == skeleton.bones_ordered@,
            k <= n,
            forall|key: usize| #[trigger] by_id@.contains_key(key) ==> key < k,
            forall|x: int|
                0 <= x < k ==> (#[trigger] by_id@.contains_key(x as usize) <==> first_named(
                    animated@,
                    bones[x].name@,
                    0,
                ) is Some),
            forall|x: int|
                0 <= x < k && #[trigger] by_id@.contains_key(x as usize) ==> {
                    let src = animated@[first_named(animated@, bones[x].name@, 0).unwrap()];
                    let b = by_id@[x as usize];
                    &&& b.bone_id == x as u32
                    &&& b.bone_name@ == src.bone_name@
                    &&& b.parent_index == src.parent_index
                    &&& b.tracks_equal(src)
                },
            forall|e: int|
                0 <= e < by_name@.len() ==> {
                    let f = first_named(animated@, (#[trigger] by_name@[e]).bone_name@, 0);
                    &&& f is Some
                    &&& by_name@[e].tracks_equal(animated@[f.unwrap()])
                    &&& exists|x: int| 0 <= x < k && bones[x].name@ == by_name@[e].bone_name@
                },
            forall|x: int|
                0 <= x < k && first_named(animated@, (#[trigger] bones[x]).name@, 0) is Some
                    ==> exists|e: int| 0 <= e < by_name@.len() && by_name@[e].bone_name@ == bones[x].name@,
        decreases n - k,
    {
        let bone_name = &skeleton.bones_ordered[k].name;
        match find_named(animated, bone_name) {
            Some(j) => {
                proof {
                    lemma_first_named(animated@, bone_name@, 0);
                }
                let mut b = animated[j].duplicate();
                b.bone_id = k as u32;
                let mut listed = animated[j].duplicate();
                listed.bone_id = k as u32;
                let ghost old_list = by_name@;
                by_id.insert(k, b);
                by_name.push(listed);
                proof {
                    assert(by_name@[old_list.len() as int].bone_name@ == bones[k as int].name@);
                    assert forall|e: int| 0 <= e < by_name@.len() implies {
                        let f = first_named(animated@, (#[trigger] by_name@[e]).bone_name@, 0);
                        &&& f is Some
                        &&& by_name@[e].tracks_equal(animated@[f.unwrap()])
                        &&& exists|x: int| 0 <= x < k + 1 && bones[x].name@ == by_name@[e].bone_name@
                    } by {
                        if e < old_list.len() {
                            assert(by_name@[e] == old_list[e]);
                        } else {
                            assert(bones[k as int].name@ == by_name@[e].bone_name@);
                        }
                    }
                    assert forall|x: int|
                        0 <= x < k + 1 && first_named(animated@, (#[trigger] bones[x]).name@, 0) is Some
                            implies exists|e: int| 0 <= e < by_name@.len() && by_name@[e].bone_name@ == bones[x].name@ by {
                        if x < k {
                            let e = choose|e: int| 0 <= e < old_list.len() && old_list[e].bone_name@ == bones[x].name@;
                            assert(by_name@[e] == old_list[e]);
                        } else {
                            assert(by_name@[old_list.len() as int].bone_name@ == bones[x].name@);
                        }
                    }
                }
            },
            None => {},
        }
        k = k + 1;
    }
    let animation = Animation { name, bone_keyframes: by_id, bone_keyframes_name: by_name };
    proof {
        let list = animation.bone_keyframes_name@;
        assert forall|e: int| 0 <= e < list.len() implies skeleton_has_name(
            *skeleton,
            (#[trigger] list[e]).bone_name@,
        ) by {
            let x = choose|x: int| 0 <= x < n && bones[x].name@ == list[e].bone_name@;
            assert(skeleton.bones_ordered@[x].name@ == list[e].bone_name@);
        }
        assert forall|x: int| 0 <= x < n implies {
            let named = #[trigger] animation.named(bones[x].name@);
            &&& animation.bone_keyframes@.contains_key(x as usize) == named is Some
            &&& named is Some ==> animation.bone_keyframes@[x as usize].tracks_equal(named.unwrap())
        } by {
            let nm = bones[x].name@;
            lemma_first_named(list, nm, 0);
            lemma_first_named(animated@, nm, 0);
            if first_named(animated@, nm, 0) is Some {
                let e = choose|e: int| 0 <= e < list.len() && list[e].bone_name@ == nm;
                assert(list[e].bone_name@ == nm);
            }
            if first_named(list, nm, 0) is Some {
                let e = first_named(list, nm, 0).unwrap();
                assert(list[e].bone_name@ == nm);
            }
        }
    }
    let mut unbound: Vec<String> = Vec::new();
    let mut j: usize = 0;
    while j < animated.len()
        invariant
            j <= animated@.len(),
            n == bones.len(),
            bones == skeleton.bones_ordered@,
            unbound@.len() == unbound_names(animated@, *skeleton, j as int).len(),
            forall|i: int|
                0 <= i < unbound@.len() ==> #[trigger] unbound@[i]@ == unbound_names(
                    animated@,
                    *skeleton,
                    j as int,
                )[i],
        decreases animated.len() - j,
    {
        let mut found = false;
        let mut k2: usize = 0;
        while k2 < n
            invariant
                j < animated@.len(),
                n == bones.len(),
                bones == skeleton.bones_ordered@,
                k2 <= n,
                found == exists|x: int| 0 <= x < k2 && #[trigger] bones[x].name@ == animated@[j as int].bone_name@,
            decreases n - k2,
        {
            if skeleton.bones_ordered[k2].name == animated[j].bone_name {
                found = true;
            }
            k2 = k2 + 1;
        }
        if !found {
            unbound.push(animated[j].bone_name.clone());
        }
        j = j + 1;
    }
    (animation, unbound)
}

/// Keyframe values that one animation channel carries.
pub enum ChannelOutputs {
    Translations(Vec<[u32; 3]>),
    Rotations(Vec<[u32; 4]>),
    Scales(Vec<[u32; 3]>),
    /// Values of a kind that bones do not use (morph target weights).
    Other,
}

/// One channel of an animation clip: the node it drives, that node's
/// children, and the sampled keyframes with their timestamps.
pub struct Channel {
    pub target_index: usize,
    pub target_name: String,
    pub target_children: Vec<usize>,
    pub timestamps: Vec<u32>,
    pub outputs: ChannelOutputs,
}

/// Why an animation clip could not be built.
#[derive(Clone, Copy, Debug, PartialEq, Eq, Structural)]
pub enum AnimationError {
    /// A channel has more keyframe values than timestamps.
    EmptyTimestamps,
}

/// Number of keyframe values a channel carries.
pub open spec fn output_count(c: Channel) -> nat {
    match c.outputs {
        ChannelOutputs::Translations(v) => v@.len(),
        ChannelOutputs::Rotations(v) => v@.len(),
        ChannelOutputs::Scales(v) => v@.len(),
        ChannelOutputs::Other => 0,
    }
}

/// Every keyframe value of every channel has a timestamp.
pub open spec fn timestamps_cover(channels: Seq<Channel>) -> bool {
    forall|c: int| 0 <= c < channels.len() ==> output_count(#[trigger] channels[c]) <= channels[c].timestamps@.len()
}

/// The translation keys a channel contributes.
pub open spec fn translation_keys_of(c: Channel) -> Seq<KeyTranslation> {
    match c.outputs {
        ChannelOutputs::Translations(v) => Seq::new(
            v@.len(),
            |k: int| KeyTranslation { timestamp: c.timestamps@[k], translation: v@[k] },
        ),
        _ => Seq::empty(),
    }
}

/// The rotation keys a channel contributes.
pub open spec fn rotation_keys_of(c: Channel) -> Seq<KeyRotation> {
    match c.outputs {
        ChannelOutputs::Rotations(v) => Seq::new(
            v@.len(),
            |k: int| KeyRotation { timestamp: c.timestamps@[k], rotation: v@[k] },
        ),
        _ => Seq::empty(),
    }
}

/// The scale keys a channel contributes.
pub open spec fn scale_keys_of(c: Channel) -> Seq<KeyScale> {
    match c.outputs {
        ChannelOutputs::Scales(v) => Seq::new(
            v@.len(),
            |k: int| KeyScale { timestamp: c.timestamps@[k], scale: v@[k] },
        ),
        _ => Seq::empty(),
    }
}

/// Translation keys of node `target` over the first `upto` channels, in channel order.
pub open spec fn translation_track(channels: Seq<Channel>, target: usize, upto: int) -> Seq<KeyTranslation>
    decreases upto,
{
    if upto <= 0 || upto > channels.len() {
        Seq::empty()
    } else if channels[upto - 1].target_index == target {
        translation_track(channels, target, upto - 1) + translation_keys_of(channels[upto - 1])
    } else {
        translation_track(channels, target, upto - 1)
    }
}

/// Rotation keys of node `target` over the first `upto` channels, in channel order.
pub open spec fn rotation_track(channels: Seq<Channel>, target: usize, upto: int) -> Seq<KeyRotation>
    decreases upto,
{
    if upto <= 0 || upto > channels.len() {
        Seq::empty()
    } else if channels[upto - 1].target_index == target {
        rotation_track(channels, target, upto - 1) + rotation_keys_of(channels[upto - 1])
    } else {
        rotation_track(channels, target, upto - 1)
    }
}

/// Scale keys of node `target` over the first `upto` channels, in channel order.
pub open spec fn scale_track(channels: Seq<Channel>, target: usize, upto: int) -> Seq<KeyScale>
    decreases upto,
{
    if upto <= 0 || upto > channels.len() {
        Seq::empty()
    } else if channels[upto - 1].target_index == target {
        scale_track(channels, target, upto - 1) + scale_keys_of(channels[upto - 1])
    } else {
        scale_track(channels, target, upto - 1)
    }
}

/// Node of the last of the first `upto` channels whose node lists `child`
/// among its children: the parent in the animation's own hierarchy.
pub open spec fn channel_parent(channels: Seq<Channel>, child: usize, upto: int) -> Option<usize>
    decreases upto,
{
    if upto <= 0 || upto > channels.len() {
        None
    } else if channels[upto - 1].target_children@.contains(child) {
        Some(channels[upto - 1].target_index)
    } else {
        channel_parent(channels, child, upto - 1)
    }
}

/// The animated bone that the channels make of node `target`, named after
/// the channel at `first`.
pub open spec fn grouped_bone(channels: Seq<Channel>, target: usize, first: int, b: AnimatedBone) -> bool {
    let n = channels.len() as int;
    &&& b.bone_id == target as u32
    &&& b.bone_name == channels[first].target_name
    &&& b.parent_index == channel_parent(channels, target, n)
    &&& b.translation_keys@ == translation_track(channels, target, n)
    &&& b.rotation_keys@ == rotation_track(channels, target, n)
    &&& b.scale_keys@ == scale_track(channels, target, n)
}

/// Position of the first channel that drives node `target`.
pub open spec fn first_channel(channels: Seq<Channel>, target: usize) -> int {
    choose|c: int| 0 <= c < channels.len() && channels[c].target_index == target && forall|d: int|
        0 <= d < c ==> #[trigger] channels[d].target_index != target
}

/// Appends the translation keys of one channel.
fn push_translation_keys(keys: &mut Vec<KeyTranslation>, c: &Channel)
    requires
        output_count(*c) <= c.timestamps@.len(),
    ensures
        final(keys)@ == old(keys)@ + translation_keys_of(*c),
{
    match &c.outputs {
        ChannelOutputs::Translations(v) => {
            let ghost start = keys@;
            let mut k: usize = 0;
            while k < v.len()
                invariant
                    c.outputs == ChannelOutputs::Translations(*v),
                    v@.len() <= c.timestamps@.len(),
                    k <= v@.len(),
                    keys@ == start + translation_keys_of(*c).subrange(0, k as int),
                decreases v.len() - k,
            {
                keys.push(KeyTranslation { timestamp: c.timestamps[k], translation: v[k] });
                k = k + 1;
            }
            assert(translation_keys_of(*c).subrange(0, k as int) == translation_keys_of(*c));
        },
        _ => {
            assert(keys@ + translation_keys_of(*c) == keys@);
        },
    }
}

/// Appends the rotation keys of one channel.
fn push_rotation_keys(keys: &mut Vec<KeyRotation>, c: &Channel)
    requires
        output_count(*c) <= c.timestamps@.len(),
    ensures
        final(keys)@ == old(keys)@ + rotation_keys_of(*c),
{
    match &c.outputs {
        ChannelOutputs::Rotations(v) => {
            let ghost start = keys@;
            let mut k: usize = 0;
            while k < v.len()
                invariant
                    c.outputs == ChannelOutputs::Rotations(*v),
                    v@.len() <= c.timestamps@.len(),
                    k <= v@.len(),
                    keys@ == start + rotation_keys_of(*c).subrange(0, k as int),
                decreases v.len() - k,
            {
                keys.push(KeyRotation { timestamp: c.timestamps[k], rotation: v[k] });
                k = k + 1;
            }
            assert(rotation_keys_of(*c).subrange(0, k as int) == rotation_keys_of(*c));
        },
        _ => {
            assert(keys@ + rotation_keys_of(*c) == keys@);
        },
    }
}

/// Appends the scale keys of one channel.
fn push_scale_keys(keys: &mut Vec<KeyScale>, c: &Channel)
    requires
        output_count(*c) <= c.timestamps@.len(),
    ensures
        final(keys)@ == old(keys)@ + scale_keys_of(*c),
{
    match &c.outputs {
        ChannelOutputs::Scales(v) => {
            let ghost start = keys@;
            let mut k: usize = 0;
            while k < v.len()
                invariant
                    c.outputs == ChannelOutputs::Scales(*v),
                    v@.len() <= c.timestamps@.len(),
                    k <= v@.len(),
                    keys@ == start + scale_keys_of(*c).subrange(0, k as int),
                decreases v.len() - k,
            {
                keys.push(KeyScale { timestamp: c.timestamps[k], scale: v[k] });
                k = k + 1;
            }
            assert(scale_keys_of(*c).subrange(0, k as int) == scale_keys_of(*c));
        },
        _ => {
            assert(keys@ + scale_keys_of(*c) == keys@);
        },
    }
}

/// `x` is among `children`.
fn lists(children: &Vec<usize>, x: usize) -> (r: bool)
    ensures
        r == children@.contains(x),
{
    let mut i: usize = 0;
    while i < children.len()
        invariant
            i <= children@.len(),
            forall|j: int| 0 <= j < i ==> children@[j] != x,
        decreases children.len() - i,
    {
        if children[i] == x {
            return true;
        }
        i = i + 1;
    }
    false
}

/// The animated bone of node `target`, from all channels that drive it.
fn build_bone(channels: &Vec<Channel>, target: usize, first: usize) -> (b: AnimatedBone)
    requires
        timestamps_cover(channels@),
        first < channels@.len(),
        channels@[first as int].target_index == target,
    ensures
        grouped_bone(channels@, target, first as int, b),
{
    let mut translation_keys: Vec<KeyTranslation> = Vec::new();
    let mut rotation_keys: Vec<KeyRotation> = Vec::new();
    let mut scale_keys: Vec<KeyScale> = Vec::new();
    let mut parent_index: Option<usize> = None;
    let mut c: usize = 0;
    while c < channels.len()
        invariant
            timestamps_cover(channels@),
            c <= channels@.len(),
            translation_keys@ == translation_track(channels@, target, c as int),
            rotation_keys@ == rotation_track(channels@, target, c as int),
            scale_keys@ == scale_track(channels@, target, c as int),
            parent_index == channel_parent(channels@, target, c as int),
        decreases channels.len() - c,
    {
        let ch = &channels[c];
        assert(output_count(*ch) <= ch.timestamps@.len());
        if ch.target_index == target {
            push_translation_keys(&mut translation_keys, ch);
            push_rotation_keys(&mut rotation_keys, ch);
            push_scale_keys(&mut scale_keys, ch);
        }
        if lists(&ch.target_children, target) {
            parent_index = Some(ch.target_index);
        }
        c = c + 1;
    }
    AnimatedBone {
        bone_id: target as u32,
        bone_name: channels[first].target_name.clone(),
        parent_index,
        translation_keys,
        rotation_keys,
        scale_keys,
    }
}

/// `animated` holds one bone per node that the channels drive, in order of
/// each node's first channel.
pub open spec fn grouping_of(channels: Seq<Channel>, animated: Seq<AnimatedBone>, targets: Seq<usize>) -> bool {
    &&& animated.len() == targets.len()
    &&& forall|b: int|
        0 <= b < targets.len() ==> grouped_bone(
            channels,
            targets[b],
            first_channel(channels, targets[b]),
            #[trigger] animated[b],
        )
    &&& forall|b: int| 0 <= b < targets.len() ==> #[trigger] drives(channels, targets[b], first_channel(channels, targets[b]))
    &&& forall|a: int, b: int|
        0 <= a < b < targets.len() ==> first_channel(channels, #[trigger] targets[a]) < first_channel(
            channels,
            #[trigger] targets[b],
        )
    &&& forall|c: int| 0 <= c < channels.len() ==> targets.contains(#[trigger] channels[c].target_index)
}

/// Channel `first` is the first one that drives node `target`.
pub open spec fn drives(channels: Seq<Channel>, target: usize, first: int) -> bool {
    &&& 0 <= first < channels.len()
    &&& channels[first].target_index == target
    &&& forall|d: int| 0 <= d < first ==> #[trigger] channels[d].target_index != target
}

/// The first driving channel is the chosen one.
proof fn lemma_first_channel(channels: Seq<Channel>, target: usize, first: int)
    requires
        drives(channels, target, first),
    ensures
        first_channel(channels, target) == first,
{
    let c = first_channel(channels, target);
    assert(drives(channels, target, c));
    if c < first {
        assert(channels[c].target_index != target);
    }
    if first < c {
        assert(channels[first].target_index != target);
    }
}

/// Groups channels into one animated bone per driven node, in order of
/// first appearance, with that node's parent in the animation's hierarchy.
pub fn group_channels(channels: &Vec<Channel>) -> (r: (Vec<AnimatedBone>, Vec<usize>))
    requires
        timestamps_cover(channels@),
    ensures
        grouping_of(channels@, r.0@, r.1@),
{
    let m = channels.len();
    let mut targets: Vec<usize> = Vec::new();
    let mut firsts: Vec<usize> = Vec::new();
    let mut c: usize = 0;
    while c < m
        invariant
            m == channels@.len(),
            c <= m,
            targets@.len() == firsts@.len(),
            forall|b: int| 0 <= b < targets@.len() ==> #[trigger] firsts@[b] < c && drives(channels@, targets@[b], firsts@[b] as int),
            forall|a: int, b: int| 0 <= a < b < targets@.len() ==> #[trigger] firsts@[a] < #[trigger] firsts@[b],
            forall|d: int| 0 <= d < c ==> targets@.contains(#[trigger] channels@[d].target_index),
        decreases m - c,
    {
        let t = channels[c].target_index;
        if !lists(&targets, t) {
            proof {
                assert forall|d: int| 0 <= d < c implies #[trigger] channels@[d].target_index != t by {
                    assert(targets@.contains(channels@[d].target_index));
                }
            }
            let ghost old_t = targets@;
            let ghost old_f = firsts@;
            targets.push(t);
            firsts.push(c);
            proof {
                assert forall|d: int| 0 <= d < c + 1 implies targets@.contains(#[trigger] channels@[d].target_index) by {
                    if d < c {
                        let b = choose|b: int| 0 <= b < old_t.len() && old_t[b] == channels@[d].target_index;
                        assert(targets@[b] == old_t[b]);
                    } else {
                        assert(targets@[old_t.len() as int] == t);
                    }
                }
                assert forall|b: int| 0 <= b < targets@.len() implies #[trigger] firsts@[b] < c + 1 && drives(channels@, targets@[b], firsts@[b] as int) by {
                    if b < old_t.len() {
                        assert(targets@[b] == old_t[b] && firsts@[b] == old_f[b]);
                    }
                }
            }
        }
        c = c + 1;
    }
    let mut animated: Vec<AnimatedBone> = Vec::new();
    let mut b: usize = 0;
    while b < targets.len()
        invariant
            timestamps_cover(channels@),
            m == channels@.len(),
            targets@.len() == firsts@.len(),
            forall|x: int| 0 <= x < targets@.len() ==> #[trigger] firsts@[x] < m && drives(channels@, targets@[x], firsts@[x] as int),
            b <= targets@.len(),
            animated@.len() == b,
            forall|x: int|
                0 <= x < b ==> grouped_bone(
                    channels@,
                    targets@[x],
                    first_channel(channels@, targets@[x]),
                    #[trigger] animated@[x],
                ),
        decreases targets.len() - b,
    {
        assert(firsts@[b as int] < m);
        proof {
            lemma_first_channel(channels@, targets@[b as int], firsts@[b as int] as int);
        }
        let bone = build_bone(channels, targets[b], firsts[b]);
        animated.push(bone);
        b = b + 1;
    }
    proof {
        assert forall|x: int| 0 <= x < targets@.len() implies #[trigger] drives(channels@, targets@[x], first_channel(channels@, targets@[x])) by {
            assert(firsts@[x] < m);
            lemma_first_channel(channels@, targets@[x], firsts@[x] as int);
        }
        assert forall|x: int, y: int| 0 <= x < y < targets@.len() implies first_channel(channels@, #[trigger] targets@[x]) < first_channel(
            channels@,
            #[trigger] targets@[y],
        ) by {
            assert(firsts@[x] < m && firsts@[y] < m);
            lemma_first_channel(channels@, targets@[x], firsts@[x] as int);
            lemma_first_channel(channels@, targets@[y], firsts@[y] as int);
        }
    }
    (animated, targets)
}

/// First channel whose keyframe values outnumber its timestamps.
fn find_uncovered(channels: &Vec<Channel>) -> (r: bool)
    ensures
        r == !timestamps_cover(channels@),
{
    let mut c: usize = 0;
    while c < channels.len()
        invariant
            c <= channels@.len(),
            forall|d: int| 0 <= d < c ==> output_count(#[trigger] channels@[d]) <= channels@[d].timestamps@.len(),
        decreases channels.len() - c,
    {
        let ch = &channels[c];
        let count = match &ch.outputs {
            ChannelOutputs::Translations(v) => v.len(),
            ChannelOutputs::Rotations(v) => v.len(),
            ChannelOutputs::Scales(v) => v.len(),
            ChannelOutputs::Other => 0,
        };
        if count > ch.timestamps.len() {
            return true;
        }
        c = c + 1;
    }
    false
}

/// Builds an animation clip from its channels: channels are grouped into
/// animated bones, which are then bound to `skeleton` by name. Returns the
/// clip and the names of the animated bones that match no skeleton bone.
pub fn process_animations(name: String, channels: &Vec<Channel>, skeleton: &Skeleton) -> (r: Result<
    (Animation, Vec<String>),
    AnimationError,
>)
    ensures
        r is Err <==> !timestamps_cover(channels@),
        r matches Ok((animation, unbound)) ==> exists|animated: Seq<AnimatedBone>, targets: Seq<usize>|
            {
                &&& grouping_of(channels@, animated, targets)
                &&& animation.name == name
                &&& bound_by_name(animation, animated, *skeleton)
                &&& unbound@.len() == unbound_names(animated, *skeleton, animated.len() as int).len()
                &&& forall|i: int|
                    0 <= i < unbound@.len() ==> #[trigger] unbound@[i]@ == unbound_names(
                        animated,
                        *skeleton,
                        animated.len() as int,
                    )[i]
            },
{
    if find_uncovered(channels) {
        return Err(AnimationError::EmptyTimestamps);
    }
    let (animated, targets) = group_channels(channels);
    let (animation, unbound) = bind_to_skeleton(name, &animated, skeleton);
    assert(grouping_of(channels@, animated@, targets@));
    Ok((animation, unbound))
}

} // verus!
