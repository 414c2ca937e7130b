use std::collections::HashMap;
use vstd::prelude::*;

verus! {

/// Number of skinning slots handed to the renderer each tick.
pub const MAX_BONES: usize = 100;

/// A 4x4 matrix, each entry the bit pattern of an `f32`.
pub type MatrixBits = [[u32; 4]; 4];

/// Bit pattern of `1.0f32`.
pub const ONE_BITS: u32 = 0x3f80_0000;

/// One bone of a skeleton.
///
/// `id` is the dense, parent-before-child identifier once the skeleton is built;
/// `index` keeps the joint index of the source asset.
pub struct Bone {
    pub id: u32,
    pub name: String,
    pub parent_id: Option<usize>,
    pub inverse_bind_matrix: MatrixBits,
    pub index: usize,
}

impl Bone {
    /// A field-by-field copy.
    pub fn duplicate(&self) -> (r: Bone)
        ensures
            r == *self,
    {
        Bone {
            id: self.id,
            name: self.name.clone(),
            parent_id: self.parent_id,
            inverse_bind_matrix: self.inverse_bind_matrix,
            index: self.index,
        }
    }
}

#[derive(Clone, Copy, Debug, PartialEq, Eq)]
pub struct KeyTranslation {
    pub timestamp: u32,
    pub translation: [u32; 3],
}

#[derive(Clone, Copy, Debug, PartialEq, Eq)]
pub struct KeyRotation {
    pub timestamp: u32,
    pub rotation: [u32; 4],
}

#[derive(Clone, Copy, Debug, PartialEq, Eq)]
pub struct KeyScale {
    pub timestamp: u32,
    pub scale: [u32; 3],
}

/// The translation, rotation (quaternion `x, y, z, w`) and scale sampled for
/// one bone at one frame.
#[derive(Clone, Copy, Debug, PartialEq, Eq)]
pub struct LocalSample {
    pub translation: [u32; 3],
    pub rotation: [u32; 4],
    pub scale: [u32; 3],
}

/// Keyframe tracks of one bone within one animation clip.
pub struct AnimatedBone {
    pub bone_id: u32,
    pub bone_name: String,
    pub parent_index: Option<usize>,
    pub translation_keys: Vec<KeyTranslation>,
    pub rotation_keys: Vec<KeyRotation>,
    pub scale_keys: Vec<KeyScale>,
}

/// Copy of a sequence of plain values.
pub fn copy_vec<T: Copy>(v: &Vec<T>) -> (r: Vec<T>)
    ensures
        r@ == v@,
{
    let mut r: Vec<T> = Vec::new();
    let mut i: usize = 0;
    while i < v.len()
        invariant
            i <= v.len(),
            r@ == v@.subrange(0, i as int),
        decreases v.len() - i,
    {
        r.push(v[i]);
        i = i + 1;
    }
    assert(r@ == v@.subrange(0, v.len() as int));
    r
}

impl AnimatedBone {
    /// A field-by-field copy.
    pub fn duplicate(&self) -> (r: AnimatedBone)
        ensures
            r.same_as(*self),
    {
        AnimatedBone {
            bone_id: self.bone_id,
            bone_name: self.bone_name.clone(),
            parent_index: self.parent_index,
            translation_keys: copy_vec(&self.translation_keys),
            rotation_keys: copy_vec(&self.rotation_keys),
            scale_keys: copy_vec(&self.scale_keys),
        }
    }

    /// Equal fields, vectors compared by contents.
    pub open spec fn same_as(self, o: AnimatedBone) -> bool {
        &&& self.bone_id == o.bone_id
        &&& self.bone_name@ == o.bone_name@
        &&& self.parent_index == o.parent_index
        &&& self.tracks_equal(o)
    }

    /// The three keyframe tracks hold the same keys.
    pub open spec fn tracks_equal(self, o: AnimatedBone) -> bool {
        &&& self.translation_keys@ == o.translation_keys@
        &&& self.rotation_keys@ == o.rotation_keys@
        &&& self.scale_keys@ == o.scale_keys@
    }

    /// Number of frames that all three tracks cover.
    pub open spec fn frame_count(self) -> nat {
        let t = self.translation_keys@.len();
        let r = self.rotation_keys@.len();
        let s = self.scale_keys@.len();
        if t <= r && t <= s {
            t
        } else if r <= s {
            r
        } else {
            s
        }
    }

    /// The local transform of this bone at `frame`: the index wraps around the
    /// common length of the tracks; a bone with an empty track contributes nothing.
    pub open spec fn sample_at(self, frame: nat) -> Option<LocalSample> {
        let n = self.frame_count();
        if n == 0 {
            None
        } else {
            let k = (frame % n) as int;
            Some(
                LocalSample {
                    translation: self.translation_keys@[k].translation,
                    rotation: self.rotation_keys@[k].rotation,
                    scale: self.scale_keys@[k].scale,
                },
            )
        }
    }

    /// Samples this bone's tracks at `frame` (see `sample_at`).
    pub fn sample(&self, frame: usize) -> (r: Option<LocalSample>)
        ensures
            r == self.sample_at(frame as nat),
    {
        let t = self.translation_keys.len();
        let r = self.rotation_keys.len();
        let s = self.scale_keys.len();
        let n: usize = if t <= r && t <= s {
            t
        } else if r <= s {
            r
        } else {
            s
        };
        if n == 0 {
            None
        } else {
            let k: usize = frame % n;
            Some(
                LocalSample {
                    translation: self.translation_keys[k].translation,
                    rotation: self.rotation_keys[k].rotation,
                    scale: self.scale_keys[k].scale,
                },
            )
        }
    }
}

/// A bone hierarchy.
///
/// `bones` keys the bones by source joint index, with their source ids and
/// parent indices; `bones_ordered` lists them root-first, where each bone's
/// `id` is its position and its `parent_id` is the parent's position.
pub struct Skeleton {
    pub name: String,
    pub bones: HashMap<usize, Bone>,
    pub bones_ordered: Vec<Bone>,
}

impl Skeleton {
    /// Parent position of each bone of `bones_ordered`.
    pub open spec fn parents(self) -> Seq<Option<usize>> {
        self.bones_ordered@.map_values(|b: Bone| b.parent_id)
    }

    /// Inverse-bind matrix of each bone of `bones_ordered`.
    pub open spec fn inverse_binds(self) -> Seq<MatrixBits> {
        self.bones_ordered@.map_values(|b: Bone| b.inverse_bind_matrix)
    }

    /// Ids are the positions in `bones_ordered`, and every id has a slot.
    pub open spec fn ids_dense(self) -> bool {
        &&& self.bones_ordered@.len() <= MAX_BONES
        &&& forall|i: int|
            0 <= i < self.bones_ordered@.len() ==> #[trigger] self.bones_ordered@[i].id == i
    }

    /// Every parent stands before its children in `bones_ordered`.
    pub open spec fn parent_first(self) -> bool {
        forall|i: int|
            0 <= i < self.bones_ordered@.len() ==> match #[trigger] self.bones_ordered@[i].parent_id {
                Some(p) => p < i,
                None => true,
            }
    }

    /// What the ordered resolver needs of a skeleton.
    pub open spec fn ordered_wf(self) -> bool {
        self.ids_dense() && self.parent_first()
    }
}

/// First position at or after `start` in `bones` of a bone named `name`.
pub open spec fn first_named(bones: Seq<AnimatedBone>, name: Seq<char>, start: int) -> Option<int>
    decreases bones.len() - start,
{
    if start < 0 || start >= bones.len() {
        None
    } else if bones[start].bone_name@ == name {
        Some(start)
    } else {
        first_named(bones, name, start + 1)
    }
}

/// A found position holds a bone of that name, and nothing is found only
/// when no bone from `start` on has that name.
pub proof fn lemma_first_named(bones: Seq<AnimatedBone>, name: Seq<char>, start: int)
    requires
        0 <= start,
    ensures
        first_named(bones, name, start) matches Some(j) ==> start <= j < bones.len()
            && bones[j].bone_name@ == name,
        first_named(bones, name, start) is None <==> forall|j: int|
            start <= j < bones.len() ==> #[trigger] bones[j].bone_name@ != name,
    decreases bones.len() - start,
{
    if start < bones.len() && bones[start].bone_name@ != name {
        lemma_first_named(bones, name, start + 1);
    }
}

/// Position of the first bone of `bones` named `name`.
pub fn find_named(bones: &Vec<AnimatedBone>, name: &String) -> (r: Option<usize>)
    ensures
        match r {
            Some(j) => j < bones@.len() && first_named(bones@, name@, 0) == Some(j as int),
            None => first_named(bones@, name@, 0) is None,
        },
{
    let mut j: usize = 0;
    while j < bones.len()
        invariant
            j <= bones@.len(),
            first_named(bones@, name@, 0) == first_named(bones@, name@, j as int),
        decreases bones.len() - j,
    {
        if bones[j].bone_name == *name {
            return Some(j);
        }
        j = j + 1;
    }
    None
}

/// One animation clip: the keyframe tracks of the bones it moves, indexed by
/// the skeleton's bone id and, in `bone_keyframes_name`, looked up by name.
pub struct Animation {
    pub name: String,
    pub bone_keyframes: HashMap<usize, AnimatedBone>,
    pub bone_keyframes_name: Vec<AnimatedBone>,
}

impl Animation {
    /// The tracks found under `name`.
    pub open spec fn named(self, name: Seq<char>) -> Option<AnimatedBone> {
        match first_named(self.bone_keyframes_name@, name, 0) {
            Some(j) => Some(self.bone_keyframes_name@[j]),
            None => None,
        }
    }

    /// Position in `bone_keyframes_name` of the first bone named `name`.
    pub fn find_by_name(&self, name: &String) -> (r: Option<usize>)
        ensures
            match r {
                Some(j) => j < self.bone_keyframes_name@.len() && first_named(
                    self.bone_keyframes_name@,
                    name@,
                    0,
                ) == Some(j as int),
                None => first_named(self.bone_keyframes_name@, name@, 0) is None,
            },
    {
        find_named(&self.bone_keyframes_name, name)
    }

    /// Sample of each skeleton bone at `frame`, its tracks looked up by name.
    pub open spec fn name_samples(self, skeleton: Skeleton, frame: nat) -> Seq<Option<LocalSample>> {
        Seq::new(
            skeleton.bones_ordered@.len(),
            |i: int|
                match self.named(skeleton.bones_ordered@[i].name@) {
                    Some(b) => b.sample_at(frame),
                    None => None,
                },
        )
    }

    /// Sample of each skeleton bone at `frame`, its tracks looked up by id.
    pub open spec fn id_samples(self, skeleton: Skeleton, frame: nat) -> Seq<Option<LocalSample>> {
        Seq::new(
            skeleton.bones_ordered@.len(),
            |i: int|
                if self.bone_keyframes@.contains_key(i as usize) {
                    self.bone_keyframes@[i as usize].sample_at(frame)
                } else {
                    None
                },
        )
    }

    /// Both indices name the same tracks for every bone of `skeleton`.
    pub open spec fn indexed_consistently(self, skeleton: Skeleton) -> bool {
        forall|i: int|
            0 <= i < skeleton.bones_ordered@.len() ==> {
                let by_name = #[trigger] self.named(skeleton.bones_ordered@[i].name@);
                &&& self.bone_keyframes@.contains_key(i as usize) == by_name is Some
                &&& by_name is Some ==> self.bone_keyframes@[i as usize].tracks_equal(
                    by_name.unwrap(),
                )
            }
    }
}

/// What fills one skinning slot: the identity, or the product
/// `compose(chain[0]) * ... * compose(chain[last]) * inverse_bind`, where
/// `compose` builds the translation * rotation * scale matrix of a sample.
pub enum SlotTransform {
    Identity,
    Skinned { chain: Vec<LocalSample>, inverse_bind: MatrixBits },
}

/// The mathematical content of a slot.
pub enum SlotModel {
    Identity,
    Skinned { chain: Seq<LocalSample>, inverse_bind: MatrixBits },
}

impl View for SlotTransform {
    type V = SlotModel;

    open spec fn view(&self) -> SlotModel {
        match self {
            SlotTransform::Identity => SlotModel::Identity,
            SlotTransform::Skinned { chain, inverse_bind } => SlotModel::Skinned {
                chain: chain@,
                inverse_bind: *inverse_bind,
            },
        }
    }
}

/// The fixed-size array of skinning slots produced each tick.
pub struct BoneTransformsUniform {
    pub transforms: Vec<SlotTransform>,
}

impl BoneTransformsUniform {
    /// Every slot holds the identity.
    pub fn new() -> (r: BoneTransformsUniform)
        ensures
            r.transforms@.len() == MAX_BONES,
            forall|i: int| 0 <= i < MAX_BONES ==> #[trigger] r.transforms@[i]@ == SlotModel::Identity,
    {
        let mut transforms: Vec<SlotTransform> = Vec::new();
        let mut i: usize = 0;
        while i < MAX_BONES
            invariant
                i <= MAX_BONES,
                transforms@.len() == i,
                forall|j: int| 0 <= j < i ==> #[trigger] transforms@[j]@ == SlotModel::Identity,
            decreases MAX_BONES - i,
        {
            transforms.push(SlotTransform::Identity);
            i = i + 1;
        }
        BoneTransformsUniform { transforms }
    }
}

} // verus!
