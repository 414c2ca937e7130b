use crate::hierarchy::{
    acyclic, lemma_closed_group_not_rooted, lemma_distinct_bounded, lemma_ranked_rooted,
    parents_resolve, rooted,
};
use crate::model::{Bone, MatrixBits, Skeleton, MAX_BONES};
use std::collections::HashMap;
use vstd::prelude::*;

verus! {

broadcast use vstd::std_specs::hash::group_hash_axioms;

/// A joint of a skin as an asset lists it.
pub struct Joint {
    pub name: String,
    pub index: usize,
    pub children: Vec<usize>,
}

/// Why a skeleton could not be built.
#[derive(Clone, Copy, Debug, PartialEq, Eq, Structural)]
pub enum SkeletonError {
    /// The number of inverse-bind matrices differs from the number of joints.
    MissingInverseBindMatrix,
    /// There are more joints than skinning slots.
    TooManyBones,
    /// Two joints carry the same index.
    DuplicateJointIndex,
    /// Some joint's parent chain never reaches a root.
    CycleOrMissingParent,
    /// Bone ids are not exactly the positions `0..n`.
    InvalidBoneIds,
}

/// Position of the last joint among the first `upto` that lists `child`.
pub open spec fn listing_joint(joints: Seq<Joint>, child: usize, upto: int) -> Option<int>
    decreases upto,
{
    if upto <= 0 || upto > joints.len() {
        None
    } else if joints[upto - 1].children@.contains(child) {
        Some(upto - 1)
    } else {
        listing_joint(joints, child, upto - 1)
    }
}

/// Parent position of each joint: the last joint that lists it as a child.
pub open spec fn joint_parents(joints: Seq<Joint>) -> Seq<Option<usize>> {
    Seq::new(
        joints.len(),
        |j: int|
            match listing_joint(joints, joints[j].index, joints.len() as int) {
                Some(p) => Some(p as usize),
                None => None,
            },
    )
}

/// No two joints carry the same index.
pub open spec fn indices_distinct(joints: Seq<Joint>) -> bool {
    forall|a: int, b: int|
        0 <= a < b < joints.len() ==> #[trigger] joints[a].index != #[trigger] joints[b].index
}

/// The bone that `bones` keys under joint `j`'s index.
pub open spec fn keyed_bone(joints: Seq<Joint>, matrices: Seq<MatrixBits>, j: int) -> Bone {
    Bone {
        id: joints[j].index as u32,
        name: joints[j].name,
        parent_id: match joint_parents(joints)[j] {
            Some(p) => Some(joints[p as int].index),
            None => None,
        },
        inverse_bind_matrix: matrices[j],
        index: joints[j].index,
    }
}

/// Ordered bone `k` is joint `j` with the id `k` and its parent's final id.
pub open spec fn placed_as(
    bones: Seq<Bone>,
    k: int,
    joints: Seq<Joint>,
    matrices: Seq<MatrixBits>,
    j: int,
) -> bool {
    &&& 0 <= j < joints.len()
    &&& bones[k].id == k
    &&& bones[k].index == joints[j].index
    &&& bones[k].name == joints[j].name
    &&& bones[k].inverse_bind_matrix == matrices[j]
    &&& match joint_parents(joints)[j] {
        None => bones[k].parent_id is None,
        Some(p) => match bones[k].parent_id {
            Some(q) => q < bones.len() && bones[q as int].index == joints[p as int].index,
            None => false,
        },
    }
}

/// Ordered bone `k` is placed as some joint.
pub open spec fn has_source(
    bones: Seq<Bone>,
    k: int,
    joints: Seq<Joint>,
    matrices: Seq<MatrixBits>,
) -> bool {
    exists|j: int| #[trigger] placed_as(bones, k, joints, matrices, j)
}

/// Some bone of `bones` carries joint index `index`.
pub open spec fn index_placed(bones: Seq<Bone>, index: usize) -> bool {
    exists|k: int| 0 <= k < bones.len() && #[trigger] bones[k].index == index
}

/// `skeleton` is the skeleton built from `joints`: every joint appears once in
/// `bones_ordered`, parents first, with dense ids, and `bones` keys each joint's
/// bone by the joint index with source ids and parent indices.
pub open spec fn built_from(
    skeleton: Skeleton,
    name: String,
    joints: Seq<Joint>,
    matrices: Seq<MatrixBits>,
) -> bool {
    let bones = skeleton.bones_ordered@;
    &&& skeleton.name == name
    &&& bones.len() == joints.len()
    &&& skeleton.ordered_wf()
    &&& forall|a: int, b: int|
        0 <= a < b < bones.len() && (#[trigger] bones[b]).parent_id is None ==> (#[trigger] bones[a]).parent_id is None
    &&& forall|k: int| 0 <= k < bones.len() ==> #[trigger] has_source(bones, k, joints, matrices)
    &&& forall|j: int| 0 <= j < joints.len() ==> #[trigger] index_placed(bones, joints[j].index)
    &&& forall|key: usize|
        #[trigger] skeleton.bones@.contains_key(key) <==> exists|j: int|
            0 <= j < joints.len() && #[trigger] joints[j].index == key
    &&& forall|j: int|
        0 <= j < joints.len() ==> #[trigger] skeleton.bones@[joints[j].index] == keyed_bone(
            joints,
            matrices,
            j,
        )
}

/// `order` lists some bones by position, parents before children, and `rank`
/// gives each listed bone its place in `order`.
pub open spec fn order_inv(parents: Seq<Option<usize>>, order: Seq<usize>, rank: Seq<Option<usize>>) -> bool {
    &&& parents.len() <= usize::MAX
    &&& rank.len() == parents.len()
    &&& order.len() <= parents.len()
    &&& forall|k: int|
        0 <= k < order.len() ==> #[trigger] order[k] < parents.len() && rank[order[k] as int] == Some(
            k as usize,
        )
    &&& forall|j: int|
        0 <= j < parents.len() ==> match #[trigger] rank[j] {
            Some(k) => k < order.len() && order[k as int] == j,
            None => true,
        }
    &&& forall|j: int|
        0 <= j < parents.len() ==> match #[trigger] rank[j] {
            Some(k) => match parents[j] {
                Some(p) => rank[p as int] matches Some(kp) && kp < k,
                None => true,
            },
            None => true,
        }
    &&& forall|j: int| 0 <= j < parents.len() && #[trigger] parents[j] is None ==> rank[j] is Some
}

/// Every root of the hierarchy comes before every other bone.
pub open spec fn roots_first(parents: Seq<Option<usize>>, order: Seq<usize>) -> bool {
    forall|a: int, b: int|
        0 <= a < b < order.len() && parents[#[trigger] order[b] as int] is None ==> parents[#[trigger] order[a] as int] is None
}

/// Every bone placed: a complete parent-first order.
pub open spec fn complete_order(parents: Seq<Option<usize>>, order: Seq<usize>, rank: Seq<Option<usize>>) -> bool {
    &&& order_inv(parents, order, rank)
    &&& order.len() == parents.len()
    &&& forall|j: int| 0 <= j < parents.len() ==> #[trigger] rank[j] is Some
}

/// A listing of distinct bones that misses bone `u` is shorter than the hierarchy.
proof fn lemma_missing_one(n: int, order: Seq<usize>, u: int)
    requires
        0 <= u < n,
        forall|k: int| 0 <= k < order.len() ==> #[trigger] order[k] < n && order[k] != u,
        forall|a: int, b: int| 0 <= a < b < order.len() ==> order[a] != order[b],
    ensures
        order.len() < n,
{
    let shifted = Seq::new(order.len(), |k: int| if order[k] < u { order[k] as int } else { order[k] - 1 });
    assert forall|k: int| 0 <= k < shifted.len() implies 0 <= #[trigger] shifted[k] < n - 1 by {
        assert(order[k] < n && order[k] != u);
    }
    assert(shifted.no_duplicates()) by {
        assert forall|a: int, b: int| 0 <= a < shifted.len() && 0 <= b < shifted.len() && a != b
            implies shifted[a] != shifted[b] by {
            if a < b {
                assert(order[a] != order[b]);
            } else {
                assert(order[b] != order[a]);
            }
            assert(order[a] != u && order[b] != u);
        }
    }
    lemma_distinct_bounded(shifted, n - 1);
}

/// Fewer listed bones than bones leaves one unlisted, and vice versa.
proof fn lemma_unplaced_exists(parents: Seq<Option<usize>>, order: Seq<usize>, rank: Seq<Option<usize>>)
    requires
        order_inv(parents, order, rank),
    ensures
        order.len() < parents.len() <==> exists|j: int| 0 <= j < parents.len() && #[trigger] rank[j] is None,
{
    let n = parents.len() as int;
    if exists|j: int| 0 <= j < n && #[trigger] rank[j] is None {
        let u = choose|j: int| 0 <= j < n && #[trigger] rank[j] is None;
        assert forall|k: int| 0 <= k < order.len() implies #[trigger] order[k] < n && order[k] != u by {
            assert(order[k] < n && rank[order[k] as int] == Some(k as usize));
        }
        assert forall|a: int, b: int| 0 <= a < b < order.len() implies order[a] != order[b] by {
            assert(rank[order[a] as int] == Some(a as usize));
            assert(rank[order[b] as int] == Some(b as usize));
        }
        lemma_missing_one(n, order, u);
    } else {
        let ranks = Seq::new(n as nat, |j: int| rank[j].unwrap() as int);
        assert forall|j: int| 0 <= j < ranks.len() implies 0 <= #[trigger] ranks[j] < order.len() by {
            assert(rank[j] is Some);
        }
        assert(ranks.no_duplicates()) by {
            assert forall|a: int, b: int| 0 <= a < ranks.len() && 0 <= b < ranks.len() && a != b
                implies ranks[a] != ranks[b] by {
                assert(rank[a] is Some && rank[b] is Some);
            }
        }
        lemma_distinct_bounded(ranks, order.len() as int);
    }
}

/// Root-first order of bones given by parent position: roots in position
/// order, then repeated passes that append every bone whose parent is
/// already placed. `None` when a pass places nothing, that is when some
/// bone's parent chain never reaches a root.
pub fn order_bones(parents: &Vec<Option<usize>>) -> (r: Option<(Vec<usize>, Vec<Option<usize>>)>)
    requires
        parents_resolve(parents@),
    ensures
        r is None <==> !acyclic(parents@),
        r matches Some((order, rank)) ==> complete_order(parents@, order@, rank@) && roots_first(parents@, order@),
{
    let n = parents.len();
    let ghost ps = parents@;
    let mut rank: Vec<Option<usize>> = Vec::new();
    let mut i: usize = 0;
    while i < n
        invariant
            i <= n,
            rank@.len() == i,
            forall|j: int| 0 <= j < i ==> #[trigger] rank@[j] is None,
        decreases n - i,
    {
        rank.push(None);
        i = i + 1;
    }
    let mut order: Vec<usize> = Vec::new();
    i = 0;
    while i < n
        invariant
            n == ps.len(),
            ps == parents@,
            parents_resolve(ps),
            i <= n,
            rank@.len() == n,
            order@.len() <= i,
            forall|k: int| 0 <= k < order@.len() ==> #[trigger] order@[k] < i && rank@[order@[k] as int] == Some(k as usize),
            forall|j: int|
                0 <= j < n ==> match #[trigger] rank@[j] {
                    Some(k) => k < order@.len() && order@[k as int] == j && ps[j] is None,
                    None => true,
                },
            forall|j: int| 0 <= j < i && #[trigger] ps[j] is None ==> rank@[j] is Some,
            forall|k: int| 0 <= k < order@.len() ==> ps[#[trigger] order@[k] as int] is None,
        decreases n - i,
    {
        if parents[i].is_none() {
            rank.set(i, Some(order.len()));
            order.push(i);
        }
        i = i + 1;
    }
    assert(order_inv(ps, order@, rank@));
    let roots = order.len();
    while order.len() < n
        invariant
            n == ps.len(),
            ps == parents@,
            parents_resolve(ps),
            order_inv(ps, order@, rank@),
            roots <= order@.len(),
            forall|k: int| 0 <= k < order@.len() ==> (ps[#[trigger] order@[k] as int] is None <==> k < roots),
        decreases n - order@.len(),
    {
        let before = order.len();
        let mut j: usize = 0;
        while j < n
            invariant
                n == ps.len(),
                ps == parents@,
                parents_resolve(ps),
                order_inv(ps, order@, rank@),
                j <= n,
                before <= order@.len(),
                roots <= order@.len(),
                forall|k: int| 0 <= k < order@.len() ==> (ps[#[trigger] order@[k] as int] is None <==> k < roots),
                order@.len() == before ==> forall|x: int|
                    0 <= x < j && #[trigger] rank@[x] is None ==> (ps[x] matches Some(p)
                        && rank@[p as int] is None),
            decreases n - j,
        {
            if rank[j].is_none() {
                match parents[j] {
                    Some(p) => {
                        assert(p < n);
                        if rank[p].is_some() {
                            proof {
                                lemma_unplaced_exists(ps, order@, rank@);
                            }
                            let ghost old_rank = rank@;
                            let ghost old_order = order@;
                            rank.set(j, Some(order.len()));
                            order.push(j);
                            proof {
                                assert forall|x: int| 0 <= x < n implies match #[trigger] rank@[x] {
                                    Some(k) => match ps[x] {
                                        Some(q) => rank@[q as int] matches Some(kq) && kq < k,
                                        None => true,
                                    },
                                    None => true,
                                } by {
                                    if x != j {
                                        assert(rank@[x] == old_rank[x]);
                                        if let Some(q) = ps[x] {
                                            if old_rank[x] is Some {
                                                assert(old_rank[q as int] is Some);
                                            }
                                        }
                                    }
                                }
                                assert forall|k: int| 0 <= k < order@.len() implies #[trigger] order@[k] < n
                                    && rank@[order@[k] as int] == Some(k as usize) by {
                                    if k < old_order.len() {
                                        assert(order@[k] == old_order[k]);
                                    }
                                }
                                assert forall|k: int| 0 <= k < order@.len() implies (ps[#[trigger] order@[k] as int] is None <==> k < roots) by {
                                    if k < old_order.len() {
                                        assert(order@[k] == old_order[k]);
                                    }
                                }
                            }
                        }
                    },
                    None => {},
                }
            }
            j = j + 1;
        }
        if order.len() == before {
            proof {
                lemma_unplaced_exists(ps, order@, rank@);
                let u = choose|x: int| 0 <= x < n && #[trigger] rank@[x] is None;
                let group = |x: int| 0 <= x < n && rank@[x] is None;
                assert forall|x: int| #[trigger] group(x) implies 0 <= x < ps.len() && ps[x] is Some && group(
                    ps[x].unwrap() as int,
                ) by {
                    assert(ps[x] matches Some(p) && rank@[p as int] is None);
                    assert(ps[x].unwrap() < n);
                }
                lemma_closed_group_not_rooted(ps, group, u);
            }
            return None;
        }
    }
    proof {
        lemma_unplaced_exists(ps, order@, rank@);
        let rk = |x: int| rank@[x].unwrap() as nat;
        assert forall|x: int| 0 <= x < n implies match #[trigger] ps[x] {
            Some(p) => p < n && rk(p as int) < rk(x),
            None => true,
        } by {
            assert(rank@[x] is Some);
        }
        assert forall|x: int| 0 <= x < n implies #[trigger] rooted(ps, x) by {
            lemma_ranked_rooted(ps, rk, x);
        }
        assert forall|a: int, b: int|
            0 <= a < b < order@.len() && ps[#[trigger] order@[b] as int] is None implies ps[#[trigger] order@[a] as int] is None by {
            assert(b < roots);
        }
    }
    Some((order, rank))
}

/// Inverts the joints' child lists: each listed child index maps to the
/// position of the last joint that lists it.
pub fn child_parent_map(joints: &Vec<Joint>) -> (m: HashMap<usize, usize>)
    ensures
        forall|c: usize|
            #[trigger] m@.contains_key(c) == listing_joint(joints@, c, joints@.len() as int) is Some,
        forall|c: usize|
            #[trigger] m@.contains_key(c) ==> m@[c] as int == listing_joint(
                joints@,
                c,
                joints@.len() as int,
            ).unwrap(),
{
    let mut m: HashMap<usize, usize> = HashMap::new();
    let mut j: usize = 0;
    while j < joints.len()
        invariant
            j <= joints@.len(),
            forall|c: usize| #[trigger] m@.contains_key(c) == listing_joint(joints@, c, j as int) is Some,
            forall|c: usize|
                #[trigger] m@.contains_key(c) ==> m@[c] as int == listing_joint(
                    joints@,
                    c,
                    j as int,
                ).unwrap(),
        decreases joints.len() - j,
    {
        let children = &joints[j].children;
        let mut t: usize = 0;
        while t < children.len()
            invariant
                j < joints@.len(),
                children@ == joints@[j as int].children@,
                t <= children@.len(),
                forall|c: usize|
                    #[trigger] m@.contains_key(c) == (children@.subrange(0, t as int).contains(c)
                        || listing_joint(joints@, c, j as int) is Some),
                forall|c: usize|
                    #[trigger] m@.contains_key(c) ==> m@[c] as int == if children@.subrange(
                        0,
                        t as int,
                    ).contains(c) {
                        j as int
                    } else {
                        listing_joint(joints@, c, j as int).unwrap()
                    },
            decreases children.len() - t,
        {
            let ghost before = children@.subrange(0, t as int);
            let ghost old_m = m@;
            let c0 = children[t];
            m.insert(c0, j);
            proof {
                let after = children@.subrange(0, t + 1);
                assert(after == before.push(c0));
                assert forall|c: usize| after.contains(c) == (before.contains(c) || c == c0) by {
                    if before.contains(c) {
                        let k = choose|k: int| 0 <= k < before.len() && before[k] == c;
                        assert(after[k] == c);
                    }
                    if c == c0 {
                        assert(after[t as int] == c);
                    }
                    if after.contains(c) {
                        let k = choose|k: int| 0 <= k < after.len() && after[k] == c;
                        if k < t {
                            assert(before[k] == c);
                        }
                    }
                }
            }
            t = t + 1;
        }
        proof {
            assert(children@.subrange(0, children@.len() as int) == children@);
        }
        j = j + 1;
    }
    m
}

/// Parent position of each joint, read from the child-to-parent map.
pub fn parent_positions(joints: &Vec<Joint>, map: &HashMap<usize, usize>) -> (r: Vec<Option<usize>>)
    requires
        forall|c: usize|
            #[trigger] map@.contains_key(c) == listing_joint(joints@, c, joints@.len() as int) is Some,
        forall|c: usize|
            #[trigger] map@.contains_key(c) ==> map@[c] as int == listing_joint(
                joints@,
                c,
                joints@.len() as int,
            ).unwrap(),
    ensures
        r@ == joint_parents(joints@),
{
    let mut r: Vec<Option<usize>> = Vec::new();
    let mut j: usize = 0;
    while j < joints.len()
        invariant
            j <= joints@.len(),
            r@ == joint_parents(joints@).subrange(0, j as int),
            forall|c: usize|
                #[trigger] map@.contains_key(c) == listing_joint(joints@, c, joints@.len() as int) is Some,
            forall|c: usize|
                #[trigger] map@.contains_key(c) ==> map@[c] as int == listing_joint(
                    joints@,
                    c,
                    joints@.len() as int,
                ).unwrap(),
        decreases joints.len() - j,
    {
        let p = match map.get(&joints[j].index) {
            Some(p) => Some(*p),
            None => None,
        };
        r.push(p);
        j = j + 1;
    }
    assert(r@ == joint_parents(joints@));
    r
}

/// A listing position is a position of a joint.
proof fn lemma_listing_in_range(joints: Seq<Joint>, c: usize, upto: int)
    ensures
        listing_joint(joints, c, upto) matches Some(p) ==> 0 <= p < upto && p < joints.len(),
    decreases upto,
{
    if upto > 0 && upto <= joints.len() && !joints[upto - 1].children@.contains(c) {
        lemma_listing_in_range(joints, c, upto - 1);
    }
}

/// Some two joints carry the same index.
pub fn has_duplicate_index(joints: &Vec<Joint>) -> (r: bool)
    ensures
        r == !indices_distinct(joints@),
{
    let n = joints.len();
    let mut a: usize = 0;
    while a < n
        invariant
            n == joints@.len(),
            a <= n,
            forall|x: int, y: int| 0 <= x < a && x < y < n ==> #[trigger] joints@[x].index != #[trigger] joints@[y].index,
        decreases n - a,
    {
        let mut b: usize = a + 1;
        while b < n
            invariant
                n == joints@.len(),
                a < n,
                a + 1 <= b <= n,
                forall|x: int, y: int| 0 <= x < a && x < y < n ==> #[trigger] joints@[x].index != #[trigger] joints@[y].index,
                forall|y: int| a < y < b ==> joints@[a as int].index != #[trigger] joints@[y].index,
            decreases n - b,
        {
            if joints[a].index == joints[b].index {
                return true;
            }
            b = b + 1;
        }
        a = a + 1;
    }
    false
}

/// Builds a skeleton from a skin's joints and their inverse-bind matrices
/// (aligned by position): parents from the inverted child lists, bones
/// ordered root-first, ids reassigned densely in that order.
pub fn process_skin(name: String, joints: &Vec<Joint>, inverse_bind_matrices: &Vec<MatrixBits>) -> (r:
    Result<Skeleton, SkeletonError>)
    ensures
        r matches Err(SkeletonError::MissingInverseBindMatrix) <==> inverse_bind_matrices@.len()
            != joints@.len(),
        r matches Err(SkeletonError::TooManyBones) <==> inverse_bind_matrices@.len() == joints@.len()
            && joints@.len() > MAX_BONES,
        r matches Err(SkeletonError::DuplicateJointIndex) <==> inverse_bind_matrices@.len()
            == joints@.len() && joints@.len() <= MAX_BONES && !indices_distinct(joints@),
        r matches Err(SkeletonError::CycleOrMissingParent) <==> inverse_bind_matrices@.len()
            == joints@.len() && joints@.len() <= MAX_BONES && indices_distinct(joints@) && !acyclic(
            joint_parents(joints@),
        ),
        r is Ok <==> inverse_bind_matrices@.len() == joints@.len() && joints@.len() <= MAX_BONES
            && indices_distinct(joints@) && acyclic(joint_parents(joints@)),
        r matches Ok(s) ==> built_from(s, name, joints@, inverse_bind_matrices@),
{
    let n = joints.len();
    if inverse_bind_matrices.len() != n {
        return Err(SkeletonError::MissingInverseBindMatrix);
    }
    if n > MAX_BONES {
        return Err(SkeletonError::TooManyBones);
    }
    if has_duplicate_index(joints) {
        return Err(SkeletonError::DuplicateJointIndex);
    }
    let map = child_parent_map(joints);
    let parents = parent_positions(joints, &map);
    let ghost ps = parents@;
    proof {
        assert forall|j: int| 0 <= j < ps.len() implies match #[trigger] ps[j] {
            Some(p) => p < ps.len(),
            None => true,
        } by {
            lemma_listing_in_range(joints@, joints@[j].index, n as int);
        }
    }
    let (order, rank) = match order_bones(&parents) {
        Some(found) => found,
        None => {
            return Err(SkeletonError::CycleOrMissingParent);
        },
    };
    let mut bones_ordered: Vec<Bone> = Vec::new();
    let mut k: usize = 0;
    while k < n
        invariant
            n == joints@.len(),
            n == inverse_bind_matrices@.len(),
            n <= MAX_BONES,
            ps == parents@,
            ps == joint_parents(joints@),
            complete_order(ps, order@, rank@),
            parents_resolve(ps),
            k <= n,
            bones_ordered@.len() == k,
            forall|x: int|
                0 <= x < k ==> {
                    let j = order@[x] as int;
                    &&& (#[trigger] bones_ordered@[x]).id == x
                    &&& bones_ordered@[x].index == joints@[j].index
                    &&& bones_ordered@[x].name == joints@[j].name
                    &&& bones_ordered@[x].inverse_bind_matrix == inverse_bind_matrices@[j]
                    &&& bones_ordered@[x].parent_id == match ps[j] {
                        Some(p) => Some(rank@[p as int].unwrap()),
                        None => None,
                    }
                },
        decreases n - k,
    {
        let j = order[k];
        assert(j < n);
        let parent_id = match parents[j] {
            Some(p) => {
                assert(rank@[p as int] is Some);
                match rank[p] {
                    Some(q) => Some(q),
                    None => None,
                }
            },
            None => None,
        };
        bones_ordered.push(
            Bone {
                id: k as u32,
                name: joints[j].name.clone(),
                parent_id,
                inverse_bind_matrix: inverse_bind_matrices[j],
                index: joints[j].index,
            },
        );
        k = k + 1;
    }
    let mut bones: HashMap<usize, Bone> = HashMap::new();
    let mut j: usize = 0;
    while j < n
        invariant
            n == joints@.len(),
            n == inverse_bind_matrices@.len(),
            ps == parents@,
            ps == joint_parents(joints@),
            indices_distinct(joints@),
            j <= n,
            forall|key: usize|
                #[trigger] bones@.contains_key(key) <==> exists|x: int|
                    0 <= x < j && #[trigger] joints@[x].index == key,
            forall|x: int|
                0 <= x < j ==> #[trigger] bones@[joints@[x].index] == keyed_bone(
                    joints@,
                    inverse_bind_matrices@,
                    x,
                ),
        decreases n - j,
    {
        let parent_id = match parents[j] {
            Some(p) => {
                proof {
                    lemma_listing_in_range(joints@, joints@[j as int].index, n as int);
                }
                Some(joints[p].index)
            },
            None => None,
        };
        let bone = Bone {
            id: joints[j].index as u32,
            name: joints[j].name.clone(),
            parent_id,
            inverse_bind_matrix: inverse_bind_matrices[j],
            index: joints[j].index,
        };
        let ghost old_bones = bones@;
        bones.insert(joints[j].index, bone);
        proof {
            assert forall|x: int| 0 <= x < j + 1 implies #[trigger] bones@[joints@[x].index] == keyed_bone(
                joints@,
                inverse_bind_matrices@,
                x,
            ) by {
                if x < j {
                    assert(joints@[x].index != joints@[j as int].index);
                }
            }
            assert forall|key: usize|
                #[trigger] bones@.contains_key(key) implies exists|x: int|
                    0 <= x < j + 1 && #[trigger] joints@[x].index == key by {
                if key == joints@[j as int].index {
                    assert(joints@[j as int].index == key);
                } else {
                    assert(old_bones.contains_key(key));
                }
            }
        }
        j = j + 1;
    }
    let skeleton = Skeleton { name, bones, bones_ordered };
    proof {
        let bo = skeleton.bones_ordered@;
        assert forall|x: int| 0 <= x < n implies #[trigger] has_source(
            bo,
            x,
            joints@,
            inverse_bind_matrices@,
        ) by {
            let j = order@[x] as int;
            if let Some(p) = ps[j] {
                let q = rank@[p as int].unwrap();
                assert(order@[q as int] == p);
            }
            assert(placed_as(bo, x, joints@, inverse_bind_matrices@, j));
        }
        assert forall|x: int| 0 <= x < n implies #[trigger] index_placed(bo, joints@[x].index) by {
            let k = rank@[x].unwrap() as int;
            assert(bo[k].index == joints@[x].index);
        }
        assert forall|x: int| 0 <= x < bo.len() implies match #[trigger] bo[x].parent_id {
            Some(p) => p < x,
            None => true,
        } by {
            let j = order@[x] as int;
            assert(rank@[j] == Some(x as usize));
        }
        assert forall|a: int, b: int|
            0 <= a < b < bo.len() && (#[trigger] bo[b]).parent_id is None implies (#[trigger] bo[a]).parent_id is None by {
            assert(ps[order@[b] as int] is None);
        }
        assert(skeleton.ids_dense());
        assert(skeleton.parent_first());
        assert(forall|key: usize|
            #[trigger] skeleton.bones@.contains_key(key) <==> exists|j: int|
                0 <= j < joints@.len() && #[trigger] joints@[j].index == key);
        assert(forall|j: int|
            0 <= j < joints@.len() ==> #[trigger] skeleton.bones@[joints@[j].index] == keyed_bone(
                joints@,
                inverse_bind_matrices@,
                j,
            ));
    }
    Ok(skeleton)
}

impl Skeleton {
    /// Ids are the positions in `bones_ordered`, and every id has a slot.
    pub fn has_dense_ids(&self) -> (r: bool)
        ensures
            r == self.ids_dense(),
    {
        let n = self.bones_ordered.len();
        if n > MAX_BONES {
            return false;
        }
        let mut i: usize = 0;
        while i < n
            invariant
                n == self.bones_ordered@.len(),
                i <= n,
                forall|j: int| 0 <= j < i ==> #[trigger] self.bones_ordered@[j].id == j,
            decreases n - i,
        {
            if self.bones_ordered[i].id as usize != i {
                return false;
            }
            i = i + 1;
        }
        true
    }

    /// The skeleton meets what the ordered resolver needs.
    pub fn is_ordered(&self) -> (r: bool)
        ensures
            r == self.ordered_wf(),
    {
        if !self.has_dense_ids() {
            return false;
        }
        let n = self.bones_ordered.len();
        let mut i: usize = 0;
        while i < n
            invariant
                n == self.bones_ordered@.len(),
                i <= n,
                forall|j: int|
                    0 <= j < i ==> match #[trigger] self.bones_ordered@[j].parent_id {
                        Some(p) => p < j,
                        None => true,
                    },
            decreases n - i,
        {
            match self.bones_ordered[i].parent_id {
                Some(p) => {
                    if p >= i {
                        return false;
                    }
                },
                None => {},
            }
            i = i + 1;
        }
        true
    }

    /// The bone id of the bone made from source joint `joint`, or `joint`
    /// itself when no bone comes from it.
    pub fn joint_to_bone_id(&self, joint: usize) -> (r: usize)
        ensures
            (exists|k: int| 0 <= k < self.bones_ordered@.len() && #[trigger] self.bones_ordered@[k].index == joint)
                ==> exists|k: int|
                0 <= k < self.bones_ordered@.len() && #[trigger] self.bones_ordered@[k].index == joint
                    && r == self.bones_ordered@[k].id as usize && forall|x: int|
                    0 <= x < k ==> #[trigger] self.bones_ordered@[x].index != joint,
            (forall|k: int| 0 <= k < self.bones_ordered@.len() ==> #[trigger] self.bones_ordered@[k].index != joint)
                ==> r == joint,
    {
        let mut k: usize = 0;
        while k < self.bones_ordered.len()
            invariant
                k <= self.bones_ordered@.len(),
                forall|x: int| 0 <= x < k ==> #[trigger] self.bones_ordered@[x].index != joint,
            decreases self.bones_ordered.len() - k,
        {
            if self.bones_ordered[k].index == joint {
                return self.bones_ordered[k].id as usize;
            }
            k = k + 1;
        }
        joint
    }
}

/// Ids of `bones` are exactly the positions `0..n`, in some order.
pub open spec fn ids_permute(bones: Seq<Bone>) -> bool {
    &&& forall|i: int| 0 <= i < bones.len() ==> (#[trigger] bones[i]).id < bones.len()
    &&& forall|a: int, b: int| 0 <= a < b < bones.len() ==> #[trigger] bones[a].id != #[trigger] bones[b].id
}

/// Builds a skeleton from bones that already carry dense ids: each bone is
/// placed at the position its id gives and keyed by its id.
pub fn from_indexed_bones(name: String, bones: Vec<Bone>) -> (r: Result<Skeleton, SkeletonError>)
    ensures
        r matches Err(SkeletonError::TooManyBones) <==> bones@.len() > MAX_BONES,
        r matches Err(SkeletonError::InvalidBoneIds) <==> bones@.len() <= MAX_BONES && !ids_permute(bones@),
        r is Ok <==> bones@.len() <= MAX_BONES && ids_permute(bones@),
        r matches Ok(s) ==> {
            &&& s.name == name
            &&& s.ids_dense()
            &&& s.bones_ordered@.len() == bones@.len()
            &&& forall|i: int| 0 <= i < bones@.len() ==> s.bones_ordered@[(#[trigger] bones@[i]).id as int] == bones@[i]
            &&& forall|key: usize| #[trigger] s.bones@.contains_key(key) <==> key < bones@.len()
            &&& forall|i: int| 0 <= i < bones@.len() ==> s.bones@[(#[trigger] bones@[i]).id as usize] == bones@[i]
        },
{
    let n = bones.len();
    if n > MAX_BONES {
        return Err(SkeletonError::TooManyBones);
    }
    let mut slots: Vec<Option<Bone>> = Vec::new();
    let mut i: usize = 0;
    while i < n
        invariant
            i <= n,
            slots@.len() == i,
            forall|j: int| 0 <= j < i ==> #[trigger] slots@[j] is None,
        decreases n - i,
    {
        slots.push(None);
        i = i + 1;
    }
    i = 0;
    while i < n
        invariant
            n == bones@.len(),
            n <= MAX_BONES,
            i <= n,
            slots@.len() == n,
            forall|j: int| 0 <= j < i ==> (#[trigger] bones@[j]).id < n,
            forall|a: int, b: int| 0 <= a < b < i ==> #[trigger] bones@[a].id != #[trigger] bones@[b].id,
            forall|j: int| 0 <= j < i ==> slots@[(#[trigger] bones@[j]).id as int] == Some(bones@[j]),
            forall|s: int| 0 <= s < n && (#[trigger] slots@[s]) is Some ==> exists|j: int| 0 <= j < i && bones@[j].id == s,
        decreases n - i,
    {
        let id = bones[i].id as usize;
        if id >= n {
            return Err(SkeletonError::InvalidBoneIds);
        }
        if slots[id].is_some() {
            proof {
                let j = choose|j: int| 0 <= j < i && bones@[j].id == id;
                assert(bones@[j].id == bones@[i as int].id);
            }
            return Err(SkeletonError::InvalidBoneIds);
        }
        let ghost old_slots = slots@;
        slots.set(id, Some(bones[i].duplicate()));
        proof {
            assert forall|j: int| 0 <= j < i + 1 implies slots@[(#[trigger] bones@[j]).id as int] == Some(bones@[j]) by {
                if j < i {
                    assert(bones@[j].id != id);
                }
            }
            assert forall|s: int| 0 <= s < n && (#[trigger] slots@[s]) is Some implies exists|j: int| 0 <= j < i + 1 && bones@[j].id == s by {
                if s != id {
                    assert(old_slots[s] is Some);
                } else {
                    assert(bones@[i as int].id == s);
                }
            }
        }
        i = i + 1;
    }
    let mut bones_ordered: Vec<Bone> = Vec::new();
    let mut map: HashMap<usize, Bone> = HashMap::new();
    let mut k: usize = 0;
    while k < n
        invariant
            n == bones@.len(),
            n <= MAX_BONES,
            slots@.len() == n,
            forall|j: int| 0 <= j < n ==> (#[trigger] bones@[j]).id < n,
            forall|j: int| 0 <= j < n ==> slots@[(#[trigger] bones@[j]).id as int] == Some(bones@[j]),
            forall|s: int| 0 <= s < n && (#[trigger] slots@[s]) is Some ==> exists|j: int| 0 <= j < n && bones@[j].id == s,
            forall|a: int, b: int| 0 <= a < b < n ==> #[trigger] bones@[a].id != #[trigger] bones@[b].id,
            k <= n,
            bones_ordered@.len() == k,
            forall|s: int| 0 <= s < k ==> slots@[s] == Some(#[trigger] bones_ordered@[s]),
            forall|key: usize| #[trigger] map@.contains_key(key) <==> key < k,
            forall|s: int| 0 <= s < k ==> slots@[s] == Some(#[trigger] map@[s as usize]),
        decreases n - k,
    {
        assert(slots@[k as int] is Some) by {
            lemma_slots_full(bones@, slots@, k as int);
        }
        let b = match &slots[k] {
            Some(b) => b.duplicate(),
            None => Bone { id: 0, name: String::new(), parent_id: None, inverse_bind_matrix: [[0u32; 4]; 4], index: 0 },
        };
        let b2 = b.duplicate();
        bones_ordered.push(b);
        map.insert(k, b2);
        k = k + 1;
    }
    let skeleton = Skeleton { name, bones: map, bones_ordered };
    proof {
        assert forall|s: int| 0 <= s < n implies #[trigger] skeleton.bones_ordered@[s].id == s by {
            let j = choose|j: int| 0 <= j < n && bones@[j].id == s;
            assert(slots@[bones@[j].id as int] == Some(bones@[j]));
        }
    }
    Ok(skeleton)
}

/// With `n` distinct ids below `n` placed, every slot is filled.
proof fn lemma_slots_full(bones: Seq<Bone>, slots: Seq<Option<Bone>>, s: int)
    requires
        0 <= s < bones.len(),
        slots.len() == bones.len(),
        forall|j: int| 0 <= j < bones.len() ==> (#[trigger] bones[j]).id < bones.len(),
        forall|j: int| 0 <= j < bones.len() ==> slots[(#[trigger] bones[j]).id as int] == Some(bones[j]),
        forall|x: int| 0 <= x < bones.len() && (#[trigger] slots[x]) is Some ==> exists|j: int| 0 <= j < bones.len() && bones[j].id == x,
        forall|a: int, b: int| 0 <= a < b < bones.len() ==> #[trigger] bones[a].id != #[trigger] bones[b].id,
    ensures
        slots[s] is Some,
{
    if slots[s] is None {
        let others = Seq::new(bones.len(), |j: int| if (bones[j].id as int) < s { bones[j].id as int } else { bones[j].id as int - 1 });
        assert forall|j: int| 0 <= j < others.len() implies 0 <= #[trigger] others[j] < bones.len() - 1 by {
            assert(slots[bones[j].id as int] is Some);
        }
        assert(others.no_duplicates()) by {
            assert forall|a: int, b: int| 0 <= a < others.len() && 0 <= b < others.len() && a != b implies others[a] != others[b] by {
                assert(slots[bones[a].id as int] == Some(bones[a]));
                assert(slots[bones[b].id as int] == Some(bones[b]));
                assert(bones[a].id != s && bones[b].id != s) by {
                    assert(slots[bones[a].id as int] is Some);
                    assert(slots[bones[b].id as int] is Some);
                }
                if a < b {
                    assert(bones[a].id != bones[b].id);
                } else {
                    assert(bones[b].id != bones[a].id);
                }
            }
        }
        lemma_distinct_bounded(others, bones.len() - 1);
    }
}

} // verus!
