use crate::hierarchy::{
    acyclic, lemma_closed_group_not_rooted, lemma_distinct_bounded, lemma_world_root,
    lemma_world_step, parents_resolve, rooted, slot_model, world_chain,
};
use crate::model::{
    copy_vec, Animation, BoneTransformsUniform, LocalSample, SlotModel, SlotTransform, Skeleton,
    MAX_BONES,
};
use vstd::prelude::*;

verus! {

broadcast use vstd::std_specs::hash::group_hash_axioms;

/// Why the memoized resolver could not resolve a skeleton.
#[derive(Clone, Copy, Debug, PartialEq, Eq, Structural)]
pub enum ResolveError {
    /// A bone names a parent that is not in the skeleton.
    ParentNotFound,
    /// Some bone's parent chain loops back on itself.
    CyclicHierarchy,
}

/// Samples every bone of `skeleton` at `frame_index`, its tracks looked up by name.
pub fn samples_by_name(skeleton: &Skeleton, animation: &Animation, frame_index: usize) -> (r: Vec<
    Option<LocalSample>,
>)
    ensures
        r@ == animation.name_samples(*skeleton, frame_index as nat),
{
    let mut r: Vec<Option<LocalSample>> = Vec::new();
    let mut i: usize = 0;
    while i < skeleton.bones_ordered.len()
        invariant
            i <= skeleton.bones_ordered@.len(),
            r@ == animation.name_samples(*skeleton, frame_index as nat).subrange(0, i as int),
        decreases skeleton.bones_ordered.len() - i,
    {
        let s = match animation.find_by_name(&skeleton.bones_ordered[i].name) {
            Some(j) => animation.bone_keyframes_name[j].sample(frame_index),
            None => None,
        };
        r.push(s);
        i = i + 1;
    }
    assert(r@ == animation.name_samples(*skeleton, frame_index as nat));
    r
}

/// Samples every bone of `skeleton` at `frame_index`, its tracks looked up by id.
pub fn samples_by_id(skeleton: &Skeleton, animation: &Animation, frame_index: usize) -> (r: Vec<
    Option<LocalSample>,
>)
    ensures
        r@ == animation.id_samples(*skeleton, frame_index as nat),
{
    let mut r: Vec<Option<LocalSample>> = Vec::new();
    let mut i: usize = 0;
    while i < skeleton.bones_ordered.len()
        invariant
            i <= skeleton.bones_ordered@.len(),
            r@ == animation.id_samples(*skeleton, frame_index as nat).subrange(0, i as int),
        decreases skeleton.bones_ordered.len() - i,
    {
        let s = match animation.bone_keyframes.get(&i) {
            Some(b) => b.sample(frame_index),
            None => None,
        };
        r.push(s);
        i = i + 1;
    }
    assert(r@ == animation.id_samples(*skeleton, frame_index as nat));
    r
}

/// Ordered strategy: one root-first pass over `bones_ordered`, each bone's
/// world transform built on its parent's, computed earlier in the same pass.
pub fn resolve(skeleton: &Skeleton, animation: &Animation, frame_index: usize) -> (r:
    BoneTransformsUniform)
    requires
        skeleton.ordered_wf(),
    ensures
        r.transforms@.len() == MAX_BONES,
        forall|i: int|
            0 <= i < MAX_BONES ==> #[trigger] r.transforms@[i]@ == slot_model(
                skeleton.parents(),
                animation.name_samples(*skeleton, frame_index as nat),
                skeleton.inverse_binds(),
                i,
            ),
{
    let ghost parents = skeleton.parents();
    let ghost ibms = skeleton.inverse_binds();
    let samples = samples_by_name(skeleton, animation, frame_index);
    let n = skeleton.bones_ordered.len();
    let mut out = BoneTransformsUniform::new();
    let mut worlds: Vec<Vec<LocalSample>> = Vec::new();
    let mut i: usize = 0;
    while i < n
        invariant
            n == skeleton.bones_ordered@.len(),
            n == parents.len(),
            n <= MAX_BONES,
            parents == skeleton.parents(),
            ibms == skeleton.inverse_binds(),
            skeleton.ordered_wf(),
            samples@ == animation.name_samples(*skeleton, frame_index as nat),
            i <= n,
            worlds@.len() == i,
            forall|j: int| 0 <= j < i ==> #[trigger] rooted(parents, j),
            forall|j: int|
                0 <= j < i ==> #[trigger] worlds@[j]@ == world_chain(parents, samples@, j),
            out.transforms@.len() == MAX_BONES,
            forall|j: int|
                0 <= j < MAX_BONES ==> #[trigger] out.transforms@[j]@ == if j < i {
                    slot_model(parents, samples@, ibms, j)
                } else {
                    SlotModel::Identity
                },
        decreases n - i,
    {
        let bone = &skeleton.bones_ordered[i];
        let mut world: Vec<LocalSample> = match bone.parent_id {
            Some(p) => {
                proof {
                    assert(parents[i as int] == Some(p));
                    assert(skeleton.bones_ordered@[i as int].parent_id == Some(p));
                    assert(p < i);
                    assert(rooted(parents, p as int) && worlds@[p as int]@ == world_chain(
                        parents,
                        samples@,
                        p as int,
                    ));
                    lemma_world_step(parents, samples@, i as int, p);
                }
                copy_vec(&worlds[p])
            },
            None => {
                proof {
                    assert(parents[i as int] is None);
                    lemma_world_root(parents, samples@, i as int);
                }
                Vec::new()
            },
        };
        match samples[i] {
            Some(s) => {
                world.push(s);
                let slot = SlotTransform::Skinned {
                    chain: copy_vec(&world),
                    inverse_bind: bone.inverse_bind_matrix,
                };
                out.transforms.set(i, slot);
            },
            None => {},
        }
        worlds.push(world);
        i = i + 1;
    }
    out
}

/// Some bone names a parent outside the skeleton, or a bone with tracks has a
/// parent without tracks.
pub open spec fn parent_missing(skeleton: Skeleton, animation: Animation) -> bool {
    exists|i: int| 0 <= i < skeleton.bones_ordered@.len() && #[trigger] bad_parent(skeleton, animation, i)
}

/// Bone `i` names a parent outside the skeleton, or has tracks while its
/// parent has none.
pub open spec fn bad_parent(skeleton: Skeleton, animation: Animation, i: int) -> bool {
    match skeleton.bones_ordered@[i].parent_id {
        Some(p) => p >= skeleton.bones_ordered@.len() || (animation.bone_keyframes@.contains_key(
            i as usize,
        ) && !animation.bone_keyframes@.contains_key(p)),
        None => false,
    }
}

/// Progress of one bone in the memoized resolver.
#[derive(Clone, Copy, PartialEq, Eq, Structural)]
pub enum Visit {
    Unvisited,
    InProgress,
    Done,
}

/// Every finished bone is rooted and its cached chain is its world chain.
pub open spec fn memo_inv(
    parents: Seq<Option<usize>>,
    samples: Seq<Option<LocalSample>>,
    state: Seq<Visit>,
    cache: Seq<Vec<LocalSample>>,
) -> bool {
    &&& state.len() == parents.len()
    &&& cache.len() == parents.len()
    &&& forall|j: int|
        0 <= j < parents.len() && #[trigger] state[j] == Visit::Done ==> rooted(parents, j)
            && cache[j]@ == world_chain(parents, samples, j)
    &&& forall|j: int|
        0 <= j < parents.len() && #[trigger] state[j] == Visit::Done && parents[j] is Some
            ==> state[parents[j].unwrap() as int] == Visit::Done
}

/// Pushing bone `i` on the stack or popping it off changes the in-progress
/// set by `i` alone.
proof fn lemma_stack_push(stack: Seq<int>, i: int, j: int)
    requires
        j != i,
    ensures
        stack.push(i).contains(j) <==> stack.contains(j),
{
    let inner = stack.push(i);
    if inner.contains(j) {
        let k = choose|k: int| 0 <= k < inner.len() && inner[k] == j;
        assert(stack[k] == j);
    }
    if stack.contains(j) {
        let k = choose|k: int| 0 <= k < stack.len() && stack[k] == j;
        assert(inner[k] == j);
    }
}

/// The bones in progress are exactly those on `stack`, distinct, each the
/// child of the next one.
pub open spec fn stack_inv(parents: Seq<Option<usize>>, state: Seq<Visit>, stack: Seq<int>) -> bool {
    &&& stack.no_duplicates()
    &&& forall|k: int| 0 <= k < stack.len() ==> 0 <= #[trigger] stack[k] < parents.len()
    &&& forall|k: int|
        0 <= k < stack.len() - 1 ==> parents[#[trigger] stack[k]] == Some(stack[k + 1] as usize)
    &&& forall|j: int|
        0 <= j < parents.len() ==> (#[trigger] state[j] == Visit::InProgress <==> stack.contains(j))
}

/// Memoized world transform of bone `i`: a finished bone is taken from the
/// cache, an unfinished one resolves its parent first; reaching a bone that is
/// still in progress means the hierarchy has a cycle.
#[verifier::rlimit(60)]
fn calculate_transform(
    i: usize,
    parents: &Vec<Option<usize>>,
    samples: &Vec<Option<LocalSample>>,
    state: &mut Vec<Visit>,
    cache: &mut Vec<Vec<LocalSample>>,
    Ghost(stack): Ghost<Seq<int>>,
) -> (r: Result<(), ResolveError>)
    requires
        parents_resolve(parents@),
        samples@.len() == parents@.len(),
        i < parents@.len(),
        memo_inv(parents@, samples@, old(state)@, old(cache)@),
        stack_inv(parents@, old(state)@, stack),
        stack.len() > 0 ==> parents@[stack.last()] == Some(i),
    ensures
        old(state)@[i as int] == Visit::Done ==> r is Ok && final(state)@ == old(state)@
            && final(cache)@ == old(cache)@,
        r is Ok ==> {
            &&& memo_inv(parents@, samples@, final(state)@, final(cache)@)
            &&& stack_inv(parents@, final(state)@, stack)
            &&& final(state)@[i as int] == Visit::Done
            &&& (parents@[i as int] matches Some(p) ==> final(state)@[p as int] == Visit::Done)
            &&& forall|j: int|
                0 <= j < parents@.len() && old(state)@[j] == Visit::Done ==> #[trigger] final(state)@[j]
                    == Visit::Done
        },
        r matches Err(e) ==> e == ResolveError::CyclicHierarchy && !acyclic(parents@),
    decreases parents@.len() - stack.len(),
{
    let ghost ps = parents@;
    let n = parents.len();
    if state[i] == Visit::Done {
        return Ok(());
    }
    if state[i] == Visit::InProgress {
        proof {
            assert(stack.contains(i as int));
            let m = choose|m: int| 0 <= m < stack.len() && stack[m] == i as int;
            let group = |x: int| exists|k: int| m <= k < stack.len() && stack[k] == x;
            assert forall|x: int| #[trigger] group(x) implies 0 <= x < ps.len() && ps[x] is Some
                && group(ps[x].unwrap() as int) by {
                let k = choose|k: int| m <= k < stack.len() && stack[k] == x;
                assert(0 <= stack[k] < ps.len());
                assert(ps.len() == n);
                if k < stack.len() - 1 {
                    assert(ps[stack[k]] == Some(stack[k + 1] as usize));
                    assert(0 <= stack[k + 1] < ps.len());
                    assert(ps[x].unwrap() as int == stack[k + 1]);
                    assert(group(stack[k + 1]));
                } else {
                    assert(stack.last() == x);
                    assert(ps[x] == Some(i));
                    assert(ps[x].unwrap() as int == stack[m]);
                    assert(group(stack[m]));
                }
            }
            assert(group(i as int));
            lemma_closed_group_not_rooted(ps, group, i as int);
        }
        return Err(ResolveError::CyclicHierarchy);
    }
    let ghost inner = stack.push(i as int);
    proof {
        assert(!stack.contains(i as int));
        assert forall|k: int| 0 <= k < inner.len() implies 0 <= #[trigger] inner[k] < ps.len() by {
            if k < stack.len() {
                assert(inner[k] == stack[k]);
            }
        }
        lemma_distinct_bounded(inner, ps.len() as int);
    }
    state.set(i, Visit::InProgress);
    proof {
        assert forall|j: int| 0 <= j < ps.len() implies (#[trigger] state@[j] == Visit::InProgress
            <==> inner.contains(j)) by {
            if j != i {
                lemma_stack_push(stack, i as int, j);
            } else {
                assert(inner[inner.len() - 1] == j);
            }
        }
        assert forall|k: int| 0 <= k < inner.len() - 1 implies ps[#[trigger] inner[k]] == Some(
            inner[k + 1] as usize,
        ) by {
            if k < stack.len() - 1 {
                assert(inner[k] == stack[k] && inner[k + 1] == stack[k + 1]);
            } else {
                assert(inner[k] == stack.last());
            }
        }
    }
    let mut world: Vec<LocalSample> = match parents[i] {
        Some(p) => {
            proof {
                assert(ps[i as int] == Some(p));
                assert(p < ps.len());
            }
            match calculate_transform(p, parents, samples, state, cache, Ghost(inner)) {
                Ok(()) => {},
                Err(e) => {
                    return Err(e);
                },
            }
            proof {
                assert(state@[p as int] == Visit::Done);
                lemma_world_step(ps, samples@, i as int, p);
            }
            copy_vec(&cache[p])
        },
        None => {
            proof {
                lemma_world_root(ps, samples@, i as int);
            }
            Vec::new()
        },
    };
    match samples[i] {
        Some(s) => {
            world.push(s);
        },
        None => {},
    }
    let ghost before = state@;
    cache.set(i, world);
    state.set(i, Visit::Done);
    proof {
        assert forall|j: int| 0 <= j < ps.len() implies (#[trigger] state@[j] == Visit::InProgress
            <==> stack.contains(j)) by {
            if j != i {
                assert(before[j] == state@[j]);
                lemma_stack_push(stack, i as int, j);
            }
        }
    }
    Ok(())
}

/// Memoized strategy: each bone's world transform is resolved through its
/// parent on demand and computed once, in any order of `bones_ordered`.
#[verifier::rlimit(60)]
pub fn resolve_recursive(skeleton: &Skeleton, animation: &Animation, frame_index: usize) -> (r:
    Result<BoneTransformsUniform, ResolveError>)
    requires
        skeleton.ids_dense(),
    ensures
        r matches Err(ResolveError::ParentNotFound) <==> parent_missing(*skeleton, *animation),
        r matches Err(ResolveError::CyclicHierarchy) <==> !parent_missing(*skeleton, *animation)
            && !acyclic(skeleton.parents()),
        r matches Ok(u) ==> {
            &&& u.transforms@.len() == MAX_BONES
            &&& forall|i: int|
                0 <= i < MAX_BONES ==> #[trigger] u.transforms@[i]@ == slot_model(
                    skeleton.parents(),
                    animation.id_samples(*skeleton, frame_index as nat),
                    skeleton.inverse_binds(),
                    i,
                )
        },
{
    let ghost ibms = skeleton.inverse_binds();
    let n = skeleton.bones_ordered.len();
    let mut parents: Vec<Option<usize>> = Vec::new();
    let mut i: usize = 0;
    while i < n
        invariant
            n == skeleton.bones_ordered@.len(),
            i <= n,
            parents@ == skeleton.parents().subrange(0, i as int),
            forall|j: int|
                0 <= j < i ==> match #[trigger] parents@[j] {
                    Some(p) => p < n && !(animation.bone_keyframes@.contains_key(j as usize)
                        && !animation.bone_keyframes@.contains_key(p)),
                    None => true,
                },
        decreases n - i,
    {
        let parent = skeleton.bones_ordered[i].parent_id;
        match parent {
            Some(p) => {
                if p >= n || (animation.bone_keyframes.contains_key(&i)
                    && !animation.bone_keyframes.contains_key(&p)) {
                    proof {
                        assert(bad_parent(*skeleton, *animation, i as int));
                    }
                    return Err(ResolveError::ParentNotFound);
                }
            },
            None => {},
        }
        parents.push(parent);
        i = i + 1;
    }
    let ghost ps = parents@;
    assert(ps == skeleton.parents());
    assert(!parent_missing(*skeleton, *animation)) by {
        assert forall|j: int| 0 <= j < n implies !#[trigger] bad_parent(*skeleton, *animation, j) by {
            assert(ps[j] == skeleton.bones_ordered@[j].parent_id);
        }
    }
    let samples = samples_by_id(skeleton, animation, frame_index);
    let mut state: Vec<Visit> = Vec::new();
    let mut cache: Vec<Vec<LocalSample>> = Vec::new();
    i = 0;
    while i < n
        invariant
            n == ps.len(),
            i <= n,
            state@.len() == i,
            cache@.len() == i,
            forall|j: int| 0 <= j < i ==> #[trigger] state@[j] == Visit::Unvisited,
        decreases n - i,
    {
        state.push(Visit::Unvisited);
        cache.push(Vec::new());
        i = i + 1;
    }
    i = 0;
    while i < n
        invariant
            n == ps.len(),
            ps == parents@,
            ps == skeleton.parents(),
            parents_resolve(ps),
            !parent_missing(*skeleton, *animation),
            samples@ == animation.id_samples(*skeleton, frame_index as nat),
            i <= n,
            memo_inv(ps, samples@, state@, cache@),
            stack_inv(ps, state@, Seq::empty()),
            forall|j: int| 0 <= j < i ==> #[trigger] state@[j] == Visit::Done,
        decreases n - i,
    {
        match calculate_transform(i, &parents, &samples, &mut state, &mut cache, Ghost(Seq::empty())) {
            Ok(()) => {},
            Err(e) => {
                return Err(e);
            },
        }
        i = i + 1;
    }
    assert forall|j: int| 0 <= j < n implies #[trigger] rooted(ps, j) by {
        assert(state@[j] == Visit::Done);
    }
    let mut out = BoneTransformsUniform::new();
    i = 0;
    while i < n
        invariant
            n == ps.len(),
            n == skeleton.bones_ordered@.len(),
            n <= MAX_BONES,
            ps == skeleton.parents(),
            ibms == skeleton.inverse_binds(),
            samples@ == animation.id_samples(*skeleton, frame_index as nat),
            i <= n,
            memo_inv(ps, samples@, state@, cache@),
            forall|j: int| 0 <= j < n ==> #[trigger] state@[j] == Visit::Done,
            out.transforms@.len() == MAX_BONES,
            forall|j: int|
                0 <= j < MAX_BONES ==> #[trigger] out.transforms@[j]@ == if j < i {
                    slot_model(ps, samples@, ibms, j)
                } else {
                    SlotModel::Identity
                },
        decreases n - i,
    {
        match samples[i] {
            Some(_) => {
                assert(state@[i as int] == Visit::Done);
                let slot = SlotTransform::Skinned {
                    chain: copy_vec(&cache[i]),
                    inverse_bind: skeleton.bones_ordered[i].inverse_bind_matrix,
                };
                out.transforms.set(i, slot);
            },
            None => {},
        }
        i = i + 1;
    }
    Ok(out)
}

/// Number of the first `upto` bones of `skeleton` whose tracks, found by name,
/// are empty, so that they contribute nothing to a tick.
pub open spec fn empty_tracks(skeleton: Skeleton, animation: Animation, upto: int) -> nat
    decreases upto,
{
    if upto <= 0 || upto > skeleton.bones_ordered@.len() {
        0
    } else {
        let here: nat = match animation.named(skeleton.bones_ordered@[upto - 1].name@) {
            Some(b) => if b.frame_count() == 0 {
                1
            } else {
                0
            },
            None => 0,
        };
        empty_tracks(skeleton, animation, upto - 1) + here
    }
}

/// Counts the bones whose tracks are empty (see `empty_tracks`), for
/// reporting alongside a resolved tick.
pub fn count_empty_tracks(skeleton: &Skeleton, animation: &Animation) -> (r: usize)
    ensures
        r == empty_tracks(*skeleton, *animation, skeleton.bones_ordered@.len() as int),
{
    let mut r: usize = 0;
    let mut i: usize = 0;
    while i < skeleton.bones_ordered.len()
        invariant
            i <= skeleton.bones_ordered@.len(),
            r <= i,
            r == empty_tracks(*skeleton, *animation, i as int),
        decreases skeleton.bones_ordered.len() - i,
    {
        match animation.find_by_name(&skeleton.bones_ordered[i].name) {
            Some(j) => {
                let b = &animation.bone_keyframes_name[j];
                if b.translation_keys.len() == 0 || b.rotation_keys.len() == 0 || b.scale_keys.len()
                    == 0 {
                    r = r + 1;
                }
            },
            None => {},
        }
        i = i + 1;
    }
    r
}

/// Number of the first `upto` bones of `skeleton` whose tracks, found by name,
/// are non-empty but shorter than `frame + 1`, so that sampling wraps around.
pub open spec fn wrapped_tracks(skeleton: Skeleton, animation: Animation, frame: nat, upto: int) -> nat
    decreases upto,
{
    if upto <= 0 || upto > skeleton.bones_ordered@.len() {
        0
    } else {
        let here: nat = match animation.named(skeleton.bones_ordered@[upto - 1].name@) {
            Some(b) => if 0 < b.frame_count() && b.frame_count() <= frame {
                1
            } else {
                0
            },
            None => 0,
        };
        wrapped_tracks(skeleton, animation, frame, upto - 1) + here
    }
}

/// Counts the bones whose tracks wrap at `frame_index` (see `wrapped_tracks`),
/// for reporting alongside a resolved tick.
pub fn count_wrapped_tracks(skeleton: &Skeleton, animation: &Animation, frame_index: usize) -> (r:
    usize)
    ensures
        r == wrapped_tracks(
            *skeleton,
            *animation,
            frame_index as nat,
            skeleton.bones_ordered@.len() as int,
        ),
{
    let mut r: usize = 0;
    let mut i: usize = 0;
    while i < skeleton.bones_ordered.len()
        invariant
            i <= skeleton.bones_ordered@.len(),
            r <= i,
            r == wrapped_tracks(*skeleton, *animation, frame_index as nat, i as int),
        decreases skeleton.bones_ordered.len() - i,
    {
        match animation.find_by_name(&skeleton.bones_ordered[i].name) {
            Some(j) => {
                let b = &animation.bone_keyframes_name[j];
                let t = b.translation_keys.len();
                let q = b.rotation_keys.len();
                let c = b.scale_keys.len();
                let n: usize = if t <= q && t <= c {
                    t
                } else if q <= c {
                    q
                } else {
                    c
                };
                if 0 < n && n <= frame_index {
                    r = r + 1;
                }
            },
            None => {},
        }
        i = i + 1;
    }
    r
}

} // verus!
