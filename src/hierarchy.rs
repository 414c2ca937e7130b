use crate::model::{LocalSample, MatrixBits, SlotModel};
use vstd::prelude::*;
use vstd::set_lib::*;

verus! {

/// Following parent links from bone `i` reaches a root within `fuel` steps,
/// every link naming a bone of the hierarchy.
pub open spec fn reaches_root(parents: Seq<Option<usize>>, i: int, fuel: nat) -> bool
    decreases fuel,
{
    match parents[i] {
        None => true,
        Some(p) => fuel > 0 && p < parents.len() && reaches_root(parents, p as int, (fuel - 1) as nat),
    }
}

/// Bone `i` has a finite parent chain ending at a root.
pub open spec fn rooted(parents: Seq<Option<usize>>, i: int) -> bool {
    exists|f: nat| reaches_root(parents, i, f)
}

/// Every bone's parent chain ends at a root: no cycle, no dangling parent.
pub open spec fn acyclic(parents: Seq<Option<usize>>) -> bool {
    forall|i: int| 0 <= i < parents.len() ==> #[trigger] rooted(parents, i)
}

/// Every parent link names a bone of the hierarchy.
pub open spec fn parents_resolve(parents: Seq<Option<usize>>) -> bool {
    forall|i: int|
        0 <= i < parents.len() ==> match #[trigger] parents[i] {
            Some(p) => p < parents.len(),
            None => true,
        }
}

/// Local samples along the chain from the root down to bone `i`, following at
/// most `fuel` parent links; bones without a sample contribute nothing.
pub open spec fn chain_with_fuel(
    parents: Seq<Option<usize>>,
    samples: Seq<Option<LocalSample>>,
    i: int,
    fuel: nat,
) -> Seq<LocalSample>
    decreases fuel,
{
    let above = match parents[i] {
        Some(p) => if fuel > 0 && p < parents.len() {
            chain_with_fuel(parents, samples, p as int, (fuel - 1) as nat)
        } else {
            Seq::empty()
        },
        None => Seq::empty(),
    };
    match samples[i] {
        Some(s) => above.push(s),
        None => above,
    }
}

/// The world transform of bone `i` as the product of the local samples from
/// its root down to itself: a bone without a sample passes its parent's
/// world transform through.
pub open spec fn world_chain(
    parents: Seq<Option<usize>>,
    samples: Seq<Option<LocalSample>>,
    i: int,
) -> Seq<LocalSample> {
    chain_with_fuel(parents, samples, i, choose|f: nat| reaches_root(parents, i, f))
}

/// The content of skinning slot `i`: a bone with a sample gets its world
/// transform times its inverse-bind matrix; every other slot, including those
/// past the last bone, holds the identity.
pub open spec fn slot_model(
    parents: Seq<Option<usize>>,
    samples: Seq<Option<LocalSample>>,
    inverse_binds: Seq<MatrixBits>,
    i: int,
) -> SlotModel {
    if 0 <= i < parents.len() && samples[i] is Some {
        SlotModel::Skinned {
            chain: world_chain(parents, samples, i),
            inverse_bind: inverse_binds[i],
        }
    } else {
        SlotModel::Identity
    }
}

/// More fuel changes neither reachability nor the chain once a root is reached.
pub proof fn lemma_fuel_monotone(
    parents: Seq<Option<usize>>,
    samples: Seq<Option<LocalSample>>,
    i: int,
    f: nat,
    g: nat,
)
    requires
        reaches_root(parents, i, f),
        f <= g,
    ensures
        reaches_root(parents, i, g),
        chain_with_fuel(parents, samples, i, f) == chain_with_fuel(parents, samples, i, g),
    decreases f,
{
    if let Some(p) = parents[i] {
        lemma_fuel_monotone(parents, samples, p as int, (f - 1) as nat, (g - 1) as nat);
    }
}

/// Any fuel that reaches a root yields the world chain.
pub proof fn lemma_world_chain_fuel(
    parents: Seq<Option<usize>>,
    samples: Seq<Option<LocalSample>>,
    i: int,
    f: nat,
)
    requires
        reaches_root(parents, i, f),
    ensures
        world_chain(parents, samples, i) == chain_with_fuel(parents, samples, i, f),
{
    let c = choose|c: nat| reaches_root(parents, i, c);
    if c <= f {
        lemma_fuel_monotone(parents, samples, i, c, f);
    } else {
        lemma_fuel_monotone(parents, samples, i, f, c);
    }
}

/// A root's world chain is its own sample, if any.
pub proof fn lemma_world_root(parents: Seq<Option<usize>>, samples: Seq<Option<LocalSample>>, i: int)
    requires
        0 <= i < parents.len(),
        parents[i] is None,
    ensures
        rooted(parents, i),
        world_chain(parents, samples, i) == match samples[i] {
            Some(s) => Seq::<LocalSample>::empty().push(s),
            None => Seq::<LocalSample>::empty(),
        },
{
    assert(reaches_root(parents, i, 0));
    lemma_world_chain_fuel(parents, samples, i, 0);
}

/// A bone whose parent is rooted is rooted, and its world chain extends the
/// parent's by its own sample.
pub proof fn lemma_world_step(
    parents: Seq<Option<usize>>,
    samples: Seq<Option<LocalSample>>,
    i: int,
    p: usize,
)
    requires
        0 <= i < parents.len(),
        parents[i] == Some(p),
        p < parents.len(),
        rooted(parents, p as int),
    ensures
        rooted(parents, i),
        world_chain(parents, samples, i) == match samples[i] {
            Some(s) => world_chain(parents, samples, p as int).push(s),
            None => world_chain(parents, samples, p as int),
        },
{
    let f = choose|f: nat| reaches_root(parents, p as int, f);
    assert(reaches_root(parents, i, f + 1));
    lemma_world_chain_fuel(parents, samples, i, f + 1);
    lemma_world_chain_fuel(parents, samples, p as int, f);
}

/// In a parent-first order, bone `i` reaches a root within `i` links.
pub proof fn lemma_parent_first_rooted(parents: Seq<Option<usize>>, i: int)
    requires
        0 <= i < parents.len(),
        forall|j: int|
            0 <= j < parents.len() ==> match #[trigger] parents[j] {
                Some(p) => p < j,
                None => true,
            },
    ensures
        reaches_root(parents, i, i as nat),
        rooted(parents, i),
    decreases i,
{
    if let Some(p) = parents[i] {
        lemma_parent_first_rooted(parents, p as int);
        lemma_fuel_monotone(parents, Seq::empty(), p as int, p as nat, (i - 1) as nat);
    }
    assert(reaches_root(parents, i, i as nat));
}

/// Bones that all have a parent inside their own group never reach a root.
pub proof fn lemma_closed_group_unrooted(
    parents: Seq<Option<usize>>,
    group: spec_fn(int) -> bool,
    i: int,
    f: nat,
)
    requires
        group(i),
        forall|x: int|
            #[trigger] group(x) ==> 0 <= x < parents.len() && parents[x] is Some && group(
                parents[x].unwrap() as int,
            ),
    ensures
        !reaches_root(parents, i, f),
    decreases f,
{
    if f > 0 {
        lemma_closed_group_unrooted(parents, group, parents[i].unwrap() as int, (f - 1) as nat);
    }
}

/// As `lemma_closed_group_unrooted`, for every amount of fuel.
pub proof fn lemma_closed_group_not_rooted(
    parents: Seq<Option<usize>>,
    group: spec_fn(int) -> bool,
    i: int,
)
    requires
        group(i),
        forall|x: int|
            #[trigger] group(x) ==> 0 <= x < parents.len() && parents[x] is Some && group(
                parents[x].unwrap() as int,
            ),
    ensures
        !rooted(parents, i),
{
    assert forall|f: nat| !reaches_root(parents, i, f) by {
        lemma_closed_group_unrooted(parents, group, i, f);
    }
}

/// A sequence of distinct values in `0..n` has at most `n` entries.
pub proof fn lemma_distinct_bounded(s: Seq<int>, n: int)
    requires
        s.no_duplicates(),
        n >= 0,
        forall|k: int| 0 <= k < s.len() ==> 0 <= #[trigger] s[k] < n,
    ensures
        s.len() <= n,
{
    s.unique_seq_to_set();
    lemma_int_range(0, n);
    assert(s.to_set().subset_of(set_int_range(0, n))) by {
        assert forall|x: int| s.to_set().contains(x) implies set_int_range(0, n).contains(x) by {
            let k = choose|k: int| 0 <= k < s.len() && s[k] == x;
            assert(0 <= s[k] < n);
        }
    }
    lemma_len_subset(s.to_set(), set_int_range(0, n));
}

/// Parents ranked below their children are rooted within the child's rank.
pub proof fn lemma_ranked_rooted(parents: Seq<Option<usize>>, rank: spec_fn(int) -> nat, i: int)
    requires
        0 <= i < parents.len(),
        forall|j: int|
            0 <= j < parents.len() ==> match #[trigger] parents[j] {
                Some(p) => p < parents.len() && rank(p as int) < rank(j),
                None => true,
            },
    ensures
        reaches_root(parents, i, rank(i)),
        rooted(parents, i),
    decreases rank(i),
{
    if let Some(p) = parents[i] {
        lemma_ranked_rooted(parents, rank, p as int);
        lemma_fuel_monotone(parents, Seq::empty(), p as int, rank(p as int), (rank(i) - 1) as nat);
    }
    assert(reaches_root(parents, i, rank(i)));
}

} // verus!
