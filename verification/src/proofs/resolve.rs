//! How a proof for several leaves is resolved: which value the verifier has for
//! each node, and how it computes these values level by level.

use super::cover::holds;
use super::verify_result::ProofVerifyResult;
use crate::hasher::{hash_pair_spec, is_pure, pair_result, PairHasher};
use crate::tree::shape::{is_power_of_two, lemma_power_of_two_halves};
use std::collections::BTreeMap;
use vstd::prelude::*;
use vstd::std_specs::cmp::PartialEqSpec;
use vstd::std_specs::iter::IteratorSpec;

verus! {

/// The value that the verifier has for the node at `abs`, if it has one.
///
/// For a leaf it is the value that was supplied for it, as a leaf first and as a
/// node of the proof second. For a node above the leaves it is the pair hash of
/// the values of its two children, where there is a value for both, and else the
/// value that the proof carries for it.
pub open spec fn resolved<H: PairHasher>(
    leaf_count: usize,
    leaves: Map<usize, H::NodeType>,
    nodes: Map<usize, H::NodeType>,
    abs: usize,
) -> Option<H::NodeType>
    decreases abs,
{
    let carried = if nodes.contains_key(abs) {
        Some(nodes[abs])
    } else {
        None
    };
    if abs < leaf_count {
        if leaves.contains_key(abs) {
            Some(leaves[abs])
        } else {
            carried
        }
    } else if abs + 1 < 2 * leaf_count {
        let left = resolved::<H>(leaf_count, leaves, nodes, left_child(leaf_count, abs));
        let right = resolved::<H>(leaf_count, leaves, nodes, right_child(leaf_count, abs));
        if left is Some && right is Some {
            Some(hash_pair_spec::<H>(left.unwrap(), right.unwrap()))
        } else {
            carried
        }
    } else {
        None
    }
}

/// The absolute index of the left child of the node at `abs`, a node above the
/// leaves.
pub open spec fn left_child(leaf_count: usize, abs: usize) -> usize {
    (2 * (abs - leaf_count)) as usize
}

/// The absolute index of the right child of the node at `abs`, a node above the
/// leaves.
pub open spec fn right_child(leaf_count: usize, abs: usize) -> usize {
    (2 * (abs - leaf_count) + 1) as usize
}

/// The absolute index of the parent of the node at `abs`, a node below the root.
pub(crate) open spec fn parent_of(leaf_count: usize, abs: usize) -> usize {
    (leaf_count + abs / 2) as usize
}

/// Whether what came over the wire fits a tree: the leaf count is that of a tree
/// that the machine can hold, each leaf index is below it, and each node index
/// is below the node count.
pub open spec fn valid_input<T>(
    leaf_count: usize,
    leaves: Map<usize, T>,
    nodes: Map<usize, T>,
) -> bool {
    &&& is_power_of_two(leaf_count as nat)
    &&& 2 * leaf_count - 1 <= usize::MAX
    &&& forall|k: usize| #[trigger] leaves.contains_key(k) ==> k < leaf_count
    &&& forall|k: usize| #[trigger] nodes.contains_key(k) ==> k + 1 < 2 * leaf_count
}

/// The value that is stored for the node at `abs`: the one that was computed for
/// it, or else the one that was supplied for it, as a leaf first and as a node of
/// the proof second.
pub open spec fn stored<T>(
    computed: Map<usize, T>,
    leaves: Map<usize, T>,
    nodes: Map<usize, T>,
    leaf_count: usize,
    abs: usize,
) -> Option<T> {
    if computed.contains_key(abs) {
        Some(computed[abs])
    } else if abs < leaf_count && leaves.contains_key(abs) {
        Some(leaves[abs])
    } else if nodes.contains_key(abs) {
        Some(nodes[abs])
    } else {
        None
    }
}

/// The keys of `map`.
pub(crate) fn collect_keys<T>(map: &BTreeMap<usize, T>) -> (keys: Vec<usize>)
    ensures
        forall|k: usize| #[trigger] map@.contains_key(k) <==> holds(keys@, k as nat),
{
    let mut keys: Vec<usize> = Vec::new();
    for entry in it: map.iter()
        invariant
            keys@.len() == it.index(),
            forall|i: int| 0 <= i < keys@.len() ==> keys@[i] == *it.seq()[i].0,
    {
        keys.push(*entry.0);
    }
    proof {
        let entries = map.iter().remaining();
        assert forall|k: usize| #[trigger] map@.contains_key(k) implies holds(keys@, k as nat) by {
            assert(entries.contains((&k, &map@[k])));
            let i = choose|i: int| 0 <= i < entries.len() && entries[i] == (&k, &map@[k]);
            assert(keys@[i] == k);
        }
        assert forall|k: usize| holds(keys@, k as nat) implies #[trigger] map@.contains_key(k) by {
            let i = choose|i: int| 0 <= i < keys@.len() && #[trigger] keys@[i] == k;
            assert(map@.contains_key(*entries[i].0));
        }
    }
    keys
}

/// The keys of `map`, if all of them are below `bound`.
pub(crate) fn keys_below<T>(map: &BTreeMap<usize, T>, bound: usize) -> (keys: Option<Vec<usize>>)
    ensures
        keys is Some <==> forall|k: usize| #[trigger] map@.contains_key(k) ==> k < bound,
        keys matches Some(list) ==> forall|k: usize| #[trigger]
            map@.contains_key(k) <==> holds(list@, k as nat),
{
    let keys = collect_keys(map);
    let mut i: usize = 0;
    while i < keys.len()
        invariant
            i <= keys@.len(),
            forall|k: usize| #[trigger] map@.contains_key(k) <==> holds(keys@, k as nat),
            forall|t: int| 0 <= t < i ==> #[trigger] keys@[t] < bound,
        decreases keys@.len() - i,
    {
        if keys[i] >= bound {
            proof {
                let k = keys@[i as int];
                assert(holds(keys@, k as nat));
                assert(map@.contains_key(k));
            }
            return None;
        }
        i = i + 1;
    }
    proof {
        assert forall|k: usize| #[trigger] map@.contains_key(k) implies k < bound by {
            assert(holds(keys@, k as nat));
            let t = choose|t: int| 0 <= t < keys@.len() && #[trigger] keys@[t] == k;
        }
    }
    Some(keys)
}

/// Adds to `list` the entries of `given` from `start` up to, not including,
/// `end`.
pub(crate) fn extend_from_band(list: &mut Vec<usize>, given: &Vec<usize>, start: usize, end: usize)
    ensures
        forall|a: nat|
            #![trigger holds(final(list)@, a)]
            holds(final(list)@, a) <==> holds(old(list)@, a) || (holds(given@, a) && start <= a
                < end),
{
    let ghost before = list@;
    let mut i: usize = 0;
    while i < given.len()
        invariant
            i <= given@.len(),
            list@.len() >= before.len(),
            list@.subrange(0, before.len() as int) == before,
            forall|t: int|
                before.len() <= t < list@.len() ==> holds(given@, #[trigger] list@[t] as nat)
                    && start <= list@[t] < end,
            forall|t: int|
                0 <= t < i && start <= #[trigger] given@[t] < end ==> holds(
                    list@,
                    given@[t] as nat,
                ),
        decreases given@.len() - i,
    {
        let entry: usize = given[i];
        if start <= entry && entry < end {
            let ghost old_list = list@;
            list.push(entry);
            proof {
                assert(list@.subrange(0, before.len() as int) =~= old_list.subrange(
                    0,
                    before.len() as int,
                ));
                assert(holds(given@, entry as nat));
                assert forall|t: int| 0 <= t < i + 1 && start <= #[trigger] given@[t]
                    < end implies holds(list@, given@[t] as nat) by {
                    if t < i {
                        let u = choose|u: int|
                            0 <= u < old_list.len() && #[trigger] old_list[u] == given@[t];
                        assert(list@[u] == given@[t]);
                    } else {
                        assert(list@[list@.len() - 1] == entry);
                    }
                }
            }
        }
        i = i + 1;
    }
    proof {
        assert forall|a: nat|
            #![trigger holds(list@, a)]
            holds(list@, a) <==> holds(before, a) || (holds(given@, a) && start <= a < end) by {
            if holds(list@, a) {
                let t = choose|t: int| 0 <= t < list@.len() && #[trigger] list@[t] == a;
                if t < before.len() {
                    assert(before[t] == list@.subrange(0, before.len() as int)[t]);
                    assert(before[t] == a);
                }
            }
            if holds(before, a) {
                let t = choose|t: int| 0 <= t < before.len() && #[trigger] before[t] == a;
                assert(before[t] == list@.subrange(0, before.len() as int)[t]);
                assert(list@[t] == a);
            }
            if holds(given@, a) && start <= a < end {
                let t = choose|t: int| 0 <= t < given@.len() && #[trigger] given@[t] == a;
                assert(holds(list@, given@[t] as nat));
            }
        }
    }
}

/// The value that is stored for the node at `abs`.
pub(crate) fn lookup<'b, T>(
    computed: &'b BTreeMap<usize, T>,
    leaves: &'b BTreeMap<usize, T>,
    nodes: &'b BTreeMap<usize, T>,
    leaf_count: usize,
    abs: usize,
) -> (value: Option<&'b T>)
    ensures
        value is Some <==> stored(computed@, leaves@, nodes@, leaf_count, abs) is Some,
        value matches Some(v) ==> *v == stored(
            computed@,
            leaves@,
            nodes@,
            leaf_count,
            abs,
        ).unwrap(),
{
    match computed.get(&abs) {
        Some(value) => Some(value),
        None => {
            if abs < leaf_count {
                match leaves.get(&abs) {
                    Some(value) => Some(value),
                    None => nodes.get(&abs),
                }
            } else {
                nodes.get(&abs)
            }
        },
    }
}

/// Whether the verifier has a value for both children of the node at `abs`.
pub(crate) open spec fn both_resolved<H: PairHasher>(
    leaf_count: usize,
    leaves: Map<usize, H::NodeType>,
    nodes: Map<usize, H::NodeType>,
    abs: usize,
) -> bool {
    &&& resolved::<H>(leaf_count, leaves, nodes, left_child(leaf_count, abs)) is Some
    &&& resolved::<H>(leaf_count, leaves, nodes, right_child(leaf_count, abs)) is Some
}

/// The pair hash of the values that the verifier has for the children of the node
/// at `abs`.
pub(crate) open spec fn children_hash<H: PairHasher>(
    leaf_count: usize,
    leaves: Map<usize, H::NodeType>,
    nodes: Map<usize, H::NodeType>,
    abs: usize,
) -> H::NodeType {
    hash_pair_spec::<H>(
        resolved::<H>(leaf_count, leaves, nodes, left_child(leaf_count, abs)).unwrap(),
        resolved::<H>(leaf_count, leaves, nodes, right_child(leaf_count, abs)).unwrap(),
    )
}

/// Whether a value is stored for both children of the node at `abs`.
pub open spec fn children_stored<T>(
    computed: Map<usize, T>,
    leaves: Map<usize, T>,
    nodes: Map<usize, T>,
    leaf_count: usize,
    abs: usize,
) -> bool {
    &&& stored(computed, leaves, nodes, leaf_count, left_child(leaf_count, abs)) is Some
    &&& stored(computed, leaves, nodes, leaf_count, right_child(leaf_count, abs)) is Some
}

/// Whether the value computed for the node at `abs` can come out of the pair hash
/// of the values stored for its children.
pub open spec fn hashed_from_children<H: PairHasher>(
    computed: Map<usize, H::NodeType>,
    leaves: Map<usize, H::NodeType>,
    nodes: Map<usize, H::NodeType>,
    leaf_count: usize,
    abs: usize,
) -> bool {
    pair_result::<H>(
        stored(computed, leaves, nodes, leaf_count, left_child(leaf_count, abs)).unwrap(),
        stored(computed, leaves, nodes, leaf_count, right_child(leaf_count, abs)).unwrap(),
        computed[abs],
    )
}

/// Below `bound`, a value was computed for every node above the leaves that has
/// a value stored for both children.
pub open spec fn computed_up_to<T>(
    computed: Map<usize, T>,
    leaves: Map<usize, T>,
    nodes: Map<usize, T>,
    leaf_count: usize,
    bound: int,
) -> bool {
    forall|p: usize|
        leaf_count <= p < bound && #[trigger] children_stored(
            computed,
            leaves,
            nodes,
            leaf_count,
            p,
        ) ==> computed.contains_key(p)
}

/// A value was computed only for nodes above the leaves, below `bound`, that have
/// a value stored for both children, and each can come out of the pair hash of
/// these two.
pub open spec fn computed_from_children<H: PairHasher>(
    computed: Map<usize, H::NodeType>,
    leaves: Map<usize, H::NodeType>,
    nodes: Map<usize, H::NodeType>,
    leaf_count: usize,
    bound: int,
) -> bool {
    &&& forall|p: usize| #[trigger] computed.contains_key(p) ==> leaf_count <= p < bound
    &&& forall|p: usize| #[trigger]
        computed.contains_key(p) ==> children_stored(computed, leaves, nodes, leaf_count, p)
    &&& forall|p: usize| #[trigger]
        computed.contains_key(p) ==> hashed_from_children::<H>(
            computed,
            leaves,
            nodes,
            leaf_count,
            p,
        )
}

/// Whether `computed` holds what the verifier computes from `leaves` and `nodes`
/// for a tree with `leaf_count` leaves: a value for exactly the nodes above the
/// leaves with a value stored for both children, each a result of the pair hash
/// of these two.
pub open spec fn is_computation<H: PairHasher>(
    leaf_count: usize,
    leaves: Map<usize, H::NodeType>,
    nodes: Map<usize, H::NodeType>,
    computed: Map<usize, H::NodeType>,
) -> bool {
    &&& computed_from_children::<H>(computed, leaves, nodes, leaf_count, 2 * leaf_count - 1)
    &&& computed_up_to(computed, leaves, nodes, leaf_count, 2 * leaf_count - 1)
}

/// With a pure hasher, what is stored after the computation is for each node the
/// value that [`resolved`] names.
pub proof fn lemma_computation_is_resolved<H: PairHasher>(
    leaf_count: usize,
    leaves: Map<usize, H::NodeType>,
    nodes: Map<usize, H::NodeType>,
    computed: Map<usize, H::NodeType>,
    abs: usize,
)
    requires
        is_pure::<H>(),
        is_computation::<H>(leaf_count, leaves, nodes, computed),
        abs + 1 < 2 * leaf_count,
    ensures
        stored(computed, leaves, nodes, leaf_count, abs) == resolved::<H>(
            leaf_count,
            leaves,
            nodes,
            abs,
        ),
    decreases abs,
{
    if abs >= leaf_count {
        let left = left_child(leaf_count, abs);
        let right = right_child(leaf_count, abs);
        lemma_computation_is_resolved::<H>(leaf_count, leaves, nodes, computed, left);
        lemma_computation_is_resolved::<H>(leaf_count, leaves, nodes, computed, right);
        if computed.contains_key(abs) {
            assert(children_stored(computed, leaves, nodes, leaf_count, abs));
            assert(hashed_from_children::<H>(computed, leaves, nodes, leaf_count, abs));
        } else {
            if children_stored(computed, leaves, nodes, leaf_count, abs) {
                assert(computed.contains_key(abs));
            }
        }
    }
}

/// `known` holds every node from `start` up to `end` that a value is stored for.
pub(crate) open spec fn lists_stored<T>(
    known: Seq<usize>,
    computed: Map<usize, T>,
    leaves: Map<usize, T>,
    nodes: Map<usize, T>,
    leaf_count: usize,
    start: int,
    end: int,
) -> bool {
    forall|a: usize|
        start <= a < end && (#[trigger] stored(computed, leaves, nodes, leaf_count, a)) is Some
            ==> holds(known, a as nat)
}

/// For the parent of each of the first `upto` entries of `known`, a value was
/// computed if a value is stored for both of its children.
pub(crate) open spec fn parents_done<T>(
    known: Seq<usize>,
    upto: int,
    computed: Map<usize, T>,
    leaves: Map<usize, T>,
    nodes: Map<usize, T>,
    leaf_count: usize,
) -> bool {
    forall|t: int|
        0 <= t < upto && children_stored(
            computed,
            leaves,
            nodes,
            leaf_count,
            parent_of(leaf_count, #[trigger] known[t]),
        ) ==> computed.contains_key(parent_of(leaf_count, known[t]))
}

/// `next` holds every node from `from` upwards that a value was computed for.
pub(crate) open spec fn lists_computed<T>(
    computed: Map<usize, T>,
    next: Seq<usize>,
    from: int,
) -> bool {
    forall|p: usize| #[trigger] computed.contains_key(p) && p >= from ==> holds(next, p as nat)
}

/// Whether `start` and `width` are the first index and the width of a level of a
/// tree with `leaf_count` leaves: the levels lie one behind the other, each half
/// as wide as the one before.
pub(crate) open spec fn is_band(leaf_count: usize, start: int, width: int) -> bool {
    &&& is_power_of_two(width as nat)
    &&& 0 <= start
    &&& start + 2 * width == 2 * leaf_count
    &&& 2 * leaf_count - 1 <= usize::MAX
}

/// Computes a value for each node of the level above the one from `start` that
/// has a value stored for both children, and returns these nodes.
pub(crate) fn compute_level<T, H: PairHasher<NodeType = T>>(
    computed: &mut BTreeMap<usize, T>,
    leaves: &BTreeMap<usize, T>,
    nodes: &BTreeMap<usize, T>,
    known: &Vec<usize>,
    leaf_count: usize,
    start: usize,
    width: usize,
) -> (next: Vec<usize>)
    requires
        is_band(leaf_count, start as int, width as int),
        width >= 2,
        forall|t: int| 0 <= t < known@.len() ==> start <= #[trigger] known@[t] < start + width,
        computed_from_children::<H>(old(computed)@, leaves@, nodes@, leaf_count, start + width),
        computed_up_to(old(computed)@, leaves@, nodes@, leaf_count, start + width),
        lists_stored(
            known@,
            old(computed)@,
            leaves@,
            nodes@,
            leaf_count,
            start as int,
            start + width,
        ),
    ensures
        forall|t: int|
            0 <= t < next@.len() ==> start + width <= #[trigger] next@[t] < start + width + width
                / 2,
        computed_from_children::<H>(
            final(computed)@,
            leaves@,
            nodes@,
            leaf_count,
            start + width + width / 2,
        ),
        computed_up_to(
            final(computed)@,
            leaves@,
            nodes@,
            leaf_count,
            start + width + width / 2,
        ),
        lists_computed(final(computed)@, next@, start + width),
{
    proof {
        lemma_power_of_two_halves(width as nat);
    }
    let upper: usize = start + width;
    let ghost half = width / 2;
    let mut next: Vec<usize> = Vec::new();
    let mut q: usize = 0;
    while q < known.len()
        invariant
            is_band(leaf_count, start as int, width as int),
            width == 2 * half,
            half >= 1,
            upper == start + width,
            q <= known@.len(),
            forall|t: int| 0 <= t < known@.len() ==> start <= #[trigger] known@[t] < upper,
            forall|t: int| 0 <= t < next@.len() ==> upper <= #[trigger] next@[t] < upper + half,
            computed_from_children::<H>(computed@, leaves@, nodes@, leaf_count, upper + half),
            computed_up_to(computed@, leaves@, nodes@, leaf_count, upper as int),
            lists_stored(
                known@,
                computed@,
                leaves@,
                nodes@,
                leaf_count,
                start as int,
                upper as int,
            ),
            lists_computed(computed@, next@, upper as int),
            parents_done(known@, q as int, computed@, leaves@, nodes@, leaf_count),
        decreases known@.len() - q,
    {
        let child: usize = known[q];
        let parent: usize = leaf_count + child / 2;
        let ghost before = computed@;
        let ghost old_next = next@;
        if !computed.contains_key(&parent) {
            let left_abs: usize = 2 * (parent - leaf_count);
            let right_abs: usize = left_abs + 1;
            let left = lookup(computed, leaves, nodes, leaf_count, left_abs);
            let right = lookup(computed, leaves, nodes, leaf_count, right_abs);
            let hash = match (left, right) {
                (Some(left_value), Some(right_value)) => Some(
                    H::hash_pair(left_value, right_value),
                ),
                _ => None,
            };
            proof {
                if hash is Some {
                    assert(pair_result::<H>(*left.unwrap(), *right.unwrap(), hash.unwrap()));
                }
            }
            if let Some(value) = hash {
                computed.insert(parent, value);
                next.push(parent);
                proof {
                    assert(next@[next@.len() - 1] == parent);
                    lemma_insert_above::<H>(
                        before,
                        computed@,
                        leaves@,
                        nodes@,
                        leaf_count,
                        start as int,
                        width as int,
                        parent,
                    );
                    assert(lists_computed(computed@, next@, upper as int)) by {
                        assert forall|p: usize| #[trigger]
                            computed@.contains_key(p) && p >= upper implies holds(
                            next@,
                            p as nat,
                        ) by {
                            if p != parent {
                                assert(before.contains_key(p));
                                let t = choose|t: int|
                                    0 <= t < old_next.len() && #[trigger] old_next[t] == p;
                                assert(next@[t] == p);
                            }
                        }
                    }
                }
            }
        }
        proof {
            assert(parent == parent_of(leaf_count, child));
            assert forall|t: int|
                0 <= t < q + 1 && children_stored(
                    computed@,
                    leaves@,
                    nodes@,
                    leaf_count,
                    parent_of(leaf_count, #[trigger] known@[t]),
                ) implies computed@.contains_key(parent_of(leaf_count, known@[t])) by {
                let p = parent_of(leaf_count, known@[t]);
                assert(start <= known@[t] < upper);
                assert(children_stored(before, leaves@, nodes@, leaf_count, p));
                if t < q {
                    assert(before.contains_key(p));
                }
            }
        }
        q = q + 1;
    }
    proof {
        assert forall|p: usize|
            leaf_count <= p < upper + half && #[trigger] children_stored(
                computed@,
                leaves@,
                nodes@,
                leaf_count,
                p,
            ) implies computed@.contains_key(p) by {
            if p >= upper {
                let left = left_child(leaf_count, p);
                assert(start <= left < upper);
                assert(stored(computed@, leaves@, nodes@, leaf_count, left) is Some);
                assert(holds(known@, left as nat));
                let t = choose|t: int| 0 <= t < known@.len() && #[trigger] known@[t] == left;
                assert(parent_of(leaf_count, known@[t]) == p);
            }
        }
    }
    next
}

/// A value computed for a node of the level above the one from `start` changes
/// what is stored for that node alone, and it leaves in place what was computed
/// before.
pub(crate) proof fn lemma_insert_above<H: PairHasher>(
    before: Map<usize, H::NodeType>,
    after: Map<usize, H::NodeType>,
    leaves: Map<usize, H::NodeType>,
    nodes: Map<usize, H::NodeType>,
    leaf_count: usize,
    start: int,
    width: int,
    parent: usize,
)
    requires
        is_band(leaf_count, start, width),
        width >= 2,
        width % 2 == 0,
        start + width <= parent < start + width + width / 2,
        computed_from_children::<H>(
            before,
            leaves,
            nodes,
            leaf_count,
            start + width + width / 2,
        ),
        computed_up_to(before, leaves, nodes, leaf_count, start + width),
        children_stored(before, leaves, nodes, leaf_count, parent),
        after == before.insert(parent, after[parent]),
        pair_result::<H>(
            stored(before, leaves, nodes, leaf_count, left_child(leaf_count, parent)).unwrap(),
            stored(before, leaves, nodes, leaf_count, right_child(leaf_count, parent)).unwrap(),
            after[parent],
        ),
    ensures
        forall|a: usize|
            a < start + width ==> #[trigger] stored(after, leaves, nodes, leaf_count, a) == stored(
                before,
                leaves,
                nodes,
                leaf_count,
                a,
            ),
        forall|p: usize|
            leaf_count <= p < start + width + width / 2 ==> #[trigger] children_stored(
                after,
                leaves,
                nodes,
                leaf_count,
                p,
            ) == children_stored(before, leaves, nodes, leaf_count, p),
        computed_from_children::<H>(after, leaves, nodes, leaf_count, start + width + width / 2),
        computed_up_to(after, leaves, nodes, leaf_count, start + width),
{
    let upper = start + width;
    assert forall|p: usize| leaf_count <= p < upper + width / 2 implies #[trigger] children_stored(
        after,
        leaves,
        nodes,
        leaf_count,
        p,
    ) == children_stored(before, leaves, nodes, leaf_count, p) by {
        assert(left_child(leaf_count, p) < upper);
        assert(right_child(leaf_count, p) < upper);
    }
    assert forall|p: usize| #[trigger] after.contains_key(p) implies hashed_from_children::<H>(
        after,
        leaves,
        nodes,
        leaf_count,
        p,
    ) by {
        assert(left_child(leaf_count, p) < upper);
        assert(right_child(leaf_count, p) < upper);
        if p != parent {
            assert(before.contains_key(p));
            assert(hashed_from_children::<H>(before, leaves, nodes, leaf_count, p));
        }
    }
    assert forall|p: usize| #[trigger] after.contains_key(p) implies children_stored(
        after,
        leaves,
        nodes,
        leaf_count,
        p,
    ) by {
        if p != parent {
            assert(before.contains_key(p));
        }
    }
}

/// Whether `outcome` is the outcome of verifying against `root` when `reached`
/// is what is stored for the root in the end: a failure if nothing is stored,
/// and else, for a node type with an `eq_spec`, a pass exactly if the two are
/// equal.
pub open spec fn outcome_for<T: PartialEq>(
    reached: Option<T>,
    root: T,
    outcome: ProofVerifyResult,
) -> bool {
    match reached {
        Some(value) => T::obeys_eq_spec() ==> outcome == ProofVerifyResult::spec_from_bool(
            value.eq_spec(&root),
        ),
        None => outcome == ProofVerifyResult::FailedDecisively,
    }
}

} // verus!
