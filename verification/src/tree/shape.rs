//! The arithmetic of a complete binary tree stored level by level in a flat array.
//!
//! A tree with `m` levels has `exp2(m - 1)` leaves and `exp2(m) - 1` nodes. Level 0
//! holds the leaves and occupies the front of the array; each level above is half
//! as wide and follows the one below it; the root is the last element.

use vstd::prelude::*;

verus! {

/// Two to the power `n`.
pub open spec fn exp2(n: nat) -> nat
    decreases n,
{
    if n == 0 {
        1
    } else {
        2 * exp2((n - 1) as nat)
    }
}

/// The base-two logarithm of `n`, rounded down; zero for `n <= 1`.
pub open spec fn log2_floor(n: nat) -> nat
    decreases n,
{
    if n <= 1 {
        0
    } else {
        1 + log2_floor(n / 2)
    }
}

/// Whether `n` is a power of two.
pub open spec fn is_power_of_two(n: nat) -> bool {
    n >= 1 && exp2(log2_floor(n)) == n
}

/// The least power of two that is at least `n`.
pub open spec fn next_power_of_two(n: nat) -> nat
    decreases n,
{
    if n <= 1 {
        1
    } else {
        2 * next_power_of_two((n + 1) / 2)
    }
}

/// The number of leaves of a tree with `size` nodes.
pub open spec fn leaf_count_of(size: nat) -> nat {
    (size + 1) / 2
}

/// The number of levels of a tree with `size` nodes.
pub open spec fn level_count_of(size: nat) -> nat {
    log2_floor(leaf_count_of(size)) + 1
}

/// Whether `size` is the node count of a tree: twice a power of two, less one.
pub open spec fn valid_tree_size(size: nat) -> bool {
    size == 2 * leaf_count_of(size) - 1 && is_power_of_two(leaf_count_of(size))
}

/// The number of nodes on `level` of a tree with `size` nodes.
pub open spec fn level_width(size: nat, level: nat) -> nat
    recommends
        level < level_count_of(size),
{
    exp2((level_count_of(size) - 1 - level) as nat)
}

/// The absolute index of the first node on `level` of a tree with `size` nodes.
pub open spec fn level_start(size: nat, level: nat) -> nat
    recommends
        level < level_count_of(size),
{
    (size + 1 - exp2((level_count_of(size) - level) as nat)) as nat
}

/// Whether `(level, index)` names a node of a tree with `size` nodes.
pub open spec fn valid_position(size: nat, level: nat, index: nat) -> bool {
    level < level_count_of(size) && index < level_width(size, level)
}

/// The absolute index of the node at `(level, index)`.
pub open spec fn abs_index_of(size: nat, level: nat, index: nat) -> nat
    recommends
        valid_position(size, level, index),
{
    level_start(size, level) + index
}

/// The level that holds absolute index `abs` in a tree with `size` nodes.
pub open spec fn level_of(size: nat, abs: nat) -> nat
    recommends
        abs < size,
    decreases size,
{
    if size <= 1 || abs < leaf_count_of(size) {
        0
    } else {
        1 + level_of(size / 2, (abs - leaf_count_of(size)) as nat)
    }
}

/// The index within its level of absolute index `abs`.
pub open spec fn index_in_level_of(size: nat, abs: nat) -> nat
    recommends
        abs < size,
{
    (abs - level_start(size, level_of(size, abs))) as nat
}

/// The index that shares a parent with `index`: the last bit flipped.
pub open spec fn sibling_index(index: nat) -> nat {
    if index % 2 == 0 {
        index + 1
    } else {
        (index - 1) as nat
    }
}

/// The absolute index of the parent of the node at absolute index `abs`.
pub open spec fn parent_abs(size: nat, abs: nat) -> nat
    recommends
        abs + 1 < size,
{
    leaf_count_of(size) + abs / 2
}

/// A power of two is positive.
pub proof fn lemma_exp2_positive(n: nat)
    ensures
        exp2(n) >= 1,
    decreases n,
{
    if n > 0 {
        lemma_exp2_positive((n - 1) as nat);
    }
}

/// The powers of two grow with the exponent.
pub proof fn lemma_exp2_monotonic(a: nat, b: nat)
    requires
        a <= b,
    ensures
        exp2(a) <= exp2(b),
    decreases b,
{
    if a < b {
        lemma_exp2_monotonic(a, (b - 1) as nat);
    }
}

/// Two to the power `k` is a power of two, and its logarithm is `k`.
pub proof fn lemma_exp2_log2(k: nat)
    ensures
        log2_floor(exp2(k)) == k,
        is_power_of_two(exp2(k)),
    decreases k,
{
    lemma_exp2_positive(k);
    if k > 0 {
        lemma_exp2_log2((k - 1) as nat);
        assert(exp2(k) / 2 == exp2((k - 1) as nat));
    }
}

/// Half of a power of two greater than one is a power of two.
pub proof fn lemma_power_of_two_halves(n: nat)
    requires
        is_power_of_two(n),
        n >= 2,
    ensures
        n % 2 == 0,
        is_power_of_two(n / 2),
        log2_floor(n) == log2_floor(n / 2) + 1,
{
    let k = log2_floor(n);
    assert(k >= 1);
    assert(exp2(k) == 2 * exp2((k - 1) as nat));
    lemma_exp2_positive((k - 1) as nat);
}

/// Twice a power of two is a power of two.
pub proof fn lemma_power_of_two_doubles(n: nat)
    requires
        is_power_of_two(n),
    ensures
        is_power_of_two(2 * n),
        log2_floor(2 * n) == log2_floor(n) + 1,
{
    assert((2 * n) / 2 == n);
}

/// `next_power_of_two(n)` is a power of two, at least `n`, and less than `2 * n`
/// for positive `n`: it is the least power of two that is at least `n`.
pub proof fn lemma_next_power_of_two(n: nat)
    ensures
        is_power_of_two(next_power_of_two(n)),
        n <= next_power_of_two(n),
        n >= 1 ==> next_power_of_two(n) < 2 * n,
        is_power_of_two(n) ==> next_power_of_two(n) == n,
    decreases n,
{
    if n <= 1 {
        assert(exp2(0) == 1);
    } else {
        let h = (n + 1) / 2;
        lemma_next_power_of_two(h);
        lemma_power_of_two_doubles(next_power_of_two(h));
        if is_power_of_two(n) {
            lemma_power_of_two_halves(n);
        }
    }
}

/// Between a positive number and its double lies exactly one power of two.
pub proof fn lemma_power_of_two_unique(n: nat, p: nat, q: nat)
    requires
        is_power_of_two(p),
        is_power_of_two(q),
        n <= p < 2 * n,
        n <= q < 2 * n,
    ensures
        p == q,
    decreases n,
{
    if p >= 2 && q >= 2 {
        lemma_power_of_two_halves(p);
        lemma_power_of_two_halves(q);
        lemma_power_of_two_unique((n + 1) / 2, p / 2, q / 2);
    } else if p >= 2 {
        lemma_power_of_two_halves(p);
    } else if q >= 2 {
        lemma_power_of_two_halves(q);
    }
}

/// The node count of a tree is one less than two to the power of its level count,
/// and its leaf count is two to the power of one less.
pub proof fn lemma_tree_size_exp2(size: nat)
    requires
        valid_tree_size(size),
    ensures
        size + 1 == exp2(level_count_of(size)),
        leaf_count_of(size) == exp2((level_count_of(size) - 1) as nat),
        size + 1 == 2 * leaf_count_of(size),
        leaf_count_of(size) >= 1,
{
}

/// What is left of a tree of more than one node when its leaves are taken away
/// is a tree with one level less.
pub proof fn lemma_tree_size_halves(size: nat)
    requires
        valid_tree_size(size),
        size > 1,
    ensures
        valid_tree_size(size / 2),
        size / 2 == size - leaf_count_of(size),
        leaf_count_of(size / 2) == leaf_count_of(size) / 2,
        level_count_of(size / 2) + 1 == level_count_of(size),
{
    lemma_power_of_two_halves(leaf_count_of(size));
}

/// How the levels of a tree lie in its flat array.
pub proof fn lemma_levels(size: nat, level: nat)
    requires
        valid_tree_size(size),
        level < level_count_of(size),
    ensures
        level_width(size, level) >= 1,
        level_start(size, level) + level_width(size, level) <= size,
        level == 0 ==> level_start(size, level) == 0 && level_width(size, level) == leaf_count_of(
            size,
        ),
        level + 1 == level_count_of(size) ==> level_width(size, level) == 1 && level_start(
            size,
            level,
        ) + 1 == size,
        level + 1 < level_count_of(size) ==> {
            &&& level_start(size, level + 1) == level_start(size, level) + level_width(size, level)
            &&& level_width(size, level) == 2 * level_width(size, level + 1)
            &&& level_start(size, level) + 2 * leaf_count_of(size) == 2 * level_start(
                size,
                level + 1,
            )
        },
{
    let m = level_count_of(size);
    lemma_tree_size_exp2(size);
    let e = (m - 1 - level) as nat;
    lemma_exp2_positive(e);
    assert(exp2(e + 1) == 2 * exp2(e));
    lemma_exp2_monotonic(e + 1, m);
    if level + 1 < m {
        assert(exp2(e) == 2 * exp2((e - 1) as nat));
    } else {
        assert(exp2(0) == 1);
    }
}

/// The levels of a tree are in increasing order of their first index.
pub proof fn lemma_level_start_monotonic(size: nat, low: nat, high: nat)
    requires
        valid_tree_size(size),
        low < high < level_count_of(size),
    ensures
        level_start(size, low) + level_width(size, low) <= level_start(size, high),
    decreases high - low,
{
    lemma_levels(size, low);
    if low + 1 < high {
        lemma_level_start_monotonic(size, low + 1, high);
        lemma_levels(size, low + 1);
    }
}

/// A position lies in the band of its level, and in no other.
pub proof fn lemma_position_unique(size: nat, level: nat, index: nat, level2: nat, index2: nat)
    requires
        valid_tree_size(size),
        valid_position(size, level, index),
        valid_position(size, level2, index2),
        abs_index_of(size, level, index) == abs_index_of(size, level2, index2),
    ensures
        level == level2,
        index == index2,
{
    if level < level2 {
        lemma_level_start_monotonic(size, level, level2);
    } else if level2 < level {
        lemma_level_start_monotonic(size, level2, level);
    }
}

/// Every absolute index of a tree is the index of exactly one position: the level
/// and the index within the level that the two functions give.
pub proof fn lemma_abs_index_to_position(size: nat, abs: nat)
    requires
        valid_tree_size(size),
        abs < size,
    ensures
        valid_position(size, level_of(size, abs), index_in_level_of(size, abs)),
        abs_index_of(size, level_of(size, abs), index_in_level_of(size, abs)) == abs,
    decreases size,
{
    lemma_tree_size_exp2(size);
    lemma_levels(size, 0);
    if size > 1 && abs >= leaf_count_of(size) {
        let rest = (abs - leaf_count_of(size)) as nat;
        lemma_tree_size_halves(size);
        lemma_abs_index_to_position(size / 2, rest);
        let k = level_of(size / 2, rest);
        lemma_tree_size_exp2(size / 2);
        lemma_levels(size / 2, k);
        lemma_levels(size, k + 1);
        let e = (level_count_of(size / 2) - k) as nat;
        lemma_exp2_monotonic(e, level_count_of(size / 2));
        assert(level_start(size, k + 1) == leaf_count_of(size) + level_start(size / 2, k));
        assert(level_width(size, k + 1) == level_width(size / 2, k));
    }
}

/// The two functions undo `abs_index_of`.
pub proof fn lemma_position_to_abs_index(size: nat, level: nat, index: nat)
    requires
        valid_tree_size(size),
        valid_position(size, level, index),
    ensures
        abs_index_of(size, level, index) < size,
        level_of(size, abs_index_of(size, level, index)) == level,
        index_in_level_of(size, abs_index_of(size, level, index)) == index,
{
    lemma_levels(size, level);
    let abs = abs_index_of(size, level, index);
    lemma_abs_index_to_position(size, abs);
    lemma_position_unique(
        size,
        level,
        index,
        level_of(size, abs),
        index_in_level_of(size, abs),
    );
}

/// The last node of the array is the only node of the top level.
pub proof fn lemma_root_position(size: nat)
    requires
        valid_tree_size(size),
    ensures
        valid_position(size, (level_count_of(size) - 1) as nat, 0),
        abs_index_of(size, (level_count_of(size) - 1) as nat, 0) + 1 == size,
{
    lemma_levels(size, (level_count_of(size) - 1) as nat);
}

/// Below the top level, the sibling of a position is a position of the same
/// level, and the parent a position of the next; in the flat array the sibling
/// lies next to the node and the parent at `parent_abs`.
pub proof fn lemma_sibling_and_parent(size: nat, level: nat, index: nat)
    requires
        valid_tree_size(size),
        valid_position(size, level, index),
        level + 1 < level_count_of(size),
    ensures
        valid_position(size, level, sibling_index(index)),
        abs_index_of(size, level, sibling_index(index)) == sibling_index(
            abs_index_of(size, level, index),
        ),
        valid_position(size, level + 1, index / 2),
        abs_index_of(size, level + 1, index / 2) == parent_abs(
            size,
            abs_index_of(size, level, index),
        ),
        abs_index_of(size, level, index) + 1 < size,
{
    lemma_levels(size, level);
    lemma_levels(size, level + 1);
}

/// Below the top level every level starts at an even absolute index, so that an
/// index within the level and its absolute index are both even or both odd.
pub proof fn lemma_level_start_even(size: nat, level: nat)
    requires
        valid_tree_size(size),
        level + 1 < level_count_of(size),
    ensures
        level_start(size, level) % 2 == 0,
{
    lemma_levels(size, level);
    let a = level_start(size, level);
    let b = level_start(size, level + 1);
    let l = leaf_count_of(size);
    assert(a + 2 * l == 2 * b);
    assert(a == 2 * (b - l));
}

/// Of two different powers of two the larger is at least twice the smaller.
pub proof fn lemma_power_of_two_gap(p: nat, q: nat)
    requires
        is_power_of_two(p),
        is_power_of_two(q),
        p < q,
    ensures
        2 * p <= q,
{
    let a = log2_floor(p);
    let b = log2_floor(q);
    if a >= b {
        lemma_exp2_monotonic(b, a);
    } else {
        lemma_exp2_monotonic(a + 1, b);
    }
}

/// The absolute indices from the node at `abs` up to the root, each the parent of
/// the one before it.
pub open spec fn path_to_root(size: nat, abs: nat) -> Seq<nat>
    decreases size - abs,
{
    if abs + 1 >= size || parent_abs(size, abs) <= abs {
        seq![abs]
    } else {
        seq![abs] + path_to_root(size, parent_abs(size, abs))
    }
}

/// Below the root the parent of a node lies behind it in the array.
pub proof fn lemma_parent_is_above(size: nat, abs: nat)
    requires
        valid_tree_size(size),
        abs + 1 < size,
    ensures
        abs < parent_abs(size, abs) < size,
{
    lemma_tree_size_exp2(size);
}

/// Dividing by two `shift` times.
pub open spec fn shift_down(index: nat, shift: nat) -> nat
    decreases shift,
{
    if shift == 0 {
        index
    } else {
        shift_down(index / 2, (shift - 1) as nat)
    }
}

/// Dividing by two `shift` times is dividing by two to the power `shift`.
pub proof fn lemma_shift_down(index: nat, shift: nat)
    ensures
        shift_down(index, shift) == index / exp2(shift),
        shift_down(index, shift + 1) == shift_down(index, shift) / 2,
    decreases shift,
{
    lemma_exp2_positive(shift);
    if shift > 0 {
        lemma_shift_down(index / 2, (shift - 1) as nat);
        let e = exp2((shift - 1) as nat);
        lemma_exp2_positive((shift - 1) as nat);
        assert((index / 2) / e == index / (2 * e)) by (nonlinear_arith)
            requires
                e >= 1,
        ;
        assert(shift_down(index, shift + 1) == shift_down(index / 2, shift));
    } else {
        assert(shift_down(index, 1) == shift_down(index / 2, 0));
    }
}

/// The path from a node to the root passes one node on each level from its own
/// level upwards: on the level `steps` above, the node at the index divided by
/// two `steps` times. It ends at the root.
pub proof fn lemma_path_to_root(size: nat, level: nat, index: nat)
    requires
        valid_tree_size(size),
        valid_position(size, level, index),
    ensures
        path_to_root(size, abs_index_of(size, level, index)).len() == level_count_of(size)
            - level,
        forall|steps: nat|
            steps < level_count_of(size) - level ==> valid_position(
                size,
                level + steps,
                #[trigger] shift_down(index, steps),
            ),
        forall|steps: nat|
            steps < level_count_of(size) - level ==> #[trigger] path_to_root(
                size,
                abs_index_of(size, level, index),
            )[steps as int] == abs_index_of(size, level + steps, shift_down(index, steps)),
        path_to_root(size, abs_index_of(size, level, index)).last() + 1 == size,
        path_to_root(size, abs_index_of(size, level, index)).first() == abs_index_of(
            size,
            level,
            index,
        ),
    decreases level_count_of(size) - level,
{
    let abs = abs_index_of(size, level, index);
    let path = path_to_root(size, abs);
    lemma_levels(size, level);
    if level + 1 < level_count_of(size) {
        lemma_sibling_and_parent(size, level, index);
        lemma_tree_size_exp2(size);
        lemma_path_to_root(size, level + 1, index / 2);
        let rest = path_to_root(size, parent_abs(size, abs));
        assert(path == seq![abs] + rest);
        assert forall|steps: nat| steps < level_count_of(size) - level implies valid_position(
            size,
            level + steps,
            #[trigger] shift_down(index, steps),
        ) by {
            if steps > 0 {
                let less = (steps - 1) as nat;
                assert(shift_down(index, steps) == shift_down(index / 2, less));
                assert(level + 1 + less == level + steps);
            }
        }
        assert forall|steps: nat|
            steps < level_count_of(size) - level implies #[trigger] path[steps as int]
            == abs_index_of(size, level + steps, shift_down(index, steps)) by {
            if steps > 0 {
                let less = (steps - 1) as nat;
                assert(path[steps as int] == rest[less as int]);
                assert(shift_down(index, steps) == shift_down(index / 2, less));
                assert(level + 1 + less == level + steps);
            }
        }
        assert(path.last() == rest.last());
    } else {
        assert(path == seq![abs]);
    }
}

/// The node of level `level` on the path from the leaf at `leaf` to the root.
pub open spec fn path_node(size: nat, leaf: nat, level: nat) -> nat {
    path_to_root(size, leaf)[level as int]
}

/// The path from a leaf to the root has one node in the band of each level, and
/// each of its nodes but the first is the parent of the one before.
pub proof fn lemma_path_nodes(size: nat, leaf: nat, level: nat)
    requires
        valid_tree_size(size),
        leaf < leaf_count_of(size),
        level < level_count_of(size),
    ensures
        path_to_root(size, leaf).len() == level_count_of(size),
        level_start(size, level) <= path_node(size, leaf, level) < level_start(size, level)
            + level_width(size, level),
        level + 1 < level_count_of(size) ==> path_node(size, leaf, level + 1) == parent_abs(
            size,
            path_node(size, leaf, level),
        ),
        level == 0 ==> path_node(size, leaf, level) == leaf,
{
    lemma_levels(size, 0);
    lemma_path_to_root(size, 0, leaf);
    let index = shift_down(leaf, level);
    assert(valid_position(size, 0 + level, index));
    assert(path_to_root(size, leaf)[level as int] == abs_index_of(size, 0 + level, index));
    if level + 1 < level_count_of(size) {
        let above = (level + 1) as nat;
        lemma_shift_down(leaf, level);
        lemma_sibling_and_parent(size, level, index);
        assert(path_to_root(size, leaf)[above as int] == abs_index_of(
            size,
            0 + above,
            shift_down(leaf, above),
        ));
    }
}

/// A node in the band of a level lies on the path from a leaf exactly if it is the
/// node of that level on the path.
pub proof fn lemma_path_contains(size: nat, leaf: nat, level: nat, abs: nat)
    requires
        valid_tree_size(size),
        leaf < leaf_count_of(size),
        level < level_count_of(size),
        level_start(size, level) <= abs < level_start(size, level) + level_width(size, level),
    ensures
        path_to_root(size, leaf).contains(abs) <==> path_node(size, leaf, level) == abs,
{
    let path = path_to_root(size, leaf);
    lemma_path_nodes(size, leaf, level);
    if path.contains(abs) {
        let i = choose|i: int| 0 <= i < path.len() && path[i] == abs;
        lemma_path_nodes(size, leaf, i as nat);
        if i < level {
            lemma_level_start_monotonic(size, i as nat, level);
        } else if level < i {
            lemma_level_start_monotonic(size, level, i as nat);
        }
    } else {
        if path[level as int] == abs {
            assert(path.contains(abs));
        }
    }
}

/// `next_power_of_two(n)` is at most every power of two that is at least `n`.
pub proof fn lemma_next_power_of_two_is_least(n: nat, power: nat)
    requires
        is_power_of_two(power),
        n <= power,
    ensures
        next_power_of_two(n) <= power,
{
    lemma_next_power_of_two(n);
    if power < next_power_of_two(n) {
        lemma_power_of_two_gap(power, next_power_of_two(n));
    }
}

/// Two to the power `n` is what `vstd` calls `pow2(n)`.
proof fn lemma_exp2_is_pow2(n: nat)
    ensures
        exp2(n) == vstd::arithmetic::power2::pow2(n),
    decreases n,
{
    vstd::arithmetic::power2::lemma_pow2(n);
    vstd::arithmetic::power::lemma_pow0(2);
    if n > 0 {
        lemma_exp2_is_pow2((n - 1) as nat);
        vstd::arithmetic::power2::lemma_pow2_unfold(n);
    }
}

/// Half of the range of `usize`, rounded up, is a power of two: the largest leaf
/// count whose tree the machine can index.
pub proof fn lemma_largest_leaf_count()
    ensures
        is_power_of_two((usize::MAX / 2 + 1) as nat),
        2 * (usize::MAX / 2 + 1) - 1 == usize::MAX,
{
    vstd::arithmetic::power2::lemma2_to64();
    vstd::arithmetic::power2::lemma2_to64_rest();
    if usize::BITS == 32 {
        lemma_exp2_is_pow2(31);
        lemma_exp2_log2(31);
    } else {
        lemma_exp2_is_pow2(63);
        lemma_exp2_log2(63);
    }
}

} // verus!
