use vstd::prelude::*;
use vstd::arithmetic::power2::{lemma_pow2_pos, lemma_pow2_strictly_increases, lemma2_to64};
use vstd::arithmetic::div_mod::{lemma_fundamental_div_mod_converse, lemma_mod_division_less_than_divisor, lemma_fundamental_div_mod};
use vstd::arithmetic::mul::{lemma_mul_inequality, lemma_mul_strict_inequality, lemma_mul_is_distributive_add, lemma_mul_nonnegative};
use crate::util::{spec_tree_size, spec_leaf_count, lemma_split_sizes};

verus! {

/// Height of the top subtree of a split tree: the taller half when the
/// height is odd.
pub open spec fn top_height(height: nat) -> nat {
    (height - height / 2) as nat
}

/// Height of each bottom subtree of a split tree.
pub open spec fn bottom_height(height: nat) -> nat {
    height / 2
}

/// The slots of the top subtree inside a laid-out buffer.
pub open spec fn top_region(s: Seq<i32>, height: nat) -> Seq<i32> {
    s.subrange(0, spec_tree_size(top_height(height)) as int)
}

/// The slots of bottom subtree number `j` inside a laid-out buffer.
pub open spec fn bottom_region(s: Seq<i32>, height: nat, j: int) -> Seq<i32> {
    let ts = spec_tree_size(top_height(height)) as int;
    let bs = spec_tree_size(bottom_height(height)) as int;
    s.subrange(ts + j * bs, ts + (j + 1) * bs)
}

/// Buffer position of leaf number `leaf` in a laid-out tree of the given
/// height.
pub open spec fn leaf_pos(height: nat, leaf: int) -> int
    decreases height,
{
    if height <= 1 {
        0
    } else if height == 2 {
        1 + leaf
    } else if height == 3 {
        3 + leaf
    } else {
        let lb = spec_leaf_count(bottom_height(height)) as int;
        spec_tree_size(top_height(height)) + (leaf / lb) * spec_tree_size(bottom_height(height))
            + leaf_pos(bottom_height(height), leaf % lb)
    }
}

/// The keys of all leaves of a laid-out tree, in rank order.
pub open spec fn leaves_of(s: Seq<i32>, height: nat) -> Seq<i32> {
    Seq::new(spec_leaf_count(height), |i: int| s[leaf_pos(height, i)])
}

pub open spec fn strictly_ascending(s: Seq<i32>) -> bool {
    forall|i: int, j: int| 0 <= i < j < s.len() ==> s[i] < s[j]
}

/// The structural invariant of a laid-out buffer: every internal slot holds
/// a copy of the key of the leftmost leaf of its own subtree.  For a tree of
/// height at least 4 this says that the top subtree and every bottom subtree
/// are themselves laid out, and that leaf number `i` of the top subtree holds
/// the leftmost leaf key of bottom subtree `2 * i` (the left subtree of pair
/// `i`; the right subtree's least key is read from its own root slot instead
/// of being stored a second time).
pub open spec fn is_layout(s: Seq<i32>, height: nat) -> bool
    decreases height,
{
    &&& s.len() == spec_tree_size(height)
    &&& if height <= 1 {
        true
    } else if height == 2 {
        s[0] == s[1]
    } else if height == 3 {
        s[0] == s[3] && s[1] == s[3] && s[2] == s[5]
    } else {
        let th = top_height(height);
        let bh = bottom_height(height);
        let lt = spec_leaf_count(th) as int;
        &&& is_layout(top_region(s, height), th)
        &&& (forall|j: int|
            0 <= j < 2 * lt ==> is_layout(#[trigger] bottom_region(s, height, j), bh))
        &&& (forall|i: int|
            0 <= i < lt ==> (#[trigger] leaves_of(top_region(s, height), th)[i]) == leaves_of(
                bottom_region(s, height, 2 * i),
                bh,
            )[0])
    }
}

/// Small powers of two, so that the base cases of the height recursion can
/// be discharged without unfolding `pow2` by hand.
pub proof fn lemma_small_tree_sizes()
    ensures
        spec_leaf_count(1) == 1,
        spec_leaf_count(2) == 2,
        spec_leaf_count(3) == 4,
        spec_tree_size(1) == 1,
        spec_tree_size(2) == 3,
        spec_tree_size(3) == 7,
{
    lemma2_to64();
}

/// Every leaf position lies inside the buffer of its tree, and for a split
/// tree it lies past the top region: leaves are stored only in the bottom
/// subtrees.
pub proof fn lemma_leaf_pos_bounds(height: nat, leaf: int)
    requires
        1 <= height,
        0 <= leaf < spec_leaf_count(height),
    ensures
        0 <= leaf_pos(height, leaf) < spec_tree_size(height),
        height > 3 ==> spec_tree_size(top_height(height)) <= leaf_pos(height, leaf),
    decreases height,
{
    lemma_small_tree_sizes();
    if height <= 3 {
    } else {
        lemma_split_sizes(height);
        let th = top_height(height);
        let bh = bottom_height(height);
        let ts = spec_tree_size(th) as int;
        let bs = spec_tree_size(bh) as int;
        let lt = spec_leaf_count(th) as int;
        let lb = spec_leaf_count(bh) as int;
        lemma_pow2_pos((bh - 1) as nat);
        let j = leaf / lb;
        let local = leaf % lb;
        lemma_fundamental_div_mod(leaf, lb);
        lemma_mod_division_less_than_divisor(leaf, lb);
        assert(0 <= j && j < 2 * lt) by (nonlinear_arith)
            requires
                leaf == lb * j + local,
                0 <= local < lb,
                0 <= leaf < 2 * lt * lb,
                lb >= 1,
        ;
        lemma_leaf_pos_bounds(bh, local);
        lemma_mul_nonnegative(j, bs);
        lemma_mul_inequality(j, 2 * lt - 1, bs);
        assert((2 * lt - 1) * bs + bs == 2 * lt * bs) by (nonlinear_arith);
    }
}

/// Leaf number `j * spec_leaf_count(bottom) + local` of a split tree is leaf
/// number `local` of bottom subtree `j`.
pub proof fn lemma_leaves_decompose(s: Seq<i32>, height: nat, j: int, local: int)
    requires
        height > 3,
        s.len() == spec_tree_size(height),
        0 <= j < 2 * spec_leaf_count(top_height(height)),
        0 <= local < spec_leaf_count(bottom_height(height)),
    ensures
        0 <= j * spec_leaf_count(bottom_height(height)) + local < spec_leaf_count(height),
        leaves_of(s, height)[j * spec_leaf_count(bottom_height(height)) + local] == leaves_of(
            bottom_region(s, height, j),
            bottom_height(height),
        )[local],
{
    lemma_split_sizes(height);
    let th = top_height(height);
    let bh = bottom_height(height);
    let ts = spec_tree_size(th) as int;
    let bs = spec_tree_size(bh) as int;
    let lt = spec_leaf_count(th) as int;
    let lb = spec_leaf_count(bh) as int;
    lemma_pow2_pos((bh - 1) as nat);
    let leaf = j * lb + local;
    assert(0 <= leaf < 2 * lt * lb) by (nonlinear_arith)
        requires
            0 <= j < 2 * lt,
            0 <= local < lb,
            leaf == j * lb + local,
            lb >= 1,
    ;
    lemma_fundamental_div_mod_converse(leaf, lb, j, local);
    lemma_leaf_pos_bounds(bh, local);
    lemma_mul_nonnegative(j, bs);
    lemma_mul_inequality(j, 2 * lt - 1, bs);
    assert((2 * lt - 1) * bs + bs == 2 * lt * bs) by (nonlinear_arith);
    lemma_mul_is_distributive_add(bs, j, 1);
    assert((j + 1) * bs == j * bs + bs) by (nonlinear_arith);
    assert(bottom_region(s, height, j).len() == bs);
    assert(leaf_pos(height, leaf) == ts + j * bs + leaf_pos(bh, local));
    assert(leaves_of(bottom_region(s, height, j), bh)[local] == bottom_region(s, height, j)[
        leaf_pos(bh, local)
    ]);
    assert(bottom_region(s, height, j)[leaf_pos(bh, local)] == s[ts + j * bs + leaf_pos(bh, local)]);
}

/// The root slot of bottom subtree `j` holds the key of leaf number
/// `j * spec_leaf_count(bottom)` of the whole tree: the least leaf rank of
/// that subtree.
pub proof fn lemma_subtree_root_key(s: Seq<i32>, height: nat, j: int)
    requires
        height > 3,
        is_layout(s, height),
        0 <= j < 2 * spec_leaf_count(top_height(height)),
    ensures
        ({
            let ts = spec_tree_size(top_height(height)) as int;
            let bs = spec_tree_size(bottom_height(height)) as int;
            let lb = spec_leaf_count(bottom_height(height)) as int;
            &&& bottom_region(s, height, j).len() == bs
            &&& bottom_region(s, height, j)[0] == s[ts + j * bs]
            &&& s[ts + j * bs] == leaves_of(s, height)[j * lb]
            &&& 0 <= j * lb < spec_leaf_count(height)
            &&& 0 <= ts + j * bs < spec_tree_size(height)
        }),
{
    lemma_split_sizes(height);
    lemma2_to64();
    let th = top_height(height);
    let bh = bottom_height(height);
    let ts = spec_tree_size(th) as int;
    let bs = spec_tree_size(bh) as int;
    let lt = spec_leaf_count(th) as int;
    let lb = spec_leaf_count(bh) as int;
    lemma_pow2_pos((bh - 1) as nat);
    lemma_pow2_strictly_increases(0, bh);
    assert(bs >= 1);
    lemma_mul_nonnegative(j, bs);
    lemma_mul_inequality(j, 2 * lt - 1, bs);
    assert((2 * lt - 1) * bs + bs == 2 * lt * bs) by (nonlinear_arith);
    assert((j + 1) * bs == j * bs + bs) by (nonlinear_arith);
    assert(is_layout(bottom_region(s, height, j), bh));
    lemma_root_is_first_leaf(bottom_region(s, height, j), bh);
    lemma_leaves_decompose(s, height, j, 0);
    assert(bottom_region(s, height, j)[0] == s[ts + j * bs]);
}

/// How the leaf sequence of a split tree decomposes: leaf `local` of bottom
/// subtree `j` is leaf `j * spec_leaf_count(bottom) + local` of the whole
/// tree, leaf `i` of the top subtree is leaf `2 * i * spec_leaf_count(bottom)`
/// of the whole tree, and when the whole leaf sequence ascends strictly, so
/// does the leaf sequence of every part.
pub proof fn lemma_split_leaves(s: Seq<i32>, height: nat)
    requires
        height > 3,
        is_layout(s, height),
    ensures
        ({
            let th = top_height(height);
            let bh = bottom_height(height);
            let lt = spec_leaf_count(th) as int;
            let lb = spec_leaf_count(bh) as int;
            &&& (forall|j: int, local: int|
                0 <= j < 2 * lt && 0 <= local < lb ==> (#[trigger] leaves_of(
                    bottom_region(s, height, j),
                    bh,
                )[local]) == leaves_of(s, height)[j * lb + local])
            &&& (forall|i: int|
                0 <= i < lt ==> (#[trigger] leaves_of(top_region(s, height), th)[i]) == leaves_of(
                    s,
                    height,
                )[2 * i * lb])
            &&& (strictly_ascending(leaves_of(s, height)) ==> strictly_ascending(
                leaves_of(top_region(s, height), th),
            ))
            &&& (strictly_ascending(leaves_of(s, height)) ==> (forall|j: int|
                0 <= j < 2 * lt ==> strictly_ascending(
                    leaves_of(#[trigger] bottom_region(s, height, j), bh),
                )))
        }),
{
    lemma_split_sizes(height);
    let th = top_height(height);
    let bh = bottom_height(height);
    let lt = spec_leaf_count(th) as int;
    let lb = spec_leaf_count(bh) as int;
    lemma_pow2_pos((bh - 1) as nat);
    lemma_pow2_pos((th - 1) as nat);
    assert forall|j: int, local: int| 0 <= j < 2 * lt && 0 <= local < lb implies (
    #[trigger] leaves_of(bottom_region(s, height, j), bh)[local]) == leaves_of(s, height)[j * lb
        + local] by {
        lemma_leaves_decompose(s, height, j, local);
    }
    assert forall|i: int| 0 <= i < lt implies (#[trigger] leaves_of(top_region(s, height), th)[i])
        == leaves_of(s, height)[2 * i * lb] by {
        lemma_leaves_decompose(s, height, 2 * i, 0);
        assert(leaves_of(top_region(s, height), th)[i] == leaves_of(
            bottom_region(s, height, 2 * i),
            bh,
        )[0]);
        assert(2 * i * lb + 0 == 2 * i * lb);
    }
    if strictly_ascending(leaves_of(s, height)) {
        assert forall|a: int, b: int|
            0 <= a < b < lt implies leaves_of(top_region(s, height), th)[a] < leaves_of(
            top_region(s, height),
            th,
        )[b] by {
            lemma_leaves_decompose(s, height, 2 * a, 0);
            lemma_leaves_decompose(s, height, 2 * b, 0);
            lemma_mul_strict_inequality(2 * a, 2 * b, lb);
        }
        assert forall|j: int| 0 <= j < 2 * lt implies strictly_ascending(
            leaves_of(#[trigger] bottom_region(s, height, j), bh),
        ) by {
            assert forall|a: int, b: int|
                0 <= a < b < lb implies leaves_of(bottom_region(s, height, j), bh)[a] < leaves_of(
                bottom_region(s, height, j),
                bh,
            )[b] by {
                lemma_leaves_decompose(s, height, j, a);
                lemma_leaves_decompose(s, height, j, b);
            }
            assert(leaves_of(bottom_region(s, height, j), bh).len() == lb);
        }
    }
}

/// The root slot of a laid-out tree holds the key of its leftmost leaf.
pub proof fn lemma_root_is_first_leaf(s: Seq<i32>, height: nat)
    requires
        1 <= height,
        is_layout(s, height),
    ensures
        s[0] == leaves_of(s, height)[0],
    decreases height,
{
    lemma_small_tree_sizes();
    if height <= 3 {
    } else {
        lemma_split_sizes(height);
        let th = top_height(height);
        let bh = bottom_height(height);
        let ts = spec_tree_size(th) as int;
        let bs = spec_tree_size(bh) as int;
        let lt = spec_leaf_count(th) as int;
        lemma_pow2_pos((th - 1) as nat);
        lemma_pow2_pos((bh - 1) as nat);
        lemma_pow2_strictly_increases(0, th);
        lemma_mul_nonnegative(2 * lt, bs);
        assert(ts >= 1);
        assert(top_region(s, height).len() == ts);
        lemma_root_is_first_leaf(top_region(s, height), th);
        assert(is_layout(bottom_region(s, height, 0), bh));
        assert(leaves_of(top_region(s, height), th)[0] == leaves_of(
            bottom_region(s, height, 2 * 0int),
            bh,
        )[0]);
        assert(bottom_region(s, height, 2 * 0int) == bottom_region(s, height, 0));
        lemma_leaves_decompose(s, height, 0, 0);
        assert(top_region(s, height)[0] == s[0]);
    }
}

/// After a layout of strictly ascending keys, position 0 holds the least
/// key: the key of leaf 0, no greater than any stored key.  Through the
/// recursion of `is_layout` the same holds of every subtree's root slot, so
/// a subtree root can serve as a search threshold.
pub proof fn lemma_root_holds_minimum(s: Seq<i32>, height: nat)
    requires
        1 <= height,
        is_layout(s, height),
        strictly_ascending(leaves_of(s, height)),
    ensures
        s[0] == leaves_of(s, height)[0],
        forall|i: int| 0 <= i < leaves_of(s, height).len() ==> s[0] <= leaves_of(s, height)[i],
{
    lemma_root_is_first_leaf(s, height);
}

} // verus!
