use vstd::prelude::*;
use vstd::arithmetic::power2::{pow2, lemma_pow2_adds, lemma_pow2_unfold, lemma_pow2_pos, lemma_pow2_strictly_increases, lemma2_to64};
use vstd::bits::lemma_u32_shl_is_mul;

verus! {

/// Total number of node slots in a complete binary tree of the given height.
pub open spec fn spec_tree_size(height: nat) -> nat {
    (pow2(height) - 1) as nat
}

/// Number of leaves in a complete binary tree of the given height.
pub open spec fn spec_leaf_count(height: nat) -> nat {
    pow2((height - 1) as nat)
}

/// Parity test used to decide which half of an odd height split is taller.
pub fn is_odd(element: u16) -> (r: bool)
    ensures
        r == (element % 2 == 1),
{
    proof {
        assert(((1u16 & element) > 0) == (element % 2 == 1)) by (bit_vector);
    }
    (1 & element) > 0
}

/// Returns `2^height - 1`, the number of node slots of a tree of the given height.
pub fn size_of_tree_with_height(height: u16) -> (r: i32)
    requires
        1 <= height <= 30,
    ensures
        r == spec_tree_size(height as nat),
{
    proof {
        lemma2_to64();
        if height < 30 {
            lemma_pow2_strictly_increases(height as nat, 30);
        }
        lemma_u32_shl_is_mul(1u32, height as u32);
    }
    let shifted: u32 = 1u32 << (height as u32);
    (shifted - 1) as i32
}

/// Returns `2^(height - 1)`, the number of leaves of a tree of the given height.
pub fn number_of_leaves_in_tree(height: u16) -> (r: i32)
    requires
        1 <= height <= 30,
    ensures
        r == spec_leaf_count(height as nat),
{
    proof {
        lemma2_to64();
        if height - 1 < 30 {
            lemma_pow2_strictly_increases((height - 1) as nat, 30);
        }
        lemma_u32_shl_is_mul(1u32, (height - 1) as u32);
    }
    let shifted: u32 = 1u32 << ((height - 1) as u32);
    shifted as i32
}

/// The slot and leaf counts of every supported height fit comfortably in 32
/// bits.
pub proof fn lemma_sizes_fit(height: nat)
    requires
        1 <= height <= 30,
    ensures
        1 <= spec_tree_size(height) <= 0x3fffffff,
        1 <= spec_leaf_count(height) <= 0x20000000,
        spec_leaf_count(height) <= spec_tree_size(height),
{
    lemma2_to64();
    lemma_pow2_pos((height - 1) as nat);
    lemma_pow2_pos(height);
    if height < 30 {
        lemma_pow2_strictly_increases(height, 30);
    }
    if height - 1 < 29 {
        lemma_pow2_strictly_increases((height - 1) as nat, 29);
    }
    lemma_pow2_unfold(height);
}

/// How a tree of height at least 4 splits into one top subtree and
/// `2 * spec_leaf_count(top)` bottom subtrees: the slot counts and the leaf
/// counts of the parts add up exactly to those of the whole tree.
pub proof fn lemma_split_sizes(height: nat)
    requires
        4 <= height,
    ensures
        ({
            let bottom = height / 2;
            let top = (height - height / 2) as nat;
            &&& 2 <= bottom
            &&& bottom <= top
            &&& top <= bottom + 1
            &&& top < height
            &&& spec_tree_size(height) == spec_tree_size(top) + 2 * spec_leaf_count(top)
                * spec_tree_size(bottom)
            &&& spec_leaf_count(height) == 2 * spec_leaf_count(top) * spec_leaf_count(bottom)
        }),
{
    let bottom = height / 2;
    let top = (height - height / 2) as nat;
    let pt = pow2(top) as int;
    let pb = pow2(bottom) as int;
    lemma_pow2_pos(height);
    lemma_pow2_pos((height - 1) as nat);
    lemma_pow2_pos(top);
    lemma_pow2_pos(bottom);
    lemma_pow2_pos((top - 1) as nat);
    lemma_pow2_pos((bottom - 1) as nat);
    lemma_pow2_unfold(top);
    assert(pt == 2 * pow2((top - 1) as nat));
    lemma_pow2_adds(top, bottom);
    assert(pt * pb == pow2(height));
    lemma_pow2_adds(top, (bottom - 1) as nat);
    assert(pt * pow2((bottom - 1) as nat) == pow2((height - 1) as nat));
    vstd::arithmetic::mul::lemma_mul_is_distributive_sub(pt, pb, 1);
    assert(pt * (pb - 1) == pt * pb - pt * 1);
    assert((2 * pow2((top - 1) as nat)) * (pb - 1) == pt * (pb - 1));
    assert((2 * pow2((top - 1) as nat)) * pow2((bottom - 1) as nat) == pt * pow2(
        (bottom - 1) as nat,
    ));
}

} // verus!
