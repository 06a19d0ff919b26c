use vstd::prelude::*;
use vstd::arithmetic::mul::{lemma_mul_inequality, lemma_mul_nonnegative};
use vstd::slice::slice_subrange;
use crate::model::{is_layout, leaves_of, leaf_pos, strictly_ascending, top_height, bottom_height, top_region, bottom_region, lemma_split_leaves, lemma_subtree_root_key, lemma_root_is_first_leaf, lemma_leaf_pos_bounds, lemma_small_tree_sizes};
use crate::util::{spec_tree_size, spec_leaf_count, lemma_split_sizes, lemma_sizes_fit, size_of_tree_with_height, number_of_leaves_in_tree, is_odd};

verus! {

/// The result of a successful search: the buffer position holding (a copy
/// of) the matched key, and the 0-based rank of the leaf among all leaves.
#[derive(PartialEq, Eq, Structural, Debug)]
pub struct Leaf {
    pub index: i32,
    pub leaf_number: i32,
}

/// What a query returns: a leaf descriptor, or nothing when the query lies
/// below every key of the tree.
#[derive(PartialEq, Eq, Structural, Debug)]
pub enum SearchTreeIndex {
    NotInTree,
    Leaf { index: i32, leaf_number: i32 },
}

/// `r` names the leaf with the greatest key not above `element`, together
/// with the buffer position that holds that leaf's key.
pub open spec fn is_found_leaf(s: Seq<i32>, height: nat, element: i32, r: Leaf) -> bool {
    let leaves = leaves_of(s, height);
    &&& 0 <= r.leaf_number < leaves.len()
    &&& r.index == leaf_pos(height, r.leaf_number as int)
    &&& s[r.index as int] == leaves[r.leaf_number as int]
    &&& leaves[r.leaf_number as int] <= element
    &&& (r.leaf_number as int) + 1 < leaves.len() ==> element < leaves[r.leaf_number as int + 1]
}

/// Two leaf descriptors that both satisfy the search contract for the same
/// query name the same leaf and the same slot: the contract pins the search
/// result down.
pub proof fn lemma_found_leaf_unique(s: Seq<i32>, height: nat, element: i32, r1: Leaf, r2: Leaf)
    requires
        1 <= height,
        strictly_ascending(leaves_of(s, height)),
        is_found_leaf(s, height, element, r1),
        is_found_leaf(s, height, element, r2),
    ensures
        r1 == r2,
{
    let leaves = leaves_of(s, height);
    if r1.leaf_number < r2.leaf_number {
        assert(element < leaves[r1.leaf_number as int + 1]);
        if r1.leaf_number as int + 1 < r2.leaf_number as int {
            assert(leaves[r1.leaf_number as int + 1] < leaves[r2.leaf_number as int]);
        }
        assert(false);
    }
    if r2.leaf_number < r1.leaf_number {
        assert(element < leaves[r2.leaf_number as int + 1]);
        if r2.leaf_number as int + 1 < r1.leaf_number as int {
            assert(leaves[r2.leaf_number as int + 1] < leaves[r1.leaf_number as int]);
        }
        assert(false);
    }
}

/// A query equal to a stored key is answered with exactly that key's leaf.
pub proof fn lemma_search_finds_exact(s: Seq<i32>, height: nat, element: i32, r: Leaf, k: int)
    requires
        1 <= height,
        strictly_ascending(leaves_of(s, height)),
        is_found_leaf(s, height, element, r),
        0 <= k < leaves_of(s, height).len(),
        leaves_of(s, height)[k] == element,
    ensures
        r.leaf_number == k,
        leaves_of(s, height)[r.leaf_number as int] == element,
{
    let leaves = leaves_of(s, height);
    if (r.leaf_number as int) < k {
        assert(element < leaves[r.leaf_number as int + 1]);
        if r.leaf_number as int + 1 < k {
            assert(leaves[r.leaf_number as int + 1] < leaves[k]);
        }
        assert(false);
    }
    if k < r.leaf_number as int {
        assert(leaves[k] < leaves[r.leaf_number as int]);
        assert(false);
    }
}

/// Round trip: in a tree whose stored keys are exactly their own ranks 0,
/// 1, …, n-1, a query inside that range is answered with itself as the leaf
/// number, at the buffer position the layout formulas give.
pub proof fn lemma_round_trip(s: Seq<i32>, height: nat, q: i32, r: Leaf)
    requires
        1 <= height,
        is_layout(s, height),
        forall|i: int| 0 <= i < leaves_of(s, height).len() ==> leaves_of(s, height)[i] == i,
        0 <= q < leaves_of(s, height).len(),
        is_found_leaf(s, height, q, r),
    ensures
        r.leaf_number == q,
        r.index == leaf_pos(height, q as int),
{
    assert(strictly_ascending(leaves_of(s, height)));
    lemma_search_finds_exact(s, height, q, r, q as int);
}

/// The index that a 4-lane vector compare of the query against slots 3 to 6
/// yields: per lane the candidates 0, 3, 4, 5 where the query is below the
/// slot's key and the sentinel 6 where it is not, reduced by a horizontal
/// minimum.  Any lane-wise implementation of the height-3 base case must
/// return this value on every input.
pub open spec fn three_level_probe(of: i32, s: Seq<i32>) -> int {
    if of < s[3] {
        0
    } else if of < s[4] {
        3
    } else if of < s[5] {
        4
    } else if of < s[6] {
        5
    } else {
        6
    }
}

/// The fixed-shape base case for a tree of height 3: its four leaves sit in
/// slots 3 to 6 in ascending order.  The four sequential comparisons equal
/// the 4-lane vector compare-select-reduce on every input, well-formed tree
/// or not; on a laid-out tree whose least key does not exceed the query, the
/// probe lands one slot past the greatest leaf not above the query.
pub fn search_3_level_tree_for_lower_bound(of: i32, array: &[i32]) -> (r: Leaf)
    requires
        array@.len() == 7,
    ensures
        r.index == three_level_probe(of, array@),
        r.leaf_number == three_level_probe(of, array@) - 3,
        is_layout(array@, 3) && strictly_ascending(leaves_of(array@, 3)) && array@[0] <= of
            ==> is_found_leaf(array@, 3, of, r),
{
    proof {
        lemma_small_tree_sizes();
    }
    let idx: i32 = if of < array[3] {
        0
    } else if of < array[4] {
        3
    } else if of < array[5] {
        4
    } else if of < array[6] {
        5
    } else {
        6
    };
    Leaf { index: idx, leaf_number: idx - 3 }
}

/// The base case for a tree of height 2: the two leaves sit in slots 1
/// and 2.
pub fn search_2_level_tree_for_lower_bound(of: i32, array: &[i32]) -> (r: Leaf)
    requires
        is_layout(array@, 2),
        strictly_ascending(leaves_of(array@, 2)),
        array@[0] <= of,
    ensures
        is_found_leaf(array@, 2, of, r),
{
    proof {
        lemma_small_tree_sizes();
    }
    let lower_bound_is_2nd_leaf: i32 = if of >= array[2] {
        1
    } else {
        0
    };
    Leaf { index: 1 + lower_bound_is_2nd_leaf, leaf_number: lower_bound_is_2nd_leaf }
}

/// The base case for a single-node tree: the sole slot is the sole leaf.
pub fn search_single_node_tree_for_lower_bound(of: i32, array: &[i32]) -> (r: Leaf)
    requires
        is_layout(array@, 1),
        strictly_ascending(leaves_of(array@, 1)),
        array@[0] <= of,
    ensures
        is_found_leaf(array@, 1, of, r),
{
    proof {
        lemma_small_tree_sizes();
    }
    Leaf { index: 0, leaf_number: 0 }
}

/// Buffer offset of the root slot of bottom subtree `subtree_number` of a
/// split tree of the given height.
pub fn subtree_root_index_generator(height: u16, subtree_number: i32) -> (r: i32)
    requires
        4 <= height <= 30,
        0 <= subtree_number <= 2 * spec_leaf_count(top_height(height as nat)),
    ensures
        r == spec_tree_size(top_height(height as nat)) + subtree_number * spec_tree_size(
            bottom_height(height as nat),
        ),
        0 <= r <= spec_tree_size(height as nat),
{
    let top_subtree_is_taller = is_odd(height);
    let subtree_height: u16 = height / 2;
    let top_subtree_height: u16 = subtree_height + if top_subtree_is_taller {
        1
    } else {
        0
    };
    proof {
        lemma_split_sizes(height as nat);
        lemma_sizes_fit(height as nat);
        let bs = spec_tree_size(bottom_height(height as nat)) as int;
        let lt = spec_leaf_count(top_height(height as nat)) as int;
        lemma_mul_nonnegative(subtree_number as int, bs);
        lemma_mul_inequality(subtree_number as int, 2 * lt, bs);
    }
    let bottom_subtree_size = size_of_tree_with_height(subtree_height);
    let top_subtree_size = size_of_tree_with_height(top_subtree_height);
    top_subtree_size + bottom_subtree_size * subtree_number
}

/// Narrows a search in a split tree to one bottom subtree: searches the top
/// subtree for the pair the query falls in, then resolves the tie between
/// the pair's two subtrees against the right subtree's root slot, which
/// holds that subtree's least key.  Returns the bottom subtree number whose
/// leaf range holds the greatest key not above the query.
pub fn search_for_lower_bound_in_top_subtree(element: i32, height: u16, array: &[i32]) -> (r: i32)
    requires
        4 <= height <= 30,
        is_layout(array@, height as nat),
        strictly_ascending(leaves_of(array@, height as nat)),
        array@[0] <= element,
    ensures
        ({
            let lt = spec_leaf_count(top_height(height as nat)) as int;
            let lb = spec_leaf_count(bottom_height(height as nat)) as int;
            let leaves = leaves_of(array@, height as nat);
            &&& 0 <= r < 2 * lt
            &&& leaves[r * lb] <= element
            &&& (r + 1 < 2 * lt ==> element < leaves[(r + 1) * lb])
        }),
    decreases height, 0int,
{
    let ghost s = array@;
    let ghost h = height as nat;
    let ghost th = top_height(h);
    let ghost bh = bottom_height(h);
    let ghost lt = spec_leaf_count(th) as int;
    let ghost lb = spec_leaf_count(bh) as int;
    let top_subtree_is_taller = is_odd(height);
    let subtree_height: u16 = height / 2;
    let top_subtree_height: u16 = subtree_height + if top_subtree_is_taller {
        1
    } else {
        0
    };
    proof {
        lemma_split_sizes(h);
        lemma_split_leaves(s, h);
        assert(top_subtree_height as nat == th);
        lemma_sizes_fit(h);
        lemma_sizes_fit(th);
        lemma_sizes_fit(bh);
    }
    let top_subtree_size = size_of_tree_with_height(top_subtree_height);
    let top = slice_subrange(array, 0, top_subtree_size as usize);
    proof {
        assert(top@ =~= top_region(s, h));
        assert(top@[0] == s[0]);
    }
    let top_leaf = search_for_lower_bound(element, top_subtree_height, top);
    let leaf_number = top_leaf.leaf_number;
    let ghost p = leaf_number as int;
    proof {
        assert(0 <= p < lt);
        lemma_subtree_root_key(s, h, 2 * p + 1);
    }
    let right_subtree_root_index = subtree_root_index_generator(height, 2 * leaf_number + 1)
        as usize;
    let right_subtree_root = array[right_subtree_root_index];
    let is_right = element >= right_subtree_root;
    let subtree_number = 2 * leaf_number + if is_right {
        1
    } else {
        0
    };
    proof {
        let leaves = leaves_of(s, h);
        let top_leaves = leaves_of(top_region(s, h), th);
        assert(top_leaves[p] == leaves[2 * p * lb]);
        assert(right_subtree_root == leaves[(2 * p + 1) * lb]);
        if is_right {
            assert(leaves[(2 * p + 1) * lb] <= element);
            if 2 * p + 2 < 2 * lt {
                assert(top_leaves[p + 1] == leaves[2 * (p + 1) * lb]);
                assert(element < top_leaves[p + 1]);
                assert((2 * p + 2) * lb == 2 * (p + 1) * lb) by (nonlinear_arith);
            }
        } else {
            assert((2 * p) * lb == 2 * p * lb);
            assert(leaves[2 * p * lb] == top_leaves[p]);
            assert(top_leaves[p] <= element);
            assert(element < leaves[(2 * p + 1) * lb]);
        }
    }
    subtree_number
}

/// Finds the leaf with the greatest key not above `element`.  The query must
/// not lie below the tree's least key, which the root slot holds; under that
/// precondition such a leaf always exists.
pub fn search_for_lower_bound(element: i32, height: u16, array: &[i32]) -> (r: Leaf)
    requires
        1 <= height <= 30,
        is_layout(array@, height as nat),
        strictly_ascending(leaves_of(array@, height as nat)),
        array@[0] <= element,
    ensures
        is_found_leaf(array@, height as nat, element, r),
    decreases height, 1int,
{
    if height == 3 {
        proof {
            lemma_small_tree_sizes();
        }
        search_3_level_tree_for_lower_bound(element, array)
    } else if height == 2 {
        search_2_level_tree_for_lower_bound(element, array)
    } else if height == 1 {
        search_single_node_tree_for_lower_bound(element, array)
    } else {
        let ghost s = array@;
        let ghost h = height as nat;
        let ghost th = top_height(h);
        let ghost bh = bottom_height(h);
        let ghost lt = spec_leaf_count(th) as int;
        let ghost lb = spec_leaf_count(bh) as int;
        let ghost ts = spec_tree_size(th) as int;
        let ghost bs = spec_tree_size(bh) as int;
        let subtree_height: u16 = height / 2;
        proof {
            lemma_split_sizes(h);
            lemma_split_leaves(s, h);
            lemma_sizes_fit(h);
            lemma_sizes_fit(th);
            lemma_sizes_fit(bh);
        }
        let subtree_number = search_for_lower_bound_in_top_subtree(element, height, array);
        let ghost n = subtree_number as int;
        let start_index = subtree_root_index_generator(height, subtree_number) as usize;
        let end_index = subtree_root_index_generator(height, subtree_number + 1) as usize;
        proof {
            lemma_subtree_root_key(s, h, n);
            assert((n + 1) * bs == n * bs + bs) by (nonlinear_arith);
        }
        let sub = slice_subrange(array, start_index, end_index);
        proof {
            assert(sub@ =~= bottom_region(s, h, n));
            assert(is_layout(bottom_region(s, h, n), bh));
            assert(sub@[0] == s[ts + n * bs]);
            assert(leaves_of(sub@, bh)[0] == leaves_of(s, h)[n * lb + 0]);
            lemma_root_is_first_leaf(sub@, bh);
        }
        let bottom = search_for_lower_bound(element, subtree_height, sub);
        let number_of_bottom_leaves = number_of_leaves_in_tree(subtree_height);
        proof {
            lemma_mul_nonnegative(n, lb);
            lemma_mul_inequality(n + 1, 2 * lt, lb);
            assert((n + 1) * lb == n * lb + lb) by (nonlinear_arith);
            assert(lb * n == n * lb) by (nonlinear_arith);
            lemma_mul_inequality(n, 2 * lt, lb);
            lemma_leaf_pos_bounds(bh, bottom.leaf_number as int);
        }
        let index = start_index as i32 + bottom.index;
        let leaf_number = number_of_bottom_leaves * subtree_number + bottom.leaf_number;
        proof {
            let leaves = leaves_of(s, h);
            let l = bottom.leaf_number as int;
            let g = n * lb + l;
            vstd::arithmetic::div_mod::lemma_fundamental_div_mod_converse(g, lb, n, l);
            assert(leaf_pos(h, g) == ts + n * bs + leaf_pos(bh, l));
            assert(leaves_of(sub@, bh)[l] == leaves[g]);
            assert(sub@[leaf_pos(bh, l)] == s[ts + n * bs + leaf_pos(bh, l)]);
            assert(leaves[g] <= element);
            if g + 1 < leaves.len() {
                if l + 1 < lb {
                    assert(leaves_of(sub@, bh)[l + 1] == leaves[n * lb + (l + 1)]);
                    assert(element < leaves[g + 1]);
                } else {
                    assert(g + 1 == (n + 1) * lb);
                    assert(n + 1 < 2 * lt) by (nonlinear_arith)
                        requires
                            (n + 1) * lb < 2 * lt * lb,
                            lb >= 1,
                            g + 1 == (n + 1) * lb,
                            g + 1 < 2 * lt * lb,
                    ;
                    assert(element < leaves[(n + 1) * lb]);
                }
            }
        }
        Leaf { index, leaf_number }
    }
}

} // verus!
