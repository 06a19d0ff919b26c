pub mod create;
pub mod model;
pub mod search;
pub mod util;

use vstd::prelude::*;
use vstd::arithmetic::power::{pow, lemma_pow_positive};
use vstd::arithmetic::power2::{pow2, is_pow2, is_pow2_equiv, lemma_pow2_unfold, lemma_pow2_strictly_increases, lemma2_to64};
use crate::create::{layout, KeyCursor};
use crate::model::{is_layout, leaves_of, strictly_ascending, lemma_root_is_first_leaf};
use crate::search::{search_for_lower_bound, is_found_leaf, Leaf, SearchTreeIndex};
use crate::util::{spec_tree_size, spec_leaf_count, lemma_sizes_fit};

verus! {

broadcast use vstd::std_specs::vec::axiom_spec_len;

/// Why a construction attempt failed: the leaf count had more or fewer than
/// one set bit, or the key producer ran out before every leaf was filled.
#[derive(PartialEq, Eq, Structural, Debug)]
pub enum SearchTreeError {
    InvalidLeafCount,
    InsufficientInput,
}

/// A static lower-bound index over 32-bit signed keys: one flat buffer
/// holding the recursive cache-oblivious layout, and the height of the
/// logical complete binary tree.  Immutable after construction.
#[derive(Debug)]
pub struct SearchTree {
    array: Vec<i32>,
    height: u16,
}

impl SearchTree {
    /// The stored keys, in ascending rank order.
    pub closed spec fn view(&self) -> Seq<i32> {
        leaves_of(self.array@, self.height as nat)
    }

    /// The laid-out buffer.
    pub closed spec fn spec_buffer(&self) -> Seq<i32> {
        self.array@
    }

    /// The height of the logical tree.
    pub closed spec fn spec_height(&self) -> nat {
        self.height as nat
    }

    /// What construction establishes and every query relies on: the buffer
    /// is a layout of the stated height — every internal slot holds the
    /// least key of its own subtree — and the stored keys ascend strictly.
    pub open spec fn wf(&self) -> bool {
        &&& 1 <= self.spec_height() <= 30
        &&& self.spec_buffer().len() == spec_tree_size(self.spec_height())
        &&& is_layout(self.spec_buffer(), self.spec_height())
        &&& self@ == leaves_of(self.spec_buffer(), self.spec_height())
        &&& self@.len() == spec_leaf_count(self.spec_height())
        &&& strictly_ascending(self@)
    }

    /// Answers a query: nothing when the query lies below every stored key,
    /// and otherwise the leaf holding the greatest stored key not above the
    /// query, together with the buffer position of (a copy of) that key.
    pub fn search(&self, element: i32) -> (r: SearchTreeIndex)
        requires
            self.wf(),
        ensures
            element < self@[0] ==> r == SearchTreeIndex::NotInTree,
            element >= self@[0] ==> (r matches SearchTreeIndex::Leaf { index, leaf_number }
                && is_found_leaf(
                self.spec_buffer(),
                self.spec_height(),
                element,
                Leaf { index, leaf_number },
            )),
    {
        proof {
            lemma_sizes_fit(self.height as nat);
            lemma_root_is_first_leaf(self.array@, self.height as nat);
        }
        if element >= self.array[0] {
            let Leaf { index, leaf_number } = search_for_lower_bound(
                element,
                self.height,
                self.array.as_slice(),
            );
            SearchTreeIndex::Leaf { index, leaf_number }
        } else {
            SearchTreeIndex::NotInTree
        }
    }

    /// Builds the index from a key producer and an expected leaf count.
    /// Exactly `count` keys are consumed on success, never more; the keys
    /// must ascend strictly, which is not checked.  A `count` that is not a
    /// power of two is refused, and a producer holding fewer than `count`
    /// keys fails the construction; the error says which of the two
    /// happened.
    pub fn new(generator: KeyCursor, count: usize) -> (r: Result<SearchTree, SearchTreeError>)
        requires
            generator.wf(),
            strictly_ascending(generator@),
            count <= 0x2000_0000,
        ensures
            !is_pow2(count as int) ==> r == Err::<SearchTree, SearchTreeError>(
                SearchTreeError::InvalidLeafCount,
            ),
            is_pow2(count as int) && generator@.len() < count ==> r == Err::<
                SearchTree,
                SearchTreeError,
            >(SearchTreeError::InsufficientInput),
            is_pow2(count as int) && generator@.len() >= count ==> (r matches Ok(t) && t.wf()
                && t@ == generator@.take(count as int) && t@.len() == count),
    {
        proof {
            lemma2_to64();
        }
        if count == 0 {
            proof {
                reveal(is_pow2);
            }
            return Err(SearchTreeError::InvalidLeafCount);
        }
        let mut height: u16 = 1;
        let mut leaves: usize = 1;
        while leaves < count
            invariant
                count <= 0x2000_0000,
                1 <= height <= 30,
                leaves == spec_leaf_count(height as nat),
                height >= 2 ==> spec_leaf_count((height - 1) as nat) < count,
            decreases 2 * count - leaves,
        {
            proof {
                lemma2_to64();
                if height == 30 {
                    assert(leaves == pow2(29));
                    assert(false);
                }
                lemma_pow2_unfold(height as nat);
            }
            leaves = leaves * 2;
            height = height + 1;
        }
        if leaves != count {
            proof {
                lemma2_to64();
                assert(height >= 2);
                assert(!is_pow2(count as int)) by {
                    is_pow2_equiv(count as int);
                    assert forall|i: nat| pow(2, i) != count by {
                        lemma_pow_positive(2, i);
                        assert(pow(2, i) == pow2(i));
                        if i <= height - 2 {
                            if i < height - 2 {
                                lemma_pow2_strictly_increases(i, (height - 2) as nat);
                            }
                            assert(pow2(i) <= spec_leaf_count((height - 1) as nat));
                        } else {
                            if height - 1 < i {
                                lemma_pow2_strictly_increases((height - 1) as nat, i);
                            }
                            assert(pow2(i) >= leaves);
                        }
                    }
                }
            }
            return Err(SearchTreeError::InvalidLeafCount);
        }
        proof {
            assert(is_pow2(count as int)) by {
                is_pow2_equiv(count as int);
                lemma_pow_positive(2, (height - 1) as nat);
                assert(pow(2, (height - 1) as nat) == pow2((height - 1) as nat));
            }
            lemma_pow2_unfold(height as nat);
            lemma_sizes_fit(height as nat);
            assert(2 * count - 1 == spec_tree_size(height as nat));
        }
        let size: usize = count * 2 - 1;
        let mut reserved_space: Vec<i32> = Vec::new();
        while reserved_space.len() < size
            invariant
                reserved_space@.len() <= size,
            decreases size - reserved_space@.len(),
        {
            reserved_space.push(0);
        }
        let mut source = generator;
        let laid_out = layout(&mut reserved_space, &mut source, height);
        match laid_out {
            Ok(_) => {
                let tree = SearchTree { array: reserved_space, height };
                proof {
                    assert(tree@ =~= generator@.take(count as int));
                    assert forall|i: int, j: int| 0 <= i < j < tree@.len() implies tree@[i]
                        < tree@[j] by {
                        assert(generator@.take(count as int)[i] == generator@[i]);
                        assert(generator@.take(count as int)[j] == generator@[j]);
                    }
                }
                Ok(tree)
            },
            Err(()) => Err(SearchTreeError::InsufficientInput),
        }
    }
}

} // verus!
