use vstd::prelude::*;
use vstd::arithmetic::mul::{lemma_mul_inequality, lemma_mul_nonnegative};
use crate::model::{is_layout, leaves_of, top_height, bottom_height, top_region, bottom_region, lemma_leaves_decompose, lemma_small_tree_sizes};
use crate::util::{spec_tree_size, spec_leaf_count, lemma_split_sizes, size_of_tree_with_height, number_of_leaves_in_tree, is_odd};

verus! {

broadcast use vstd::std_specs::vec::axiom_spec_len;

/// A pull-based producer of keys: a cursor that hands out the elements of an
/// owned array in order and signals exhaustion.
pub struct KeyCursor {
    keys: Vec<i32>,
    pos: usize,
}

impl KeyCursor {
    /// The keys not yet handed out.
    pub closed spec fn view(&self) -> Seq<i32> {
        self.keys@.skip(self.pos as int)
    }

    pub closed spec fn wf(&self) -> bool {
        self.pos <= self.keys@.len()
    }

    pub fn new(keys: Vec<i32>) -> (r: KeyCursor)
        ensures
            r.wf(),
            r@ == keys@,
    {
        let r = KeyCursor { keys, pos: 0 };
        proof {
            assert(r@ =~= r.keys@);
        }
        r
    }

    /// Hands out the next key, or `None` once the cursor is exhausted.
    pub fn next(&mut self) -> (r: Option<i32>)
        requires
            old(self).wf(),
        ensures
            final(self).wf(),
            old(self)@.len() > 0 ==> r == Some(old(self)@[0]) && final(self)@ == old(self)@.skip(
                1,
            ),
            old(self)@.len() == 0 ==> r == None::<i32> && final(self)@ == old(self)@,
    {
        if self.pos < self.keys.len() {
            let k: i32 = self.keys[self.pos];
            self.pos = self.pos + 1;
            proof {
                assert(self@ =~= old(self)@.skip(1));
            }
            Some(k)
        } else {
            None
        }
    }
}

/// What laying a tree out over `buf0[offset ..]` guarantees: the buffer keeps
/// its length and is untouched outside the tree's slots; the call succeeds
/// exactly when the producer holds enough keys; and on success the tree's
/// slots form a layout whose leaves are the consumed prefix of the producer,
/// and the returned minimum is the first key consumed.
pub open spec fn layout_post(
    buf0: Seq<i32>,
    buf1: Seq<i32>,
    gen0: Seq<i32>,
    gen1: Seq<i32>,
    offset: int,
    height: nat,
    r: Result<i32, ()>,
) -> bool {
    &&& buf1.len() == buf0.len()
    &&& (forall|i: int|
        0 <= i < buf0.len() && !(offset <= i < offset + spec_tree_size(height)) ==> buf1[i]
            == buf0[i])
    &&& (r is Ok <==> gen0.len() >= spec_leaf_count(height))
    &&& (r is Ok ==> ({
        let region = buf1.subrange(offset, offset + spec_tree_size(height));
        &&& is_layout(region, height)
        &&& leaves_of(region, height) == gen0.take(spec_leaf_count(height) as int)
        &&& gen1 == gen0.skip(spec_leaf_count(height) as int)
        &&& r == Ok::<i32, ()>(gen0[0])
    }))
}

fn layout_tree_of_height_1(
    reserved_space: &mut Vec<i32>,
    offset: usize,
    generator: &mut KeyCursor,
) -> (r: Result<i32, ()>)
    requires
        old(generator).wf(),
        offset + spec_tree_size(1) <= old(reserved_space)@.len(),
    ensures
        final(generator).wf(),
        layout_post(
            old(reserved_space)@,
            final(reserved_space)@,
            old(generator)@,
            final(generator)@,
            offset as int,
            1,
            r,
        ),
{
    proof {
        lemma_small_tree_sizes();
        assert(reserved_space@.len() <= usize::MAX) by {
            assert(vstd::std_specs::vec::spec_vec_len(reserved_space) == reserved_space@.len());
        }
    }
    if let Some(element) = generator.next() {
        reserved_space.set(offset, element);
        proof {
            let region = reserved_space@.subrange(offset as int, offset + 1);
            assert(region.len() == 1);
            assert(leaves_of(region, 1) =~= old(generator)@.take(1));
        }
        Ok(element)
    } else {
        Err(())
    }
}

fn layout_tree_of_height_2(
    reserved_space: &mut Vec<i32>,
    offset: usize,
    generator: &mut KeyCursor,
) -> (r: Result<i32, ()>)
    requires
        old(generator).wf(),
        offset + spec_tree_size(2) <= old(reserved_space)@.len(),
    ensures
        final(generator).wf(),
        layout_post(
            old(reserved_space)@,
            final(reserved_space)@,
            old(generator)@,
            final(generator)@,
            offset as int,
            2,
            r,
        ),
{
    proof {
        lemma_small_tree_sizes();
        assert(reserved_space@.len() <= usize::MAX) by {
            assert(vstd::std_specs::vec::spec_vec_len(reserved_space) == reserved_space@.len());
        }
    }
    let first = match generator.next() {
        Some(element) => element,
        None => {
            return Err(());
        },
    };
    reserved_space.set(offset + 1, first);
    let second = match generator.next() {
        Some(element) => element,
        None => {
            return Err(());
        },
    };
    reserved_space.set(offset + 2, second);
    reserved_space.set(offset, first);
    let result = Ok(first);
    proof {
        let region = reserved_space@.subrange(offset as int, offset + 3);
        assert(region.len() == 3);
        assert(region[0] == first && region[1] == first && region[2] == second);
        assert(is_layout(region, 2));
        assert(leaves_of(region, 2) =~= old(generator)@.take(2));
        assert(final(generator)@ =~= old(generator)@.skip(2));
    }
    result
}

fn layout_tree_of_height_3(
    reserved_space: &mut Vec<i32>,
    offset: usize,
    generator: &mut KeyCursor,
) -> (r: Result<i32, ()>)
    requires
        old(generator).wf(),
        offset + spec_tree_size(3) <= old(reserved_space)@.len(),
    ensures
        final(generator).wf(),
        layout_post(
            old(reserved_space)@,
            final(reserved_space)@,
            old(generator)@,
            final(generator)@,
            offset as int,
            3,
            r,
        ),
{
    proof {
        lemma_small_tree_sizes();
        assert(reserved_space@.len() <= usize::MAX) by {
            assert(vstd::std_specs::vec::spec_vec_len(reserved_space) == reserved_space@.len());
        }
    }
    let leaf_0 = match generator.next() {
        Some(element) => element,
        None => {
            return Err(());
        },
    };
    reserved_space.set(offset + 3, leaf_0);
    let leaf_1 = match generator.next() {
        Some(element) => element,
        None => {
            return Err(());
        },
    };
    reserved_space.set(offset + 4, leaf_1);
    let leaf_2 = match generator.next() {
        Some(element) => element,
        None => {
            return Err(());
        },
    };
    reserved_space.set(offset + 5, leaf_2);
    let leaf_3 = match generator.next() {
        Some(element) => element,
        None => {
            return Err(());
        },
    };
    reserved_space.set(offset + 6, leaf_3);
    reserved_space.set(offset, leaf_0);
    reserved_space.set(offset + 1, leaf_0);
    reserved_space.set(offset + 2, leaf_2);
    let result = Ok(leaf_0);
    proof {
        let region = reserved_space@.subrange(offset as int, offset + 7);
        assert(region.len() == 7);
        assert(region[0] == leaf_0 && region[1] == leaf_0 && region[2] == leaf_2);
        assert(region[3] == leaf_0 && region[4] == leaf_1 && region[5] == leaf_2 && region[6]
            == leaf_3);
        assert(is_layout(region, 3));
        assert(leaves_of(region, 3) =~= old(generator)@.take(4));
        assert(final(generator)@ =~= old(generator)@.skip(4));
    }
    result
}

/// A window of `width` slots starting `j` windows past `start`; the slots of
/// bottom subtree `j` while the enclosing tree is still under construction.
spec fn chunk(buf: Seq<i32>, start: int, width: int, j: int) -> Seq<i32> {
    buf.subrange(start + j * width, start + (j + 1) * width)
}

/// One pass of the pair loop: after the left and then the right subtree of
/// pair `k` are laid out, all `2 * (k + 1)` bottom subtrees so far are laid
/// out over their own slots, each holding its own stretch of the consumed
/// keys, and the left call returned the first key of pair `k`.
proof fn lemma_layout_step(
    buf_head: Seq<i32>,
    buf_mid: Seq<i32>,
    buf1: Seq<i32>,
    gen0: Seq<i32>,
    gen_left: Seq<i32>,
    gen_right: Seq<i32>,
    gen1: Seq<i32>,
    offset: int,
    height: nat,
    k: int,
    ts: int,
    bs: int,
    lt: int,
    lb: int,
    r1: Result<i32, ()>,
    r2: Result<i32, ()>,
)
    requires
        4 <= height <= 30,
        ts == spec_tree_size(top_height(height)),
        bs == spec_tree_size(bottom_height(height)),
        lt == spec_leaf_count(top_height(height)),
        lb == spec_leaf_count(bottom_height(height)),
        0 <= k < lt,
        offset >= 0,
        offset + spec_tree_size(height) <= buf_head.len(),
        gen_left == gen0.skip(2 * k * lb),
        gen0.len() >= 2 * k * lb,
        forall|j: int|
            0 <= j < 2 * k ==> is_layout(
                #[trigger] chunk(buf_head, offset + ts, bs, j),
                bottom_height(height),
            ) && leaves_of(chunk(buf_head, offset + ts, bs, j), bottom_height(height))
                == gen0.subrange(j * lb, (j + 1) * lb),
        layout_post(
            buf_head,
            buf_mid,
            gen_left,
            gen_right,
            offset + ts + 2 * k * bs,
            bottom_height(height),
            r1,
        ),
        layout_post(
            buf_mid,
            buf1,
            gen_right,
            gen1,
            offset + ts + (2 * k + 1) * bs,
            bottom_height(height),
            r2,
        ),
        r1 is Ok,
        r2 is Ok,
    ensures
        buf1.len() == buf_head.len(),
        gen1 == gen0.skip(2 * (k + 1) * lb),
        gen0.len() >= 2 * (k + 1) * lb,
        r1 == Ok::<i32, ()>(gen0[2 * k * lb]),
        forall|i: int|
            0 <= i < buf_head.len() && !(offset + ts <= i < offset + ts + 2 * (k + 1) * bs)
                ==> buf1[i] == buf_head[i],
        forall|j: int|
            0 <= j < 2 * (k + 1) ==> is_layout(
                #[trigger] chunk(buf1, offset + ts, bs, j),
                bottom_height(height),
            ) && leaves_of(chunk(buf1, offset + ts, bs, j), bottom_height(height))
                == gen0.subrange(j * lb, (j + 1) * lb),
{
    let bh = bottom_height(height);
    lemma_split_sizes(height);
    vstd::arithmetic::power2::lemma_pow2_pos((bh - 1) as nat);
    vstd::arithmetic::power2::lemma_pow2_strictly_increases(0, bh);
    vstd::arithmetic::power2::lemma2_to64();
    assert(lb >= 1 && bs >= 1);
    lemma_mul_nonnegative(2 * k, bs);
    lemma_mul_nonnegative(2 * k, lb);
    lemma_mul_inequality(2 * k + 2, 2 * lt, bs);
    lemma_mul_inequality(2 * k + 2, 2 * lt, lb);
    assert((2 * k) * bs + bs == (2 * k + 1) * bs) by (nonlinear_arith);
    assert((2 * k + 1) * bs + bs == (2 * k + 2) * bs) by (nonlinear_arith);
    assert((2 * k) * lb + lb == (2 * k + 1) * lb) by (nonlinear_arith);
    assert((2 * k + 1) * lb + lb == (2 * k + 2) * lb) by (nonlinear_arith);
    assert((2 * k + 2) * bs == 2 * (k + 1) * bs) by (nonlinear_arith);
    assert((2 * k + 2) * lb == 2 * (k + 1) * lb) by (nonlinear_arith);
    assert(gen_left.len() >= lb && gen_right.len() >= lb);
    assert(gen_right == gen_left.skip(lb));
    assert(gen1 =~= gen0.skip(2 * (k + 1) * lb)) by {
        assert(gen1 == gen0.skip(2 * k * lb).skip(lb).skip(lb));
    }
    assert(gen_left[0] == gen0[2 * k * lb]);
    let left_offset = offset + ts + 2 * k * bs;
    let right_offset = offset + ts + (2 * k + 1) * bs;
    assert forall|i: int|
        0 <= i < buf_head.len() && !(offset + ts <= i < offset + ts + 2 * (k + 1) * bs)
            implies buf1[i] == buf_head[i] by {
        assert(buf_mid[i] == buf_head[i]);
        assert(buf1[i] == buf_mid[i]);
    }
    assert forall|j: int| 0 <= j < 2 * (k + 1) implies is_layout(
        #[trigger] chunk(buf1, offset + ts, bs, j),
        bh,
    ) && leaves_of(chunk(buf1, offset + ts, bs, j), bh) == gen0.subrange(
        j * lb,
        (j + 1) * lb,
    ) by {
        lemma_mul_nonnegative(j, bs);
        lemma_mul_nonnegative(j, lb);
        lemma_mul_inequality(j + 1, 2 * lt, bs);
        lemma_mul_inequality(j + 1, 2 * lt, lb);
        assert(j * bs + bs == (j + 1) * bs) by (nonlinear_arith);
        assert(j * lb + lb == (j + 1) * lb) by (nonlinear_arith);
        if j < 2 * k {
            lemma_mul_inequality(j + 1, 2 * k, bs);
            assert(chunk(buf_mid, offset + ts, bs, j) =~= chunk(buf_head, offset + ts, bs, j));
            assert(chunk(buf1, offset + ts, bs, j) =~= chunk(buf_mid, offset + ts, bs, j));
        } else if j == 2 * k {
            let region = buf_mid.subrange(left_offset, left_offset + bs);
            assert(is_layout(region, bh));
            assert(leaves_of(region, bh) == gen_left.take(lb));
            assert(chunk(buf1, offset + ts, bs, j) =~= region);
            assert(gen_left.take(lb) =~= gen0.subrange(j * lb, (j + 1) * lb));
        } else {
            let region = buf1.subrange(right_offset, right_offset + bs);
            assert(chunk(buf1, offset + ts, bs, j) =~= region);
            assert(leaves_of(region, bh) == gen_right.take(lb));
            assert(gen_right.take(lb) =~= gen0.subrange(j * lb, (j + 1) * lb));
        }
    }
}

/// Joins the bottom subtrees laid out by the pair loop and the top subtree
/// laid out from the collected pair minima into one laid-out region whose
/// leaf sequence is the consumed prefix of the producer.
proof fn lemma_reassemble(
    buf0: Seq<i32>,
    buf_loop: Seq<i32>,
    buf1: Seq<i32>,
    gen0: Seq<i32>,
    gen1: Seq<i32>,
    mins0: Seq<i32>,
    mins1: Seq<i32>,
    offset: int,
    height: nat,
    ts: int,
    bs: int,
    lt: int,
    lb: int,
    r: Result<i32, ()>,
)
    requires
        4 <= height <= 30,
        ts == spec_tree_size(top_height(height)),
        bs == spec_tree_size(bottom_height(height)),
        lt == spec_leaf_count(top_height(height)),
        lb == spec_leaf_count(bottom_height(height)),
        offset >= 0,
        offset + spec_tree_size(height) <= buf0.len(),
        buf_loop.len() == buf0.len(),
        forall|i: int|
            0 <= i < buf0.len() && !(offset + ts <= i < offset + ts + 2 * lt * bs)
                ==> buf_loop[i] == buf0[i],
        gen0.len() >= 2 * lt * lb,
        gen1 == gen0.skip(2 * lt * lb),
        mins0.len() == lt,
        forall|p: int| 0 <= p < lt ==> mins0[p] == gen0[2 * p * lb],
        forall|j: int|
            0 <= j < 2 * lt ==> is_layout(
                #[trigger] chunk(buf_loop, offset + ts, bs, j),
                bottom_height(height),
            ) && leaves_of(chunk(buf_loop, offset + ts, bs, j), bottom_height(height))
                == gen0.subrange(j * lb, (j + 1) * lb),
        layout_post(buf_loop, buf1, mins0, mins1, offset, top_height(height), r),
    ensures
        r is Ok,
        layout_post(buf0, buf1, gen0, gen1, offset, height, r),
{
    let th = top_height(height);
    let bh = bottom_height(height);
    lemma_split_sizes(height);
    vstd::arithmetic::power2::lemma_pow2_pos((bh - 1) as nat);
    vstd::arithmetic::power2::lemma_pow2_pos((th - 1) as nat);
    vstd::arithmetic::power2::lemma_pow2_strictly_increases(0, bh);
    vstd::arithmetic::power2::lemma2_to64();
    assert(lb >= 1 && bs >= 1 && lt >= 1);
    assert(r is Ok);
    let size = spec_tree_size(height) as int;
    let lc = spec_leaf_count(height) as int;
    assert(ts + 2 * lt * bs == size);
    assert(2 * lt * lb == lc);
    let region = buf1.subrange(offset, offset + size);
    let tregion = buf1.subrange(offset, offset + ts);
    assert(leaves_of(tregion, th) == mins0.take(lt));
    assert(mins0.take(lt) =~= mins0);
    assert forall|i: int|
        0 <= i < buf0.len() && !(offset <= i < offset + size) implies buf1[i] == buf0[i] by {
        assert(buf_loop[i] == buf0[i]);
        assert(buf1[i] == buf_loop[i]);
    }
    assert(top_region(region, height) =~= tregion);
    assert forall|j: int| 0 <= j < 2 * lt implies is_layout(
        #[trigger] bottom_region(region, height, j),
        bh,
    ) && leaves_of(bottom_region(region, height, j), bh) == gen0.subrange(
        j * lb,
        (j + 1) * lb,
    ) by {
        lemma_mul_nonnegative(j, bs);
        lemma_mul_inequality(j + 1, 2 * lt, bs);
        assert(j * bs + bs == (j + 1) * bs) by (nonlinear_arith);
        assert(bottom_region(region, height, j) =~= chunk(buf_loop, offset + ts, bs, j));
    }
    assert forall|i: int|
        0 <= i < lt implies (#[trigger] leaves_of(top_region(region, height), th)[i])
        == leaves_of(bottom_region(region, height, 2 * i), bh)[0] by {
        assert(leaves_of(top_region(region, height), th)[i] == mins0[i]);
        lemma_mul_nonnegative(2 * i, lb);
        lemma_mul_inequality(2 * i + 1, 2 * lt, lb);
        assert((2 * i) * lb + lb == (2 * i + 1) * lb) by (nonlinear_arith);
        assert(leaves_of(bottom_region(region, height, 2 * i), bh) == gen0.subrange(
            2 * i * lb,
            (2 * i + 1) * lb,
        ));
        assert(gen0.subrange(2 * i * lb, (2 * i + 1) * lb)[0] == gen0[2 * i * lb]);
    }
    assert(is_layout(region, height));
    assert forall|i: int| 0 <= i < lc implies leaves_of(region, height)[i] == gen0[i] by {
        let j = i / lb;
        let local = i % lb;
        vstd::arithmetic::div_mod::lemma_fundamental_div_mod(i, lb);
        vstd::arithmetic::div_mod::lemma_mod_division_less_than_divisor(i, lb);
        assert(0 <= j && j < 2 * lt) by (nonlinear_arith)
            requires
                i == lb * j + local,
                0 <= local < lb,
                0 <= i < 2 * lt * lb,
                lb >= 1,
        ;
        lemma_leaves_decompose(region, height, j, local);
        lemma_mul_nonnegative(j, lb);
        lemma_mul_inequality(j + 1, 2 * lt, lb);
        assert(j * lb + lb == (j + 1) * lb) by (nonlinear_arith);
        assert(gen0.subrange(j * lb, (j + 1) * lb)[local] == gen0[j * lb + local]);
    }
    assert(leaves_of(region, height) =~= gen0.take(lc));
    assert(mins0[0] == gen0[2 * 0 * lb]);
    assert(r == Ok::<i32, ()>(gen0[0]));
}

/// Lays a tree of the given height out over
/// `reserved_space[offset .. offset + spec_tree_size(height)]`, consuming
/// exactly `spec_leaf_count(height)` keys from the producer.  For a height
/// above 3 the slots split into a top subtree and pairs of bottom subtrees;
/// the bottom subtrees are laid out left to right, and the top subtree is
/// laid out from the collected first keys of the left subtree of each pair.
fn layout_at(
    reserved_space: &mut Vec<i32>,
    offset: usize,
    generator: &mut KeyCursor,
    height: u16,
) -> (r: Result<i32, ()>)
    requires
        old(generator).wf(),
        1 <= height <= 30,
        offset + spec_tree_size(height as nat) <= old(reserved_space)@.len(),
    ensures
        final(generator).wf(),
        layout_post(
            old(reserved_space)@,
            final(reserved_space)@,
            old(generator)@,
            final(generator)@,
            offset as int,
            height as nat,
            r,
        ),
    decreases height,
{
    if height == 1 {
        layout_tree_of_height_1(reserved_space, offset, generator)
    } else if height == 2 {
        layout_tree_of_height_2(reserved_space, offset, generator)
    } else if height == 3 {
        layout_tree_of_height_3(reserved_space, offset, generator)
    } else {
        let ghost buf0 = reserved_space@;
        let ghost gen0 = generator@;
        let height_of_bottom_subtree: u16 = height / 2;
        let height_of_top_subtree: u16 = height_of_bottom_subtree + if is_odd(height) {
            1
        } else {
            0
        };
        proof {
            lemma_split_sizes(height as nat);
            assert(reserved_space@.len() <= usize::MAX) by {
                assert(vstd::std_specs::vec::spec_vec_len(reserved_space)
                    == reserved_space@.len());
            }
            assert(height_of_top_subtree as nat == top_height(height as nat));
            assert(height_of_bottom_subtree as nat == bottom_height(height as nat));
        }
        let ghost th = top_height(height as nat);
        let ghost bh = bottom_height(height as nat);
        let ghost lb = spec_leaf_count(bh) as int;
        let ghost lt = spec_leaf_count(th) as int;
        let size_of_top_subtree: i32 = size_of_tree_with_height(height_of_top_subtree);
        let size_of_bottom_subtree: i32 = size_of_tree_with_height(height_of_bottom_subtree);
        let number_of_pairs_i32: i32 = number_of_leaves_in_tree(height_of_top_subtree);
        let ts: usize = size_of_top_subtree as usize;
        let bs: usize = size_of_bottom_subtree as usize;
        let number_of_pairs: usize = number_of_pairs_i32 as usize;
        let ghost size = spec_tree_size(height as nat) as int;
        proof {
            vstd::arithmetic::power2::lemma_pow2_pos((bh - 1) as nat);
            vstd::arithmetic::power2::lemma_pow2_strictly_increases(0, bh);
            vstd::arithmetic::power2::lemma2_to64();
            assert(lb >= 1 && bs >= 1);
            assert(ts + 2 * lt * bs == size);
            assert(2 * lt * lb == spec_leaf_count(height as nat));
            assert(2 * lt <= 2 * lt * bs) by (nonlinear_arith)
                requires
                    bs >= 1,
                    lt >= 0,
            ;
        }
        let mut min_values: Vec<i32> = Vec::new();
        let mut pair_number: usize = 0;
        proof {
            assert((2 * (0int)) * lb == 0) by (nonlinear_arith);
            assert(gen0.skip(0) =~= gen0);
        }
        while pair_number < number_of_pairs
            invariant
                buf0 == old(reserved_space)@,
                gen0 == old(generator)@,
                4 <= height <= 30,
                th == top_height(height as nat),
                bh == bottom_height(height as nat),
                height_of_bottom_subtree as nat == bh,
                height_of_top_subtree as nat == th,
                1 <= height_of_bottom_subtree <= 30,
                lb == spec_leaf_count(bh) as int,
                lt == spec_leaf_count(th) as int,
                lt == number_of_pairs as int,
                lb >= 1,
                ts == spec_tree_size(th) as int,
                bs == spec_tree_size(bh) as int,
                bs >= 1,
                size == spec_tree_size(height as nat) as int,
                ts + 2 * lt * bs == size,
                2 * lt <= size,
                2 * lt * lb == spec_leaf_count(height as nat),
                offset + size <= buf0.len(),
                buf0.len() <= usize::MAX,
                0 <= pair_number <= number_of_pairs,
                generator.wf(),
                reserved_space@.len() == buf0.len(),
                forall|i: int|
                    0 <= i < buf0.len() && !(offset + ts <= i < offset + ts + 2 * (
                    pair_number as int) * bs) ==> reserved_space@[i] == buf0[i],
                generator@ == gen0.skip(2 * (pair_number as int) * lb),
                gen0.len() >= 2 * (pair_number as int) * lb,
                min_values@.len() == pair_number,
                forall|p: int|
                    0 <= p < pair_number as int ==> min_values@[p] == gen0[2 * p * lb],
                forall|j: int|
                    0 <= j < 2 * (pair_number as int) ==> is_layout(
                        #[trigger] chunk(reserved_space@, offset + ts, bs as int, j),
                        bh,
                    ) && leaves_of(chunk(reserved_space@, offset + ts, bs as int, j), bh)
                        == gen0.subrange(j * lb, (j + 1) * lb),
            decreases number_of_pairs - pair_number,
        {
            let ghost k = pair_number as int;
            let ghost buf_head = reserved_space@;
            proof {
                lemma_mul_nonnegative(2 * k, bs as int);
                lemma_mul_nonnegative(2 * k, lb);
                lemma_mul_inequality(2 * k, 2 * lt, bs as int);
                lemma_mul_inequality(2 * k + 1, 2 * lt, bs as int);
                lemma_mul_inequality(2 * k + 2, 2 * lt, bs as int);
                lemma_mul_inequality(2 * k + 1, 2 * lt, lb);
                lemma_mul_inequality(2 * k + 2, 2 * lt, lb);
                assert((2 * k) * (bs as int) + bs == (2 * k + 1) * (bs as int))
                    by (nonlinear_arith);
                assert((2 * k + 1) * (bs as int) + bs == (2 * k + 2) * (bs as int))
                    by (nonlinear_arith);
                assert((2 * k) * lb + lb == (2 * k + 1) * lb) by (nonlinear_arith);
                assert((2 * k + 1) * lb + lb == (2 * k + 2) * lb) by (nonlinear_arith);
            }
            let left_offset: usize = offset + ts + 2 * pair_number * bs;
            let ghost gen_left = generator@;
            let first = layout_at(reserved_space, left_offset, generator, height_of_bottom_subtree);
            let min = match first {
                Ok(min) => min,
                Err(()) => {
                    proof {
                        assert(gen_left.len() < lb);
                        assert(gen0.len() < (2 * k + 1) * lb);
                        assert forall|i: int|
                            0 <= i < buf0.len() && !(offset <= i < offset + size)
                                implies reserved_space@[i] == buf0[i] by {
                            assert(reserved_space@[i] == buf_head[i]);
                        }
                    }
                    return Err(());
                },
            };
            min_values.push(min);
            let right_offset: usize = offset + ts + (2 * pair_number + 1) * bs;
            let ghost gen_right = generator@;
            let ghost buf_mid = reserved_space@;
            let second = layout_at(
                reserved_space,
                right_offset,
                generator,
                height_of_bottom_subtree,
            );
            match second {
                Ok(_) => {},
                Err(()) => {
                    proof {
                        assert(gen_right.len() < lb);
                        assert(gen_right == gen0.skip(2 * k * lb).skip(lb));
                        assert(gen0.len() < (2 * k + 2) * lb);
                        assert forall|i: int|
                            0 <= i < buf0.len() && !(offset <= i < offset + size)
                                implies reserved_space@[i] == buf0[i] by {
                            assert(reserved_space@[i] == buf_mid[i]);
                            assert(buf_mid[i] == buf_head[i]);
                        }
                    }
                    return Err(());
                },
            }
            pair_number = pair_number + 1;
            proof {
                lemma_layout_step(
                    buf_head,
                    buf_mid,
                    reserved_space@,
                    gen0,
                    gen_left,
                    gen_right,
                    generator@,
                    offset as int,
                    height as nat,
                    k,
                    ts as int,
                    bs as int,
                    lt,
                    lb,
                    first,
                    second,
                );
                assert forall|i: int|
                    0 <= i < buf0.len() && !(offset + ts <= i < offset + ts + 2 * (
                    pair_number as int) * bs) implies reserved_space@[i] == buf0[i] by {
                    assert(reserved_space@[i] == buf_head[i]);
                }
            }
        }
        let ghost buf_loop = reserved_space@;
        let ghost mins0 = min_values@;
        proof {
            vstd::arithmetic::power2::lemma_pow2_pos((th - 1) as nat);
            assert(mins0.len() == lt >= 1);
        }
        let mut min_cursor = KeyCursor::new(min_values);
        let result = layout_at(reserved_space, offset, &mut min_cursor, height_of_top_subtree);
        proof {
            lemma_reassemble(
                buf0,
                buf_loop,
                reserved_space@,
                gen0,
                generator@,
                mins0,
                min_cursor@,
                offset as int,
                height as nat,
                ts as int,
                bs as int,
                lt,
                lb,
                result,
            );
        }
        result
    }
}

/// Lays a tree of the given height out over the whole of `reserved_space`,
/// pulling exactly `spec_leaf_count(height)` keys from the producer — no
/// more, no less.  On success the buffer satisfies the layout invariant, its
/// leaf sequence is the consumed prefix of the producer, and the returned
/// value is the first key consumed: the least key written, whenever the
/// producer ascends.  The call fails exactly when the producer holds fewer
/// keys than the tree has leaves.
pub fn layout(reserved_space: &mut Vec<i32>, generator: &mut KeyCursor, height: u16) -> (r: Result<
    i32,
    (),
>)
    requires
        old(generator).wf(),
        1 <= height <= 30,
        old(reserved_space)@.len() == spec_tree_size(height as nat),
    ensures
        final(generator).wf(),
        final(reserved_space)@.len() == old(reserved_space)@.len(),
        r is Ok <==> old(generator)@.len() >= spec_leaf_count(height as nat),
        r is Ok ==> is_layout(final(reserved_space)@, height as nat),
        r is Ok ==> leaves_of(final(reserved_space)@, height as nat) == old(generator)@.take(
            spec_leaf_count(height as nat) as int,
        ),
        r is Ok ==> final(generator)@ == old(generator)@.skip(
            spec_leaf_count(height as nat) as int,
        ),
        r is Ok ==> r == Ok::<i32, ()>(old(generator)@[0]),
{
    let r = layout_at(reserved_space, 0, generator, height);
    proof {
        if r is Ok {
            assert(reserved_space@.subrange(0, spec_tree_size(height as nat) as int)
                =~= reserved_space@);
        }
    }
    r
}

} // verus!
