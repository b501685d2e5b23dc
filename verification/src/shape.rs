//! Shape/stride kernel: pure functions over shape and stride vectors.
//!
//! A shape is an ordered list of dimension sizes; its size is the product of
//! the dimensions (0 for rank 0, by convention).  Strides map a multi-index
//! to a flat offset via a dot product; a dimension of size 1 is assigned
//! stride 0 so that repeated reads along it return the same element, which is
//! what implements broadcasting without materializing repeated data.

use vstd::arithmetic::div_mod::lemma_fundamental_div_mod;
use vstd::arithmetic::div_mod::lemma_fundamental_div_mod_converse;
use vstd::prelude::*;

verus! {

/// Product of the dimensions `s[i..]`; 1 when the range is empty.
pub open spec fn prod_from(s: Seq<usize>, i: int) -> int
    decreases s.len() - i,
{
    if 0 <= i < s.len() {
        s[i] * prod_from(s, i + 1)
    } else {
        1
    }
}

/// Product of the dimensions `s[..k]`; 1 when the range is empty.
pub open spec fn prod_to(s: Seq<usize>, k: int) -> int
    decreases k,
{
    if 0 < k <= s.len() {
        prod_to(s, k - 1) * s[k - 1]
    } else {
        1
    }
}

/// The number of elements a shape describes: the product of its dimensions,
/// 0 for rank 0.
pub open spec fn size_spec(s: Seq<usize>) -> int {
    if s.len() == 0 {
        0
    } else {
        prod_from(s, 0)
    }
}

/// Every suffix product of the shape fits in a `usize`, so stride vectors
/// over it are representable.
pub open spec fn fits_usize(s: Seq<usize>) -> bool {
    forall|i: int| 0 <= i <= s.len() ==> prod_from(s, i) <= usize::MAX
}

/// The row-major stride of axis `i`, with the degenerate-dimension
/// convention: a dimension of size 1 gets stride 0.
pub open spec fn stride_at(s: Seq<usize>, i: int) -> int {
    if s[i] == 1 {
        0
    } else {
        prod_from(s, i + 1)
    }
}

/// The row-major stride of axis `i` without the degenerate-dimension
/// convention.
pub open spec fn nz_stride_at(s: Seq<usize>, i: int) -> int {
    prod_from(s, i + 1)
}

/// Dot product of the first `k` entries of a multi-index with strides.
pub open spec fn dot_prefix(ix: Seq<usize>, st: Seq<usize>, k: int) -> int
    decreases k,
{
    if k <= 0 {
        0
    } else {
        dot_prefix(ix, st, k - 1) + ix[k - 1] * st[k - 1]
    }
}

/// Flat offset of a multi-index under a stride vector.
pub open spec fn dot(ix: Seq<usize>, st: Seq<usize>) -> int {
    dot_prefix(ix, st, ix.len() as int)
}

/// The multi-index is entrywise below the shape.
pub open spec fn valid_index(ix: Seq<usize>, s: Seq<usize>) -> bool {
    &&& ix.len() == s.len()
    &&& forall|i: int| 0 <= i < ix.len() ==> ix[i] < s[i]
}

/// Flat row-major position of a valid multi-index (Horner form, last axis
/// fastest).
pub open spec fn enc(ix: Seq<usize>, s: Seq<usize>) -> int
    decreases ix.len(),
{
    if ix.len() == 0 {
        0
    } else {
        enc(ix.drop_last(), s.drop_last()) * s.last() + ix.last()
    }
}

/// Odometer successor of a multi-index: increment the last axis, carrying
/// into earlier axes on overflow, wrapping to all-zero after the final
/// element.
pub open spec fn inc_spec(ix: Seq<usize>, s: Seq<usize>) -> Seq<usize>
    decreases ix.len(),
{
    if ix.len() == 0 {
        ix
    } else if ix.last() + 1 < s.last() {
        ix.update(ix.len() - 1, (ix.last() + 1) as usize)
    } else {
        inc_spec(ix.drop_last(), s.drop_last()).push(0)
    }
}

/// Odometer predecessor of a multi-index: decrement the last axis, borrowing
/// from earlier axes at zero, wrapping to all-maximal before the first
/// element.
pub open spec fn dec_spec(ix: Seq<usize>, s: Seq<usize>) -> Seq<usize>
    decreases ix.len(),
{
    if ix.len() == 0 {
        ix
    } else if ix.last() == 0 {
        dec_spec(ix.drop_last(), s.drop_last()).push((s.last() - 1) as usize)
    } else {
        ix.update(ix.len() - 1, (ix.last() - 1) as usize)
    }
}

/// The all-zero multi-index of the given rank.
pub open spec fn zero_index(rank: int) -> Seq<usize> {
    Seq::new(rank as nat, |i: int| 0usize)
}

/// The multi-index the odometer reaches after `p` increments from all-zero.
pub open spec fn index_of(p: int, s: Seq<usize>) -> Seq<usize>
    decreases p,
{
    if p <= 0 {
        zero_index(s.len() as int)
    } else {
        inc_spec(index_of(p - 1, s), s)
    }
}

/// Product of the dimensions; 0 for a rank-0 shape.
pub fn get_size(shape: &Vec<usize>) -> (size: usize)
    requires
        size_spec(shape@) <= usize::MAX,
    ensures
        size == size_spec(shape@),
{
    if shape.len() == 0 {
        return 0;
    }
    let n: usize = shape.len();
    let mut i: usize = 0;
    while i < n
        invariant
            n == shape@.len(),
            0 <= i <= n,
            forall|j: int| 0 <= j < i ==> shape@[j] >= 1,
        decreases n - i,
    {
        if shape[i] == 0 {
            proof {
                lemma_prod_from_zero_factor(shape@, 0, i as int);
            }
            return 0;
        }
        i += 1;
    }
    let mut size: usize = 1;
    let mut k: usize = 0;
    proof {
        lemma_all_pos_prod_bounds(shape@, 0);
    }
    while k < n
        invariant
            n == shape@.len(),
            0 <= k <= n,
            forall|j: int| 0 <= j < n ==> shape@[j] >= 1,
            size == prod_to(shape@, k as int),
            prod_from(shape@, 0) <= usize::MAX,
        decreases n - k,
    {
        proof {
            lemma_prod_split(shape@, k as int + 1);
            lemma_all_pos_prod_bounds(shape@, k as int + 1);
            assert(prod_to(shape@, k + 1) * 1 <= prod_to(shape@, k + 1) * prod_from(
                shape@,
                k + 1,
            )) by (nonlinear_arith)
                requires
                    prod_to(shape@, k + 1) >= 0,
                    prod_from(shape@, k + 1) >= 1,
            ;
        }
        size = size * shape[k];
        k += 1;
    }
    proof {
        lemma_prod_split(shape@, n as int);
        assert(k == n);
        assert(size == prod_to(shape@, n as int));
        assert(prod_from(shape@, n as int) == 1);
        assert(prod_to(shape@, n as int) * 1 == prod_from(shape@, 0));
        assert(prod_to(shape@, n as int) * 1 == prod_to(shape@, n as int)) by (nonlinear_arith);
    }
    return size;
}

/// Product of the dimensions from `start_ix` on; 0 for a rank-0 shape.
pub fn get_size_from(shape: &Vec<usize>, start_ix: usize) -> (size: usize)
    requires
        start_ix <= shape@.len(),
        forall|k: int| start_ix <= k <= shape@.len() ==> prod_from(shape@, k) <= usize::MAX,
    ensures
        shape@.len() == 0 ==> size == 0,
        shape@.len() > 0 ==> size == prod_from(shape@, start_ix as int),
{
    if shape.len() == 0 {
        return 0;
    }
    let n: usize = shape.len();
    let mut size: usize = 1;
    let mut k: usize = n;
    while k > start_ix
        invariant
            n == shape@.len(),
            start_ix <= k <= n,
            size == prod_from(shape@, k as int),
            forall|m: int| start_ix <= m <= n ==> prod_from(shape@, m) <= usize::MAX,
        decreases k,
    {
        k -= 1;
        proof {
            assert(prod_from(shape@, k as int) == shape@[k as int] * prod_from(
                shape@,
                k as int + 1,
            ));
            assert(prod_from(shape@, k as int) <= usize::MAX);
            lemma_prod_from_nonneg(shape@, k as int);
        }
        size = shape[k] * size;
    }
    return size;
}

/// Product of the dimensions in `start_ix..end_ix`; 0 for a rank-0 shape.
pub fn get_size_from_to(shape: &Vec<usize>, start_ix: usize, end_ix: usize) -> (size: usize)
    requires
        start_ix <= end_ix,
        end_ix <= shape@.len(),
        forall|k: int|
            start_ix <= k <= end_ix ==> prod_range(shape@, k, end_ix as int) <= usize::MAX,
    ensures
        shape@.len() == 0 ==> size == 0,
        shape@.len() > 0 ==> size == prod_range(shape@, start_ix as int, end_ix as int),
{
    if shape.len() == 0 {
        return 0;
    }
    let mut size: usize = 1;
    let mut k: usize = end_ix;
    while k > start_ix
        invariant
            start_ix <= k <= end_ix <= shape@.len(),
            size == prod_range(shape@, k as int, end_ix as int),
            forall|m: int|
                start_ix <= m <= end_ix ==> prod_range(shape@, m, end_ix as int) <= usize::MAX,
        decreases k,
    {
        k -= 1;
        proof {
            assert(prod_range(shape@, k as int, end_ix as int) == shape@[k as int] * prod_range(
                shape@,
                k as int + 1,
                end_ix as int,
            ));
            assert(prod_range(shape@, k as int, end_ix as int) <= usize::MAX);
            lemma_prod_range_nonneg(shape@, k as int, end_ix as int);
        }
        size = shape[k] * size;
    }
    return size;
}

/// Range products are never negative.
pub proof fn lemma_prod_range_nonneg(s: Seq<usize>, i: int, k: int)
    ensures
        prod_range(s, i, k) >= 0,
    decreases k - i,
{
    if i < k && 0 <= i && k <= s.len() {
        lemma_prod_range_nonneg(s, i + 1, k);
        assert(s[i] * prod_range(s, i + 1, k) >= 0) by (nonlinear_arith)
            requires
                s[i] >= 0,
                prod_range(s, i + 1, k) >= 0,
        ;
    }
}

/// Product of the dimensions `s[i..k]`; 1 when the range is empty.
pub open spec fn prod_range(s: Seq<usize>, i: int, k: int) -> int
    decreases k - i,
{
    if i < k && 0 <= i && k <= s.len() {
        s[i] * prod_range(s, i + 1, k)
    } else {
        1
    }
}

/// Row-major strides (last axis fastest), assigning stride 0 to size-1
/// dimensions so that broadcast operands can be read through them.
pub fn compute_strides(shape: &Vec<usize>) -> (res: Vec<usize>)
    requires
        fits_usize(shape@),
    ensures
        res@.len() == shape@.len(),
        forall|i: int| 0 <= i < shape@.len() ==> res@[i] == stride_at(shape@, i),
{
    let rank: usize = shape.len();
    let mut res: Vec<usize> = Vec::new();
    if rank == 0 {
        return res;
    }
    let mut i: usize = 0;
    while i < rank
        invariant
            rank == shape@.len(),
            0 <= i <= rank,
            res@.len() == i,
            fits_usize(shape@),
            forall|j: int| 0 <= j < i ==> res@[j] == 1usize,
        decreases rank - i,
    {
        res.push(1);
        i += 1;
    }
    if shape[rank - 1] == 1 {
        res.set(rank - 1, 0);
    } else {
        res.set(rank - 1, 1);
    }
    let mut last_stride: usize = 1;
    let mut k: usize = rank - 1;
    while k > 0
        invariant
            rank == shape@.len(),
            res@.len() == rank,
            0 <= k <= rank - 1,
            fits_usize(shape@),
            last_stride == prod_from(shape@, k as int + 1),
            forall|j: int| k <= j < rank ==> res@[j] == stride_at(shape@, j),
        decreases k,
    {
        k -= 1;
        let next: usize = shape[k + 1];
        proof {
            assert(prod_from(shape@, k as int + 1) == shape@[k as int + 1] * prod_from(
                shape@,
                k as int + 2,
            ));
            assert(prod_from(shape@, k as int + 1) <= usize::MAX);
            assert(last_stride * next == next * last_stride) by (nonlinear_arith);
        }
        last_stride = last_stride * next;
        if shape[k] == 1 {
            res.set(k, 0);
        } else {
            res.set(k, last_stride);
        }
    }
    return res;
}

/// Row-major strides without the degenerate-dimension convention: axis `i`
/// always gets the product of the dimensions after it.
pub fn compute_strides_no_zero(shape: &Vec<usize>) -> (res: Vec<usize>)
    requires
        fits_usize(shape@),
    ensures
        res@.len() == shape@.len(),
        forall|i: int| 0 <= i < shape@.len() ==> res@[i] == nz_stride_at(shape@, i),
{
    let rank: usize = shape.len();
    let mut res: Vec<usize> = Vec::new();
    if rank == 0 {
        return res;
    }
    let mut i: usize = 0;
    while i < rank
        invariant
            rank == shape@.len(),
            0 <= i <= rank,
            res@.len() == i,
            forall|j: int| 0 <= j < i ==> res@[j] == 1usize,
        decreases rank - i,
    {
        res.push(1);
        i += 1;
    }
    let mut last_stride: usize = 1;
    let mut k: usize = rank - 1;
    while k > 0
        invariant
            rank == shape@.len(),
            res@.len() == rank,
            0 <= k <= rank - 1,
            fits_usize(shape@),
            last_stride == prod_from(shape@, k as int + 1),
            forall|j: int| k <= j < rank ==> res@[j] == nz_stride_at(shape@, j),
        decreases k,
    {
        k -= 1;
        let next: usize = shape[k + 1];
        proof {
            assert(prod_from(shape@, k as int + 1) == shape@[k as int + 1] * prod_from(
                shape@,
                k as int + 2,
            ));
            assert(prod_from(shape@, k as int + 1) <= usize::MAX);
            assert(last_stride * next == next * last_stride) by (nonlinear_arith);
        }
        last_stride = last_stride * next;
        res.set(k, last_stride);
    }
    return res;
}

/// Shape equality: same rank and the same dimension at every axis.
pub fn compare_shapes(a: &Vec<usize>, b: &Vec<usize>) -> (r: bool)
    ensures
        r <==> a@ == b@,
{
    if a.len() != b.len() {
        proof {
            assert(a@.len() != b@.len());
        }
        return false;
    }
    let n: usize = a.len();
    let mut i: usize = 0;
    while i < n
        invariant
            n == a@.len(),
            n == b@.len(),
            0 <= i <= n,
            forall|j: int| 0 <= j < i ==> a@[j] == b@[j],
        decreases n - i,
    {
        if a[i] != b[i] {
            return false;
        }
        i += 1;
    }
    proof {
        assert(a@ =~= b@);
    }
    return true;
}

/// Flat offset of a multi-index: the dot product with the stride vector.
pub fn index_to_pos(index: &Vec<usize>, strides: &Vec<usize>) -> (pos: usize)
    requires
        index@.len() == strides@.len(),
        dot(index@, strides@) <= usize::MAX,
    ensures
        pos == dot(index@, strides@),
{
    let n: usize = index.len();
    let mut ix: usize = 0;
    let mut i: usize = 0;
    while i < n
        invariant
            n == index@.len(),
            n == strides@.len(),
            0 <= i <= n,
            ix == dot_prefix(index@, strides@, i as int),
            dot(index@, strides@) <= usize::MAX,
        decreases n - i,
    {
        proof {
            lemma_dot_prefix_bounds(index@, strides@, i as int + 1);
            lemma_dot_prefix_mono(index@, strides@, i as int + 1, n as int);
        }
        ix = ix + index[i] * strides[i];
        i += 1;
    }
    return ix;
}

/// Inverse of `index_to_pos` for non-degenerate strides: successive integer
/// division and remainder against each stride.
pub fn pos_to_index(pos: usize, strides: &Vec<usize>) -> (res: Vec<usize>)
    requires
        forall|i: int| 0 <= i < strides@.len() ==> strides@[i] >= 1,
    ensures
        res@.len() == strides@.len(),
        forall|i: int|
            0 <= i < strides@.len() ==> res@[i] == rem_chain(pos as int, strides@, i) / (
            strides@[i] as int),
{
    let n: usize = strides.len();
    let mut res: Vec<usize> = Vec::new();
    let mut pos_c: usize = pos;
    let mut i: usize = 0;
    while i < n
        invariant
            n == strides@.len(),
            0 <= i <= n,
            res@.len() == i,
            forall|j: int| 0 <= j < strides@.len() ==> strides@[j] >= 1,
            pos_c == rem_chain(pos as int, strides@, i as int),
            forall|j: int|
                0 <= j < i ==> res@[j] == rem_chain(pos as int, strides@, j) / (strides@[j] as int),
        decreases n - i,
    {
        let d: usize = pos_c / strides[i];
        pos_c = pos_c % strides[i];
        res.push(d);
        i += 1;
    }
    return res;
}

/// The remainder left over after reducing `pos` modulo the first `i` strides.
pub open spec fn rem_chain(pos: int, st: Seq<usize>, i: int) -> int
    decreases i,
{
    if i <= 0 {
        pos
    } else {
        rem_chain(pos, st, i - 1) % (st[i - 1] as int)
    }
}

/// In-place odometer increment: least-significant (last) axis first, carrying
/// into higher axes on overflow, wrapping to all-zero after the final
/// element.
pub fn increment_index(index: &mut Vec<usize>, shape: &Vec<usize>)
    requires
        valid_index(old(index)@, shape@),
    ensures
        final(index)@ == inc_spec(old(index)@, shape@),
        valid_index(final(index)@, shape@),
{
    let n: usize = index.len();
    let mut i: usize = n;
    while i > 0
        invariant
            n == old(index)@.len(),
            n == shape@.len(),
            index@.len() == n,
            0 <= i <= n,
            valid_index(old(index)@, shape@),
            forall|j: int| 0 <= j < i ==> index@[j] == old(index)@[j],
            forall|j: int| i <= j < n ==> index@[j] == 0usize,
            forall|j: int| i <= j < n ==> old(index)@[j] + 1 >= shape@[j],
            inc_spec(old(index)@, shape@) == if i < n {
                inc_spec(old(index)@.take(i as int), shape@.take(i as int)) + Seq::new(
                    (n - i) as nat,
                    |j: int| 0usize,
                )
            } else {
                inc_spec(old(index)@, shape@)
            },
        decreases i,
    {
        i -= 1;
        let v: usize = index[i];
        if v + 1 >= shape[i] {
            index.set(i, 0);
            proof {
                lemma_inc_spec_carry(old(index)@, shape@, i as int);
            }
        } else {
            index.set(i, v + 1);
            proof {
                lemma_inc_spec_step(old(index)@, shape@, i as int, index@);
            }
            return ;
        }
    }
    proof {
        if n > 0 {
            lemma_inc_spec_all_carry(old(index)@, shape@);
            assert(index@ =~= inc_spec(old(index)@, shape@));
            lemma_inc_valid(old(index)@, shape@);
        } else {
            assert(index@ =~= inc_spec(old(index)@, shape@));
        }
    }
}

/// In-place odometer decrement, the mirror image of `increment_index`.
pub fn decrement_index(index: &mut Vec<usize>, shape: &Vec<usize>)
    requires
        valid_index(old(index)@, shape@),
    ensures
        final(index)@ == dec_spec(old(index)@, shape@),
        valid_index(final(index)@, shape@),
{
    let n: usize = index.len();
    let mut i: usize = n;
    while i > 0
        invariant
            n == old(index)@.len(),
            n == shape@.len(),
            index@.len() == n,
            0 <= i <= n,
            valid_index(old(index)@, shape@),
            forall|j: int| 0 <= j < i ==> index@[j] == old(index)@[j],
            forall|j: int| i <= j < n ==> index@[j] == shape@[j] - 1,
            forall|j: int| i <= j < n ==> old(index)@[j] == 0usize,
            dec_spec(old(index)@, shape@) == if i < n {
                dec_spec(old(index)@.take(i as int), shape@.take(i as int)) + Seq::new(
                    (n - i) as nat,
                    |j: int| (shape@[i + j] - 1) as usize,
                )
            } else {
                dec_spec(old(index)@, shape@)
            },
        decreases i,
    {
        i -= 1;
        let v: usize = index[i];
        if v == 0 {
            index.set(i, shape[i] - 1);
            proof {
                lemma_dec_spec_borrow(old(index)@, shape@, i as int);
            }
        } else {
            index.set(i, v - 1);
            proof {
                lemma_dec_spec_step(old(index)@, shape@, i as int, index@);
            }
            return ;
        }
    }
    proof {
        if n > 0 {
            assert(Seq::new(n as nat, |j: int| (shape@[0 + j] - 1) as usize) =~= Seq::new(
                n as nat,
                |j: int| (shape@[j] - 1) as usize,
            ));
            lemma_dec_spec_all_borrow(old(index)@, shape@);
            assert(index@ =~= dec_spec(old(index)@, shape@));
            lemma_dec_valid(old(index)@, shape@);
        } else {
            assert(index@ =~= dec_spec(old(index)@, shape@));
        }
    }
}

/// A zero dimension anywhere makes every product over a range containing it
/// zero.
pub proof fn lemma_prod_from_zero_factor(s: Seq<usize>, i: int, z: int)
    requires
        0 <= i <= z < s.len(),
        s[z] == 0,
    ensures
        prod_from(s, i) == 0,
    decreases z - i,
{
    if i == z {
        lemma_prod_from_nonneg(s, i + 1);
        assert(prod_from(s, i) == s[i] * prod_from(s, i + 1));
        assert(0 * prod_from(s, i + 1) == 0) by (nonlinear_arith);
    } else {
        lemma_prod_from_zero_factor(s, i + 1, z);
        assert(prod_from(s, i) == s[i] * 0);
        assert(s[i] * 0 == 0) by (nonlinear_arith);
    }
}

/// Suffix products are never negative.
pub proof fn lemma_prod_from_nonneg(s: Seq<usize>, i: int)
    ensures
        prod_from(s, i) >= 0,
    decreases s.len() - i,
{
    if 0 <= i < s.len() {
        lemma_prod_from_nonneg(s, i + 1);
        assert(s[i] * prod_from(s, i + 1) >= 0) by (nonlinear_arith)
            requires
                s[i] >= 0,
                prod_from(s, i + 1) >= 0,
        ;
    }
}

/// With only positive dimensions from `i` on, every suffix product from `i`
/// on is at least 1 and at most the product from `i`.
pub proof fn lemma_all_pos_prod_bounds(s: Seq<usize>, i: int)
    requires
        forall|j: int| i <= j < s.len() ==> s[j] >= 1,
    ensures
        forall|k: int| i <= k <= s.len() ==> prod_from(s, k) >= 1,
    decreases s.len() - i,
{
    if i < s.len() {
        lemma_all_pos_prod_bounds(s, i + 1);
        assert forall|k: int| i <= k <= s.len() implies prod_from(s, k) >= 1 by {
            if k == i {
                assert(s[i] * prod_from(s, i + 1) >= 1) by (nonlinear_arith)
                    requires
                        s[i] >= 1,
                        prod_from(s, i + 1) >= 1,
                ;
            }
        }
    }
}

/// Larger starting points divide the product: `prod_from(s, i)` equals the
/// product over `[i, k)` times `prod_from(s, k)`, so with positive leading
/// dimensions the later product is no larger.
pub proof fn lemma_prod_from_mono(s: Seq<usize>, i: int, k: int)
    requires
        0 <= i <= k <= s.len(),
        forall|j: int| i <= j < s.len() ==> s[j] >= 1,
    ensures
        prod_from(s, k) <= prod_from(s, i),
    decreases k - i,
{
    if i < k {
        lemma_prod_from_mono(s, i + 1, k);
        lemma_all_pos_prod_bounds(s, i);
        assert(1 * prod_from(s, i + 1) <= s[i] * prod_from(s, i + 1)) by (nonlinear_arith)
            requires
                s[i] >= 1,
                prod_from(s, i + 1) >= 0,
        ;
    }
}

/// A prefix product times the matching suffix product is the whole product.
pub proof fn lemma_prod_split(s: Seq<usize>, k: int)
    requires
        0 <= k <= s.len(),
    ensures
        prod_to(s, k) * prod_from(s, k) == prod_from(s, 0),
    decreases k,
{
    if k == 0 {
        assert(prod_to(s, 0) == 1);
        assert(1 * prod_from(s, 0) == prod_from(s, 0)) by (nonlinear_arith);
    } else {
        lemma_prod_split(s, k - 1);
        assert(prod_from(s, k - 1) == s[k - 1] * prod_from(s, k));
        assert(prod_to(s, k) * prod_from(s, k) == (prod_to(s, k - 1) * s[k - 1]) * prod_from(s, k));
        assert((prod_to(s, k - 1) * s[k - 1]) * prod_from(s, k) == prod_to(s, k - 1) * (s[k - 1]
            * prod_from(s, k))) by (nonlinear_arith);
    }
}

/// Products over `[i, k)` are at most products over a containing range of
/// positive dimensions, and positive themselves.
pub proof fn lemma_prod_range_pos(s: Seq<usize>, i: int, k: int)
    requires
        0 <= i,
        k <= s.len(),
        forall|j: int| i <= j < k ==> s[j] >= 1,
    ensures
        prod_range(s, i, k) >= 1,
    decreases k - i,
{
    if i < k {
        lemma_prod_range_pos(s, i + 1, k);
        assert(s[i] * prod_range(s, i + 1, k) >= 1) by (nonlinear_arith)
            requires
                s[i] >= 1,
                prod_range(s, i + 1, k) >= 1,
        ;
    }
}

/// Extending a range of positive dimensions to the left cannot shrink its
/// product.
pub proof fn lemma_prod_range_mono(s: Seq<usize>, i: int, m: int, k: int)
    requires
        0 <= i <= m <= k <= s.len(),
        forall|j: int| i <= j < k ==> s[j] >= 1,
    ensures
        prod_range(s, m, k) <= prod_range(s, i, k),
    decreases m - i,
{
    if i < m {
        lemma_prod_range_mono(s, i + 1, m, k);
        lemma_prod_range_pos(s, i + 1, k);
        assert(1 * prod_range(s, i + 1, k) <= s[i] * prod_range(s, i + 1, k)) by (nonlinear_arith)
            requires
                s[i] >= 1,
                prod_range(s, i + 1, k) >= 0,
        ;
    }
}

/// Partial dot products are non-negative and grow with the prefix length.
pub proof fn lemma_dot_prefix_bounds(ix: Seq<usize>, st: Seq<usize>, k: int)
    ensures
        0 <= dot_prefix(ix, st, k),
    decreases k,
{
    if k > 0 {
        lemma_dot_prefix_bounds(ix, st, k - 1);
        if 0 <= k - 1 < ix.len() && 0 <= k - 1 < st.len() {
            assert(ix[k - 1] * st[k - 1] >= 0) by (nonlinear_arith)
                requires
                    ix[k - 1] >= 0,
                    st[k - 1] >= 0,
            ;
        } else {
            assert(ix[k - 1] * st[k - 1] >= 0) by (nonlinear_arith)
                requires
                    ix[k - 1] >= 0,
                    st[k - 1] >= 0,
            ;
        }
    }
}

/// A shorter prefix of the dot product is no larger.
pub proof fn lemma_dot_prefix_mono(ix: Seq<usize>, st: Seq<usize>, k: int, m: int)
    requires
        k <= m,
    ensures
        dot_prefix(ix, st, k) <= dot_prefix(ix, st, m),
    decreases m - k,
{
    if k < m {
        lemma_dot_prefix_mono(ix, st, k, m - 1);
        assert(ix[m - 1] * st[m - 1] >= 0) by (nonlinear_arith)
            requires
                ix[m - 1] >= 0,
                st[m - 1] >= 0,
        ;
    }
}

/// Unfolds one step of `inc_spec` when the axes after `i` all carry and axis
/// `i` carries too.
proof fn lemma_inc_spec_carry(ix: Seq<usize>, s: Seq<usize>, i: int)
    requires
        valid_index(ix, s),
        0 <= i < ix.len(),
        ix[i] + 1 >= s[i],
        forall|j: int| i < j < ix.len() ==> ix[j] + 1 >= s[j],
        inc_spec(ix, s) == if i + 1 < ix.len() {
            inc_spec(ix.take(i + 1), s.take(i + 1)) + Seq::new(
                (ix.len() - i - 1) as nat,
                |j: int| 0usize,
            )
        } else {
            inc_spec(ix, s)
        },
    ensures
        inc_spec(ix, s) == if i < ix.len() {
            inc_spec(ix.take(i), s.take(i)) + Seq::new((ix.len() - i) as nat, |j: int| 0usize)
        } else {
            inc_spec(ix, s)
        },
{
    let n = ix.len() as int;
    if i + 1 < n {
        let t = ix.take(i + 1);
        let ts = s.take(i + 1);
        assert(t.last() == ix[i]);
        assert(ts.last() == s[i]);
        assert(t.drop_last() =~= ix.take(i));
        assert(ts.drop_last() =~= s.take(i));
        assert(inc_spec(t, ts) == inc_spec(ix.take(i), s.take(i)).push(0));
        assert(inc_spec(ix.take(i), s.take(i)).push(0) + Seq::new(
            (n - i - 1) as nat,
            |j: int| 0usize,
        ) =~= inc_spec(ix.take(i), s.take(i)) + Seq::new((n - i) as nat, |j: int| 0usize));
    } else {
        assert(i == n - 1);
        assert(ix.drop_last() =~= ix.take(i));
        assert(s.drop_last() =~= s.take(i));
        assert(inc_spec(ix, s) == inc_spec(ix.take(i), s.take(i)).push(0));
        assert(inc_spec(ix.take(i), s.take(i)).push(0) =~= inc_spec(ix.take(i), s.take(i))
            + Seq::new((n - i) as nat, |j: int| 0usize));
    }
}

/// Unfolds `inc_spec` when the axes after `i` all carry and axis `i` does
/// not: the increment stops there.
proof fn lemma_inc_spec_step(ix: Seq<usize>, s: Seq<usize>, i: int, got: Seq<usize>)
    requires
        valid_index(ix, s),
        0 <= i < ix.len(),
        ix[i] + 1 < s[i],
        got.len() == ix.len(),
        forall|j: int| 0 <= j < i ==> got[j] == ix[j],
        got[i] == ix[i] + 1,
        forall|j: int| i < j < ix.len() ==> got[j] == 0usize,
        inc_spec(ix, s) == if i + 1 < ix.len() {
            inc_spec(ix.take(i + 1), s.take(i + 1)) + Seq::new(
                (ix.len() - i - 1) as nat,
                |j: int| 0usize,
            )
        } else {
            inc_spec(ix, s)
        },
    ensures
        inc_spec(ix, s) == got,
{
    let n = ix.len() as int;
    if i + 1 < n {
        let t = ix.take(i + 1);
        let ts = s.take(i + 1);
        assert(t.last() == ix[i]);
        assert(ts.last() == s[i]);
        assert(inc_spec(t, ts) == t.update(i, (ix[i] + 1) as usize));
        assert(t.update(i, (ix[i] + 1) as usize) + Seq::new((n - i - 1) as nat, |j: int| 0usize)
            =~= got);
    } else {
        assert(i == n - 1);
        assert(inc_spec(ix, s) == ix.update(i, (ix[i] + 1) as usize));
        assert(ix.update(i, (ix[i] + 1) as usize) =~= got);
    }
}

/// When every axis carries, the odometer wraps to all-zero.
proof fn lemma_inc_spec_all_carry(ix: Seq<usize>, s: Seq<usize>)
    requires
        valid_index(ix, s),
        ix.len() > 0,
        inc_spec(ix, s) == inc_spec(ix.take(0), s.take(0)) + Seq::new(
            ix.len() as nat,
            |j: int| 0usize,
        ),
    ensures
        inc_spec(ix, s) == zero_index(ix.len() as int),
{
    assert(ix.take(0).len() == 0);
    assert(inc_spec(ix.take(0), s.take(0)) == ix.take(0));
    assert(ix.take(0) + Seq::new(ix.len() as nat, |j: int| 0usize) =~= zero_index(
        ix.len() as int,
    ));
}

/// The odometer successor of a valid multi-index is valid.
pub proof fn lemma_inc_valid(ix: Seq<usize>, s: Seq<usize>)
    requires
        valid_index(ix, s),
    ensures
        valid_index(inc_spec(ix, s), s),
    decreases ix.len(),
{
    if ix.len() > 0 {
        if ix.last() + 1 < s.last() {
        } else {
            lemma_inc_valid(ix.drop_last(), s.drop_last());
            let front = inc_spec(ix.drop_last(), s.drop_last());
            assert forall|j: int| 0 <= j < ix.len() implies inc_spec(ix, s)[j] < s[j] by {
                if j < ix.len() - 1 {
                    assert(inc_spec(ix, s)[j] == front[j]);
                    assert(front[j] < s.drop_last()[j]);
                }
            }
        }
    }
}

/// Unfolds one step of `dec_spec` when the axes after `i` all borrow and axis
/// `i` borrows too.
proof fn lemma_dec_spec_borrow(ix: Seq<usize>, s: Seq<usize>, i: int)
    requires
        valid_index(ix, s),
        0 <= i < ix.len(),
        ix[i] == 0,
        dec_spec(ix, s) == if i + 1 < ix.len() {
            dec_spec(ix.take(i + 1), s.take(i + 1)) + Seq::new(
                (ix.len() - i - 1) as nat,
                |j: int| (s[i + 1 + j] - 1) as usize,
            )
        } else {
            dec_spec(ix, s)
        },
    ensures
        dec_spec(ix, s) == if i < ix.len() {
            dec_spec(ix.take(i), s.take(i)) + Seq::new(
                (ix.len() - i) as nat,
                |j: int| (s[i + j] - 1) as usize,
            )
        } else {
            dec_spec(ix, s)
        },
{
    let n = ix.len() as int;
    if i + 1 < n {
        let t = ix.take(i + 1);
        let ts = s.take(i + 1);
        assert(t.last() == ix[i]);
        assert(ts.last() == s[i]);
        assert(t.drop_last() =~= ix.take(i));
        assert(ts.drop_last() =~= s.take(i));
        assert(dec_spec(t, ts) == dec_spec(ix.take(i), s.take(i)).push((s[i] - 1) as usize));
        assert(dec_spec(ix.take(i), s.take(i)).push((s[i] - 1) as usize) + Seq::new(
            (n - i - 1) as nat,
            |j: int| (s[i + 1 + j] - 1) as usize,
        ) =~= dec_spec(ix.take(i), s.take(i)) + Seq::new(
            (n - i) as nat,
            |j: int| (s[i + j] - 1) as usize,
        ));
    } else {
        assert(i == n - 1);
        assert(ix.drop_last() =~= ix.take(i));
        assert(s.drop_last() =~= s.take(i));
        assert(dec_spec(ix, s) == dec_spec(ix.take(i), s.take(i)).push((s[i] - 1) as usize));
        assert(dec_spec(ix.take(i), s.take(i)).push((s[i] - 1) as usize) =~= dec_spec(
            ix.take(i),
            s.take(i),
        ) + Seq::new((n - i) as nat, |j: int| (s[i + j] - 1) as usize));
    }
}

/// Unfolds `dec_spec` when the axes after `i` all borrow and axis `i` does
/// not: the decrement stops there.
proof fn lemma_dec_spec_step(ix: Seq<usize>, s: Seq<usize>, i: int, got: Seq<usize>)
    requires
        valid_index(ix, s),
        0 <= i < ix.len(),
        ix[i] > 0,
        got.len() == ix.len(),
        forall|j: int| 0 <= j < i ==> got[j] == ix[j],
        got[i] == ix[i] - 1,
        forall|j: int| i < j < ix.len() ==> got[j] == s[j] - 1,
        dec_spec(ix, s) == if i + 1 < ix.len() {
            dec_spec(ix.take(i + 1), s.take(i + 1)) + Seq::new(
                (ix.len() - i - 1) as nat,
                |j: int| (s[i + 1 + j] - 1) as usize,
            )
        } else {
            dec_spec(ix, s)
        },
    ensures
        dec_spec(ix, s) == got,
{
    let n = ix.len() as int;
    if i + 1 < n {
        let t = ix.take(i + 1);
        let ts = s.take(i + 1);
        assert(t.last() == ix[i]);
        assert(dec_spec(t, ts) == t.update(i, (ix[i] - 1) as usize));
        assert(t.update(i, (ix[i] - 1) as usize) + Seq::new(
            (n - i - 1) as nat,
            |j: int| (s[i + 1 + j] - 1) as usize,
        ) =~= got);
    } else {
        assert(i == n - 1);
        assert(dec_spec(ix, s) == ix.update(i, (ix[i] - 1) as usize));
        assert(ix.update(i, (ix[i] - 1) as usize) =~= got);
    }
}

/// When every axis borrows, the odometer wraps to the all-maximal index.
proof fn lemma_dec_spec_all_borrow(ix: Seq<usize>, s: Seq<usize>)
    requires
        valid_index(ix, s),
        ix.len() > 0,
        dec_spec(ix, s) == dec_spec(ix.take(0), s.take(0)) + Seq::new(
            ix.len() as nat,
            |j: int| (s[j] - 1) as usize,
        ),
    ensures
        dec_spec(ix, s) == Seq::new(ix.len() as nat, |j: int| (s[j] - 1) as usize),
{
    assert(ix.take(0).len() == 0);
    assert(dec_spec(ix.take(0), s.take(0)) == ix.take(0));
    assert(ix.take(0) + Seq::new(ix.len() as nat, |j: int| (s[j] - 1) as usize) =~= Seq::new(
        ix.len() as nat,
        |j: int| (s[j] - 1) as usize,
    ));
}

/// Partial dot product of a multi-index with the non-degenerate row-major
/// strides of `s`, written directly over the shape.
pub open spec fn pos_prefix(ix: Seq<usize>, s: Seq<usize>, k: int) -> int
    decreases k,
{
    if k <= 0 {
        0
    } else {
        pos_prefix(ix, s, k - 1) + ix[k - 1] * prod_from(s, k)
    }
}

/// Flat row-major position of a multi-index, as a dot product with the
/// non-degenerate strides.
pub open spec fn pos_of(ix: Seq<usize>, s: Seq<usize>) -> int {
    pos_prefix(ix, s, ix.len() as int)
}

/// Dropping the last dimension divides every suffix product by it.
pub proof fn lemma_prod_from_drop_last(s: Seq<usize>, i: int)
    requires
        s.len() > 0,
        0 <= i <= s.len() - 1,
    ensures
        prod_from(s, i) == prod_from(s.drop_last(), i) * s.last(),
    decreases s.len() - i,
{
    if i == s.len() - 1 {
        assert(prod_from(s, i + 1) == 1);
        assert(prod_from(s, i) == s[i] * prod_from(s, i + 1));
        assert(prod_from(s.drop_last(), i) == 1);
        assert(1 * s.last() == s.last()) by (nonlinear_arith);
        assert(s[i] == s.last());
    } else {
        lemma_prod_from_drop_last(s, i + 1);
        assert(s.drop_last()[i] == s[i]);
        assert(prod_from(s, i) == s[i] * (prod_from(s.drop_last(), i + 1) * s.last()));
        assert(s[i] * (prod_from(s.drop_last(), i + 1) * s.last()) == (s[i] * prod_from(
            s.drop_last(),
            i + 1,
        )) * s.last()) by (nonlinear_arith);
    }
}

/// The Horner-form position equals the dot product with the non-degenerate
/// strides.
pub proof fn lemma_pos_of_eq_enc(ix: Seq<usize>, s: Seq<usize>)
    requires
        ix.len() == s.len(),
    ensures
        pos_of(ix, s) == enc(ix, s),
    decreases ix.len(),
{
    if ix.len() > 0 {
        let n = ix.len() as int;
        lemma_pos_of_eq_enc(ix.drop_last(), s.drop_last());
        lemma_pos_prefix_drop_last(ix, s, n - 1);
        assert(prod_from(s, n) == 1);
        assert(ix[n - 1] * 1 == ix[n - 1]) by (nonlinear_arith);
    }
}

/// For prefixes that avoid the last axis, the position prefix over `s` is the
/// position prefix over the shorter shape scaled by the last dimension.
proof fn lemma_pos_prefix_drop_last(ix: Seq<usize>, s: Seq<usize>, k: int)
    requires
        ix.len() == s.len(),
        s.len() > 0,
        0 <= k <= s.len() - 1,
    ensures
        pos_prefix(ix, s, k) == pos_prefix(ix.drop_last(), s.drop_last(), k) * s.last(),
    decreases k,
{
    if k == 0 {
        assert(0 * s.last() == 0) by (nonlinear_arith);
    } else {
        lemma_pos_prefix_drop_last(ix, s, k - 1);
        lemma_prod_from_drop_last(s, k);
        assert(ix.drop_last()[k - 1] == ix[k - 1]);
        assert(ix[k - 1] * (prod_from(s.drop_last(), k) * s.last()) + pos_prefix(
            ix.drop_last(),
            s.drop_last(),
            k - 1,
        ) * s.last() == (pos_prefix(ix.drop_last(), s.drop_last(), k - 1) + ix[k - 1] * prod_from(
            s.drop_last(),
            k,
        )) * s.last()) by (nonlinear_arith);
    }
}

/// A stride vector made of row-major strides (with or without the
/// degenerate-dimension convention at each axis) gives a valid multi-index
/// the same offset as the non-degenerate strides.
pub proof fn lemma_dot_matches_pos(ix: Seq<usize>, s: Seq<usize>, st: Seq<usize>, k: int)
    requires
        valid_index(ix, s),
        st.len() == s.len(),
        forall|i: int|
            0 <= i < s.len() ==> st[i] == stride_at(s, i) || st[i] == nz_stride_at(s, i),
        0 <= k <= s.len(),
    ensures
        dot_prefix(ix, st, k) == pos_prefix(ix, s, k),
    decreases k,
{
    if k > 0 {
        lemma_dot_matches_pos(ix, s, st, k - 1);
        if st[k - 1] == stride_at(s, k - 1) && s[k - 1] == 1 {
            assert(ix[k - 1] == 0);
            assert(0 * st[k - 1] == 0) by (nonlinear_arith);
            assert(0 * prod_from(s, k) == 0) by (nonlinear_arith);
        }
    }
}

/// The all-zero index encodes to position 0.
pub proof fn lemma_enc_zero(s: Seq<usize>)
    ensures
        enc(zero_index(s.len() as int), s) == 0,
    decreases s.len(),
{
    let z = zero_index(s.len() as int);
    if s.len() > 0 {
        lemma_enc_zero(s.drop_last());
        assert(z.drop_last() =~= zero_index(s.len() - 1));
        assert(enc(z, s) == enc(z.drop_last(), s.drop_last()) * s.last() + 0);
        assert(0 * s.last() == 0) by (nonlinear_arith);
    }
}

/// A valid multi-index encodes into `[0, prod_from(s, 0))`.
pub proof fn lemma_enc_bounds(ix: Seq<usize>, s: Seq<usize>)
    requires
        valid_index(ix, s),
    ensures
        0 <= enc(ix, s) < prod_from(s, 0) || (s.len() == 0 && enc(ix, s) == 0),
        s.len() > 0 ==> 0 <= enc(ix, s) < prod_from(s, 0),
    decreases ix.len(),
{
    if ix.len() > 0 {
        let front = ix.drop_last();
        let sf = s.drop_last();
        lemma_enc_bounds(front, sf);
        lemma_prod_from_drop_last(s, 0);
        let ef = enc(front, sf);
        let pf = prod_from(sf, 0);
        if sf.len() == 0 {
            assert(ef == 0);
            assert(pf == 1);
        }
        assert(0 <= ef <= pf - 1);
        assert(ef * s.last() + ix.last() < pf * s.last()) by (nonlinear_arith)
            requires
                0 <= ef <= pf - 1,
                0 <= ix.last() < s.last(),
        ;
        assert(ef * s.last() >= 0) by (nonlinear_arith)
            requires
                ef >= 0,
                s.last() >= 0,
        ;
    }
}

/// Two valid multi-indexes with the same encoding are equal.
pub proof fn lemma_enc_injective(a: Seq<usize>, b: Seq<usize>, s: Seq<usize>)
    requires
        valid_index(a, s),
        valid_index(b, s),
        enc(a, s) == enc(b, s),
    ensures
        a == b,
    decreases s.len(),
{
    if s.len() == 0 {
        assert(a =~= b);
    } else {
        let sl = s.last() as int;
        lemma_enc_bounds(a.drop_last(), s.drop_last());
        lemma_enc_bounds(b.drop_last(), s.drop_last());
        lemma_fundamental_div_mod_converse(
            enc(a, s),
            sl,
            enc(a.drop_last(), s.drop_last()),
            a.last() as int,
        );
        lemma_fundamental_div_mod_converse(
            enc(b, s),
            sl,
            enc(b.drop_last(), s.drop_last()),
            b.last() as int,
        );
        lemma_enc_injective(a.drop_last(), b.drop_last(), s.drop_last());
        assert(a =~= a.drop_last().push(a.last()));
        assert(b =~= b.drop_last().push(b.last()));
    }
}

/// Encoding the odometer successor: one more than the old position, wrapping
/// to 0 past the final element.
pub proof fn lemma_enc_inc(ix: Seq<usize>, s: Seq<usize>)
    requires
        valid_index(ix, s),
    ensures
        enc(inc_spec(ix, s), s) == if enc(ix, s) + 1 == prod_from(s, 0) || s.len() == 0 {
            0
        } else {
            enc(ix, s) + 1
        },
    decreases ix.len(),
{
    if ix.len() > 0 {
        let n = ix.len() as int;
        let sl = s.last() as int;
        let front = ix.drop_last();
        let sf = s.drop_last();
        lemma_enc_bounds(front, sf);
        lemma_prod_from_drop_last(s, 0);
        if ix.last() + 1 < s.last() {
            let up = ix.update(n - 1, (ix.last() + 1) as usize);
            assert(up.drop_last() =~= front);
            assert(up.last() == ix.last() + 1);
            assert(enc(up, s) == enc(front, sf) * sl + ix.last() + 1);
            assert(enc(ix, s) + 1 < prod_from(s, 0)) by {
                lemma_enc_bounds(up, s);
            }
        } else {
            assert(ix.last() == s.last() - 1);
            lemma_enc_inc(front, sf);
            let fi = inc_spec(front, sf);
            assert(inc_spec(ix, s) == fi.push(0));
            assert(fi.push(0).drop_last() =~= fi);
            assert(fi.push(0).last() == 0);
            assert(enc(inc_spec(ix, s), s) == enc(fi, sf) * sl + 0);
            if enc(front, sf) + 1 == prod_from(sf, 0) || sf.len() == 0 {
                if sf.len() == 0 {
                    assert(enc(front, sf) == 0);
                    assert(prod_from(sf, 0) == 1);
                }
                assert(enc(fi, sf) == 0);
                assert(0 * sl == 0) by (nonlinear_arith);
                assert(enc(ix, s) == enc(front, sf) * sl + sl - 1);
                assert((prod_from(sf, 0) - 1) * sl + sl == prod_from(sf, 0) * sl)
                    by (nonlinear_arith);
            } else {
                assert(enc(fi, sf) == enc(front, sf) + 1);
                assert((enc(front, sf) + 1) * sl == enc(front, sf) * sl + sl) by (nonlinear_arith);
                assert(enc(ix, s) == enc(front, sf) * sl + sl - 1);
                assert(enc(ix, s) + 1 < prod_from(s, 0)) by {
                    assert((enc(front, sf) + 1) * sl <= (prod_from(sf, 0) - 1) * sl)
                        by (nonlinear_arith)
                        requires
                            enc(front, sf) + 1 <= prod_from(sf, 0) - 1,
                            sl >= 1,
                    ;
                    assert((prod_from(sf, 0) - 1) * sl == prod_from(sf, 0) * sl - sl)
                        by (nonlinear_arith);
                }
            }
        }
    }
}

/// After `p` odometer steps from all-zero the index is valid and encodes to
/// `p` modulo the element count.
pub proof fn lemma_index_of(p: int, s: Seq<usize>)
    requires
        0 <= p,
        forall|i: int| 0 <= i < s.len() ==> s[i] >= 1,
    ensures
        valid_index(index_of(p, s), s),
        enc(index_of(p, s), s) == p % prod_from(s, 0),
    decreases p,
{
    lemma_all_pos_prod_bounds(s, 0);
    let t = prod_from(s, 0);
    if p == 0 {
        lemma_enc_zero(s);
        assert(valid_index(zero_index(s.len() as int), s));
        assert(0int % t == 0) by {
            lemma_fundamental_div_mod_converse(0, t, 0, 0);
        }
    } else {
        lemma_index_of(p - 1, s);
        let prev = index_of(p - 1, s);
        lemma_inc_valid(prev, s);
        lemma_enc_inc(prev, s);
        lemma_fundamental_div_mod(p - 1, t);
        let q = (p - 1) / t;
        let r = (p - 1) % t;
        if r + 1 == t || s.len() == 0 {
            if s.len() == 0 {
                assert(t == 1);
                assert(r == 0);
            }
            assert((q + 1) * t == q * t + t) by (nonlinear_arith);
            lemma_fundamental_div_mod_converse(p, t, q + 1, 0);
        } else {
            lemma_fundamental_div_mod_converse(p, t, q, r + 1);
        }
    }
}

/// Sum over the axes of `(dim - 1) * stride`: the largest offset a stride
/// vector can produce from a valid multi-index, counted over the first `k`
/// axes.
pub open spec fn max_offset_prefix(s: Seq<usize>, st: Seq<usize>, k: int) -> int
    decreases k,
{
    if k <= 0 {
        0
    } else {
        max_offset_prefix(s, st, k - 1) + (s[k - 1] - 1) * st[k - 1]
    }
}

/// The largest offset a stride vector can produce from a valid multi-index.
pub open spec fn max_offset(s: Seq<usize>, st: Seq<usize>) -> int {
    max_offset_prefix(s, st, s.len() as int)
}

/// A multi-index that is valid wherever its stride is non-zero stays within
/// the maximal offset.
pub proof fn lemma_dot_le_max(ix: Seq<usize>, s: Seq<usize>, st: Seq<usize>, k: int)
    requires
        ix.len() == s.len(),
        st.len() == s.len(),
        forall|i: int| 0 <= i < s.len() ==> st[i] == 0 || ix[i] < s[i],
        0 <= k <= s.len(),
    ensures
        dot_prefix(ix, st, k) <= max_offset_prefix(s, st, k),
    decreases k,
{
    if k > 0 {
        lemma_dot_le_max(ix, s, st, k - 1);
        if st[k - 1] == 0 {
            assert(ix[k - 1] * 0 == 0) by (nonlinear_arith);
            assert((s[k - 1] - 1) * 0 == 0) by (nonlinear_arith);
        } else {
            assert(ix[k - 1] * st[k - 1] <= (s[k - 1] - 1) * st[k - 1]) by (nonlinear_arith)
                requires
                    ix[k - 1] <= s[k - 1] - 1,
                    st[k - 1] >= 0,
            ;
        }
    }
}

/// For row-major strides over positive dimensions the maximal offset is one
/// less than the element count: the prefix sum telescopes.
pub proof fn lemma_max_offset_value(s: Seq<usize>, st: Seq<usize>, k: int)
    requires
        st.len() == s.len(),
        forall|i: int| 0 <= i < s.len() ==> s[i] >= 1,
        forall|i: int|
            0 <= i < s.len() ==> st[i] == stride_at(s, i) || st[i] == nz_stride_at(s, i),
        0 <= k <= s.len(),
    ensures
        max_offset_prefix(s, st, k) == prod_from(s, 0) - prod_from(s, k),
    decreases k,
{
    if k > 0 {
        lemma_max_offset_value(s, st, k - 1);
        if s[k - 1] == 1 {
            assert(prod_from(s, k - 1) == 1 * prod_from(s, k));
            assert(1 * prod_from(s, k) == prod_from(s, k)) by (nonlinear_arith);
            assert((s[k - 1] - 1) * st[k - 1] == 0) by (nonlinear_arith)
                requires
                    s[k - 1] == 1,
            ;
        } else {
            assert(st[k - 1] == prod_from(s, k));
            assert((s[k - 1] - 1) * prod_from(s, k) == s[k - 1] * prod_from(s, k) - prod_from(
                s,
                k,
            )) by (nonlinear_arith);
            assert(prod_from(s, k - 1) == s[k - 1] * prod_from(s, k));
        }
    }
}

/// Inverting a position through the non-degenerate strides and re-linearizing
/// gives the position back: successive division digits reconstruct their
/// dividend.
pub proof fn lemma_rem_chain_reconstruct(digits: Seq<usize>, s: Seq<usize>, st: Seq<usize>, p: int, k: int)
    requires
        digits.len() == s.len(),
        st.len() == s.len(),
        forall|i: int| 0 <= i < s.len() ==> s[i] >= 1,
        forall|i: int| 0 <= i < s.len() ==> st[i] == nz_stride_at(s, i),
        forall|i: int| 0 <= i < s.len() ==> digits[i] == rem_chain(p, st, i) / (st[i] as int),
        0 <= p,
        0 <= k <= s.len(),
    ensures
        dot_prefix(digits, st, k) == p - rem_chain(p, st, k),
    decreases k,
{
    lemma_all_pos_prod_bounds(s, 0);
    if k > 0 {
        lemma_rem_chain_reconstruct(digits, s, st, p, k - 1);
        let r = rem_chain(p, st, k - 1);
        let d = st[k - 1] as int;
        assert(d >= 1);
        lemma_rem_chain_nonneg(p, st, k - 1);
        lemma_fundamental_div_mod(r, d);
        assert(d * (r / d) == (r / d) * d) by (nonlinear_arith);
        assert(digits[k - 1] * d == (r / d) * d) by (nonlinear_arith)
            requires
                digits[k - 1] == r / d,
        ;
        assert(rem_chain(p, st, k) == r % d);
    }
}

/// Remainder chains stay non-negative.
pub proof fn lemma_rem_chain_nonneg(p: int, st: Seq<usize>, k: int)
    requires
        0 <= p,
        forall|i: int| 0 <= i < st.len() ==> st[i] >= 1,
        0 <= k <= st.len(),
    ensures
        rem_chain(p, st, k) >= 0,
    decreases k,
{
    if k > 0 {
        lemma_rem_chain_nonneg(p, st, k - 1);
    }
}

/// The round trip law: converting a position to a multi-index against the
/// non-degenerate row-major strides and linearizing it again restores the
/// position.
pub proof fn lemma_pos_index_round_trip(digits: Seq<usize>, s: Seq<usize>, st: Seq<usize>, p: int)
    requires
        digits.len() == s.len(),
        st.len() == s.len(),
        forall|i: int| 0 <= i < s.len() ==> s[i] >= 1,
        forall|i: int| 0 <= i < s.len() ==> st[i] == nz_stride_at(s, i),
        forall|i: int| 0 <= i < s.len() ==> digits[i] == rem_chain(p, st, i) / (st[i] as int),
        0 <= p < prod_from(s, 0),
    ensures
        dot(digits, st) == p,
{
    lemma_rem_chain_reconstruct(digits, s, st, p, s.len() as int);
    lemma_rem_chain_unit(digits, s, st, p);
}

/// The remainder chain bottoms out at zero once every stride has been
/// divided out: the last stride is 1, and the remainder before it is below
/// the suffix product.
proof fn lemma_rem_chain_unit(digits: Seq<usize>, s: Seq<usize>, st: Seq<usize>, p: int)
    requires
        digits.len() == s.len(),
        st.len() == s.len(),
        forall|i: int| 0 <= i < s.len() ==> s[i] >= 1,
        forall|i: int| 0 <= i < s.len() ==> st[i] == nz_stride_at(s, i),
        0 <= p < prod_from(s, 0),
    ensures
        rem_chain(p, st, s.len() as int) == 0,
{
    let n = s.len() as int;
    if n == 0 {
        assert(prod_from(s, 0) == 1);
    } else {
        lemma_rem_chain_bound(s, st, p, n);
        let r = rem_chain(p, st, n);
        assert(0 <= r < prod_from(s, n));
    }
}

/// Each link of the remainder chain is bounded by the matching suffix
/// product.
pub proof fn lemma_rem_chain_bound(s: Seq<usize>, st: Seq<usize>, p: int, k: int)
    requires
        st.len() == s.len(),
        forall|i: int| 0 <= i < s.len() ==> s[i] >= 1,
        forall|i: int| 0 <= i < s.len() ==> st[i] == nz_stride_at(s, i),
        0 <= p < prod_from(s, 0),
        0 <= k <= s.len(),
    ensures
        0 <= rem_chain(p, st, k) < prod_from(s, k),
    decreases k,
{
    lemma_all_pos_prod_bounds(s, 0);
    if k == 0 {
    } else {
        lemma_rem_chain_bound(s, st, p, k - 1);
        let r = rem_chain(p, st, k - 1);
        let d = st[k - 1] as int;
        assert(d == prod_from(s, k));
        assert(d >= 1);
        vstd::arithmetic::div_mod::lemma_mod_bound(r, d);
    }
}

/// Odometer completeness: starting from all-zero, `prod_from(s, 0)` steps
/// visit every valid multi-index exactly once and return to all-zero.
pub proof fn lemma_odometer_completeness(s: Seq<usize>)
    requires
        forall|i: int| 0 <= i < s.len() ==> s[i] >= 1,
    ensures
        index_of(prod_from(s, 0), s) == zero_index(s.len() as int),
        forall|p: int, q: int|
            0 <= p < q < prod_from(s, 0) ==> index_of(p, s) != index_of(q, s),
        forall|ix: Seq<usize>|
            valid_index(ix, s) ==> exists|p: int|
                0 <= p < prod_from(s, 0) && index_of(p, s) == ix,
{
    lemma_all_pos_prod_bounds(s, 0);
    let t = prod_from(s, 0);
    lemma_index_of(t, s);
    assert(t % t == 0) by {
        lemma_fundamental_div_mod_converse(t, t, 1, 0);
        assert(1 * t == t) by (nonlinear_arith);
    }
    lemma_enc_zero(s);
    lemma_enc_injective(index_of(t, s), zero_index(s.len() as int), s);
    assert(valid_index(zero_index(s.len() as int), s));
    assert forall|p: int, q: int| 0 <= p < q < t implies index_of(p, s) != index_of(q, s) by {
        lemma_index_of(p, s);
        lemma_index_of(q, s);
        lemma_small_mod(p, t);
        lemma_small_mod(q, t);
    }
    assert forall|ix: Seq<usize>| valid_index(ix, s) implies exists|p: int|
        0 <= p < t && index_of(p, s) == ix by {
        lemma_enc_bounds(ix, s);
        let p = enc(ix, s);
        if s.len() == 0 {
            assert(index_of(0, s) =~= ix);
            assert(0 <= 0 < t && index_of(0, s) == ix);
        } else {
            lemma_index_of(p, s);
            lemma_small_mod(p, t);
            lemma_enc_injective(index_of(p, s), ix, s);
            assert(0 <= p < t && index_of(p, s) == ix);
        }
    }
}

/// A range product that reaches the end of the shape is a suffix product.
pub proof fn lemma_prod_range_suffix(s: Seq<usize>, k: int)
    requires
        0 <= k <= s.len(),
    ensures
        prod_range(s, k, s.len() as int) == prod_from(s, k),
    decreases s.len() - k,
{
    if k < s.len() {
        lemma_prod_range_suffix(s, k + 1);
    }
}

/// Range products over adjacent ranges multiply.
pub proof fn lemma_prod_range_concat(s: Seq<usize>, i: int, m: int, k: int)
    requires
        0 <= i <= m <= k <= s.len(),
    ensures
        prod_range(s, i, k) == prod_range(s, i, m) * prod_range(s, m, k),
    decreases m - i,
{
    if i == m {
        assert(prod_range(s, i, m) == 1);
        assert(1 * prod_range(s, m, k) == prod_range(s, m, k)) by (nonlinear_arith);
    } else {
        lemma_prod_range_concat(s, i + 1, m, k);
        assert(prod_range(s, i, k) == s[i] * (prod_range(s, i + 1, m) * prod_range(s, m, k)));
        assert(s[i] * (prod_range(s, i + 1, m) * prod_range(s, m, k)) == (s[i] * prod_range(
            s,
            i + 1,
            m,
        )) * prod_range(s, m, k)) by (nonlinear_arith);
    }
}

/// Suffix products of a prefix of a shape are range products of the shape.
pub proof fn lemma_prod_from_take(s: Seq<usize>, k: int, i: int)
    requires
        0 <= i <= k <= s.len(),
    ensures
        prod_from(s.take(k), i) == prod_range(s, i, k),
    decreases k - i,
{
    if i < k {
        lemma_prod_from_take(s, k, i + 1);
        assert(s.take(k)[i] == s[i]);
    }
}

/// A quotient is bounded by the cofactor: `a < b * c` gives `a / c < b`.
pub proof fn lemma_div_bound(a: int, b: int, c: int)
    requires
        0 <= a,
        1 <= c,
        a < b * c,
    ensures
        a / c < b,
{
    lemma_fundamental_div_mod(a, c);
    assert((a / c) * c <= a) by {
        assert(c * (a / c) == (a / c) * c) by (nonlinear_arith);
        assert(a == (a / c) * c + a % c);
        assert(a % c >= 0);
    }
    assert(a / c < b) by (nonlinear_arith)
        requires
            (a / c) * c <= a,
            a < b * c,
            c >= 1,
    ;
}

/// Product of the dimensions when it fits in a machine word, `None` when it
/// does not; 0 for a rank-0 shape.
pub fn try_get_size(shape: &Vec<usize>) -> (r: Option<usize>)
    ensures
        r matches Some(sz) ==> sz == size_spec(shape@) && size_spec(shape@) <= usize::MAX,
        r is None ==> size_spec(shape@) > usize::MAX,
{
    if shape.len() == 0 {
        return Some(0);
    }
    let n: usize = shape.len();
    let mut i: usize = 0;
    while i < n
        invariant
            n == shape@.len(),
            0 <= i <= n,
            forall|j: int| 0 <= j < i ==> shape@[j] >= 1,
        decreases n - i,
    {
        if shape[i] == 0 {
            proof {
                lemma_prod_from_zero_factor(shape@, 0, i as int);
            }
            return Some(0);
        }
        i += 1;
    }
    let mut size: usize = 1;
    let mut k: usize = 0;
    proof {
        lemma_all_pos_prod_bounds(shape@, 0);
    }
    while k < n
        invariant
            n == shape@.len(),
            0 <= k <= n,
            forall|j: int| 0 <= j < n ==> shape@[j] >= 1,
            size == prod_to(shape@, k as int),
        decreases n - k,
    {
        match size.checked_mul(shape[k]) {
            Some(v) => {
                size = v;
            },
            None => {
                proof {
                    lemma_prod_split(shape@, k as int + 1);
                    lemma_all_pos_prod_bounds(shape@, k as int + 1);
                    assert(prod_to(shape@, k + 1) * 1 <= prod_to(shape@, k + 1) * prod_from(
                        shape@,
                        k + 1,
                    )) by (nonlinear_arith)
                        requires
                            prod_to(shape@, k + 1) >= 0,
                            prod_from(shape@, k + 1) >= 1,
                    ;
                }
                return None;
            },
        }
        k += 1;
    }
    proof {
        lemma_prod_split(shape@, n as int);
        assert(k == n);
        assert(prod_from(shape@, n as int) == 1);
        assert(prod_to(shape@, n as int) * 1 == prod_from(shape@, 0));
        assert(prod_to(shape@, n as int) * 1 == prod_to(shape@, n as int)) by (nonlinear_arith);
    }
    return Some(size);
}

/// Position encoding distributes over concatenation: the front segment
/// scales by the back segment's full product.
pub proof fn lemma_enc_concat(x: Seq<usize>, y: Seq<usize>, sx: Seq<usize>, sy: Seq<usize>)
    requires
        x.len() == sx.len(),
        y.len() == sy.len(),
    ensures
        enc(x + y, sx + sy) == enc(x, sx) * prod_from(sy, 0) + enc(y, sy),
    decreases y.len(),
{
    if y.len() == 0 {
        assert(x + y =~= x);
        assert(sx + sy =~= sx);
        assert(prod_from(sy, 0) == 1);
        assert(enc(x, sx) * 1 == enc(x, sx)) by (nonlinear_arith);
    } else {
        lemma_enc_concat(x, y.drop_last(), sx, sy.drop_last());
        assert((x + y).drop_last() =~= x + y.drop_last());
        assert((sx + sy).drop_last() =~= sx + sy.drop_last());
        assert((x + y).last() == y.last());
        assert((sx + sy).last() == sy.last());
        lemma_prod_from_drop_last(sy, 0);
        let ef = enc(x, sx);
        let pf = prod_from(sy.drop_last(), 0);
        let eg = enc(y.drop_last(), sy.drop_last());
        let sl = sy.last() as int;
        assert(enc(x + y, sx + sy) == (ef * pf + eg) * sl + y.last());
        assert((ef * pf + eg) * sl == ef * (pf * sl) + eg * sl) by (nonlinear_arith);
        assert(enc(y, sy) == eg * sl + y.last());
    }
}

/// Suffix products of a subrange are range products of the whole shape.
pub proof fn lemma_prod_from_subrange(s: Seq<usize>, a: int, b: int, i: int)
    requires
        0 <= a <= b <= s.len(),
        0 <= i <= b - a,
    ensures
        prod_from(s.subrange(a, b), i) == prod_range(s, a + i, b),
    decreases b - a - i,
{
    if i < b - a {
        lemma_prod_from_subrange(s, a, b, i + 1);
        assert(s.subrange(a, b)[i] == s[a + i]);
    }
}

/// A value already below the modulus is its own remainder.
pub proof fn lemma_small_mod(x: int, m: int)
    requires
        0 <= x < m,
    ensures
        x % m == x,
{
    lemma_fundamental_div_mod_converse(x, m, 0, x);
}

/// The odometer predecessor of a valid multi-index is valid.
pub proof fn lemma_dec_valid(ix: Seq<usize>, s: Seq<usize>)
    requires
        valid_index(ix, s),
    ensures
        valid_index(dec_spec(ix, s), s),
    decreases ix.len(),
{
    if ix.len() > 0 {
        if ix.last() == 0 {
            lemma_dec_valid(ix.drop_last(), s.drop_last());
            let front = dec_spec(ix.drop_last(), s.drop_last());
            assert forall|j: int| 0 <= j < ix.len() implies dec_spec(ix, s)[j] < s[j] by {
                if j < ix.len() - 1 {
                    assert(dec_spec(ix, s)[j] == front[j]);
                    assert(front[j] < s.drop_last()[j]);
                }
            }
        }
    }
}

} // verus!
