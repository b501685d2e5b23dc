//! Broadcasting elementwise binary operations.
//!
//! The result shape takes the larger dimension of each axis pair; operands
//! are read through their own strides, so a size-1 axis with stride 0 is
//! re-read for every position along that axis.  Axis pairs that differ with
//! neither side 1 are rejected up front with `ShapeMismatch`.

use crate::element::pow_s;
use crate::element::Element;
use crate::errors::TensorError;
use crate::shape::compute_strides;
use crate::shape::dot;
use crate::shape::fits_usize;
use crate::shape::get_size;
use crate::shape::increment_index;
use crate::shape::index_of;
use crate::shape::lemma_dot_le_max;
use crate::shape::lemma_index_of;
use crate::shape::max_offset;
use crate::shape::size_spec;
use crate::shape::valid_index;
use crate::shape::zero_index;
use crate::tensor::lemma_canonical_shape;
use crate::tensor::Tensor;
use vstd::prelude::*;

verus! {

/// An elementwise binary operation, with its scalar coefficients.
#[derive(Debug, Clone, Copy)]
pub enum BinOp<T> {
    /// `x * alpha + y * beta`
    AddScaled(T, T),
    /// `x * alpha - y * beta`
    SubScaled(T, T),
    /// `x * alpha * y`
    MulScaled(T),
    /// `x / y * alpha`
    DivScaled(T),
    /// `x` to the power `y`, the exponent read as a `u32` (0 when it is not
    /// representable)
    PowElem,
    /// the gradient mask of a clip: `y` where `min <= x <= max`, else zero
    ClipMask(T, T),
    /// the gradient mask of a lower clip: `y` where `min <= x`, else zero
    ClipMinMask(T),
    /// the gradient mask of an upper clip: `y` where `x <= max`, else zero
    ClipMaxMask(T),
}

/// The value an elementwise binary operation produces from one element pair.
pub open spec fn apply_bin<T: Element>(op: BinOp<T>, x: T, y: T) -> T {
    match op {
        BinOp::AddScaled(alpha, beta) => x.mul_s(alpha).add_s(y.mul_s(beta)),
        BinOp::SubScaled(alpha, beta) => x.mul_s(alpha).sub_s(y.mul_s(beta)),
        BinOp::MulScaled(alpha) => x.mul_s(alpha).mul_s(y),
        BinOp::DivScaled(alpha) => x.div_s(y).mul_s(alpha),
        BinOp::PowElem => pow_s(
            x,
            (match y.to_u32_s() {
                Some(e) => e,
                None => 0u32,
            }) as nat,
        ),
        BinOp::ClipMask(lo, hi) => if !lo.le_s(x) || !x.le_s(hi) {
            T::zero_s()
        } else {
            y
        },
        BinOp::ClipMinMask(lo) => if !lo.le_s(x) {
            T::zero_s()
        } else {
            y
        },
        BinOp::ClipMaxMask(hi) => if !x.le_s(hi) {
            T::zero_s()
        } else {
            y
        },
    }
}

/// Executable twin of `apply_bin`.
pub fn apply_bin_e<T: Element>(op: BinOp<T>, x: T, y: T) -> (r: T)
    ensures
        r == apply_bin(op, x, y),
{
    match op {
        BinOp::AddScaled(alpha, beta) => x.mul_e(alpha).add_e(y.mul_e(beta)),
        BinOp::SubScaled(alpha, beta) => x.mul_e(alpha).sub_e(y.mul_e(beta)),
        BinOp::MulScaled(alpha) => x.mul_e(alpha).mul_e(y),
        BinOp::DivScaled(alpha) => x.div_e(y).mul_e(alpha),
        BinOp::PowElem => {
            let e: u32 = match y.to_u32_e() {
                Some(e) => e,
                None => 0u32,
            };
            crate::element::pow_e(x, e)
        },
        BinOp::ClipMask(lo, hi) => {
            if !lo.le_e(x) || !x.le_e(hi) {
                T::zero_e()
            } else {
                y
            }
        },
        BinOp::ClipMinMask(lo) => {
            if !lo.le_e(x) {
                T::zero_e()
            } else {
                y
            }
        },
        BinOp::ClipMaxMask(hi) => {
            if !x.le_e(hi) {
                T::zero_e()
            } else {
                y
            }
        },
    }
}

/// Two equal-rank shapes broadcast together when every axis pair agrees or
/// has a 1 on one side; a 1 cannot pair with a 0, since the size-0 operand
/// has no element to repeat.
pub open spec fn bc_compatible(a: Seq<usize>, b: Seq<usize>) -> bool {
    &&& a.len() == b.len()
    &&& forall|i: int|
        0 <= i < a.len() ==> (a[i] == b[i] || (a[i] == 1 && b[i] != 0) || (b[i] == 1 && a[i]
            != 0))
}

/// The broadcast result shape: the larger dimension of each axis pair.
pub open spec fn bc_shape(a: Seq<usize>, b: Seq<usize>) -> Seq<usize> {
    Seq::new(a.len(), |i: int| if a[i] < b[i] { b[i] } else { a[i] })
}

/// What a broadcasting binary operation returns: `ShapeMismatch` exactly on
/// incompatible shapes, otherwise a fresh contiguous tensor of the broadcast
/// shape whose element at flat position `p` combines the operand elements
/// found by pushing the `p`-th odometer index through each operand's own
/// strides.
pub open spec fn bin_op_ensures<T: Element>(
    a: Tensor<T>,
    b: Tensor<T>,
    op: BinOp<T>,
    r: Result<Tensor<T>, TensorError>,
) -> bool {
    &&& (r is Err <==> !bc_compatible(a.sh(), b.sh()))
    &&& (r is Err ==> r == Err::<Tensor<T>, TensorError>(TensorError::ShapeMismatch))
    &&& (r matches Ok(t) ==> {
        &&& t.canonical()
        &&& t.sh() == bc_shape(a.sh(), b.sh())
        &&& t.size == size_spec(bc_shape(a.sh(), b.sh()))
        &&& forall|p: int|
            0 <= p < t.size ==> t.vals()[p] == apply_bin(
                op,
                a.vals()[dot(#[trigger] index_of(p, bc_shape(a.sh(), b.sh())), a.st())],
                b.vals()[dot(index_of(p, bc_shape(a.sh(), b.sh())), b.st())],
            )
    })
}

impl<DType: Element> Tensor<DType> {
    /// Elementwise combination of two tensors under NumPy-style
    /// broadcasting.  Ranks must already match; each axis pair must agree or
    /// have a 1 on one side, and incompatible pairs are rejected with
    /// `ShapeMismatch` instead of silently corrupting the output.
    pub fn binary_op(&self, other: &Tensor<DType>, op: BinOp<DType>) -> (r: Result<
        Tensor<DType>,
        TensorError,
    >)
        requires
            self.canonical(),
            other.canonical(),
            fits_usize(bc_shape(self.sh(), other.sh())),
        ensures
            bin_op_ensures(*self, *other, op, r),
    {
        let rank: usize = self.rank();
        if rank != other.rank() {
            return Err(TensorError::ShapeMismatch);
        }
        let mut result_shape: Vec<usize> = Vec::new();
        let mut i: usize = 0;
        while i < rank
            invariant
                rank == self.sh().len(),
                rank == other.sh().len(),
                0 <= i <= rank,
                result_shape@.len() == i,
                forall|j: int| 0 <= j < i ==> result_shape@[j] == bc_shape(self.sh(), other.sh())[j],
                forall|j: int|
                    0 <= j < i ==> (self.sh()[j] == other.sh()[j] || (self.sh()[j] == 1
                        && other.sh()[j] != 0) || (other.sh()[j] == 1 && self.sh()[j] != 0)),
            decreases rank - i,
        {
            let a: usize = self.get_dim_size(i);
            let b: usize = other.get_dim_size(i);
            if !(a == b || (a == 1 && b != 0) || (b == 1 && a != 0)) {
                return Err(TensorError::ShapeMismatch);
            }
            if a < b {
                result_shape.push(b);
            } else {
                result_shape.push(a);
            }
            i += 1;
        }
        proof {
            assert(result_shape@ =~= bc_shape(self.sh(), other.sh()));
        }
        let ghost bcs = bc_shape(self.sh(), other.sh());
        let result_size: usize = get_size(&result_shape);
        let result_strides: Vec<usize> = compute_strides(&result_shape);
        let mut values: Vec<DType> = Vec::new();
        let mut ix: Vec<usize> = Vec::new();
        let mut k: usize = 0;
        while k < rank
            invariant
                0 <= k <= rank,
                ix@.len() == k,
                forall|j: int| 0 <= j < k ==> ix@[j] == 0usize,
            decreases rank - k,
        {
            ix.push(0);
            k += 1;
        }
        proof {
            assert(ix@ =~= zero_index(rank as int));
        }
        let mut p: usize = 0;
        while p < result_size
            invariant
                self.canonical(),
                other.canonical(),
                rank == self.sh().len(),
                rank == other.sh().len(),
                bcs == bc_shape(self.sh(), other.sh()),
                bc_compatible(self.sh(), other.sh()),
                result_shape@ == bcs,
                result_size == size_spec(bcs),
                0 <= p <= result_size,
                values@.len() == p,
                ix@ == index_of(p as int, bcs),
                forall|q: int|
                    0 <= q < p ==> values@[q] == apply_bin(
                        op,
                        self.vals()[dot(#[trigger] index_of(q, bcs), self.st())],
                        other.vals()[dot(index_of(q, bcs), other.st())],
                    ),
            decreases result_size - p,
        {
            proof {
                assert(result_size > 0);
                assert(bcs.len() > 0) by {
                    if bcs.len() == 0 {
                        assert(size_spec(bcs) == 0);
                    }
                }
                assert forall|j: int| 0 <= j < rank implies bcs[j] >= 1 by {
                    if bcs[j] == 0 {
                        crate::shape::lemma_prod_from_zero_factor(bcs, 0, j);
                    }
                }
                lemma_index_of(p as int, bcs);
                lemma_read_in_bounds(*self, bcs, ix@);
                lemma_read_in_bounds(*other, bcs, ix@);
            }
            let va = self.get(&ix);
            let vb = other.get(&ix);
            values.push(apply_bin_e(op, va, vb));
            increment_index(&mut ix, &result_shape);
            p += 1;
        }
        proof {
            lemma_canonical_shape(bcs);
        }
        let t = Tensor::new(result_shape, result_strides, result_size, values);
        return Ok(t);
    }

    /// Broadcasting addition with scalar coefficients:
    /// `alpha * self + beta * other`, elementwise.
    pub fn addition(&self, other: &Tensor<DType>, alpha: DType, beta: DType) -> (r: Result<
        Tensor<DType>,
        TensorError,
    >)
        requires
            self.canonical(),
            other.canonical(),
            fits_usize(bc_shape(self.sh(), other.sh())),
        ensures
            bin_op_ensures(*self, *other, BinOp::AddScaled(alpha, beta), r),
    {
        return self.binary_op(other, BinOp::AddScaled(alpha, beta));
    }

    /// Broadcasting subtraction with scalar coefficients:
    /// `alpha * self - beta * other`, elementwise.
    pub fn subtraction(&self, other: &Tensor<DType>, alpha: DType, beta: DType) -> (r: Result<
        Tensor<DType>,
        TensorError,
    >)
        requires
            self.canonical(),
            other.canonical(),
            fits_usize(bc_shape(self.sh(), other.sh())),
        ensures
            bin_op_ensures(*self, *other, BinOp::SubScaled(alpha, beta), r),
    {
        return self.binary_op(other, BinOp::SubScaled(alpha, beta));
    }

    /// Broadcasting scaled product: `alpha * self * other`, elementwise.
    pub fn multiply(&self, other: &Tensor<DType>, alpha: DType) -> (r: Result<
        Tensor<DType>,
        TensorError,
    >)
        requires
            self.canonical(),
            other.canonical(),
            fits_usize(bc_shape(self.sh(), other.sh())),
        ensures
            bin_op_ensures(*self, *other, BinOp::MulScaled(alpha), r),
    {
        return self.binary_op(other, BinOp::MulScaled(alpha));
    }

    /// Broadcasting scaled quotient: `alpha * (self / other)`, elementwise;
    /// a zero divisor yields zero.
    pub fn divide(&self, other: &Tensor<DType>, alpha: DType) -> (r: Result<
        Tensor<DType>,
        TensorError,
    >)
        requires
            self.canonical(),
            other.canonical(),
            fits_usize(bc_shape(self.sh(), other.sh())),
        ensures
            bin_op_ensures(*self, *other, BinOp::DivScaled(alpha), r),
    {
        return self.binary_op(other, BinOp::DivScaled(alpha));
    }

    /// Broadcasting integer power: `self` raised elementwise to `other`,
    /// the exponent read as a `u32` and taken as 0 when not representable.
    pub fn power_int(&self, other: &Tensor<DType>) -> (r: Result<Tensor<DType>, TensorError>)
        requires
            self.canonical(),
            other.canonical(),
            fits_usize(bc_shape(self.sh(), other.sh())),
        ensures
            bin_op_ensures(*self, *other, BinOp::PowElem, r),
    {
        return self.binary_op(other, BinOp::PowElem);
    }

    /// Gradient of a two-sided clip: passes `grad` through where the value
    /// lies inside `[min, max]`, zero outside.
    pub fn clip_backward(&self, min: DType, max: DType, grad: &Tensor<DType>) -> (r: Result<
        Tensor<DType>,
        TensorError,
    >)
        requires
            self.canonical(),
            grad.canonical(),
            fits_usize(bc_shape(self.sh(), grad.sh())),
        ensures
            bin_op_ensures(*self, *grad, BinOp::ClipMask(min, max), r),
    {
        return self.binary_op(grad, BinOp::ClipMask(min, max));
    }

    /// Gradient of a lower clip: passes `grad` through where the value is at
    /// least `min`, zero below.
    pub fn clip_min_backward(&self, min: DType, grad: &Tensor<DType>) -> (r: Result<
        Tensor<DType>,
        TensorError,
    >)
        requires
            self.canonical(),
            grad.canonical(),
            fits_usize(bc_shape(self.sh(), grad.sh())),
        ensures
            bin_op_ensures(*self, *grad, BinOp::ClipMinMask(min), r),
    {
        return self.binary_op(grad, BinOp::ClipMinMask(min));
    }

    /// Gradient of an upper clip: passes `grad` through where the value is
    /// at most `max`, zero above.
    pub fn clip_max_backward(&self, max: DType, grad: &Tensor<DType>) -> (r: Result<
        Tensor<DType>,
        TensorError,
    >)
        requires
            self.canonical(),
            grad.canonical(),
            fits_usize(bc_shape(self.sh(), grad.sh())),
        ensures
            bin_op_ensures(*self, *grad, BinOp::ClipMaxMask(max), r),
    {
        return self.binary_op(grad, BinOp::ClipMaxMask(max));
    }
}

/// Broadcast correctness: adding a one-row tensor to a one-column tensor
/// fills the full grid, entry `(i, j)` holding the sum of row element `j`
/// and column element `i`.
pub proof fn lemma_broadcast_grid<T: Element>(
    a: Tensor<T>,
    b: Tensor<T>,
    t: Tensor<T>,
    m: usize,
    n: usize,
)
    requires
        a.canonical(),
        b.canonical(),
        a.sh() == seq![1usize, n],
        b.sh() == seq![m, 1usize],
        n >= 1,
        m >= 1,
        bin_op_ensures(
            a,
            b,
            BinOp::AddScaled(T::one_s(), T::one_s()),
            Ok(t),
        ),
    ensures
        t.sh() == seq![m, n],
        t.vals().len() == m * n,
        forall|i: int, j: int|
            0 <= i < m && 0 <= j < n ==> #[trigger] t.vals()[i * n + j] == a.vals()[j].mul_s(
                T::one_s(),
            ).add_s(b.vals()[i].mul_s(T::one_s())),
{
    let bcs = bc_shape(a.sh(), b.sh());
    assert(bcs =~= seq![m, n]);
    assert(crate::shape::prod_from(bcs, 2) == 1);
    assert(crate::shape::prod_from(bcs, 1) == bcs[1] * crate::shape::prod_from(bcs, 2));
    assert(crate::shape::prod_from(bcs, 0) == bcs[0] * crate::shape::prod_from(bcs, 1));
    assert((n as int) * 1 == n as int) by (nonlinear_arith);
    assert(size_spec(bcs) == m * (n as int));
    assert(t.size == m * (n as int));
    assert(t.vals().len() == m * n);
    assert forall|i: int, j: int| 0 <= i < m && 0 <= j < n implies #[trigger] t.vals()[i * n + j]
        == a.vals()[j].mul_s(T::one_s()).add_s(b.vals()[i].mul_s(T::one_s())) by {
        assert(0 <= i * n + j < m * (n as int)) by (nonlinear_arith)
            requires
                0 <= i < m,
                0 <= j < n,
        ;
        let p = i * n + j;
        lemma_index_of(p, bcs);
        crate::shape::lemma_small_mod(p, size_spec(bcs));
        let ix = index_of(p, bcs);
        assert(crate::shape::enc(ix, bcs) == p);
        let ghost gi = ix[0] as int;
        let ghost gj = ix[1] as int;
        assert(ix.drop_last() =~= seq![ix[0]]);
        assert(bcs.drop_last() =~= seq![m as usize]);
        assert(crate::shape::enc(ix, bcs) == crate::shape::enc(ix.drop_last(), bcs.drop_last())
            * (bcs.last() as int) + ix.last());
        assert(seq![ix[0]].drop_last().len() == 0);
        assert(crate::shape::enc(seq![ix[0]].drop_last(), seq![m as usize].drop_last()) == 0);
        assert(crate::shape::enc(seq![ix[0]], seq![m as usize]) == crate::shape::enc(
            seq![ix[0]].drop_last(),
            seq![m as usize].drop_last(),
        ) * (seq![m as usize].last() as int) + seq![ix[0]].last());
        assert(0 * (m as int) == 0) by (nonlinear_arith);
        assert(crate::shape::enc(seq![ix[0]], seq![m as usize]) == gi);
        assert(gi * (n as int) + gj == p);
        assert(gi == i && gj == j) by {
            vstd::arithmetic::div_mod::lemma_fundamental_div_mod_converse(p, n as int, i, j);
            vstd::arithmetic::div_mod::lemma_fundamental_div_mod_converse(p, n as int, gi, gj);
        }
        assert(dot(ix, a.st()) == j) by {
            assert(a.st()[0] == crate::shape::stride_at(a.sh(), 0));
            assert(a.st()[1] == crate::shape::stride_at(a.sh(), 1));
            assert(crate::shape::stride_at(a.sh(), 0) == 0);
            assert(crate::shape::dot_prefix(ix, a.st(), 0) == 0);
            assert(crate::shape::dot_prefix(ix, a.st(), 1) == crate::shape::dot_prefix(
                ix,
                a.st(),
                0,
            ) + gi * (a.st()[0] as int));
            assert(crate::shape::dot_prefix(ix, a.st(), 2) == crate::shape::dot_prefix(
                ix,
                a.st(),
                1,
            ) + gj * (a.st()[1] as int));
            assert(gi * 0 == 0) by (nonlinear_arith);
            if n == 1 {
                assert(crate::shape::stride_at(a.sh(), 1) == 0);
                assert(gj == 0);
                assert(gj * 0 == 0) by (nonlinear_arith);
            } else {
                assert(crate::shape::stride_at(a.sh(), 1) == crate::shape::prod_from(a.sh(), 2));
                assert(crate::shape::prod_from(a.sh(), 2) == 1);
                assert(gj * 1 == gj) by (nonlinear_arith);
            }
        }
        assert(dot(ix, b.st()) == i) by {
            assert(b.st()[0] == crate::shape::stride_at(b.sh(), 0));
            assert(b.st()[1] == crate::shape::stride_at(b.sh(), 1));
            assert(crate::shape::stride_at(b.sh(), 1) == 0);
            assert(crate::shape::dot_prefix(ix, b.st(), 0) == 0);
            assert(crate::shape::dot_prefix(ix, b.st(), 1) == crate::shape::dot_prefix(
                ix,
                b.st(),
                0,
            ) + gi * (b.st()[0] as int));
            assert(crate::shape::dot_prefix(ix, b.st(), 2) == crate::shape::dot_prefix(
                ix,
                b.st(),
                1,
            ) + gj * (b.st()[1] as int));
            assert(gj * 0 == 0) by (nonlinear_arith);
            if m == 1 {
                assert(crate::shape::stride_at(b.sh(), 0) == 0);
                assert(gi == 0);
                assert(gi * 0 == 0) by (nonlinear_arith);
            } else {
                assert(crate::shape::stride_at(b.sh(), 0) == crate::shape::prod_from(b.sh(), 1));
                assert(crate::shape::prod_from(b.sh(), 2) == 1);
                assert(crate::shape::prod_from(b.sh(), 1) == b.sh()[1] * crate::shape::prod_from(b.sh(), 2));
                assert((1 as int) * 1 == 1) by (nonlinear_arith);
                assert(gi * 1 == gi) by (nonlinear_arith);
            }
        }
    }
}

/// Reading a broadcast operand through its own strides at a valid index of
/// the broadcast shape stays inside its buffer.
pub proof fn lemma_read_in_bounds<T>(t: Tensor<T>, bcs: Seq<usize>, ix: Seq<usize>)
    requires
        t.canonical(),
        bcs.len() == t.sh().len(),
        bcs.len() > 0,
        valid_index(ix, bcs),
        forall|j: int| 0 <= j < bcs.len() ==> (t.sh()[j] == bcs[j] || t.sh()[j] == 1),
        forall|j: int| 0 <= j < bcs.len() ==> bcs[j] >= 1,
    ensures
        0 <= dot(ix, t.st()) < t.vals().len(),
{
    assert forall|j: int| 0 <= j < t.sh().len() implies t.st()[j] == 0 || ix[j] < t.sh()[j] by {
        if t.sh()[j] == 1 {
            assert(t.st()[j] == crate::shape::stride_at(t.sh(), j));
        }
    }
    lemma_dot_le_max(ix, t.sh(), t.st(), t.sh().len() as int);
    crate::shape::lemma_dot_prefix_bounds(ix, t.st(), ix.len() as int);
    assert forall|j: int| 0 <= j < t.sh().len() implies t.sh()[j] >= 1 by {
        assert(t.sh()[j] == bcs[j] || t.sh()[j] == 1);
        assert(bcs[j] >= 1);
    }
    assert(t.size > 0) by {
        crate::shape::lemma_all_pos_prod_bounds(t.sh(), 0);
    }
}

} // verus!
