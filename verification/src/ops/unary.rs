//! Elementwise unary operations.
//!
//! Each one applies a pointwise function to every stored element; the output
//! shares the input's shape and strides.

use crate::element::pow_s;
use crate::element::Element;
use crate::element::SignedElement;
use crate::tensor::Tensor;
use vstd::prelude::*;

verus! {

/// An elementwise unary operation, with its scalar parameters.
#[derive(Debug, Clone, Copy)]
pub enum UnOp<T> {
    /// `x * factor + add`
    MulAdd(T, T),
    /// clamp into `[min, max]`
    Clip(T, T),
    /// clamp from below to `min`
    ClipMin(T),
    /// clamp from above to `max`
    ClipMax(T),
    /// `x` to the given power, times `factor`
    PowScaled(u32, T),
}

/// The value an elementwise unary operation produces from one element.
pub open spec fn apply_un<T: Element>(op: UnOp<T>, x: T) -> T {
    match op {
        UnOp::MulAdd(factor, add) => x.mul_s(factor).add_s(add),
        UnOp::Clip(lo, hi) => if !x.le_s(hi) {
            hi
        } else if !lo.le_s(x) {
            lo
        } else {
            x
        },
        UnOp::ClipMin(lo) => if !lo.le_s(x) {
            lo
        } else {
            x
        },
        UnOp::ClipMax(hi) => if !x.le_s(hi) {
            hi
        } else {
            x
        },
        UnOp::PowScaled(e, factor) => pow_s(x, e as nat).mul_s(factor),
    }
}

/// Executable twin of `apply_un`.
pub fn apply_un_e<T: Element>(op: UnOp<T>, x: T) -> (r: T)
    ensures
        r == apply_un(op, x),
{
    match op {
        UnOp::MulAdd(factor, add) => x.mul_e(factor).add_e(add),
        UnOp::Clip(lo, hi) => {
            if !x.le_e(hi) {
                hi
            } else if !lo.le_e(x) {
                lo
            } else {
                x
            }
        },
        UnOp::ClipMin(lo) => {
            if !lo.le_e(x) {
                lo
            } else {
                x
            }
        },
        UnOp::ClipMax(hi) => {
            if !x.le_e(hi) {
                hi
            } else {
                x
            }
        },
        UnOp::PowScaled(e, factor) => crate::element::pow_e(x, e).mul_e(factor),
    }
}

/// An elementwise unary operation on signed elements.
#[derive(Debug, Clone, Copy)]
pub enum SignOp {
    /// absolute value
    Abs,
    /// the sign: minus one, zero or one
    Sign,
    /// negation
    Negate,
}

/// The value a signed unary operation produces from one element.
pub open spec fn apply_sign<T: SignedElement>(op: SignOp, x: T) -> T {
    match op {
        SignOp::Abs => x.abs_s(),
        SignOp::Sign => x.signum_s(),
        SignOp::Negate => x.neg_s(),
    }
}

/// Executable twin of `apply_sign`.
pub fn apply_sign_e<T: SignedElement>(op: SignOp, x: T) -> (r: T)
    ensures
        r == apply_sign(op, x),
{
    match op {
        SignOp::Abs => x.abs_e(),
        SignOp::Sign => x.signum_e(),
        SignOp::Negate => x.neg_e(),
    }
}

/// The result of a unary operation: the operand's shape and strides, every
/// element mapped.
pub open spec fn un_op_ensures<T: Element>(a: Tensor<T>, op: UnOp<T>, r: Tensor<T>) -> bool {
    &&& r.sh() == a.sh()
    &&& r.st() == a.st()
    &&& r.size == a.size
    &&& r.vals().len() == a.size
    &&& forall|i: int| 0 <= i < a.size ==> r.vals()[i] == apply_un(op, a.vals()[i])
}

impl<DType: Element> Tensor<DType> {
    /// Apply an elementwise operation to every stored element; the output
    /// shares the input's shape and strides.
    pub fn unary_op(&self, op: UnOp<DType>) -> (r: Tensor<DType>)
        requires
            self.wf(),
        ensures
            self.wf(),
            un_op_ensures(*self, op, r),
            r.wf(),
    {
        let n: usize = self.size;
        let mut values: Vec<DType> = Vec::new();
        let mut i: usize = 0;
        while i < n
            invariant
                self.wf(),
                n == self.size,
                0 <= i <= n,
                values@.len() == i,
                forall|j: int| 0 <= j < i ==> values@[j] == apply_un(op, self.vals()[j]),
            decreases n - i,
        {
            values.push(apply_un_e(op, self.get_ix(i)));
            i += 1;
        }
        let mut sh: Vec<usize> = Vec::new();
        let mut st: Vec<usize> = Vec::new();
        let rank: usize = self.rank();
        let mut k: usize = 0;
        while k < rank
            invariant
                rank == self.sh().len(),
                rank == self.st().len(),
                0 <= k <= rank,
                sh@ =~= self.sh().take(k as int),
                st@ =~= self.st().take(k as int),
            decreases rank - k,
        {
            sh.push(self.get_dim_size(k));
            st.push(self.get_strides_at(k));
            k += 1;
        }
        proof {
            assert(sh@ =~= self.sh());
            assert(st@ =~= self.st());
        }
        Tensor::new(sh, st, n, values)
    }

    /// `x * factor + add`, elementwise.
    pub fn add_multiply_scalar(&self, factor: DType, add: DType) -> (r: Tensor<DType>)
        requires
            self.wf(),
        ensures
            un_op_ensures(*self, UnOp::MulAdd(factor, add), r),
            r.wf(),
    {
        return self.unary_op(UnOp::MulAdd(factor, add));
    }

    /// Clamp every element into `[min, max]`.
    pub fn clip(&self, min: DType, max: DType) -> (r: Tensor<DType>)
        requires
            self.wf(),
        ensures
            un_op_ensures(*self, UnOp::Clip(min, max), r),
            r.wf(),
    {
        return self.unary_op(UnOp::Clip(min, max));
    }

    /// Clamp every element from below to `min`.
    pub fn clip_min(&self, min: DType) -> (r: Tensor<DType>)
        requires
            self.wf(),
        ensures
            un_op_ensures(*self, UnOp::ClipMin(min), r),
            r.wf(),
    {
        return self.unary_op(UnOp::ClipMin(min));
    }

    /// Clamp every element from above to `max`.
    pub fn clip_max(&self, max: DType) -> (r: Tensor<DType>)
        requires
            self.wf(),
        ensures
            un_op_ensures(*self, UnOp::ClipMax(max), r),
            r.wf(),
    {
        return self.unary_op(UnOp::ClipMax(max));
    }

    /// Raise every element to a fixed integer power and scale it.
    pub fn power_scalar_int(&self, power: u32, factor: DType) -> (r: Tensor<DType>)
        requires
            self.wf(),
        ensures
            un_op_ensures(*self, UnOp::PowScaled(power, factor), r),
            r.wf(),
    {
        return self.unary_op(UnOp::PowScaled(power, factor));
    }
}

/// The result of a signed unary operation: the operand's shape and strides,
/// every element mapped.
pub open spec fn sign_op_ensures<T: SignedElement>(a: Tensor<T>, op: SignOp, r: Tensor<T>) -> bool {
    &&& r.sh() == a.sh()
    &&& r.st() == a.st()
    &&& r.size == a.size
    &&& r.vals().len() == a.size
    &&& forall|i: int| 0 <= i < a.size ==> r.vals()[i] == apply_sign(op, a.vals()[i])
}

impl<DType: SignedElement> Tensor<DType> {
    /// Apply a signed elementwise operation to every stored element.
    pub fn signed_unary_op(&self, op: SignOp) -> (r: Tensor<DType>)
        requires
            self.wf(),
        ensures
            sign_op_ensures(*self, op, r),
            r.wf(),
    {
        let n: usize = self.size;
        let mut values: Vec<DType> = Vec::new();
        let mut i: usize = 0;
        while i < n
            invariant
                self.wf(),
                n == self.size,
                0 <= i <= n,
                values@.len() == i,
                forall|j: int| 0 <= j < i ==> values@[j] == apply_sign(op, self.vals()[j]),
            decreases n - i,
        {
            values.push(apply_sign_e(op, self.get_ix(i)));
            i += 1;
        }
        let mut sh: Vec<usize> = Vec::new();
        let mut st: Vec<usize> = Vec::new();
        let rank: usize = self.rank();
        let mut k: usize = 0;
        while k < rank
            invariant
                rank == self.sh().len(),
                rank == self.st().len(),
                0 <= k <= rank,
                sh@ =~= self.sh().take(k as int),
                st@ =~= self.st().take(k as int),
            decreases rank - k,
        {
            sh.push(self.get_dim_size(k));
            st.push(self.get_strides_at(k));
            k += 1;
        }
        proof {
            assert(sh@ =~= self.sh());
            assert(st@ =~= self.st());
        }
        Tensor::new(sh, st, n, values)
    }

    /// Absolute value, elementwise.
    pub fn abs(&self) -> (r: Tensor<DType>)
        requires
            self.wf(),
        ensures
            sign_op_ensures(*self, SignOp::Abs, r),
            r.wf(),
    {
        return self.signed_unary_op(SignOp::Abs);
    }

    /// The sign of every element: minus one, zero or one.
    pub fn sign(&self) -> (r: Tensor<DType>)
        requires
            self.wf(),
        ensures
            sign_op_ensures(*self, SignOp::Sign, r),
            r.wf(),
    {
        return self.signed_unary_op(SignOp::Sign);
    }

    /// Negation, elementwise.
    pub fn negate(&self) -> (r: Tensor<DType>)
        requires
            self.wf(),
        ensures
            sign_op_ensures(*self, SignOp::Negate, r),
            r.wf(),
    {
        return self.signed_unary_op(SignOp::Negate);
    }
}

} // verus!
