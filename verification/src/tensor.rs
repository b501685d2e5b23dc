//! The tensor value type: a flat buffer together with a shape and a stride
//! vector.
//!
//! Operations never mutate their operands (apart from the low-level `set`):
//! each one allocates a fresh buffer and returns a new tensor.

use crate::element::within_s;
use crate::element::Element;
use crate::shape::compare_shapes;
use crate::shape::compute_strides;
use crate::shape::dot;
use crate::shape::fits_usize;
use crate::shape::get_size;
use crate::shape::index_to_pos;
use crate::shape::lemma_max_offset_value;
use crate::shape::lemma_prod_from_zero_factor;
use crate::shape::max_offset;
use crate::shape::nz_stride_at;
use crate::shape::prod_from;
use crate::shape::size_spec;
use crate::shape::stride_at;
use core::cmp::Ordering;
use vstd::prelude::*;
use vstd::std_specs::cmp::PartialOrdSpec;

verus! {

/// An N-dimensional strided tensor over elements of type `DType`.
#[derive(Debug, Clone, PartialEq)]
pub struct Tensor<DType> {
    pub shape: Vec<usize>,
    pub strides: Vec<usize>,
    pub size: usize,
    pub values: Vec<DType>,
}

impl<DType> Tensor<DType> {
    /// The shape, as a specification value.
    pub open spec fn sh(&self) -> Seq<usize> {
        self.shape@
    }

    /// The strides, as a specification value.
    pub open spec fn st(&self) -> Seq<usize> {
        self.strides@
    }

    /// The stored elements, as a specification value.
    pub open spec fn vals(&self) -> Seq<DType> {
        self.values@
    }

    /// Structural well-formedness: the stride vector matches the shape in
    /// length, the buffer holds exactly `size` elements, `size` is the
    /// product of the dimensions, and no valid read through the strides can
    /// leave the buffer.
    pub open spec fn wf(&self) -> bool {
        &&& self.sh().len() == self.st().len()
        &&& self.size == size_spec(self.sh())
        &&& self.vals().len() == self.size
        &&& self.size > 0 ==> max_offset(self.sh(), self.st()) < self.size
    }

    /// The strides are exactly the row-major strides of the shape, with
    /// stride 0 on size-1 dimensions.
    pub open spec fn canonical(&self) -> bool {
        &&& self.wf()
        &&& forall|i: int| 0 <= i < self.sh().len() ==> self.st()[i] == stride_at(self.sh(), i)
    }
}

impl<DType> Tensor<DType> {
    /// Low-level assembly point: no validation is performed, the caller is
    /// responsible for handing in a consistent shape/stride/buffer triple.
    pub fn new(shape: Vec<usize>, strides: Vec<usize>, size: usize, values: Vec<DType>) -> (r:
        Tensor<DType>)
        ensures
            r.sh() == shape@,
            r.st() == strides@,
            r.size == size,
            r.vals() == values@,
    {
        Tensor { shape, strides, size, values }
    }

    /// The shape vector.
    pub fn get_sh(&self) -> (r: &Vec<usize>)
        ensures
            r@ == self.sh(),
    {
        return &self.shape;
    }

    /// The dimension of one axis.
    pub fn get_dim_size(&self, dim: usize) -> (r: usize)
        requires
            dim < self.sh().len(),
        ensures
            r == self.sh()[dim as int],
    {
        return self.shape[dim];
    }

    /// The number of axes.
    pub fn rank(&self) -> (r: usize)
        ensures
            r == self.sh().len(),
    {
        return self.shape.len();
    }

    /// The stride vector.
    pub fn get_strides(&self) -> (r: &Vec<usize>)
        ensures
            r@ == self.st(),
    {
        return &self.strides;
    }

    /// The stride of one axis.
    pub fn get_strides_at(&self, ix: usize) -> (r: usize)
        requires
            ix < self.st().len(),
        ensures
            r == self.st()[ix as int],
    {
        return self.strides[ix];
    }

    /// The flat element buffer.
    pub fn get_values(&self) -> (r: &Vec<DType>)
        ensures
            r@ == self.vals(),
    {
        return &self.values;
    }
}

impl<DType: Copy> Tensor<DType> {
    /// Read one element through the strides: the value at the dot product of
    /// the multi-index with the stride vector.
    pub fn get(&self, index: &Vec<usize>) -> (r: DType)
        requires
            index@.len() == self.st().len(),
            0 <= dot(index@, self.st()) < self.vals().len(),
        ensures
            r == self.vals()[dot(index@, self.st())],
    {
        let n: usize = self.values.len();
        proof {
            assert(self.vals().len() == n);
        }
        let pos: usize = index_to_pos(index, &self.strides);
        return self.values[pos];
    }

    /// Read one element at a flat buffer position.
    pub fn get_ix(&self, index: usize) -> (r: DType)
        requires
            index < self.vals().len(),
        ensures
            r == self.vals()[index as int],
    {
        return self.values[index];
    }

    /// Overwrite one element through the strides, in place.
    pub fn set(&mut self, index: &Vec<usize>, value: DType)
        requires
            index@.len() == old(self).st().len(),
            0 <= dot(index@, old(self).st()) < old(self).vals().len(),
        ensures
            final(self).sh() == old(self).sh(),
            final(self).st() == old(self).st(),
            final(self).size == old(self).size,
            final(self).vals() == old(self).vals().update(dot(index@, old(self).st()), value),
    {
        let n: usize = self.values.len();
        proof {
            assert(self.vals().len() == n);
        }
        let pos: usize = index_to_pos(index, &self.strides);
        self.values.set(pos, value);
    }

    /// Build a tensor from a shape and a value buffer, deriving strides and
    /// size; the buffer must hold exactly as many elements as the shape
    /// describes.
    pub fn new_from_shape(shape: &Vec<usize>, values: &Vec<DType>) -> (r: Tensor<DType>)
        requires
            fits_usize(shape@),
            values@.len() == size_spec(shape@),
        ensures
            r.canonical(),
            r.sh() == shape@,
            r.size == size_spec(shape@),
            r.vals() == values@,
    {
        let strides = compute_strides(shape);
        let size: usize = get_size(shape);
        let mut vals: Vec<DType> = Vec::new();
        let n: usize = values.len();
        let mut i: usize = 0;
        while i < n
            invariant
                n == values@.len(),
                0 <= i <= n,
                vals@ =~= values@.take(i as int),
            decreases n - i,
        {
            vals.push(values[i]);
            i += 1;
        }
        proof {
            assert(vals@ =~= values@);
            lemma_canonical_shape(shape@);
        }
        let mut sh: Vec<usize> = Vec::new();
        let mut k: usize = 0;
        let rank: usize = shape.len();
        while k < rank
            invariant
                rank == shape@.len(),
                0 <= k <= rank,
                sh@ =~= shape@.take(k as int),
            decreases rank - k,
        {
            sh.push(shape[k]);
            k += 1;
        }
        proof {
            assert(sh@ =~= shape@);
        }
        Tensor::new(sh, strides, size, vals)
    }

    /// Build a tensor holding the same value in every slot: a genuine full
    /// materialization, not a broadcast view.
    pub fn constant(shape: &Vec<usize>, value: DType) -> (r: Tensor<DType>)
        requires
            fits_usize(shape@),
        ensures
            r.canonical(),
            r.sh() == shape@,
            r.size == size_spec(shape@),
            r.vals() =~= Seq::new(size_spec(shape@) as nat, |i: int| value),
    {
        let strides = compute_strides(shape);
        let size: usize = get_size(shape);
        let mut vals: Vec<DType> = Vec::new();
        let mut i: usize = 0;
        while i < size
            invariant
                0 <= i <= size,
                vals@ =~= Seq::new(i as nat, |j: int| value),
            decreases size - i,
        {
            vals.push(value);
            i += 1;
        }
        let mut sh: Vec<usize> = Vec::new();
        let mut k: usize = 0;
        let rank: usize = shape.len();
        while k < rank
            invariant
                rank == shape@.len(),
                0 <= k <= rank,
                sh@ =~= shape@.take(k as int),
            decreases rank - k,
        {
            sh.push(shape[k]);
            k += 1;
        }
        proof {
            assert(sh@ =~= shape@);
            lemma_canonical_shape(shape@);
        }
        Tensor::new(sh, strides, size, vals)
    }
}

/// A canonical stride vector keeps every valid read inside the buffer: over
/// positive dimensions its maximal offset is one less than the size, and a
/// zero dimension empties the tensor.
pub proof fn lemma_canonical_shape(s: Seq<usize>)
    ensures
        forall|st: Seq<usize>|
            {
                &&& st.len() == s.len()
                &&& (forall|i: int|
                    0 <= i < s.len() ==> st[i] == stride_at(s, i) || st[i] == nz_stride_at(s, i))
                &&& size_spec(s) > 0
            } ==> #[trigger] max_offset(s, st) < size_spec(s),
{
    assert forall|st: Seq<usize>|
        {
            &&& st.len() == s.len()
            &&& (forall|i: int|
                0 <= i < s.len() ==> st[i] == stride_at(s, i) || st[i] == nz_stride_at(s, i))
            &&& size_spec(s) > 0
        } implies #[trigger] max_offset(s, st) < size_spec(s) by {
        assert(s.len() > 0);
        assert forall|i: int| 0 <= i < s.len() implies s[i] >= 1 by {
            if s[i] == 0 {
                lemma_prod_from_zero_factor(s, 0, i);
            }
        }
        lemma_max_offset_value(s, st, s.len() as int);
        assert(prod_from(s, s.len() as int) == 1);
    }
}

impl<DType: Element> Tensor<DType> {
    /// Tolerance comparison: shapes equal and every element pair within
    /// `delta` of each other; used for testing and validation only.
    pub fn compare(&self, other: &Tensor<DType>, delta: DType) -> (r: bool)
        requires
            self.wf(),
            other.wf(),
        ensures
            r == ({
                &&& self.sh() == other.sh()
                &&& forall|i: int|
                    0 <= i < self.size ==> within_s(self.vals()[i], other.vals()[i], delta)
            }),
    {
        if !compare_shapes(self.get_sh(), other.get_sh()) {
            return false;
        }
        let n: usize = self.size;
        let mut i: usize = 0;
        while i < n
            invariant
                n == self.size,
                self.wf(),
                other.wf(),
                self.sh() == other.sh(),
                0 <= i <= n,
                forall|j: int| 0 <= j < i ==> within_s(self.vals()[j], other.vals()[j], delta),
            decreases n - i,
        {
            if !crate::element::within_e(self.get_ix(i), other.get_ix(i), delta) {
                return false;
            }
            i += 1;
        }
        return true;
    }
}

/// How one element pair orders: greater, less, or neither (which covers
/// equal and incomparable alike, as the elementwise comparison does).
pub open spec fn pair_class<DType: PartialOrd>(x: DType, y: DType) -> Ordering {
    if x.partial_cmp_spec(&y) == Some(Ordering::Greater) {
        Ordering::Greater
    } else if x.partial_cmp_spec(&y) == Some(Ordering::Less) {
        Ordering::Less
    } else {
        Ordering::Equal
    }
}

/// The elementwise tensor order: comparable only when the shapes agree and
/// every element pair orders the same way as the first one.
pub open spec fn tensor_cmp_spec<DType: PartialOrd>(a: Tensor<DType>, b: Tensor<DType>) -> Option<
    Ordering,
> {
    if a.sh() != b.sh() {
        None
    } else if a.size == 0 {
        Some(Ordering::Equal)
    } else {
        let c = pair_class(a.vals()[0], b.vals()[0]);
        if forall|i: int| 0 <= i < a.size ==> pair_class(a.vals()[i], b.vals()[i]) == c {
            Some(c)
        } else {
            None
        }
    }
}

impl<DType: Copy + PartialOrd> Tensor<DType> {
    /// Elementwise partial order: `Equal` when all pairs are equal, `Less`
    /// or `Greater` when every pair agrees strictly, `None` on mixed or
    /// incomparable pairs or a shape mismatch.
    pub fn partial_cmp(&self, other: &Tensor<DType>) -> (r: Option<Ordering>)
        requires
            self.wf(),
            other.wf(),
        ensures
            DType::obeys_partial_cmp_spec() ==> r == tensor_cmp_spec(*self, *other),
    {
        if !compare_shapes(self.get_sh(), other.get_sh()) {
            return None;
        }
        if self.size == 0 {
            return Some(Ordering::Equal);
        }
        let a0 = self.get_ix(0);
        let b0 = other.get_ix(0);
        let first_greater = a0 > b0;
        let first_less = a0 < b0;
        let n: usize = self.size;
        let mut i: usize = 1;
        while i < n
            invariant
                n == self.size,
                self.wf(),
                other.wf(),
                self.sh() == other.sh(),
                n > 0,
                1 <= i <= n,
                DType::obeys_partial_cmp_spec() ==> {
                    &&& (first_greater <==> pair_class(self.vals()[0], other.vals()[0])
                        == Ordering::Greater)
                    &&& (first_less <==> pair_class(self.vals()[0], other.vals()[0])
                        == Ordering::Less)
                    &&& forall|j: int|
                        0 <= j < i ==> #[trigger] pair_class(self.vals()[j], other.vals()[j])
                            == pair_class(self.vals()[0], other.vals()[0])
                },
            decreases n - i,
        {
            let x = self.get_ix(i);
            let y = other.get_ix(i);
            if x < y {
                if !first_less {
                    return None;
                }
            } else if x > y {
                if !first_greater {
                    return None;
                }
            } else {
                if first_less || first_greater {
                    return None;
                }
            }
            i += 1;
        }
        if first_greater {
            return Some(Ordering::Greater);
        }
        if first_less {
            return Some(Ordering::Less);
        }
        return Some(Ordering::Equal);
    }
}

} // verus!
