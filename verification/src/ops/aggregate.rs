//! The reduction (pooling) engine: generic axis reductions.
//!
//! A reduction folds a tensor over a set of axes with a combine operation,
//! an optional transform of the first element folded into each output slot,
//! and an optional postprocess applied once per output slot.  Two dual
//! algorithms compute the same result: a strided fast path when the reduced
//! axes form one contiguous run, and a generic path that re-projects every
//! element's multi-index onto its output slot.

use crate::element::Element;
use crate::errors::TensorError;
use crate::shape::compute_strides;
use crate::shape::dot;
use crate::shape::get_size;
use crate::shape::increment_index;
use crate::shape::index_of;
use crate::shape::lemma_all_pos_prod_bounds;
use crate::shape::lemma_index_of;
use crate::shape::lemma_prod_from_drop_last;
use crate::shape::lemma_prod_from_mono;
use crate::shape::lemma_prod_from_nonneg;
use crate::shape::lemma_prod_from_zero_factor;
use crate::shape::lemma_small_mod;
use crate::shape::prod_from;
use crate::shape::size_spec;
use crate::shape::stride_at;
use crate::shape::valid_index;
use crate::shape::zero_index;
use crate::tensor::lemma_canonical_shape;
use crate::tensor::Tensor;
use vstd::prelude::*;

verus! {

/// The fold of a reduction: how a new element joins the accumulator.
#[derive(Debug, Clone, Copy)]
pub enum CombineOp {
    /// `x + acc`
    Sum,
    /// `x * x + acc`
    SumSquare,
    /// `x * acc`
    Prod,
    /// the larger of `x` and `acc`
    Max,
    /// the smaller of `x` and `acc`
    Min,
}

/// The transform applied to the first element folded into each output slot.
#[derive(Debug, Clone, Copy)]
pub enum InitOp {
    /// the element itself
    Id,
    /// its square
    Square,
}

/// The transform applied once per output slot after folding finishes.
#[derive(Debug, Clone, Copy)]
pub enum PostOp<T> {
    /// the accumulator itself
    Id,
    /// the accumulator divided by a fixed value
    DivBy(T),
}

/// The value a combine operation produces from a new element and the
/// accumulator.
pub open spec fn apply_combine<T: Element>(c: CombineOp, x: T, acc: T) -> T {
    match c {
        CombineOp::Sum => x.add_s(acc),
        CombineOp::SumSquare => x.mul_s(x).add_s(acc),
        CombineOp::Prod => x.mul_s(acc),
        CombineOp::Max => if !x.le_s(acc) {
            x
        } else {
            acc
        },
        CombineOp::Min => if !acc.le_s(x) {
            x
        } else {
            acc
        },
    }
}

/// Executable twin of `apply_combine`.
pub fn apply_combine_e<T: Element>(c: CombineOp, x: T, acc: T) -> (r: T)
    ensures
        r == apply_combine(c, x, acc),
{
    match c {
        CombineOp::Sum => x.add_e(acc),
        CombineOp::SumSquare => x.mul_e(x).add_e(acc),
        CombineOp::Prod => x.mul_e(acc),
        CombineOp::Max => {
            if !x.le_e(acc) {
                x
            } else {
                acc
            }
        },
        CombineOp::Min => {
            if !acc.le_e(x) {
                x
            } else {
                acc
            }
        },
    }
}

/// The value the init transform produces from the first element of a slot.
pub open spec fn apply_init<T: Element>(i: InitOp, x: T) -> T {
    match i {
        InitOp::Id => x,
        InitOp::Square => x.mul_s(x),
    }
}

/// Executable twin of `apply_init`.
pub fn apply_init_e<T: Element>(i: InitOp, x: T) -> (r: T)
    ensures
        r == apply_init(i, x),
{
    match i {
        InitOp::Id => x,
        InitOp::Square => x.mul_e(x),
    }
}

/// The value the postprocess produces from a finished accumulator.
pub open spec fn apply_post<T: Element>(p: PostOp<T>, x: T) -> T {
    match p {
        PostOp::Id => x,
        PostOp::DivBy(d) => x.div_s(d),
    }
}

/// Executable twin of `apply_post`.
pub fn apply_post_e<T: Element>(p: PostOp<T>, x: T) -> (r: T)
    ensures
        r == apply_post(p, x),
{
    match p {
        PostOp::Id => x,
        PostOp::DivBy(d) => x.div_e(d),
    }
}

/// The axis list is strictly increasing.
pub open spec fn strictly_increasing(axes: Seq<usize>) -> bool {
    forall|i: int| 0 <= i < axes.len() - 1 ==> #[trigger] axes[i] < axes[i + 1]
}

/// Every listed axis is below the rank.
pub open spec fn axes_in_range(axes: Seq<usize>, rank: int) -> bool {
    forall|i: int| 0 <= i < axes.len() ==> axes[i] < rank
}

/// The axis list forms one contiguous increasing run: each next axis is at
/// most one past the previous.
pub open spec fn continuous_spec(axes: Seq<usize>) -> bool {
    forall|i: int| 1 <= i < axes.len() ==> #[trigger] axes[i] <= axes[i - 1] + 1
}

/// The input axes below `rank` that are not reduced, in increasing order.
pub open spec fn kept_axes(rank: int, axes: Seq<usize>) -> Seq<usize>
    decreases rank,
{
    if rank <= 0 {
        Seq::empty()
    } else {
        let front = kept_axes(rank - 1, axes);
        if axes.contains((rank - 1) as usize) {
            front
        } else {
            front.push((rank - 1) as usize)
        }
    }
}

/// The reduced shape with `keep_dims`: reduced axes become 1.
pub open spec fn keep_shape(s: Seq<usize>, axes: Seq<usize>) -> Seq<usize> {
    Seq::new(
        s.len(),
        |i: int|
            if axes.contains(i as usize) {
                1usize
            } else {
                s[i]
            },
    )
}

/// The reduced shape without `keep_dims`: reduced axes disappear.
pub open spec fn drop_shape(s: Seq<usize>, axes: Seq<usize>) -> Seq<usize> {
    Seq::new(kept_axes(s.len() as int, axes).len(), |j: int| s[kept_axes(s.len() as int, axes)[j] as int])
}

/// The shape a reduction produces.
pub open spec fn reduced_shape(s: Seq<usize>, axes: Seq<usize>, keep: bool) -> Seq<usize> {
    if keep {
        keep_shape(s, axes)
    } else {
        drop_shape(s, axes)
    }
}

/// Which input axis each output axis reads its coordinate from.
pub open spec fn map_spec(rank: int, axes: Seq<usize>, keep: bool) -> Seq<usize> {
    if keep {
        Seq::new(rank as nat, |i: int| i as usize)
    } else {
        kept_axes(rank, axes)
    }
}

/// Strictly increasing axis lists are increasing between any two positions.
pub proof fn lemma_sorted_global(axes: Seq<usize>, j: int, k: int)
    requires
        strictly_increasing(axes),
        0 <= j < k < axes.len(),
    ensures
        axes[j] < axes[k],
    decreases k - j,
{
    if j + 1 < k {
        lemma_sorted_global(axes, j + 1, k);
    }
}

/// A pointwise-smaller shape has a no-larger product.
pub proof fn lemma_prod_pointwise_le(a: Seq<usize>, b: Seq<usize>, k: int)
    requires
        a.len() == b.len(),
        forall|i: int| 0 <= i < a.len() ==> a[i] <= b[i],
        0 <= k <= a.len(),
    ensures
        prod_from(a, k) <= prod_from(b, k),
    decreases a.len() - k,
{
    if k < a.len() {
        lemma_prod_pointwise_le(a, b, k + 1);
        lemma_prod_from_nonneg(a, k + 1);
        lemma_prod_from_nonneg(b, k + 1);
        assert(a[k] * prod_from(a, k + 1) <= b[k] * prod_from(b, k + 1)) by (nonlinear_arith)
            requires
                0 <= a[k] <= b[k],
                0 <= prod_from(a, k + 1) <= prod_from(b, k + 1),
        ;
    }
}

/// Dropping the size-1 slots of the `keep_dims` shape does not change the
/// product: both reduced shapes describe the same element count.
pub proof fn lemma_keep_drop_same_prod(s: Seq<usize>, axes: Seq<usize>, rank: int)
    requires
        0 <= rank <= s.len(),
        rank <= usize::MAX,
    ensures
        prod_from(
            Seq::new(kept_axes(rank, axes).len(), |j: int| s[kept_axes(rank, axes)[j] as int]),
            0,
        ) == prod_from(
            Seq::new(
                rank as nat,
                |i: int|
                    if axes.contains(i as usize) {
                        1usize
                    } else {
                        s[i]
                    },
            ),
            0,
        ),
    decreases rank,
{
    let dsh = Seq::new(kept_axes(rank, axes).len(), |j: int| s[kept_axes(rank, axes)[j] as int]);
    let ksh = Seq::new(
        rank as nat,
        |i: int|
            if axes.contains(i as usize) {
                1usize
            } else {
                s[i]
            },
    );
    if rank == 0 {
        assert(dsh.len() == 0);
        assert(ksh.len() == 0);
    } else {
        lemma_keep_drop_same_prod(s, axes, rank - 1);
        let dshf = Seq::new(
            kept_axes(rank - 1, axes).len(),
            |j: int| s[kept_axes(rank - 1, axes)[j] as int],
        );
        let kshf = Seq::new(
            (rank - 1) as nat,
            |i: int|
                if axes.contains(i as usize) {
                    1usize
                } else {
                    s[i]
                },
        );
        assert(ksh.drop_last() =~= kshf);
        lemma_prod_from_drop_last(ksh, 0);
        if axes.contains((rank - 1) as usize) {
            assert(dsh =~= dshf);
            assert(ksh.last() == 1usize);
            assert(prod_from(kshf, 0) * 1 == prod_from(kshf, 0)) by (nonlinear_arith);
        } else {
            assert(kept_axes(rank, axes) == kept_axes(rank - 1, axes).push((rank - 1) as usize));
            assert(kept_axes(rank, axes).len() == kept_axes(rank - 1, axes).len() + 1);
            assert(kept_axes(rank, axes)[kept_axes(rank, axes).len() - 1] == (rank - 1) as usize);
            assert forall|j: int| 0 <= j < dshf.len() implies dsh[j] == dshf[j] by {
                assert(kept_axes(rank, axes)[j] == kept_axes(rank - 1, axes)[j]);
            }
            assert(dsh.drop_last() =~= dshf);
            assert(dsh.last() == s[rank - 1]);
            assert(ksh.last() == s[rank - 1]);
            lemma_prod_from_drop_last(dsh, 0);
        }
    }
}

/// The reduced shape of a positive-dimension shape has positive dimensions,
/// and its product is at most the input's.
pub proof fn lemma_reduced_shape_bounds(s: Seq<usize>, axes: Seq<usize>, keep: bool)
    requires
        s.len() <= usize::MAX,
        forall|i: int| 0 <= i < s.len() ==> s[i] >= 1,
    ensures
        forall|j: int|
            0 <= j < reduced_shape(s, axes, keep).len() ==> #[trigger] reduced_shape(
                s,
                axes,
                keep,
            )[j] >= 1,
        prod_from(reduced_shape(s, axes, keep), 0) <= prod_from(s, 0),
        reduced_shape(s, axes, keep).len() == map_spec(s.len() as int, axes, keep).len(),
        forall|j: int|
            0 <= j < map_spec(s.len() as int, axes, keep).len() ==> #[trigger] map_spec(
                s.len() as int,
                axes,
                keep,
            )[j] < s.len(),
{
    let rank = s.len() as int;
    lemma_kept_axes_in_range(rank, axes, rank);
    let ksh = keep_shape(s, axes);
    assert forall|i: int| 0 <= i < ksh.len() implies ksh[i] <= s[i] by {}
    lemma_prod_pointwise_le(ksh, s, 0);
    lemma_keep_drop_same_prod(s, axes, rank);
    assert(keep_shape(s, axes) =~= Seq::new(
        rank as nat,
        |i: int|
            if axes.contains(i as usize) {
                1usize
            } else {
                s[i]
            },
    ));
    assert(drop_shape(s, axes) =~= Seq::new(
        kept_axes(rank, axes).len(),
        |j: int| s[kept_axes(rank, axes)[j] as int],
    ));
    if keep {
    } else {
        assert(prod_from(drop_shape(s, axes), 0) == prod_from(keep_shape(s, axes), 0));
        assert forall|j: int| 0 <= j < drop_shape(s, axes).len() implies #[trigger] drop_shape(
            s,
            axes,
        )[j] >= 1 by {
            assert(drop_shape(s, axes)[j] == s[kept_axes(rank, axes)[j] as int]);
        }
    }
}

/// The output slot an input multi-index projects to: the sum over output
/// axes of the output stride times the input coordinate that axis reads.
pub open spec fn proj_prefix(ix: Seq<usize>, ms: Seq<usize>, rs: Seq<usize>, k: int) -> int
    decreases k,
{
    if k <= 0 {
        0
    } else {
        proj_prefix(ix, ms, rs, k - 1) + ix[ms[k - 1] as int] * stride_at(rs, k - 1)
    }
}

/// The output slot the `p`-th input element folds into.
pub open spec fn slot_of(p: int, s: Seq<usize>, axes: Seq<usize>, keep: bool) -> int {
    proj_prefix(
        index_of(p, s),
        map_spec(s.len() as int, axes, keep),
        reduced_shape(s, axes, keep),
        reduced_shape(s, axes, keep).len() as int,
    )
}

/// The state of one output slot after the first `n` input elements have been
/// folded: `None` while untouched, then the running accumulator.  The first
/// element of a slot passes through the init transform; later ones join
/// through the combine operation.
pub open spec fn slot_state<T: Element>(
    t: Tensor<T>,
    axes: Seq<usize>,
    keep: bool,
    c: CombineOp,
    init: InitOp,
    n: int,
    q: int,
) -> Option<T>
    decreases n,
{
    if n <= 0 {
        None
    } else {
        let prev = slot_state(t, axes, keep, c, init, n - 1, q);
        if slot_of(n - 1, t.sh(), axes, keep) == q {
            match prev {
                None => Some(apply_init(init, t.vals()[n - 1])),
                Some(a) => Some(apply_combine(c, t.vals()[n - 1], a)),
            }
        } else {
            prev
        }
    }
}

/// The single fold over every element in buffer order, used when the axes
/// cover the whole tensor and no dimensions are kept.
pub open spec fn fold_all<T: Element>(t: Tensor<T>, c: CombineOp, init: InitOp, n: int) -> T
    decreases n,
{
    if n <= 1 {
        apply_init(init, t.vals()[0])
    } else {
        apply_combine(c, t.vals()[n - 1], fold_all(t, c, init, n - 1))
    }
}

/// Why a reduction rejects its inputs: an empty or unsorted axis list, an
/// axis at or past the rank, or a tensor with nothing to fold.
pub open spec fn pool_error<T>(t: Tensor<T>, axes: Seq<usize>) -> Option<TensorError> {
    if axes.len() == 0 {
        Some(TensorError::ShapeMismatch)
    } else if !axes_in_range(axes, t.sh().len() as int) {
        Some(TensorError::AxisOutOfRange)
    } else if !strictly_increasing(axes) {
        Some(TensorError::ShapeMismatch)
    } else if t.size == 0 {
        Some(TensorError::EmptyTensor)
    } else {
        None
    }
}

/// What a reduction returns: the declared error exactly when the inputs are
/// rejected; otherwise, when the axes cover the whole tensor and no
/// dimensions are kept, a one-element tensor holding the postprocessed full
/// fold, and in every other case a contiguous tensor of the reduced shape
/// whose slot `q` holds the postprocessed fold of the elements projecting to
/// `q` (zero for a slot no element reaches).
pub open spec fn pool_ensures<T: Element>(
    t: Tensor<T>,
    axes: Seq<usize>,
    keep: bool,
    c: CombineOp,
    init: InitOp,
    post: PostOp<T>,
    r: Result<Tensor<T>, TensorError>,
) -> bool {
    &&& (r is Err <==> pool_error(t, axes) is Some)
    &&& (r matches Err(e) ==> Some(e) == pool_error(t, axes))
    &&& (r matches Ok(out) ==> if !keep && axes.len() == t.sh().len() {
        &&& out.wf()
        &&& out.sh() == seq![1usize]
        &&& out.st() == seq![1usize]
        &&& out.size == 1
        &&& out.vals() == seq![apply_post(post, fold_all(t, c, init, t.size as int))]
    } else {
        &&& out.canonical()
        &&& out.sh() == reduced_shape(t.sh(), axes, keep)
        &&& out.size == size_spec(reduced_shape(t.sh(), axes, keep))
        &&& forall|q: int|
            0 <= q < out.size ==> out.vals()[q] == apply_post(
                post,
                match slot_state(t, axes, keep, c, init, t.size as int, q) {
                    None => T::zero_s(),
                    Some(a) => a,
                },
            )
    })
}

/// A slot projection stays inside the reduced element count: the prefix sums
/// telescope against the suffix products of the reduced shape.
pub proof fn lemma_proj_bound(ix: Seq<usize>, ms: Seq<usize>, rs: Seq<usize>, k: int)
    requires
        ms.len() == rs.len(),
        0 <= k <= rs.len(),
        forall|j: int| 0 <= j < rs.len() ==> rs[j] >= 1,
        forall|j: int| 0 <= j < rs.len() ==> 0 <= #[trigger] ms[j] < ix.len(),
        forall|j: int| 0 <= j < rs.len() ==> (#[trigger] rs[j] == 1 || ix[ms[j] as int] < rs[j]),
    ensures
        0 <= proj_prefix(ix, ms, rs, k) <= prod_from(rs, 0) - prod_from(rs, k),
    decreases k,
{
    if k > 0 {
        lemma_proj_bound(ix, ms, rs, k - 1);
        lemma_prod_from_nonneg(rs, k);
        if rs[k - 1] == 1 {
            assert(stride_at(rs, k - 1) == 0);
            assert(ix[ms[k - 1] as int] * 0 == 0) by (nonlinear_arith);
            assert(prod_from(rs, k - 1) == 1 * prod_from(rs, k));
            assert(1 * prod_from(rs, k) == prod_from(rs, k)) by (nonlinear_arith);
        } else {
            assert(stride_at(rs, k - 1) == prod_from(rs, k));
            assert(ix[ms[k - 1] as int] * prod_from(rs, k) <= (rs[k - 1] - 1) * prod_from(rs, k))
                by (nonlinear_arith)
                requires
                    ix[ms[k - 1] as int] <= rs[k - 1] - 1,
                    prod_from(rs, k) >= 0,
            ;
            assert(ix[ms[k - 1] as int] * prod_from(rs, k) >= 0) by (nonlinear_arith)
                requires
                    ix[ms[k - 1] as int] >= 0,
                    prod_from(rs, k) >= 0,
            ;
            assert((rs[k - 1] - 1) * prod_from(rs, k) == rs[k - 1] * prod_from(rs, k) - prod_from(
                rs,
                k,
            )) by (nonlinear_arith);
            assert(prod_from(rs, k - 1) == rs[k - 1] * prod_from(rs, k));
        }
    }
}

impl<DType: Element> Tensor<DType> {
    /// The generic indexed reduction path: walks every input element with
    /// the odometer and re-projects the kept axes' coordinates through the
    /// output strides.
    #[verifier::rlimit(60)]
    fn pool_generic(
        &self,
        axes: &Vec<usize>,
        keep_dims: bool,
        c: CombineOp,
        init: InitOp,
        post: PostOp<DType>,
    ) -> (out: Tensor<DType>)
        requires
            self.canonical(),
            axes@.len() >= 1,
            axes_in_range(axes@, self.sh().len() as int),
            strictly_increasing(axes@),
            self.size > 0,
            keep_dims || axes@.len() < self.sh().len(),
        ensures
            out.canonical(),
            out.sh() == reduced_shape(self.sh(), axes@, keep_dims),
            out.size == size_spec(reduced_shape(self.sh(), axes@, keep_dims)),
            forall|q: int|
                0 <= q < out.size ==> out.vals()[q] == apply_post(
                    post,
                    match slot_state(*self, axes@, keep_dims, c, init, self.size as int, q) {
                        None => DType::zero_s(),
                        Some(a) => a,
                    },
                ),
    {
        let ghost s = self.sh();
        let rank: usize = self.rank();
        proof {
            assert forall|j: int| 0 <= j < rank implies s[j] >= 1 by {
                if s[j] == 0 {
                    lemma_prod_from_zero_factor(s, 0, j);
                }
            }
        }
        let mut result_shape: Vec<usize> = Vec::new();
        let mut res_ix_map: Vec<usize> = Vec::new();
        let mut axes_ix: usize = 0;
        let mut i: usize = 0;
        while i < rank
            invariant
                self.canonical(),
                s == self.sh(),
                rank == s.len(),
                self.size > 0,
                axes@.len() >= 1,
                axes_in_range(axes@, rank as int),
                strictly_increasing(axes@),
                0 <= i <= rank,
                0 <= axes_ix <= axes@.len(),
                forall|k: int| 0 <= k < axes_ix ==> axes@[k] < i,
                forall|k: int| axes_ix <= k < axes@.len() ==> axes@[k] >= i,
                res_ix_map@ == map_spec(i as int, axes@, keep_dims),
                result_shape@.len() == res_ix_map@.len(),
                res_ix_map@.len() == if keep_dims {
                    i as int
                } else {
                    i - axes_ix
                },
                forall|j: int|
                    0 <= j < result_shape@.len() ==> result_shape@[j] == (
                    if axes@.contains(#[trigger] res_ix_map@[j]) {
                        1usize
                    } else {
                        s[res_ix_map@[j] as int]
                    }),
            decreases rank - i,
        {
            let ghost old_ix = axes_ix as int;
            let is_reduced = axes_ix < axes.len() && axes[axes_ix] == i;
            proof {
                if is_reduced {
                    assert(axes@.contains(i as usize));
                } else {
                    if axes@.contains(i as usize) {
                        let m = choose|m: int| 0 <= m < axes@.len() && axes@[m] == i as usize;
                        assert(m >= old_ix);
                        if m > old_ix {
                            lemma_sorted_global(axes@, old_ix, m);
                            assert(false);
                        }
                        assert(false);
                    }
                }
            }
            if is_reduced {
                axes_ix += 1;
                proof {
                    assert forall|k: int| axes_ix <= k < axes@.len() implies axes@[k] >= i + 1 by {
                        if k > old_ix {
                            lemma_sorted_global(axes@, old_ix, k);
                        }
                    }
                }
                if keep_dims {
                    result_shape.push(1);
                    res_ix_map.push(i);
                    proof {
                        assert(res_ix_map@ =~= map_spec(i as int + 1, axes@, keep_dims));
                    }
                } else {
                    proof {
                        assert(res_ix_map@ =~= map_spec(i as int + 1, axes@, keep_dims));
                    }
                }
            } else {
                proof {
                    assert forall|k: int| axes_ix <= k < axes@.len() implies axes@[k] >= i + 1 by {
                        if k == old_ix {
                            assert(axes@[k] >= i);
                            assert(axes@[k] != i);
                        } else {
                            lemma_sorted_global(axes@, old_ix, k);
                            assert(axes@[old_ix] >= i);
                        }
                    }
                }
                result_shape.push(self.get_dim_size(i));
                res_ix_map.push(i);
                proof {
                    assert(res_ix_map@ =~= map_spec(i as int + 1, axes@, keep_dims));
                }
            }
            i += 1;
        }
        proof {
            assert(axes_ix == axes@.len()) by {
                if axes_ix < axes@.len() {
                    assert(axes@[axes_ix as int] >= rank);
                    assert(axes@[axes_ix as int] < rank);
                }
            }
            lemma_kept_axes_in_range(rank as int, axes@, rank as int);
            lemma_kept_axes_not_reduced(rank as int, axes@);
            assert forall|j: int| 0 <= j < result_shape@.len() implies result_shape@[j]
                == reduced_shape(s, axes@, keep_dims)[j] by {
                let m = res_ix_map@[j];
                assert(result_shape@[j] == (if axes@.contains(m) {
                    1usize
                } else {
                    s[m as int]
                }));
                if keep_dims {
                    assert(m == j as usize);
                } else {
                    assert(m == kept_axes(rank as int, axes@)[j]);
                    assert(!axes@.contains(m));
                }
            }
            assert(result_shape@ =~= reduced_shape(s, axes@, keep_dims));
            lemma_reduced_shape_bounds(s, axes@, keep_dims);
            if !keep_dims {
                assert(res_ix_map@.len() == rank - axes@.len());
            }
            assert(result_shape@.len() >= 1);
            assert(size_spec(reduced_shape(s, axes@, keep_dims)) == prod_from(
                reduced_shape(s, axes@, keep_dims),
                0,
            ));
            assert(prod_from(s, 0) == self.size);
            lemma_prod_from_mono_all(result_shape@);
        }
        let ghost rs = reduced_shape(s, axes@, keep_dims);
        let ghost ms = map_spec(rank as int, axes@, keep_dims);
        let result_size: usize = get_size(&result_shape);
        let result_strides: Vec<usize> = compute_strides(&result_shape);
        let result_rank: usize = result_shape.len();
        let mut values: Vec<DType> = Vec::new();
        let mut initialized: Vec<bool> = Vec::new();
        let zero = DType::zero_e();
        let mut z: usize = 0;
        while z < result_size
            invariant
                0 <= z <= result_size,
                values@.len() == z,
                initialized@.len() == z,
                zero == DType::zero_s(),
                forall|q: int| 0 <= q < z ==> values@[q] == DType::zero_s(),
                forall|q: int| 0 <= q < z ==> initialized@[q] == false,
            decreases result_size - z,
        {
            values.push(zero);
            initialized.push(false);
            z += 1;
        }
        let mut input_index: Vec<usize> = Vec::new();
        let mut z2: usize = 0;
        while z2 < rank
            invariant
                0 <= z2 <= rank,
                input_index@.len() == z2,
                forall|j: int| 0 <= j < z2 ==> input_index@[j] == 0usize,
            decreases rank - z2,
        {
            input_index.push(0);
            z2 += 1;
        }
        proof {
            assert(input_index@ =~= zero_index(rank as int));
        }
        let n: usize = self.size;
        let mut p: usize = 0;
        while p < n
            invariant
                self.canonical(),
                s == self.sh(),
                rank == s.len(),
                n == self.size,
                n > 0,
                n == prod_from(s, 0),
                forall|j: int| 0 <= j < rank ==> s[j] >= 1,
                rs == reduced_shape(s, axes@, keep_dims),
                ms == map_spec(rank as int, axes@, keep_dims),
                rs.len() == ms.len(),
                rs.len() >= 1,
                result_rank == rs.len(),
                forall|j: int| 0 <= j < rs.len() ==> #[trigger] rs[j] >= 1,
                forall|j: int| 0 <= j < ms.len() ==> #[trigger] ms[j] < rank,
                result_shape@ == rs,
                result_strides@.len() == rs.len(),
                forall|j: int| 0 <= j < rs.len() ==> result_strides@[j] == stride_at(rs, j),
                res_ix_map@ == ms,
                result_size == prod_from(rs, 0),
                result_size == size_spec(rs),
                0 <= p <= n,
                values@.len() == result_size,
                initialized@.len() == result_size,
                input_index@ == index_of(p as int, s),
                forall|q: int|
                    0 <= q < result_size ==> initialized@[q] == (slot_state(
                        *self,
                        axes@,
                        keep_dims,
                        c,
                        init,
                        p as int,
                        q,
                    ) is Some),
                forall|q: int|
                    0 <= q < result_size ==> values@[q] == (match slot_state(
                        *self,
                        axes@,
                        keep_dims,
                        c,
                        init,
                        p as int,
                        q,
                    ) {
                        None => DType::zero_s(),
                        Some(a) => a,
                    }),
            decreases n - p,
        {
            proof {
                lemma_index_of(p as int, s);
            }
            let mut res_ix: usize = 0;
            let mut j: usize = 0;
            while j < result_rank
                invariant
                    0 <= j <= result_rank,
                    result_rank == rs.len(),
                    rs.len() == ms.len(),
                    forall|jj: int| 0 <= jj < rs.len() ==> #[trigger] rs[jj] >= 1,
                    forall|jj: int| 0 <= jj < ms.len() ==> #[trigger] ms[jj] < rank,
                    rank == input_index@.len(),
                    valid_index(input_index@, s),
                    rank == s.len(),
                    forall|jj: int|
                        0 <= jj < rs.len() ==> (rs[jj] == 1 || input_index@[#[trigger] ms[jj] as int]
                            < rs[jj]),
                    result_strides@.len() == rs.len(),
                    forall|jj: int| 0 <= jj < rs.len() ==> result_strides@[jj] == stride_at(rs, jj),
                    res_ix_map@ == ms,
                    result_size == prod_from(rs, 0),
                    res_ix == proj_prefix(input_index@, ms, rs, j as int),
                decreases result_rank - j,
            {
                proof {
                    lemma_proj_bound(input_index@, ms, rs, j as int);
                    lemma_proj_bound(input_index@, ms, rs, j as int + 1);
                    lemma_prod_from_nonneg(rs, j as int + 1);
                    lemma_prod_from_mono_all(rs);
                    assert(stride_at(rs, j as int) >= 0);
                }
                let m: usize = res_ix_map[j];
                proof {
                    assert(m == ms[j as int]);
                    assert(result_strides@[j as int] == stride_at(rs, j as int));
                    assert(proj_prefix(input_index@, ms, rs, j as int + 1) == proj_prefix(
                        input_index@,
                        ms,
                        rs,
                        j as int,
                    ) + input_index@[m as int] * stride_at(rs, j as int));
                    assert(input_index@[m as int] * stride_at(rs, j as int) >= 0)
                        by (nonlinear_arith)
                        requires
                            input_index@[m as int] >= 0,
                            stride_at(rs, j as int) >= 0,
                    ;
                    assert(proj_prefix(input_index@, ms, rs, j as int + 1) <= prod_from(rs, 0)
                        - prod_from(rs, j as int + 1));
                    assert(prod_from(rs, j as int + 1) >= 1);
                    assert(res_ix + input_index@[m as int] * stride_at(rs, j as int) <= result_size
                        - 1);
                    assert(input_index@[m as int] * (result_strides@[j as int] as int)
                        == input_index@[m as int] * stride_at(rs, j as int));
                    assert((result_strides@[j as int] as int) * input_index@[m as int]
                        == input_index@[m as int] * (result_strides@[j as int] as int))
                        by (nonlinear_arith);
                }
                res_ix = res_ix + result_strides[j] * input_index[m];
                j += 1;
            }
            proof {
                lemma_proj_bound(input_index@, ms, rs, rs.len() as int);
                assert(prod_from(rs, rs.len() as int) == 1);
                assert(res_ix < result_size);
                assert(res_ix == slot_of(p as int, s, axes@, keep_dims));
            }
            let v = self.get_ix(p);
            if !initialized[res_ix] {
                values.set(res_ix, apply_init_e(init, v));
                initialized.set(res_ix, true);
            } else {
                let cur = values[res_ix];
                values.set(res_ix, apply_combine_e(c, v, cur));
            }
            proof {
                assert forall|q: int| 0 <= q < result_size implies {
                    &&& initialized@[q] == (slot_state(
                        *self,
                        axes@,
                        keep_dims,
                        c,
                        init,
                        p as int + 1,
                        q,
                    ) is Some)
                    &&& values@[q] == (match slot_state(
                        *self,
                        axes@,
                        keep_dims,
                        c,
                        init,
                        p as int + 1,
                        q,
                    ) {
                        None => DType::zero_s(),
                        Some(a) => a,
                    })
                } by {
                    assert(slot_of(p as int, s, axes@, keep_dims) == res_ix);
                }
            }
            increment_index(&mut input_index, self.get_sh());
            p += 1;
        }
        let mut q: usize = 0;
        while q < result_size
            invariant
                0 <= q <= result_size,
                values@.len() == result_size,
                forall|qq: int|
                    q <= qq < result_size ==> values@[qq] == (match slot_state(
                        *self,
                        axes@,
                        keep_dims,
                        c,
                        init,
                        n as int,
                        qq,
                    ) {
                        None => DType::zero_s(),
                        Some(a) => a,
                    }),
                forall|qq: int|
                    0 <= qq < q ==> values@[qq] == apply_post(
                        post,
                        match slot_state(*self, axes@, keep_dims, c, init, n as int, qq) {
                            None => DType::zero_s(),
                            Some(a) => a,
                        },
                    ),
            decreases result_size - q,
        {
            let cur = values[q];
            values.set(q, apply_post_e(post, cur));
            q += 1;
        }
        proof {
            lemma_canonical_shape(rs);
            lemma_all_pos_prod_bounds(rs, 0);
        }
        let out = Tensor::new(result_shape, result_strides, result_size, values);
        return out;
    }
}

impl<DType: Element> Tensor<DType> {
    /// Whether the reduction axes form one contiguous increasing run, which
    /// enables the strided fast path.
    pub fn axes_continuous(&self, axes: &Vec<usize>) -> (r: bool)
        requires
            axes@.len() >= 1,
        ensures
            r == continuous_spec(axes@),
    {
        let mut last_ax: usize = axes[0];
        let n: usize = axes.len();
        let mut i: usize = 1;
        while i < n
            invariant
                n == axes@.len(),
                1 <= i <= n,
                last_ax == axes@[i - 1],
                forall|k: int| 1 <= k < i ==> #[trigger] axes@[k] <= axes@[k - 1] + 1,
            decreases n - i,
        {
            if axes[i] > last_ax && axes[i] - last_ax > 1 {
                return false;
            }
            last_ax = axes[i];
            i += 1;
        }
        return true;
    }

    /// Generic axis reduction: fold the tensor over the given strictly
    /// increasing axes with a combine operation, an optional transform of
    /// each slot's first element, and an optional postprocess per slot.
    /// When the axes cover the whole tensor and no dimensions are kept, the
    /// result is a one-element tensor holding the full fold.
    #[verifier::rlimit(100)]
    #[verifier::spinoff_prover]
    pub fn _pool(
        &self,
        axes: &Vec<usize>,
        keep_dims: bool,
        c: CombineOp,
        init: InitOp,
        post: PostOp<DType>,
    ) -> (r: Result<Tensor<DType>, TensorError>)
        requires
            self.canonical(),
        ensures
            pool_ensures(*self, axes@, keep_dims, c, init, post, r),
    {
        let rank: usize = self.rank();
        if axes.len() == 0 {
            return Err(TensorError::ShapeMismatch);
        }
        let na: usize = axes.len();
        let mut i: usize = 0;
        while i < na
            invariant
                na == axes@.len(),
                na >= 1,
                rank == self.sh().len(),
                0 <= i <= na,
                forall|k: int| 0 <= k < i ==> axes@[k] < rank,
            decreases na - i,
        {
            if axes[i] >= rank {
                return Err(TensorError::AxisOutOfRange);
            }
            i += 1;
        }
        let mut k: usize = 1;
        while k < na
            invariant
                na == axes@.len(),
                na >= 1,
                rank == self.sh().len(),
                axes_in_range(axes@, rank as int),
                1 <= k <= na,
                forall|j: int| 0 <= j < k - 1 ==> #[trigger] axes@[j] < axes@[j + 1],
            decreases na - k,
        {
            if axes[k] <= axes[k - 1] {
                return Err(TensorError::ShapeMismatch);
            }
            k += 1;
        }
        if self.size == 0 {
            return Err(TensorError::EmptyTensor);
        }
        if !keep_dims && axes.len() == rank {
            let n: usize = self.size;
            let mut value: DType = apply_init_e(init, self.get_ix(0));
            let mut p: usize = 1;
            while p < n
                invariant
                    self.wf(),
                    n == self.size,
                    1 <= p <= n,
                    value == fold_all(*self, c, init, p as int),
                decreases n - p,
            {
                value = apply_combine_e(c, self.get_ix(p), value);
                p += 1;
            }
            value = apply_post_e(post, value);
            let mut shape: Vec<usize> = Vec::new();
            shape.push(1);
            let mut strides: Vec<usize> = Vec::new();
            strides.push(1);
            let mut values: Vec<DType> = Vec::new();
            values.push(value);
            let out = Tensor::new(shape, strides, 1, values);
            proof {
                assert(out.sh() =~= seq![1usize]);
                assert(out.st() =~= seq![1usize]);
                assert(out.vals() =~= seq![
                    apply_post(post, fold_all(*self, c, init, self.size as int)),
                ]);
                assert(out.sh().len() == 1 && out.sh()[0] == 1usize);
                assert(prod_from(out.sh(), 1) == 1);
                assert(size_spec(out.sh()) == out.sh()[0] * prod_from(out.sh(), 1));
                assert(1 * 1 == 1) by (nonlinear_arith);
                let d0 = out.sh()[0] as int;
                let t0 = out.st()[0] as int;
                assert((d0 - 1) * t0 == 0) by (nonlinear_arith)
                    requires
                        d0 == 1,
                ;
                assert(crate::shape::max_offset_prefix(out.sh(), out.st(), 1)
                    == crate::shape::max_offset_prefix(out.sh(), out.st(), 0) + (d0 - 1) * t0);
                assert(crate::shape::max_offset(out.sh(), out.st()) == 0);
            }
            return Ok(out);
        }
        proof {
            if !keep_dims {
                lemma_axes_le_rank(axes@, rank as int);
            }
        }
        if self.axes_continuous(axes) {
            let out = self.pool_continuous(axes, keep_dims, c, init, post);
            proof {
                let s = self.sh();
                let a0 = axes@[0] as int;
                let al = axes@[axes@.len() - 1] as int;
                let blk = prod_from(s, a0);
                let cont = prod_from(s, al + 1);
                let sum = crate::shape::prod_range(s, a0, al + 1);
                let nsteps = crate::shape::prod_range(s, 0, a0);
                assert forall|m: int| 0 <= m < s.len() implies s[m] >= 1 by {
                    if s[m] == 0 {
                        lemma_prod_from_zero_factor(s, 0, m);
                    }
                }
                lemma_continuous_layout(s, axes@, keep_dims);
                assert forall|q: int| 0 <= q < out.size implies out.vals()[q] == apply_post(
                    post,
                    match slot_state(*self, axes@, keep_dims, c, init, self.size as int, q) {
                        None => DType::zero_s(),
                        Some(a) => a,
                    },
                ) by {
                    vstd::arithmetic::div_mod::lemma_fundamental_div_mod(q, cont);
                    vstd::arithmetic::div_mod::lemma_mod_bound(q, cont);
                    vstd::arithmetic::div_mod::lemma_div_pos_is_pos(q, cont);
                    let b = q / cont;
                    let j = q % cont;
                    assert(b < nsteps) by {
                        crate::shape::lemma_div_bound(q, nsteps, cont);
                    }
                    assert(q == b * cont + j) by (nonlinear_arith)
                        requires
                            q == cont * b + j,
                    ;
                    assert(out.vals()[b * cont + j] == apply_post(
                        post,
                        strided_fold(self.vals(), b * blk + j, cont, sum, c, init),
                    ));
                    lemma_reduction_paths_agree(*self, axes@, keep_dims, c, init, b, j, sum);
                    let plast = b * blk + (sum - 1) * cont + j;
                    assert forall|p: int|
                        plast + 1 <= p < self.size implies #[trigger] slot_of(
                        p,
                        s,
                        axes@,
                        keep_dims,
                    ) != q by {
                        if slot_of(p, s, axes@, keep_dims) == q {
                            lemma_hit_form(s, axes@, keep_dims, b, j, p);
                            let kk = choose|kk: int|
                                0 <= kk < sum && p == b * blk + #[trigger] (kk * cont) + j;
                            assert(kk * cont <= (sum - 1) * cont) by (nonlinear_arith)
                                requires
                                    kk <= sum - 1,
                                    cont >= 0,
                            ;
                            assert(p <= plast);
                        }
                    }
                    assert(0 <= plast && plast + 1 <= self.size) by {
                        lemma_strided_read_bounds(b, j, sum - 1, blk, cont, sum, nsteps);
                    }
                    lemma_state_stable(
                        *self,
                        axes@,
                        keep_dims,
                        c,
                        init,
                        plast + 1,
                        self.size as int,
                        q,
                    );
                }
            }
            return Ok(out);
        }
        return Ok(self.pool_generic(axes, keep_dims, c, init, post));
    }

    /// Sum over the given axes.
    pub fn _sum(&self, axes: &Vec<usize>, keep_dims: bool) -> (r: Result<
        Tensor<DType>,
        TensorError,
    >)
        requires
            self.canonical(),
        ensures
            pool_ensures(*self, axes@, keep_dims, CombineOp::Sum, InitOp::Id, PostOp::Id, r),
    {
        return self._pool(axes, keep_dims, CombineOp::Sum, InitOp::Id, PostOp::Id);
    }

    /// Sum of squares over the given axes.
    pub fn _sum_square(&self, axes: &Vec<usize>, keep_dims: bool) -> (r: Result<
        Tensor<DType>,
        TensorError,
    >)
        requires
            self.canonical(),
        ensures
            pool_ensures(
                *self,
                axes@,
                keep_dims,
                CombineOp::SumSquare,
                InitOp::Square,
                PostOp::Id,
                r,
            ),
    {
        return self._pool(axes, keep_dims, CombineOp::SumSquare, InitOp::Square, PostOp::Id);
    }

    /// Product over the given axes.
    pub fn _product(&self, axes: &Vec<usize>, keep_dims: bool) -> (r: Result<
        Tensor<DType>,
        TensorError,
    >)
        requires
            self.canonical(),
        ensures
            pool_ensures(*self, axes@, keep_dims, CombineOp::Prod, InitOp::Id, PostOp::Id, r),
    {
        return self._pool(axes, keep_dims, CombineOp::Prod, InitOp::Id, PostOp::Id);
    }

    /// Maximum over the given axes.
    pub fn _max(&self, axes: &Vec<usize>, keep_dims: bool) -> (r: Result<
        Tensor<DType>,
        TensorError,
    >)
        requires
            self.canonical(),
        ensures
            pool_ensures(*self, axes@, keep_dims, CombineOp::Max, InitOp::Id, PostOp::Id, r),
    {
        return self._pool(axes, keep_dims, CombineOp::Max, InitOp::Id, PostOp::Id);
    }

    /// Minimum over the given axes.
    pub fn _min(&self, axes: &Vec<usize>, keep_dims: bool) -> (r: Result<
        Tensor<DType>,
        TensorError,
    >)
        requires
            self.canonical(),
        ensures
            pool_ensures(*self, axes@, keep_dims, CombineOp::Min, InitOp::Id, PostOp::Id, r),
    {
        return self._pool(axes, keep_dims, CombineOp::Min, InitOp::Id, PostOp::Id);
    }
}

/// The product of the reduced dimensions: how many input elements fold into
/// each output slot of a dense reduction.
pub open spec fn pool_count(s: Seq<usize>, axes: Seq<usize>, k: int) -> int
    decreases k,
{
    if k <= 0 {
        1
    } else {
        pool_count(s, axes, k - 1) * s[axes[k - 1] as int]
    }
}

/// What the mean reductions return: the declared error exactly when the
/// inputs are rejected or the pool size cannot be represented, otherwise the
/// matching sum reduction postprocessed by division by the pool size.
pub open spec fn mean_ensures<T: Element>(
    t: Tensor<T>,
    axes: Seq<usize>,
    keep: bool,
    c: CombineOp,
    init: InitOp,
    r: Result<Tensor<T>, TensorError>,
) -> bool {
    if pool_error(t, axes) is Some {
        &&& r is Err
        &&& (r matches Err(e) ==> Some(e) == pool_error(t, axes))
    } else {
        let cnt = pool_count(t.sh(), axes, axes.len() as int);
        if cnt > usize::MAX {
            r == Err::<Tensor<T>, TensorError>(TensorError::UnrepresentableConstant)
        } else {
            match T::from_usize_s(cnt as usize) {
                None => r == Err::<Tensor<T>, TensorError>(TensorError::UnrepresentableConstant),
                Some(d) => pool_ensures(t, axes, keep, c, init, PostOp::DivBy(d), r),
            }
        }
    }
}

/// Pool counts over positive dimensions are positive and grow with each
/// reduced axis.
pub proof fn lemma_pool_count_bounds(s: Seq<usize>, axes: Seq<usize>, k: int)
    requires
        0 <= k <= axes.len(),
        axes_in_range(axes, s.len() as int),
        forall|i: int| 0 <= i < s.len() ==> s[i] >= 1,
    ensures
        pool_count(s, axes, k) >= 1,
        forall|m: int| 0 <= m <= k ==> #[trigger] pool_count(s, axes, m) <= pool_count(s, axes, k),
    decreases k,
{
    if k > 0 {
        lemma_pool_count_bounds(s, axes, k - 1);
        assert(s[axes[k - 1] as int] >= 1);
        assert forall|m: int| 0 <= m <= k implies #[trigger] pool_count(s, axes, m) <= pool_count(
            s,
            axes,
            k,
        ) by {
            if m < k {
                assert(pool_count(s, axes, m) <= pool_count(s, axes, k - 1));
                assert(pool_count(s, axes, k - 1) * 1 <= pool_count(s, axes, k - 1) * s[axes[k
                    - 1] as int]) by (nonlinear_arith)
                    requires
                        pool_count(s, axes, k - 1) >= 0,
                        s[axes[k - 1] as int] >= 1,
                ;
            } else {
                assert(pool_count(s, axes, k - 1) * 1 <= pool_count(s, axes, k - 1) * s[axes[k
                    - 1] as int]) by (nonlinear_arith)
                    requires
                        pool_count(s, axes, k - 1) >= 0,
                        s[axes[k - 1] as int] >= 1,
                ;
            }
        }
        assert(pool_count(s, axes, k - 1) * 1 <= pool_count(s, axes, k - 1) * s[axes[k - 1] as int])
            by (nonlinear_arith)
            requires
                pool_count(s, axes, k - 1) >= 0,
                s[axes[k - 1] as int] >= 1,
        ;
    }
}

impl<DType: Element> Tensor<DType> {
    /// Validates the axes exactly as `_pool` does, so the mean reductions
    /// can report the same errors before computing their pool size.
    #[verifier::rlimit(80)]
    fn check_axes(&self, axes: &Vec<usize>) -> (r: Option<TensorError>)
        requires
            self.wf(),
        ensures
            r == pool_error(*self, axes@),
            r is None ==> axes@.len() >= 1 && axes_in_range(axes@, self.sh().len() as int)
                && strictly_increasing(axes@) && self.size > 0,
    {
        let rank: usize = self.rank();
        if axes.len() == 0 {
            return Some(TensorError::ShapeMismatch);
        }
        let na: usize = axes.len();
        let mut i: usize = 0;
        while i < na
            invariant
                na == axes@.len(),
                na >= 1,
                rank == self.sh().len(),
                0 <= i <= na,
                forall|k: int| 0 <= k < i ==> axes@[k] < rank,
            decreases na - i,
        {
            if axes[i] >= rank {
                return Some(TensorError::AxisOutOfRange);
            }
            i += 1;
        }
        let mut k: usize = 1;
        while k < na
            invariant
                na == axes@.len(),
                na >= 1,
                rank == self.sh().len(),
                axes_in_range(axes@, rank as int),
                1 <= k <= na,
                forall|j: int| 0 <= j < k - 1 ==> #[trigger] axes@[j] < axes@[j + 1],
            decreases na - k,
        {
            if axes[k] <= axes[k - 1] {
                return Some(TensorError::ShapeMismatch);
            }
            k += 1;
        }
        if self.size == 0 {
            return Some(TensorError::EmptyTensor);
        }
        return None;
    }

    /// The product of the reduced dimensions, or `UnrepresentableConstant`
    /// when it exceeds the machine word.
    fn compute_pool_size(&self, axes: &Vec<usize>) -> (r: Result<usize, TensorError>)
        requires
            self.wf(),
            axes@.len() >= 1,
            axes_in_range(axes@, self.sh().len() as int),
            strictly_increasing(axes@),
            self.size > 0,
        ensures
            pool_count(self.sh(), axes@, axes@.len() as int) > usize::MAX <==> r == Err::<
                usize,
                TensorError,
            >(TensorError::UnrepresentableConstant),
            r matches Ok(v) ==> v == pool_count(self.sh(), axes@, axes@.len() as int),
            r is Err ==> r == Err::<usize, TensorError>(TensorError::UnrepresentableConstant),
    {
        let ghost s = self.sh();
        proof {
            assert forall|j: int| 0 <= j < s.len() implies s[j] >= 1 by {
                if s[j] == 0 {
                    lemma_prod_from_zero_factor(s, 0, j);
                }
            }
        }
        let na: usize = axes.len();
        let mut pool_size: usize = 1;
        let mut i: usize = 0;
        while i < na
            invariant
                self.wf(),
                s == self.sh(),
                na == axes@.len(),
                axes_in_range(axes@, s.len() as int),
                forall|j: int| 0 <= j < s.len() ==> s[j] >= 1,
                0 <= i <= na,
                pool_size == pool_count(s, axes@, i as int),
            decreases na - i,
        {
            proof {
                lemma_pool_count_bounds(s, axes@, i as int);
            }
            let d: usize = self.get_dim_size(axes[i]);
            match pool_size.checked_mul(d) {
                Some(v) => {
                    pool_size = v;
                },
                None => {
                    proof {
                        lemma_pool_count_bounds(s, axes@, axes@.len() as int);
                        assert(pool_count(s, axes@, i as int + 1) <= pool_count(
                            s,
                            axes@,
                            axes@.len() as int,
                        ));
                    }
                    return Err(TensorError::UnrepresentableConstant);
                },
            }
            i += 1;
        }
        return Ok(pool_size);
    }

    /// Mean over the given axes: the sum divided by the pool size, which
    /// must be representable in the element type.
    pub fn _reduce_mean(&self, axes: &Vec<usize>, keep_dims: bool) -> (r: Result<
        Tensor<DType>,
        TensorError,
    >)
        requires
            self.canonical(),
        ensures
            mean_ensures(*self, axes@, keep_dims, CombineOp::Sum, InitOp::Id, r),
    {
        match self.check_axes(axes) {
            Some(e) => {
                return Err(e);
            },
            None => {},
        }
        let pool_size: usize = match self.compute_pool_size(axes) {
            Ok(v) => v,
            Err(e) => {
                return Err(e);
            },
        };
        let d: DType = match DType::from_usize_e(pool_size) {
            Some(d) => d,
            None => {
                return Err(TensorError::UnrepresentableConstant);
            },
        };
        return self._pool(axes, keep_dims, CombineOp::Sum, InitOp::Id, PostOp::DivBy(d));
    }

    /// Mean of squares over the given axes: the sum of squares divided by
    /// the pool size, which must be representable in the element type.
    pub fn _reduce_mean_square(&self, axes: &Vec<usize>, keep_dims: bool) -> (r: Result<
        Tensor<DType>,
        TensorError,
    >)
        requires
            self.canonical(),
        ensures
            mean_ensures(*self, axes@, keep_dims, CombineOp::SumSquare, InitOp::Square, r),
    {
        match self.check_axes(axes) {
            Some(e) => {
                return Err(e);
            },
            None => {},
        }
        let pool_size: usize = match self.compute_pool_size(axes) {
            Ok(v) => v,
            Err(e) => {
                return Err(e);
            },
        };
        let d: DType = match DType::from_usize_e(pool_size) {
            Some(d) => d,
            None => {
                return Err(TensorError::UnrepresentableConstant);
            },
        };
        return self._pool(axes, keep_dims, CombineOp::SumSquare, InitOp::Square, PostOp::DivBy(d));
    }

    /// The shared engine of the extremal-coordinate reductions: walk every
    /// element with the odometer, project the kept axes onto the output
    /// slot, and keep the coordinates of the slot's extremal element under
    /// the requested tie-break.
    #[verifier::rlimit(100)]
    #[verifier::spinoff_prover]
    fn arg_reduce(&self, axes: &Vec<usize>, select_last_index: bool, is_max: bool) -> (r: Result<
        Tensor<u32>,
        TensorError,
    >)
        requires
            self.canonical(),
        ensures
            arg_ensures(*self, axes@, select_last_index, is_max, r),
    {
        match self.check_axes(axes) {
            Some(e) => {
                return Err(e);
            },
            None => {},
        }
        let ghost s = self.sh();
        let rank: usize = self.rank();
        let na: usize = axes.len();
        proof {
            assert forall|m: int| 0 <= m < rank implies s[m] >= 1 by {
                if s[m] == 0 {
                    lemma_prod_from_zero_factor(s, 0, m);
                }
            }
        }
        let mut jw: usize = 0;
        while jw < na
            invariant
                self.wf(),
                s == self.sh(),
                rank == s.len(),
                na == axes@.len(),
                na >= 1,
                axes_in_range(axes@, rank as int),
                strictly_increasing(axes@),
                self.size > 0,
                0 <= jw <= na,
                forall|k: int| 0 <= k < jw ==> #[trigger] s[axes@[k] as int] <= u32::MAX,
            decreases na - jw,
        {
            if self.get_dim_size(axes[jw]) > u32::MAX as usize {
                return Err(TensorError::UnrepresentableConstant);
            }
            jw += 1;
        }
        let (kept_shape, res_ix_map): (Vec<usize>, Vec<usize>) = reduced_layout(
            &self.shape,
            axes,
            false,
        );
        let ghost dsh = drop_shape(s, axes@);
        let ghost ms = map_spec(rank as int, axes@, false);
        let ghost ash = arg_shape(s, axes@);
        proof {
            lemma_reduced_shape_bounds(s, axes@, false);
            assert(prod_from(s, 0) == self.size);
            lemma_prod_from_mono_all(kept_shape@);
        }
        let agg_size: usize = if kept_shape.len() == 0 {
            1
        } else {
            get_size(&kept_shape)
        };
        proof {
            assert(agg_size == prod_from(dsh, 0));
            assert(ash.drop_last() =~= dsh);
            assert(ash.last() == na);
            lemma_prod_from_drop_last(ash, 0);
            assert(size_spec(ash) == prod_from(dsh, 0) * na);
        }
        let result_size: usize = match agg_size.checked_mul(na) {
            Some(v) => v,
            None => {
                return Err(TensorError::UnrepresentableConstant);
            },
        };
        let mut result_shape: Vec<usize> = kept_shape;
        result_shape.push(na);
        proof {
            assert(result_shape@ =~= ash);
            assert forall|k: int| 0 <= k < ash.len() implies #[trigger] ash[k] >= 1 by {
                if k < dsh.len() {
                    assert(ash[k] == dsh[k]);
                }
            }
            lemma_prod_from_mono_all(result_shape@);
            assert(size_spec(result_shape@) == result_size);
        }
        let result_strides: Vec<usize> = compute_strides(&result_shape);
        let mut agg_shape: Vec<usize> = Vec::new();
        let mut zk: usize = 0;
        let kept_len: usize = result_shape.len() - 1;
        proof {
            assert(ash == dsh + seq![na as usize]) by {
                assert(axes@.len() == na);
                assert(seq![axes@.len() as usize] =~= seq![na as usize]);
            }
        }
        while zk < kept_len
            invariant
                result_shape@ == ash,
                ash == dsh + seq![na as usize],
                kept_len == dsh.len(),
                kept_len + 1 == ash.len(),
                0 <= zk <= kept_len,
                agg_shape@ =~= dsh.take(zk as int),
            decreases kept_len - zk,
        {
            proof {
                assert(zk < dsh.len());
                assert((dsh + seq![na as usize])[zk as int] == dsh[zk as int]);
                assert(result_shape@[zk as int] == dsh[zk as int]);
            }
            agg_shape.push(result_shape[zk]);
            zk += 1;
        }
        proof {
            assert(agg_shape@ =~= dsh);
            assert(crate::shape::fits_usize(dsh)) by {
                lemma_prod_from_mono_all(dsh);
            }
        }
        let agg_strides: Vec<usize> = compute_strides(&agg_shape);
        let zero_v = DType::zero_e();
        let mut values: Vec<u32> = Vec::new();
        let mut z1: usize = 0;
        while z1 < result_size
            invariant
                0 <= z1 <= result_size,
                values@.len() == z1,
                forall|m: int| 0 <= m < z1 ==> values@[m] == 0u32,
            decreases result_size - z1,
        {
            values.push(0);
            z1 += 1;
        }
        let mut max_vals: Vec<DType> = Vec::new();
        let mut initialized: Vec<bool> = Vec::new();
        let mut z2: usize = 0;
        while z2 < agg_size
            invariant
                0 <= z2 <= agg_size,
                zero_v == DType::zero_s(),
                max_vals@.len() == z2,
                initialized@.len() == z2,
                forall|m: int| 0 <= m < z2 ==> initialized@[m] == false,
            decreases agg_size - z2,
        {
            max_vals.push(zero_v);
            initialized.push(false);
            z2 += 1;
        }
        let mut input_index: Vec<usize> = Vec::new();
        let mut z3: usize = 0;
        while z3 < rank
            invariant
                0 <= z3 <= rank,
                input_index@.len() == z3,
                forall|m: int| 0 <= m < z3 ==> input_index@[m] == 0usize,
            decreases rank - z3,
        {
            input_index.push(0);
            z3 += 1;
        }
        proof {
            assert(input_index@ =~= zero_index(rank as int));
            assert forall|q: int| 0 <= q < agg_size implies #[trigger] arg_slot_ok(
                *self,
                axes@,
                is_max,
                select_last_index,
                0,
                q,
                max_vals@,
                values@,
                na as int,
            ) by {
                assert forall|j: int| 0 <= j < na implies #[trigger] values@[q * na + j]
                    == 0u32 by {
                    assert(q * na + j >= 0) by (nonlinear_arith)
                        requires
                            q >= 0,
                            j >= 0,
                            na >= 0,
                    ;
                    assert(q * na + j < (q + 1) * na) by (nonlinear_arith)
                        requires
                            0 <= j < na,
                    ;
                    assert((q + 1) * na <= agg_size as int * na as int) by (nonlinear_arith)
                        requires
                            q + 1 <= agg_size,
                            na >= 0,
                    ;
                }
            }
        }
        let n: usize = self.size;
        let result_rank: usize = kept_len;
        let mut p: usize = 0;
        while p < n
            invariant
                self.canonical(),
                s == self.sh(),
                rank == s.len(),
                n == self.size,
                n > 0,
                n == prod_from(s, 0),
                forall|m: int| 0 <= m < rank ==> s[m] >= 1,
                na == axes@.len(),
                na >= 1,
                axes_in_range(axes@, rank as int),
                strictly_increasing(axes@),
                forall|k: int| 0 <= k < na ==> #[trigger] s[axes@[k] as int] <= u32::MAX,
                dsh == drop_shape(s, axes@),
                ms == map_spec(rank as int, axes@, false),
                dsh.len() == ms.len(),
                result_rank == dsh.len(),
                forall|k: int| 0 <= k < dsh.len() ==> #[trigger] dsh[k] >= 1,
                forall|k: int| 0 <= k < ms.len() ==> #[trigger] ms[k] < rank,
                res_ix_map@ == ms,
                agg_strides@.len() == dsh.len(),
                forall|k: int| 0 <= k < dsh.len() ==> agg_strides@[k] == stride_at(dsh, k),
                agg_size == prod_from(dsh, 0),
                result_size == agg_size * na,
                0 <= p <= n,
                values@.len() == result_size,
                max_vals@.len() == agg_size,
                initialized@.len() == agg_size,
                input_index@ == index_of(p as int, s),
                forall|q: int|
                    0 <= q < agg_size ==> initialized@[q] == (arg_state(
                        *self,
                        axes@,
                        is_max,
                        select_last_index,
                        p as int,
                        q,
                    ) is Some),
                forall|q: int|
                    0 <= q < agg_size ==> #[trigger] arg_slot_ok(
                        *self,
                        axes@,
                        is_max,
                        select_last_index,
                        p as int,
                        q,
                        max_vals@,
                        values@,
                        na as int,
                    ),
            decreases n - p,
        {
            proof {
                lemma_index_of(p as int, s);
                lemma_kept_axes_not_reduced(rank as int, axes@);
                assert forall|jj: int| 0 <= jj < dsh.len() implies (dsh[jj] == 1 || input_index@[
                    #[trigger] ms[jj] as int] < dsh[jj]) by {
                    assert(dsh[jj] == s[ms[jj] as int]);
                }
            }
            let mut val_ix: usize = 0;
            let mut k: usize = 0;
            while k < result_rank
                invariant
                    0 <= k <= result_rank,
                    result_rank == dsh.len(),
                    dsh.len() == ms.len(),
                    forall|jj: int| 0 <= jj < dsh.len() ==> #[trigger] dsh[jj] >= 1,
                    forall|jj: int| 0 <= jj < ms.len() ==> #[trigger] ms[jj] < rank,
                    rank == input_index@.len(),
                    valid_index(input_index@, s),
                    rank == s.len(),
                    forall|jj: int|
                        0 <= jj < dsh.len() ==> (dsh[jj] == 1 || input_index@[#[trigger] ms[jj] as int]
                            < dsh[jj]),
                    agg_strides@.len() == dsh.len(),
                    forall|jj: int| 0 <= jj < dsh.len() ==> agg_strides@[jj] == stride_at(dsh, jj),
                    res_ix_map@ == ms,
                    agg_size == prod_from(dsh, 0),
                    val_ix == proj_prefix(input_index@, ms, dsh, k as int),
                decreases result_rank - k,
            {
                proof {
                    lemma_proj_bound(input_index@, ms, dsh, k as int);
                    lemma_proj_bound(input_index@, ms, dsh, k as int + 1);
                    lemma_prod_from_nonneg(dsh, k as int + 1);
                    lemma_prod_from_mono_all(dsh);
                    assert(stride_at(dsh, k as int) >= 0);
                }
                let m: usize = res_ix_map[k];
                proof {
                    assert(m == ms[k as int]);
                    assert(agg_strides@[k as int] == stride_at(dsh, k as int));
                    assert(proj_prefix(input_index@, ms, dsh, k as int + 1) == proj_prefix(
                        input_index@,
                        ms,
                        dsh,
                        k as int,
                    ) + input_index@[m as int] * stride_at(dsh, k as int));
                    assert(input_index@[m as int] * stride_at(dsh, k as int) >= 0)
                        by (nonlinear_arith)
                        requires
                            input_index@[m as int] >= 0,
                            stride_at(dsh, k as int) >= 0,
                    ;
                    assert(proj_prefix(input_index@, ms, dsh, k as int + 1) <= prod_from(dsh, 0)
                        - prod_from(dsh, k as int + 1));
                    assert(prod_from(dsh, k as int + 1) >= 1);
                    assert(val_ix + input_index@[m as int] * stride_at(dsh, k as int) <= agg_size
                        - 1);
                    assert(input_index@[m as int] * (agg_strides@[k as int] as int)
                        == input_index@[m as int] * stride_at(dsh, k as int));
                    assert((agg_strides@[k as int] as int) * input_index@[m as int]
                        == input_index@[m as int] * (agg_strides@[k as int] as int))
                        by (nonlinear_arith);
                }
                val_ix = val_ix + agg_strides[k] * input_index[m];
                k += 1;
            }
            proof {
                lemma_proj_bound(input_index@, ms, dsh, dsh.len() as int);
                assert(prod_from(dsh, dsh.len() as int) == 1);
                assert(val_ix < agg_size);
                assert(val_ix == slot_of(p as int, s, axes@, false));
                assert(val_ix as int * na as int + na as int == (val_ix as int + 1) * na as int)
                    by (nonlinear_arith);
                assert((val_ix as int + 1) * na as int <= agg_size as int * na as int)
                    by (nonlinear_arith)
                    requires
                        val_ix as int + 1 <= agg_size as int,
                        na >= 0,
                ;
                assert(val_ix as int * na as int >= 0) by (nonlinear_arith)
                    requires
                        val_ix >= 0,
                        na >= 0,
                ;
            }
            let ghost mv_before = max_vals@;
            let ghost init_before = initialized@;
            let ghost vbefore = values@;
            let ghost pnext = p as int + 1;
            let ghost cur = arg_state(*self, axes@, is_max, select_last_index, p as int, val_ix as int);
            let ghost coords_p = arg_coords(s, axes@, p as int);
            let v = self.get_ix(p);
            let was_initialized = initialized[val_ix];
            let takes_slot: bool = if !was_initialized {
                true
            } else {
                let mv = max_vals[val_ix];
                if is_max {
                    if !v.le_e(mv) {
                        true
                    } else {
                        select_last_index && mv.le_e(v)
                    }
                } else {
                    if !mv.le_e(v) {
                        true
                    } else {
                        select_last_index && v.le_e(mv)
                    }
                }
            };
            if takes_slot {
                max_vals.set(val_ix, v);
                initialized.set(val_ix, true);
                let mut jc: usize = 0;
                while jc < na
                    invariant
                        self.wf(),
                        s == self.sh(),
                        rank == s.len(),
                        na == axes@.len(),
                        axes_in_range(axes@, rank as int),
                        forall|kk: int| 0 <= kk < na ==> #[trigger] s[axes@[kk] as int] <= u32::MAX,
                        rank == input_index@.len(),
                        valid_index(input_index@, s),
                        0 <= p < n,
                        input_index@ == index_of(p as int, s),
                        coords_p == arg_coords(s, axes@, p as int),
                        0 <= jc <= na,
                        values@.len() == vbefore.len(),
                        values@.len() == result_size,
                        0 <= val_ix,
                        val_ix as int * na as int >= 0,
                        (val_ix as int + 1) * na as int <= result_size,
                        val_ix as int * na as int + na as int == (val_ix as int + 1) * na as int,
                        forall|m: int|
                            0 <= m < result_size && !(val_ix as int * na as int <= m < val_ix as int
                                * na as int + na as int) ==> values@[m] == vbefore[m],
                        forall|j: int|
                            0 <= j < jc ==> #[trigger] values@[val_ix as int * na as int + j]
                                == coords_p[j],
                        forall|j: int|
                            jc <= j < na ==> #[trigger] values@[val_ix as int * na as int + j]
                                == vbefore[val_ix as int * na as int + j],
                    decreases na - jc,
                {
                    let ax: usize = axes[jc];
                    let coord: usize = input_index[ax];
                    proof {
                        assert(coord < s[ax as int]);
                        assert(coord <= u32::MAX);
                        assert(coords_p[jc as int] == (index_of(p as int, s)[axes@[jc as int] as int]
                            as u32));
                    }
                    values.set(val_ix * na + jc, coord as u32);
                    jc += 1;
                }
                proof {
                    assert forall|q: int| 0 <= q < agg_size implies initialized@[q] == (arg_state(
                        *self,
                        axes@,
                        is_max,
                        select_last_index,
                        pnext,
                        q,
                    ) is Some) && #[trigger] arg_slot_ok(
                        *self,
                        axes@,
                        is_max,
                        select_last_index,
                        pnext,
                        q,
                        max_vals@,
                        values@,
                        na as int,
                    ) by {
                        assert(arg_slot_ok(
                            *self,
                            axes@,
                            is_max,
                            select_last_index,
                            p as int,
                            q,
                            mv_before,
                            vbefore,
                            na as int,
                        ));
                        assert(slot_of(p as int, s, axes@, false) == val_ix);
                        if q == val_ix {
                            assert(arg_state(*self, axes@, is_max, select_last_index, pnext, q)
                                == Some((v, coords_p))) by {
                                if init_before[q] {
                                    assert(cur is Some);
                                    assert(mv_before[q] == cur->Some_0.0);
                                    assert(arg_better(
                                        is_max,
                                        select_last_index,
                                        v,
                                        cur->Some_0.0,
                                    ));
                                }
                            }
                        } else {
                            assert(arg_state(*self, axes@, is_max, select_last_index, pnext, q)
                                == arg_state(*self, axes@, is_max, select_last_index, p as int, q));
                            assert(max_vals@[q] == mv_before[q]);
                            assert(initialized@[q] == init_before[q]);
                            assert forall|j: int| 0 <= j < na implies #[trigger] values@[q * na + j]
                                == vbefore[q * na + j] by {
                                lemma_arg_block_disjoint(q, val_ix as int, j, na as int, agg_size as int);
                            }
                        }
                    }
                }
            } else {
                proof {
                    assert forall|q: int| 0 <= q < agg_size implies initialized@[q] == (arg_state(
                        *self,
                        axes@,
                        is_max,
                        select_last_index,
                        pnext,
                        q,
                    ) is Some) && #[trigger] arg_slot_ok(
                        *self,
                        axes@,
                        is_max,
                        select_last_index,
                        pnext,
                        q,
                        max_vals@,
                        values@,
                        na as int,
                    ) by {
                        assert(arg_slot_ok(
                            *self,
                            axes@,
                            is_max,
                            select_last_index,
                            p as int,
                            q,
                            mv_before,
                            vbefore,
                            na as int,
                        ));
                        assert(slot_of(p as int, s, axes@, false) == val_ix);
                        if q == val_ix {
                            assert(init_before[q]);
                            assert(cur is Some);
                            assert(mv_before[q] == cur->Some_0.0);
                            assert(!arg_better(is_max, select_last_index, v, cur->Some_0.0));
                            assert(arg_state(*self, axes@, is_max, select_last_index, pnext, q)
                                == cur);
                        }
                    }
                }
            }
            increment_index(&mut input_index, self.get_sh());
            p += 1;
        }
        proof {
            lemma_canonical_shape(result_shape@);
            lemma_all_pos_prod_bounds(result_shape@, 0);
        }
        let out = Tensor::new(result_shape, result_strides, result_size, values);
        proof {
            assert forall|q: int, j: int|
                0 <= q < prod_from(dsh, 0) && 0 <= j < na implies #[trigger] out.vals()[q * na + j]
                == (match arg_state(*self, axes@, is_max, select_last_index, self.size as int, q) {
                Some(pair) => pair.1[j],
                None => 0u32,
            }) by {
                assert(arg_slot_ok(
                    *self,
                    axes@,
                    is_max,
                    select_last_index,
                    self.size as int,
                    q,
                    max_vals@,
                    out.vals(),
                    na as int,
                ));
            }
        }
        return Ok(out);
    }

    /// Per output slot, the coordinate vector along the reduced axes of the
    /// largest element; ties keep the first-seen coordinates unless
    /// `select_last_index` is set.
    pub fn _arg_max(&self, axes: &Vec<usize>, select_last_index: bool) -> (r: Result<
        Tensor<u32>,
        TensorError,
    >)
        requires
            self.canonical(),
        ensures
            arg_ensures(*self, axes@, select_last_index, true, r),
    {
        return self.arg_reduce(axes, select_last_index, true);
    }

    /// Per output slot, the coordinate vector along the reduced axes of the
    /// smallest element; ties keep the first-seen coordinates unless
    /// `select_last_index` is set.
    pub fn _arg_min(&self, axes: &Vec<usize>, select_last_index: bool) -> (r: Result<
        Tensor<u32>,
        TensorError,
    >)
        requires
            self.canonical(),
        ensures
            arg_ensures(*self, axes@, select_last_index, false, r),
    {
        return self.arg_reduce(axes, select_last_index, false);
    }
}

/// A strictly increasing axis list starts no lower than its position.
pub proof fn lemma_axes_lower(axes: Seq<usize>, k: int)
    requires
        strictly_increasing(axes),
        0 <= k < axes.len(),
    ensures
        axes[k] >= k,
    decreases k,
{
    if k > 0 {
        lemma_axes_lower(axes, k - 1);
    }
}

/// A strictly increasing axis list below the rank has at most `rank`
/// entries.
pub proof fn lemma_axes_le_rank(axes: Seq<usize>, rank: int)
    requires
        strictly_increasing(axes),
        axes_in_range(axes, rank),
        axes.len() >= 1,
    ensures
        axes.len() <= rank,
{
    lemma_axes_lower(axes, axes.len() - 1);
}

/// The reduced shape and the output-to-input axis map of a reduction over a
/// plain shape vector, computed in one pass over the axes.
pub fn reduced_layout(shape: &Vec<usize>, axes: &Vec<usize>, keep_dims: bool) -> (r: (
    Vec<usize>,
    Vec<usize>,
))
    requires
        axes@.len() >= 1,
        axes_in_range(axes@, shape@.len() as int),
        strictly_increasing(axes@),
    ensures
        r.0@ == reduced_shape(shape@, axes@, keep_dims),
        r.1@ == map_spec(shape@.len() as int, axes@, keep_dims),
        r.0@.len() == r.1@.len(),
        keep_dims || r.1@.len() == shape@.len() - axes@.len(),
{
    let ghost s = shape@;
    let rank: usize = shape.len();
    let mut result_shape: Vec<usize> = Vec::new();
    let mut res_ix_map: Vec<usize> = Vec::new();
    let mut axes_ix: usize = 0;
    let mut i: usize = 0;
    while i < rank
        invariant
            s == shape@,
            rank == s.len(),
            axes@.len() >= 1,
            axes_in_range(axes@, rank as int),
            strictly_increasing(axes@),
            0 <= i <= rank,
            0 <= axes_ix <= axes@.len(),
            forall|k: int| 0 <= k < axes_ix ==> axes@[k] < i,
            forall|k: int| axes_ix <= k < axes@.len() ==> axes@[k] >= i,
            res_ix_map@ == map_spec(i as int, axes@, keep_dims),
            result_shape@.len() == res_ix_map@.len(),
            res_ix_map@.len() == if keep_dims {
                i as int
            } else {
                i - axes_ix
            },
            forall|j: int|
                0 <= j < result_shape@.len() ==> result_shape@[j] == (
                if axes@.contains(#[trigger] res_ix_map@[j]) {
                    1usize
                } else {
                    s[res_ix_map@[j] as int]
                }),
        decreases rank - i,
    {
        let ghost old_ix = axes_ix as int;
        let is_reduced = axes_ix < axes.len() && axes[axes_ix] == i;
        proof {
            if is_reduced {
                assert(axes@.contains(i as usize));
            } else {
                if axes@.contains(i as usize) {
                    let m = choose|m: int| 0 <= m < axes@.len() && axes@[m] == i as usize;
                    assert(m >= old_ix);
                    if m > old_ix {
                        lemma_sorted_global(axes@, old_ix, m);
                        assert(false);
                    }
                    assert(false);
                }
            }
        }
        if is_reduced {
            axes_ix += 1;
            proof {
                assert forall|k: int| axes_ix <= k < axes@.len() implies axes@[k] >= i + 1 by {
                    if k > old_ix {
                        lemma_sorted_global(axes@, old_ix, k);
                    }
                }
            }
            if keep_dims {
                result_shape.push(1);
                res_ix_map.push(i);
                proof {
                    assert(res_ix_map@ =~= map_spec(i as int + 1, axes@, keep_dims));
                }
            } else {
                proof {
                    assert(res_ix_map@ =~= map_spec(i as int + 1, axes@, keep_dims));
                }
            }
        } else {
            proof {
                assert forall|k: int| axes_ix <= k < axes@.len() implies axes@[k] >= i + 1 by {
                    if k == old_ix {
                        assert(axes@[k] >= i);
                        assert(axes@[k] != i);
                    } else {
                        lemma_sorted_global(axes@, old_ix, k);
                        assert(axes@[old_ix] >= i);
                    }
                }
            }
            result_shape.push(shape[i]);
            res_ix_map.push(i);
            proof {
                assert(res_ix_map@ =~= map_spec(i as int + 1, axes@, keep_dims));
            }
        }
        i += 1;
    }
    proof {
        assert(axes_ix == axes@.len()) by {
            if axes_ix < axes@.len() {
                assert(axes@[axes_ix as int] >= rank);
                assert(axes@[axes_ix as int] < rank);
            }
        }
        lemma_kept_axes_in_range(rank as int, axes@, rank as int);
        lemma_kept_axes_not_reduced(rank as int, axes@);
        assert forall|j: int| 0 <= j < result_shape@.len() implies result_shape@[j]
            == reduced_shape(s, axes@, keep_dims)[j] by {
            let m = res_ix_map@[j];
            assert(result_shape@[j] == (if axes@.contains(m) {
                1usize
            } else {
                s[m as int]
            }));
            if keep_dims {
                assert(m == j as usize);
            } else {
                assert(m == kept_axes(rank as int, axes@)[j]);
                assert(!axes@.contains(m));
            }
        }
        assert(result_shape@ =~= reduced_shape(s, axes@, keep_dims));
    }
    return (result_shape, res_ix_map);
}

/// The shape an extremal-coordinate reduction produces: the kept axes
/// followed by one axis holding the coordinate vector along the reduced
/// axes.
pub open spec fn arg_shape(s: Seq<usize>, axes: Seq<usize>) -> Seq<usize> {
    drop_shape(s, axes) + seq![axes.len() as usize]
}

/// Whether a new element displaces the current extremal one: a strictly
/// better value always does, and an equal value does exactly when the
/// last-index tie-break is chosen.
pub open spec fn arg_better<T: Element>(is_max: bool, last: bool, v: T, mv: T) -> bool {
    if is_max {
        !v.le_s(mv) || (last && mv.le_s(v))
    } else {
        !mv.le_s(v) || (last && v.le_s(mv))
    }
}

/// The coordinate vector of input element `p` along the reduced axes.
pub open spec fn arg_coords(s: Seq<usize>, axes: Seq<usize>, p: int) -> Seq<u32> {
    Seq::new(axes.len(), |j: int| index_of(p, s)[axes[j] as int] as u32)
}

/// The extremal element of slot `q` after the first `n` inputs, paired with
/// its reduced-axis coordinates: `None` while untouched, then the running
/// winner under the tie-break policy.
pub open spec fn arg_state<T: Element>(
    t: Tensor<T>,
    axes: Seq<usize>,
    is_max: bool,
    last: bool,
    n: int,
    q: int,
) -> Option<(T, Seq<u32>)>
    decreases n,
{
    if n <= 0 {
        None
    } else {
        let prev = arg_state(t, axes, is_max, last, n - 1, q);
        if slot_of(n - 1, t.sh(), axes, false) == q {
            let v = t.vals()[n - 1];
            let coords = arg_coords(t.sh(), axes, n - 1);
            match prev {
                None => Some((v, coords)),
                Some(pair) => if arg_better(is_max, last, v, pair.0) {
                    Some((v, coords))
                } else {
                    Some(pair)
                },
            }
        } else {
            prev
        }
    }
}

/// One output slot of an extremal-coordinate reduction is in step with the
/// specification state: the stored extremal value and coordinate block
/// match the state after `n` inputs, untouched slots holding zeros.
pub open spec fn arg_slot_ok<T: Element>(
    t: Tensor<T>,
    axes: Seq<usize>,
    is_max: bool,
    last: bool,
    n: int,
    q: int,
    mv: Seq<T>,
    out: Seq<u32>,
    na: int,
) -> bool {
    match arg_state(t, axes, is_max, last, n, q) {
        Some(pair) => mv[q] == pair.0 && (forall|j: int|
            0 <= j < na ==> #[trigger] out[q * na + j] == pair.1[j]),
        None => forall|j: int| 0 <= j < na ==> #[trigger] out[q * na + j] == 0u32,
    }
}

/// Why an extremal-coordinate reduction rejects its inputs: the usual axis
/// and emptiness checks, a reduced dimension whose coordinates do not fit
/// the stored coordinate width, or an output too large for the machine
/// word.
pub open spec fn arg_error<T>(t: Tensor<T>, axes: Seq<usize>) -> Option<TensorError> {
    match pool_error(t, axes) {
        Some(e) => Some(e),
        None => if exists|j: int| 0 <= j < axes.len() && #[trigger] t.sh()[axes[j] as int]
            > u32::MAX {
            Some(TensorError::UnrepresentableConstant)
        } else if size_spec(arg_shape(t.sh(), axes)) > usize::MAX {
            Some(TensorError::UnrepresentableConstant)
        } else {
            None
        },
    }
}

/// What an extremal-coordinate reduction returns: the declared error
/// exactly when the inputs are rejected, otherwise a contiguous coordinate
/// tensor whose slot `q` holds the reduced-axis coordinates of that slot's
/// extremal element (zeros for a slot no element reaches).
pub open spec fn arg_ensures<T: Element>(
    t: Tensor<T>,
    axes: Seq<usize>,
    last: bool,
    is_max: bool,
    r: Result<Tensor<u32>, TensorError>,
) -> bool {
    &&& (r is Err <==> arg_error(t, axes) is Some)
    &&& (r matches Err(e) ==> Some(e) == arg_error(t, axes))
    &&& (r matches Ok(out) ==> {
        &&& out.canonical()
        &&& out.sh() == arg_shape(t.sh(), axes)
        &&& out.size == size_spec(arg_shape(t.sh(), axes))
        &&& forall|q: int, j: int|
            0 <= q < prod_from(drop_shape(t.sh(), axes), 0) && 0 <= j < axes.len()
                ==> #[trigger] out.vals()[q * axes.len() + j] == (match arg_state(
                t,
                axes,
                is_max,
                last,
                t.size as int,
                q,
            ) {
                Some(pair) => pair.1[j],
                None => 0u32,
            })
    })
}

/// Coordinate blocks of different output slots do not overlap.
proof fn lemma_arg_block_disjoint(q: int, w: int, j: int, na: int, agg: int)
    requires
        0 <= q < agg,
        0 <= w < agg,
        q != w,
        0 <= j < na,
    ensures
        0 <= q * na + j < agg * na,
        q * na + j < w * na || q * na + j >= w * na + na,
{
    assert(q * na + j >= 0) by (nonlinear_arith)
        requires
            q >= 0,
            j >= 0,
            na >= 0,
    ;
    assert(q * na + j < (q + 1) * na) by (nonlinear_arith)
        requires
            0 <= j < na,
    ;
    assert((q + 1) * na <= agg * na) by (nonlinear_arith)
        requires
            q + 1 <= agg,
            na >= 0,
    ;
    if q < w {
        assert((q + 1) * na <= w * na) by (nonlinear_arith)
            requires
                q + 1 <= w,
                na >= 0,
        ;
    } else {
        assert(q * na >= (w + 1) * na) by (nonlinear_arith)
            requires
                q >= w + 1,
                na >= 0,
        ;
        assert((w + 1) * na == w * na + na) by (nonlinear_arith);
    }
}

/// A strided fold: the combine of `k` elements read at `start`,
/// `start + step`, ..., the first through the init transform.
pub open spec fn strided_fold<T: Element>(
    vals: Seq<T>,
    start: int,
    step: int,
    k: int,
    c: CombineOp,
    init: InitOp,
) -> T
    decreases k,
{
    if k <= 1 {
        apply_init(init, vals[start])
    } else {
        apply_combine(c, vals[start + (k - 1) * step], strided_fold(vals, start, step, k - 1, c, init))
    }
}

/// A sorted contiguous axis run is an arithmetic progression from its first
/// axis.
pub proof fn lemma_axes_run(axes: Seq<usize>, j: int)
    requires
        strictly_increasing(axes),
        continuous_spec(axes),
        0 <= j < axes.len(),
    ensures
        axes[j] == axes[0] + j,
    decreases j,
{
    if j > 0 {
        lemma_axes_run(axes, j - 1);
    }
}

/// Range products only look at the range: sequences that agree there have
/// the same product.
pub proof fn lemma_prod_range_congruent(u: Seq<usize>, v: Seq<usize>, i: int, k: int)
    requires
        0 <= i,
        k <= u.len(),
        k <= v.len(),
        forall|m: int| i <= m < k ==> u[m] == v[m],
    ensures
        crate::shape::prod_range(u, i, k) == crate::shape::prod_range(v, i, k),
    decreases k - i,
{
    if i < k {
        lemma_prod_range_congruent(u, v, i + 1, k);
    }
}

/// A range of size-1 dimensions multiplies to one.
pub proof fn lemma_prod_range_ones(u: Seq<usize>, i: int, k: int)
    requires
        0 <= i,
        k <= u.len(),
        forall|m: int| i <= m < k ==> u[m] == 1,
    ensures
        crate::shape::prod_range(u, i, k) == 1,
    decreases k - i,
{
    if i < k {
        lemma_prod_range_ones(u, i + 1, k);
        assert((1 as int) * 1 == 1) by (nonlinear_arith);
    }
}

/// Over a contiguous reduced run, the reduced shape's element count is the
/// count of outer blocks times the contiguous tail: the reduced middle
/// segment drops out of the product.
#[verifier::rlimit(100)]
#[verifier::spinoff_prover]
pub proof fn lemma_reduced_prod_continuous(s: Seq<usize>, axes: Seq<usize>, keep: bool)
    requires
        s.len() <= usize::MAX,
        axes.len() >= 1,
        axes_in_range(axes, s.len() as int),
        strictly_increasing(axes),
        continuous_spec(axes),
        keep || axes.len() < s.len(),
    ensures
        prod_from(reduced_shape(s, axes, keep), 0) == crate::shape::prod_range(
            s,
            0,
            axes[0] as int,
        ) * prod_from(s, axes[axes.len() - 1] + 1),
{
    let a0 = axes[0] as int;
    let al = axes[axes.len() - 1] as int;
    let rank = s.len() as int;
    assert(al == a0 + axes.len() - 1) by {
        lemma_axes_run(axes, axes.len() - 1);
    }
    assert forall|m: int| 0 <= m < rank implies #[trigger] axes.contains(m as usize) <==> (a0 <= m
        <= al) by {
        if axes.contains(m as usize) {
            let j = choose|j: int| 0 <= j < axes.len() && axes[j] == m as usize;
            lemma_axes_run(axes, j);
        }
        if a0 <= m <= al {
            lemma_axes_run(axes, m - a0);
            assert(axes[m - a0] == m as usize);
        }
    }
    let ksh = keep_shape(s, axes);
    assert(ksh.len() == rank);
    crate::shape::lemma_prod_range_suffix(ksh, 0);
    crate::shape::lemma_prod_range_concat(ksh, 0, a0, al + 1);
    crate::shape::lemma_prod_range_concat(ksh, 0, al + 1, rank);
    lemma_prod_range_congruent(ksh, s, 0, a0);
    lemma_prod_range_congruent(ksh, s, al + 1, rank);
    lemma_prod_range_ones(ksh, a0, al + 1);
    crate::shape::lemma_prod_range_suffix(s, al + 1);
    assert(prod_from(ksh, 0) == crate::shape::prod_range(ksh, 0, al + 1) * crate::shape::prod_range(
        ksh,
        al + 1,
        rank,
    ));
    assert(crate::shape::prod_range(ksh, 0, al + 1) == crate::shape::prod_range(ksh, 0, a0)
        * crate::shape::prod_range(ksh, a0, al + 1));
    assert(crate::shape::prod_range(ksh, 0, a0) * 1 == crate::shape::prod_range(ksh, 0, a0))
        by (nonlinear_arith);
    if keep {
        assert(reduced_shape(s, axes, keep) == ksh);
    } else {
        lemma_keep_drop_same_prod(s, axes, rank);
        assert(drop_shape(s, axes) =~= Seq::new(
            kept_axes(rank, axes).len(),
            |j: int| s[kept_axes(rank, axes)[j] as int],
        ));
        assert(ksh =~= Seq::new(
            rank as nat,
            |i: int|
                if axes.contains(i as usize) {
                    1usize
                } else {
                    s[i]
                },
        ));
    }
}

/// The arithmetic of the continuous fast path: the outer block extent is
/// the reduced run times the contiguous tail, the whole tensor is the outer
/// blocks laid end to end, and the reduced element count is blocks times
/// tail.
#[verifier::rlimit(100)]
#[verifier::spinoff_prover]
pub proof fn lemma_continuous_layout(s: Seq<usize>, axes: Seq<usize>, keep: bool)
    requires
        s.len() <= usize::MAX,
        axes.len() >= 1,
        axes_in_range(axes, s.len() as int),
        strictly_increasing(axes),
        continuous_spec(axes),
        keep || axes.len() < s.len(),
        forall|j: int| 0 <= j < s.len() ==> s[j] >= 1,
    ensures
        prod_from(s, axes[0] as int) == crate::shape::prod_range(
            s,
            axes[0] as int,
            axes[axes.len() - 1] + 1,
        ) * prod_from(s, axes[axes.len() - 1] + 1),
        prod_from(s, 0) == crate::shape::prod_range(s, 0, axes[0] as int) * prod_from(
            s,
            axes[0] as int,
        ),
        crate::shape::prod_range(s, 0, axes[0] as int) >= 1,
        crate::shape::prod_range(s, axes[0] as int, axes[axes.len() - 1] + 1) >= 1,
        prod_from(s, axes[0] as int) >= 1,
        prod_from(s, axes[axes.len() - 1] + 1) >= 1,
{
    let rank = s.len() as int;
    let a0 = axes[0] as int;
    let al = axes[axes.len() - 1] as int;
    lemma_axes_run(axes, axes.len() - 1);
    assert(a0 <= al < rank);
    crate::shape::lemma_prod_range_suffix(s, 0);
    crate::shape::lemma_prod_range_suffix(s, a0);
    crate::shape::lemma_prod_range_suffix(s, al + 1);
    crate::shape::lemma_prod_range_concat(s, 0, a0, rank);
    crate::shape::lemma_prod_range_concat(s, a0, al + 1, rank);
    crate::shape::lemma_prod_range_pos(s, 0, a0);
    crate::shape::lemma_prod_range_pos(s, a0, al + 1);
    lemma_all_pos_prod_bounds(s, 0);
}

impl<DType: Element> Tensor<DType> {
    /// The continuous-axis fast path: a contiguous run of reduced axes
    /// collapses to one strided memory walk.  The kernel visits
    /// `num_input_steps` outer blocks; within each block, output offset `j`
    /// folds `sum_size` reads spaced `step_size` apart, so the output slot
    /// `b * cont + j` holds the postprocessed strided fold starting at flat
    /// input position `b * blk + j`.
    #[verifier::rlimit(100)]
    #[verifier::spinoff_prover]
    pub fn pool_continuous(
        &self,
        axes: &Vec<usize>,
        keep_dims: bool,
        c: CombineOp,
        init: InitOp,
        post: PostOp<DType>,
    ) -> (out: Tensor<DType>)
        requires
            self.canonical(),
            axes@.len() >= 1,
            axes_in_range(axes@, self.sh().len() as int),
            strictly_increasing(axes@),
            continuous_spec(axes@),
            self.size > 0,
            keep_dims || axes@.len() < self.sh().len(),
        ensures
            out.canonical(),
            out.sh() == reduced_shape(self.sh(), axes@, keep_dims),
            out.size == size_spec(reduced_shape(self.sh(), axes@, keep_dims)),
            ({
                let s = self.sh();
                let cont = prod_from(s, axes@[axes@.len() - 1] + 1);
                let blk = prod_from(s, axes@[0] as int);
                let sum = crate::shape::prod_range(s, axes@[0] as int, axes@[axes@.len() - 1] + 1);
                let nsteps = crate::shape::prod_range(s, 0, axes@[0] as int);
                &&& out.size == nsteps * cont
                &&& forall|b: int, j: int|
                    0 <= b < nsteps && 0 <= j < cont ==> #[trigger] out.vals()[b * cont + j]
                        == apply_post(
                        post,
                        strided_fold(self.vals(), b * blk + j, cont, sum, c, init),
                    )
            }),
    {
        let ghost s = self.sh();
        let rank: usize = self.rank();
        proof {
            assert forall|j: int| 0 <= j < rank implies s[j] >= 1 by {
                if s[j] == 0 {
                    lemma_prod_from_zero_factor(s, 0, j);
                }
            }
            lemma_prod_from_mono_all(s);
        }
        let (result_shape, res_ix_map): (Vec<usize>, Vec<usize>) = reduced_layout(
            &self.shape,
            axes,
            keep_dims,
        );
        let ghost rs = reduced_shape(s, axes@, keep_dims);
        proof {
            lemma_reduced_shape_bounds(s, axes@, keep_dims);
            assert(result_shape@.len() >= 1) by {
                if !keep_dims {
                    assert(res_ix_map@.len() == rank - axes@.len());
                }
            }
            assert(size_spec(rs) == prod_from(rs, 0));
            lemma_prod_from_mono_all(rs);
        }
        let result_size: usize = get_size(&result_shape);
        let result_strides: Vec<usize> = compute_strides(&result_shape);
        let self_strides: Vec<usize> = crate::shape::compute_strides_no_zero(&self.shape);
        let last_ax: usize = axes[axes.len() - 1];
        let step_size: usize = self_strides[last_ax];
        let cont_size: usize = step_size;
        let a0: usize = axes[0];
        let ghost al = axes@[axes@.len() - 1] as int;
        let ghost cont = prod_from(s, al + 1);
        let ghost blk = prod_from(s, a0 as int);
        let ghost sum = crate::shape::prod_range(s, a0 as int, al + 1);
        let ghost nsteps = crate::shape::prod_range(s, 0, a0 as int);
        let input_ix_step_size: usize = if a0 > 0 {
            self_strides[a0 - 1]
        } else {
            self.size
        };
        proof {
            lemma_continuous_layout(s, axes@, keep_dims);
            lemma_reduced_prod_continuous(s, axes@, keep_dims);
            assert(input_ix_step_size == blk);
            assert(step_size == cont);
            assert(self.size == nsteps * blk);
            assert(blk == sum * cont);
            assert(blk >= 1 && cont >= 1 && sum >= 1 && nsteps >= 1);
            vstd::arithmetic::div_mod::lemma_fundamental_div_mod_converse(
                self.size as int,
                blk,
                nsteps,
                0,
            );
            assert(result_size == nsteps * cont);
        }
        let num_input_steps: usize = self.size / input_ix_step_size;
        let sum_size: usize = input_ix_step_size / step_size;
        proof {
            vstd::arithmetic::div_mod::lemma_fundamental_div_mod_converse(blk, cont, sum, 0);
            assert(sum_size == sum);
        }
        let mut values: Vec<DType> = Vec::new();
        let mut b: usize = 0;
        while b < num_input_steps
            invariant
                self.wf(),
                s == self.sh(),
                rank == s.len(),
                self.size > 0,
                self.vals().len() == self.size,
                cont == prod_from(s, al + 1),
                blk == prod_from(s, a0 as int),
                sum == crate::shape::prod_range(s, a0 as int, al + 1),
                nsteps == crate::shape::prod_range(s, 0, a0 as int),
                blk == sum * cont,
                self.size == nsteps * blk,
                blk >= 1 && cont >= 1 && sum >= 1 && nsteps >= 1,
                num_input_steps == nsteps,
                input_ix_step_size == blk,
                step_size == cont,
                cont_size == cont,
                sum_size == sum,
                result_size == nsteps * cont,
                0 <= b <= num_input_steps,
                values@.len() == b * cont,
                forall|bb: int, j: int|
                    0 <= bb < b && 0 <= j < cont ==> #[trigger] values@[bb * cont + j]
                        == apply_post(
                        post,
                        strided_fold(self.vals(), bb * blk + j, cont, sum, c, init),
                    ),
            decreases num_input_steps - b,
        {
            proof {
                assert((b as int) * blk <= (nsteps - 1) * blk) by (nonlinear_arith)
                    requires
                        b as int <= nsteps - 1,
                        blk >= 0,
                ;
                assert((b as int) * blk >= 0) by (nonlinear_arith)
                    requires
                        b >= 0,
                        blk >= 0,
                ;
                assert((nsteps - 1) * blk + blk == nsteps * blk) by (nonlinear_arith);
                assert((b as int) * cont + cont <= nsteps * cont) by (nonlinear_arith)
                    requires
                        b as int + 1 <= nsteps,
                        cont >= 0,
                ;
                assert((b as int) * cont >= 0) by (nonlinear_arith)
                    requires
                        b >= 0,
                        cont >= 0,
                ;
            }
            let input_start_ix: usize = b * input_ix_step_size;
            let mut j: usize = 0;
            while j < cont_size
                invariant
                    self.wf(),
                    self.vals().len() == self.size,
                    blk == sum * cont,
                    self.size == nsteps * blk,
                    blk >= 1 && cont >= 1 && sum >= 1 && nsteps >= 1,
                    step_size == cont,
                    cont_size == cont,
                    sum_size == sum,
                    input_ix_step_size == blk,
                    0 <= b < nsteps,
                    0 <= j <= cont,
                    input_start_ix == b * blk,
                    input_start_ix + blk <= self.size,
                    values@.len() == b * cont + j,
                    forall|bb: int, jj: int|
                        0 <= bb < b && 0 <= jj < cont ==> #[trigger] values@[bb * cont + jj]
                            == apply_post(
                            post,
                            strided_fold(self.vals(), bb * blk + jj, cont, sum, c, init),
                        ),
                    forall|jj: int|
                        0 <= jj < j ==> #[trigger] values@[b * cont + jj] == apply_post(
                            post,
                            strided_fold(self.vals(), b * blk + jj, cont, sum, c, init),
                        ),
                decreases cont_size - j,
            {
                proof {
                    lemma_strided_read_bounds(b as int, j as int, 0, blk, cont, sum, nsteps);
                }
                let mut res: DType = apply_init_e(init, self.get_ix(input_start_ix + j));
                let mut k: usize = 1;
                while k < sum_size
                    invariant
                        sum_size == sum,
                        self.wf(),
                        self.vals().len() == self.size,
                        blk == sum * cont,
                        self.size == nsteps * blk,
                        blk >= 1 && cont >= 1 && sum >= 1 && nsteps >= 1,
                        step_size == cont,
                        input_ix_step_size == blk,
                        0 <= b < nsteps,
                        0 <= j < cont,
                        input_start_ix == b * blk,
                        1 <= k <= sum,
                        res == strided_fold(self.vals(), b * blk + j, cont, k as int, c, init),
                    decreases sum - k,
                {
                    proof {
                        lemma_strided_read_bounds(b as int, j as int, k as int, blk, cont, sum, nsteps);
                    }
                    res = apply_combine_e(c, self.get_ix(input_start_ix + j + k * step_size), res);
                    k += 1;
                }
                res = apply_post_e(post, res);
                values.push(res);
                proof {
                    assert forall|bb: int, jj: int| 0 <= bb < b && 0 <= jj < cont implies #[trigger]
                        values@[bb * cont + jj] == apply_post(
                        post,
                        strided_fold(self.vals(), bb * blk + jj, cont, sum, c, init),
                    ) by {
                        assert(bb * cont + jj < b * cont) by (nonlinear_arith)
                            requires
                                0 <= bb < b,
                                0 <= jj < cont,
                        ;
                        assert(bb * cont + jj >= 0) by (nonlinear_arith)
                            requires
                                bb >= 0,
                                jj >= 0,
                                cont >= 0,
                        ;
                    }
                }
                j += 1;
            }
            b += 1;
            proof {
                assert(((b - 1) as int) * cont + cont == (b as int) * cont) by (nonlinear_arith);
            }
        }
        proof {
            lemma_canonical_shape(rs);
            lemma_all_pos_prod_bounds(rs, 0);
            assert(values@.len() == nsteps * cont);
        }
        let out = Tensor::new(result_shape, result_strides, result_size, values);
        return out;
    }
}

/// A reduced-or-kept axis: whether a contiguous run contains it.
proof fn lemma_run_contains(axes: Seq<usize>, m: int)
    requires
        axes.len() >= 1,
        strictly_increasing(axes),
        continuous_spec(axes),
        0 <= m <= usize::MAX,
    ensures
        axes.contains(m as usize) <==> (axes[0] <= m <= axes[0] + axes.len() - 1),
{
    assert((m as usize) as int == m);
    if axes.contains(m as usize) {
        let j = choose|j: int| 0 <= j < axes.len() && axes[j] == m as usize;
        lemma_axes_run(axes, j);
    }
    if 0 <= m && axes[0] <= m <= axes[0] + axes.len() - 1 {
        lemma_axes_run(axes, m - axes[0]);
        assert(axes[m - axes[0]] == m as usize);
    }
}

/// Over a contiguous reduced run, the kept axes are the prefix before the
/// run followed by the suffix after it.
proof fn lemma_kept_axes_continuous(r: int, axes: Seq<usize>)
    requires
        0 <= r <= usize::MAX,
        axes.len() >= 1,
        strictly_increasing(axes),
        continuous_spec(axes),
    ensures
        kept_axes(r, axes) =~= if r <= axes[0] {
            Seq::new(r as nat, |t: int| t as usize)
        } else if r <= axes[0] + axes.len() {
            Seq::new(axes[0] as nat, |t: int| t as usize)
        } else {
            Seq::new(axes[0] as nat, |t: int| t as usize) + Seq::new(
                (r - axes[0] - axes.len()) as nat,
                |t: int| (axes[0] + axes.len() + t) as usize,
            )
        },
    decreases r,
{
    let a0 = axes[0] as int;
    if r > 0 {
        lemma_kept_axes_continuous(r - 1, axes);
        lemma_run_contains(axes, r - 1);
    }
}

/// The identity map and the masked index meet the projection lemma's terms
/// under `keep_dims`: size-1 output axes carry a zero coordinate, the rest
/// carry the input coordinate.
proof fn lemma_keep_mask_fits(s: Seq<usize>, axes: Seq<usize>, ix: Seq<usize>, cixk: Seq<usize>)
    requires
        s.len() <= usize::MAX,
        ix.len() == s.len(),
        cixk.len() == s.len(),
        valid_index(ix, s),
        forall|t: int|
            0 <= t < s.len() ==> #[trigger] cixk[t] == (if axes.contains(t as usize) {
                0usize
            } else {
                ix[t]
            }),
    ensures
        forall|m: int|
            0 <= m < s.len() ==> 0 <= #[trigger] map_spec(s.len() as int, axes, true)[m]
                < ix.len(),
        forall|m: int|
            0 <= m < s.len() && keep_shape(s, axes)[m] == 1 ==> #[trigger] cixk[m] == 0,
        forall|m: int|
            0 <= m < s.len() && keep_shape(s, axes)[m] != 1 ==> #[trigger] cixk[m] == ix[map_spec(
                s.len() as int,
                axes,
                true,
            )[m] as int],
{
    let ms = map_spec(s.len() as int, axes, true);
    assert forall|m: int| 0 <= m < s.len() && keep_shape(s, axes)[m] == 1 implies #[trigger] cixk[m]
        == 0 by {
        if !axes.contains(m as usize) {
            assert(keep_shape(s, axes)[m] == s[m]);
            assert(ix[m] < 1);
            assert(cixk[m] == ix[m]);
        }
    }
    assert forall|m: int| 0 <= m < s.len() && keep_shape(s, axes)[m] != 1 implies #[trigger] cixk[m]
        == ix[ms[m] as int] by {
        assert(ms[m] == m as usize);
        assert(!axes.contains(m as usize));
    }
}

/// One slot projection term by term: where the output dimension is 1 the
/// term vanishes, elsewhere it is the composed coordinate times the
/// non-degenerate stride, so the projection is the composed index's
/// row-major position.
proof fn lemma_proj_is_pos(cix: Seq<usize>, ix: Seq<usize>, ms: Seq<usize>, rs: Seq<usize>, k: int)
    requires
        cix.len() == rs.len(),
        ms.len() == rs.len(),
        0 <= k <= rs.len(),
        forall|m: int| 0 <= m < rs.len() ==> 0 <= #[trigger] ms[m] < ix.len(),
        forall|m: int| 0 <= m < rs.len() && rs[m] == 1 ==> #[trigger] cix[m] == 0,
        forall|m: int|
            0 <= m < rs.len() && rs[m] != 1 ==> #[trigger] cix[m] == ix[ms[m] as int],
    ensures
        proj_prefix(ix, ms, rs, k) == crate::shape::pos_prefix(cix, rs, k),
    decreases k,
{
    if k > 0 {
        lemma_proj_is_pos(cix, ix, ms, rs, k - 1);
        if rs[k - 1] == 1 {
            assert(stride_at(rs, k - 1) == 0);
            assert(ix[ms[k - 1] as int] * 0 == 0) by (nonlinear_arith);
            assert((0 as int) * prod_from(rs, k) == 0) by (nonlinear_arith);
        }
    }
}

/// A run of size-1 dimensions encodes nothing: its product is one.
proof fn lemma_prod_from_ones(u: Seq<usize>)
    requires
        forall|m: int| 0 <= m < u.len() ==> u[m] == 1,
    ensures
        prod_from(u, 0) == 1,
{
    lemma_prod_range_ones(u, 0, u.len() as int);
    crate::shape::lemma_prod_range_suffix(u, 0);
}

/// The slot an input element projects to under a contiguous reduced run: the
/// outer block index times the contiguous tail, plus the offset within the
/// tail.
#[verifier::rlimit(100)]
#[verifier::spinoff_prover]
pub proof fn lemma_slot_char(s: Seq<usize>, axes: Seq<usize>, keep: bool, p: int)
    requires
        s.len() <= usize::MAX,
        axes.len() >= 1,
        axes_in_range(axes, s.len() as int),
        strictly_increasing(axes),
        continuous_spec(axes),
        keep || axes.len() < s.len(),
        forall|j: int| 0 <= j < s.len() ==> s[j] >= 1,
        0 <= p < prod_from(s, 0),
    ensures
        slot_of(p, s, axes, keep) == (p / prod_from(s, axes[0] as int)) * prod_from(
            s,
            axes[axes.len() - 1] + 1,
        ) + p % prod_from(s, axes[axes.len() - 1] + 1),
{
    let rank = s.len() as int;
    let a0 = axes[0] as int;
    let al = axes[axes.len() - 1] as int;
    lemma_axes_run(axes, axes.len() - 1);
    assert(al == a0 + axes.len() - 1);
    lemma_continuous_layout(s, axes, keep);
    let blk = prod_from(s, a0);
    let cont = prod_from(s, al + 1);
    lemma_index_of(p, s);
    lemma_small_mod(p, prod_from(s, 0));
    let ix = index_of(p, s);
    assert(crate::shape::enc(ix, s) == p);
    let i1 = ix.subrange(0, a0);
    let i2 = ix.subrange(a0, al + 1);
    let i3 = ix.subrange(al + 1, rank);
    let s1 = s.subrange(0, a0);
    let s2 = s.subrange(a0, al + 1);
    let s3 = s.subrange(al + 1, rank);
    assert(ix =~= (i1 + i2) + i3);
    assert(s =~= (s1 + s2) + s3);
    crate::shape::lemma_enc_concat(i1 + i2, i3, s1 + s2, s3);
    crate::shape::lemma_enc_concat(i1, i2, s1, s2);
    crate::shape::lemma_prod_from_subrange(s, a0, al + 1, 0);
    crate::shape::lemma_prod_from_subrange(s, al + 1, rank, 0);
    crate::shape::lemma_prod_range_suffix(s, al + 1);
    let p2 = prod_from(s2, 0);
    let p3 = prod_from(s3, 0);
    assert(p3 == cont);
    assert(valid_index(i1, s1) && valid_index(i2, s2) && valid_index(i3, s3));
    crate::shape::lemma_enc_bounds(i1, s1);
    crate::shape::lemma_enc_bounds(i2, s2);
    crate::shape::lemma_enc_bounds(i3, s3);
    let va = crate::shape::enc(i1, s1);
    let vb = crate::shape::enc(i2, s2);
    let vc = crate::shape::enc(i3, s3);
    assert(p == (va * p2 + vb) * p3 + vc);
    assert(blk == crate::shape::prod_range(s, a0, al + 1) * cont);
    assert(crate::shape::prod_range(s, a0, al + 1) == p2);
    assert(p == va * blk + (vb * p3 + vc)) by (nonlinear_arith)
        requires
            p == (va * p2 + vb) * p3 + vc,
            blk == p2 * p3,
    ;
    assert(0 <= vb * p3 + vc < blk) by (nonlinear_arith)
        requires
            0 <= vb < p2 || (s2.len() == 0 && vb == 0 && p2 == 1),
            0 <= vc < p3 || (s3.len() == 0 && vc == 0 && p3 == 1),
            blk == p2 * p3,
            p2 >= 1,
            p3 >= 1,
    ;
    vstd::arithmetic::div_mod::lemma_fundamental_div_mod_converse(p, blk, va, vb * p3 + vc);
    assert(p / blk == va);
    assert(p == (va * p2 + vb) * p3 + vc);
    assert(0 <= vc < p3 || (s3.len() == 0 && vc == 0 && p3 == 1));
    vstd::arithmetic::div_mod::lemma_fundamental_div_mod_converse(p, p3, va * p2 + vb, vc);
    assert(p % cont == vc);
    let rs = reduced_shape(s, axes, keep);
    let ms = map_spec(rank, axes, keep);
    lemma_reduced_shape_bounds(s, axes, keep);
    if keep {
        let cixk = Seq::new(
            rank as nat,
            |m: int|
                if axes.contains(m as usize) {
                    0usize
                } else {
                    ix[m]
                },
        );
        lemma_keep_mask_fits(s, axes, ix, cixk);
        lemma_proj_is_pos(cixk, ix, ms, rs, rs.len() as int);
        crate::shape::lemma_pos_of_eq_enc(cixk, rs);
        let ones = Seq::new(axes.len() as nat, |t: int| 1usize);
        let zeros = Seq::new(axes.len() as nat, |t: int| 0usize);
        assert forall|m: int| 0 <= m < rank implies #[trigger] axes.contains(m as usize) <==> (a0
            <= m <= al) by {
            lemma_run_contains(axes, m);
        }
        assert(cixk =~= (i1 + zeros) + i3);
        assert(rs =~= (s1 + ones) + s3);
        crate::shape::lemma_enc_concat(i1 + zeros, i3, s1 + ones, s3);
        crate::shape::lemma_enc_concat(i1, zeros, s1, ones);
        lemma_prod_from_ones(ones);
        assert(zeros =~= crate::shape::zero_index(ones.len() as int));
        crate::shape::lemma_enc_zero(ones);
        assert(crate::shape::enc(zeros, ones) == 0);
        assert(crate::shape::enc(i1 + zeros, s1 + ones) == va * 1 + 0);
        assert(va * 1 == va) by (nonlinear_arith);
        assert(crate::shape::enc(cixk, rs) == va * p3 + vc);
        assert(slot_of(p, s, axes, keep) == va * cont + vc);
    } else {
        lemma_kept_axes_continuous(rank, axes);
        let k1 = Seq::new(a0 as nat, |t: int| t as usize);
        let k3 = Seq::new((rank - al - 1) as nat, |t: int| (al + 1 + t) as usize);
        assert(ms =~= k1 + k3);
        let cix = Seq::new(ms.len(), |m: int| ix[ms[m] as int]);
        assert forall|m: int| 0 <= m < rs.len() implies rs[m] == s[#[trigger] ms[m] as int] by {
            lemma_kept_axes_not_reduced(rank, axes);
            assert(!axes.contains(ms[m]));
        }
        assert forall|m: int| 0 <= m < rs.len() implies 0 <= #[trigger] ms[m] < ix.len() by {
            assert(map_spec(rank, axes, keep)[m] < s.len());
        }
        assert forall|m: int| 0 <= m < rs.len() && rs[m] == 1 implies #[trigger] cix[m] == 0 by {
            assert(cix[m] == ix[ms[m] as int]);
            assert(ix[ms[m] as int] < s[ms[m] as int]);
            assert(s[ms[m] as int] == rs[m]);
        }
        assert forall|m: int| 0 <= m < rs.len() && rs[m] != 1 implies #[trigger] cix[m] == ix[ms[m] as int] by {
        }
        lemma_proj_is_pos(cix, ix, ms, rs, rs.len() as int);
        crate::shape::lemma_pos_of_eq_enc(cix, rs);
        assert(cix =~= i1 + i3);
        assert(rs =~= s1 + s3);
        crate::shape::lemma_enc_concat(i1, i3, s1, s3);
        assert(crate::shape::enc(cix, rs) == va * p3 + vc);
        assert(slot_of(p, s, axes, keep) == va * cont + vc);
    }
}


/// A slot's accumulator does not move while no element projects to it.
proof fn lemma_state_stable<T: Element>(
    t: Tensor<T>,
    axes: Seq<usize>,
    keep: bool,
    c: CombineOp,
    init: InitOp,
    n1: int,
    n2: int,
    q: int,
)
    requires
        0 <= n1 <= n2,
        forall|p: int| n1 <= p < n2 ==> #[trigger] slot_of(p, t.sh(), axes, keep) != q,
    ensures
        slot_state(t, axes, keep, c, init, n2, q) == slot_state(t, axes, keep, c, init, n1, q),
    decreases n2 - n1,
{
    if n1 < n2 {
        lemma_state_stable(t, axes, keep, c, init, n1, n2 - 1, q);
    }
}

/// An element projecting to the slot of block `b`, offset `j` sits at one of
/// that slot's strided read positions.
proof fn lemma_hit_form(s: Seq<usize>, axes: Seq<usize>, keep: bool, b: int, j: int, p: int)
    requires
        s.len() <= usize::MAX,
        axes.len() >= 1,
        axes_in_range(axes, s.len() as int),
        strictly_increasing(axes),
        continuous_spec(axes),
        keep || axes.len() < s.len(),
        forall|m: int| 0 <= m < s.len() ==> s[m] >= 1,
        0 <= p < prod_from(s, 0),
        0 <= b < crate::shape::prod_range(s, 0, axes[0] as int),
        0 <= j < prod_from(s, axes[axes.len() - 1] + 1),
        slot_of(p, s, axes, keep) == b * prod_from(s, axes[axes.len() - 1] + 1) + j,
    ensures
        exists|kk: int|
            0 <= kk < crate::shape::prod_range(s, axes[0] as int, axes[axes.len() - 1] + 1) && p
                == b * prod_from(s, axes[0] as int) + #[trigger] (kk * prod_from(
                s,
                axes[axes.len() - 1] + 1,
            )) + j,
{
    let a0 = axes[0] as int;
    let al = axes[axes.len() - 1] as int;
    let blk = prod_from(s, a0);
    let cont = prod_from(s, al + 1);
    let sum = crate::shape::prod_range(s, a0, al + 1);
    let nsteps = crate::shape::prod_range(s, 0, a0);
    lemma_continuous_layout(s, axes, keep);
    lemma_slot_char(s, axes, keep, p);
    vstd::arithmetic::div_mod::lemma_fundamental_div_mod(p, blk);
    vstd::arithmetic::div_mod::lemma_fundamental_div_mod(p, cont);
    let pb = p / blk;
    let pj = p % cont;
    assert(pb * cont + pj == b * cont + j);
    assert(0 <= pj < cont) by {
        vstd::arithmetic::div_mod::lemma_mod_bound(p, cont);
    }
    assert(pb >= 0) by {
        vstd::arithmetic::div_mod::lemma_div_nonincreasing(p, blk);
        vstd::arithmetic::div_mod::lemma_div_pos_is_pos(p, blk);
    }
    vstd::arithmetic::div_mod::lemma_fundamental_div_mod_converse(b * cont + j, cont, b, j);
    vstd::arithmetic::div_mod::lemma_fundamental_div_mod_converse(pb * cont + pj, cont, pb, pj);
    assert(pb == b && pj == j);
    let r = p % blk;
    assert(p == blk * pb + r);
    assert(0 <= r < blk) by {
        vstd::arithmetic::div_mod::lemma_mod_bound(p, blk);
    }
    let kk = r / cont;
    vstd::arithmetic::div_mod::lemma_fundamental_div_mod(r, cont);
    assert(r == cont * kk + r % cont);
    assert(r % cont == j) by {
        assert(p == blk * b + r);
        assert(blk == sum * cont);
        assert(blk * b == (sum * b) * cont) by (nonlinear_arith)
            requires
                blk == sum * cont,
        ;
        assert(p == ((sum * b) + kk) * cont + r % cont) by (nonlinear_arith)
            requires
                p == blk * b + r,
                blk * b == (sum * b) * cont,
                r == cont * kk + r % cont,
        ;
        assert(0 <= r % cont < cont) by {
            vstd::arithmetic::div_mod::lemma_mod_bound(r, cont);
        }
        vstd::arithmetic::div_mod::lemma_fundamental_div_mod_converse(
            p,
            cont,
            (sum * b) + kk,
            r % cont,
        );
    }
    assert(kk < sum) by {
        crate::shape::lemma_div_bound(r, sum, cont);
    }
    assert(kk >= 0) by {
        vstd::arithmetic::div_mod::lemma_div_pos_is_pos(r, cont);
    }
    assert(p == b * blk + kk * cont + j) by (nonlinear_arith)
        requires
            p == blk * b + r,
            r == cont * kk + j,
    ;
}

/// Reduction path equivalence: over one contiguous run of reduced axes, the
/// projected fold of the generic path fills each output slot with exactly
/// the strided fold the fast path computes there.
#[verifier::rlimit(100)]
#[verifier::spinoff_prover]
pub proof fn lemma_reduction_paths_agree<T: Element>(
    t: Tensor<T>,
    axes: Seq<usize>,
    keep: bool,
    c: CombineOp,
    init: InitOp,
    b: int,
    j: int,
    k: int,
)
    requires
        t.wf(),
        t.size > 0,
        t.sh().len() <= usize::MAX,
        axes.len() >= 1,
        axes_in_range(axes, t.sh().len() as int),
        strictly_increasing(axes),
        continuous_spec(axes),
        keep || axes.len() < t.sh().len(),
        forall|m: int| 0 <= m < t.sh().len() ==> t.sh()[m] >= 1,
        0 <= b < crate::shape::prod_range(t.sh(), 0, axes[0] as int),
        0 <= j < prod_from(t.sh(), axes[axes.len() - 1] + 1),
        1 <= k <= crate::shape::prod_range(t.sh(), axes[0] as int, axes[axes.len() - 1] + 1),
    ensures
        slot_state(
            t,
            axes,
            keep,
            c,
            init,
            b * prod_from(t.sh(), axes[0] as int) + (k - 1) * prod_from(
                t.sh(),
                axes[axes.len() - 1] + 1,
            ) + j + 1,
            b * prod_from(t.sh(), axes[axes.len() - 1] + 1) + j,
        ) == Some(
            strided_fold(
                t.vals(),
                b * prod_from(t.sh(), axes[0] as int) + j,
                prod_from(t.sh(), axes[axes.len() - 1] + 1),
                k,
                c,
                init,
            ),
        ),
    decreases k,
{
    let s = t.sh();
    let a0 = axes[0] as int;
    let al = axes[axes.len() - 1] as int;
    let blk = prod_from(s, a0);
    let cont = prod_from(s, al + 1);
    let sum = crate::shape::prod_range(s, a0, al + 1);
    let nsteps = crate::shape::prod_range(s, 0, a0);
    lemma_continuous_layout(s, axes, keep);
    assert(t.size == nsteps * blk);
    let q = b * cont + j;
    let pk = b * blk + (k - 1) * cont + j;
    lemma_strided_read_bounds(b, j, k - 1, blk, cont, sum, nsteps);
    assert(slot_of(pk, s, axes, keep) == q) by {
        lemma_slot_char(s, axes, keep, pk);
        assert(pk == b * blk + ((k - 1) * cont + j));
        assert(0 <= (k - 1) * cont + j < blk) by (nonlinear_arith)
            requires
                0 <= k - 1 < sum,
                0 <= j < cont,
                blk == sum * cont,
        ;
        vstd::arithmetic::div_mod::lemma_fundamental_div_mod_converse(
            pk,
            blk,
            b,
            (k - 1) * cont + j,
        );
        assert(pk == (b * sum + (k - 1)) * cont + j) by (nonlinear_arith)
            requires
                pk == b * blk + (k - 1) * cont + j,
                blk == sum * cont,
        ;
        vstd::arithmetic::div_mod::lemma_fundamental_div_mod_converse(
            pk,
            cont,
            b * sum + (k - 1),
            j,
        );
    }
    if k == 1 {
        assert((k - 1) * cont == 0) by (nonlinear_arith)
            requires
                k == 1,
        ;
        assert(pk == b * blk + j);
        assert forall|p: int| 0 <= p < pk implies #[trigger] slot_of(p, s, axes, keep) != q by {
            if slot_of(p, s, axes, keep) == q {
                lemma_hit_form(s, axes, keep, b, j, p);
                let kk = choose|kk: int|
                    0 <= kk < sum && p == b * blk + #[trigger] (kk * cont) + j;
                assert(kk * cont >= 0) by (nonlinear_arith)
                    requires
                        kk >= 0,
                        cont >= 0,
                ;
                assert(p >= pk);
            }
        }
        lemma_state_stable(t, axes, keep, c, init, 0, pk, q);
        assert(slot_state(t, axes, keep, c, init, 0, q) is None);
        assert(slot_state(t, axes, keep, c, init, pk + 1, q) == Some(
            apply_init(init, t.vals()[pk]),
        ));
    } else {
        lemma_reduction_paths_agree(t, axes, keep, c, init, b, j, k - 1);
        let pprev = b * blk + (k - 2) * cont + j;
        assert(pk == pprev + cont) by (nonlinear_arith)
            requires
                pk == b * blk + (k - 1) * cont + j,
                pprev == b * blk + (k - 2) * cont + j,
        ;
        assert forall|p: int| pprev + 1 <= p < pk implies #[trigger] slot_of(p, s, axes, keep)
            != q by {
            if slot_of(p, s, axes, keep) == q {
                lemma_hit_form(s, axes, keep, b, j, p);
                let kk = choose|kk: int|
                    0 <= kk < sum && p == b * blk + #[trigger] (kk * cont) + j;
                if kk <= k - 2 {
                    assert(kk * cont <= (k - 2) * cont) by (nonlinear_arith)
                        requires
                            kk <= k - 2,
                            cont >= 0,
                    ;
                    assert(p <= pprev);
                } else {
                    assert(kk * cont >= (k - 1) * cont) by (nonlinear_arith)
                        requires
                            kk >= k - 1,
                            cont >= 0,
                    ;
                    assert(p >= pk);
                }
            }
        }
        lemma_state_stable(t, axes, keep, c, init, pprev + 1, pk, q);
        assert(strided_fold(t.vals(), b * blk + j, cont, k, c, init) == apply_combine(
            c,
            t.vals()[b * blk + j + (k - 1) * cont],
            strided_fold(t.vals(), b * blk + j, cont, k - 1, c, init),
        ));
        assert(b * blk + j + (k - 1) * cont == pk);
    }
}

/// Every range product over positive dimensions is positive.
pub proof fn lemma_prod_range_pos_all(s: Seq<usize>, rank: int)
    requires
        rank == s.len(),
        forall|j: int| 0 <= j < s.len() ==> s[j] >= 1,
    ensures
        forall|i: int, k: int|
            0 <= i <= k <= rank ==> #[trigger] crate::shape::prod_range(s, i, k) >= 1,
        forall|k: int| 0 <= k <= rank ==> #[trigger] prod_from(s, k) >= 1,
{
    assert forall|i: int, k: int| 0 <= i <= k <= rank implies #[trigger] crate::shape::prod_range(
        s,
        i,
        k,
    ) >= 1 by {
        crate::shape::lemma_prod_range_pos(s, i, k);
    }
    lemma_all_pos_prod_bounds(s, 0);
}

/// A strided read within one outer block stays inside the buffer.
proof fn lemma_strided_read_bounds(
    b: int,
    j: int,
    k: int,
    blk: int,
    cont: int,
    sum: int,
    nsteps: int,
)
    requires
        0 <= b < nsteps,
        0 <= j < cont,
        0 <= k < sum,
        blk == sum * cont,
        blk >= 1,
        cont >= 1,
        sum >= 1,
        nsteps >= 1,
    ensures
        0 <= b * blk + j + k * cont < nsteps * blk,
        b * blk + j + k * cont == (b * blk + j) + k * cont,
{
    assert(k * cont + j < sum * cont) by (nonlinear_arith)
        requires
            0 <= k < sum,
            0 <= j < cont,
    ;
    assert(b * blk + (k * cont + j) < b * blk + blk) by (nonlinear_arith)
        requires
            k * cont + j < blk,
    ;
    assert(b * blk + blk == (b + 1) * blk) by (nonlinear_arith);
    assert((b + 1) * blk <= nsteps * blk) by (nonlinear_arith)
        requires
            b + 1 <= nsteps,
            blk >= 0,
    ;
    assert(b * blk >= 0) by (nonlinear_arith)
        requires
            b >= 0,
            blk >= 0,
    ;
    assert(k * cont >= 0) by (nonlinear_arith)
        requires
            k >= 0,
            cont >= 0,
    ;
}

/// The reduced shape and axis map a reduction would produce, with the
/// all-axes case padded to the one-slot shape that such a reduction
/// returns: callers that need a concrete output layout share this with the
/// windowed kernels.
pub fn pool_result(in_shape: &Vec<usize>, axes: &Vec<usize>, keep_dims: bool) -> (r: (
    Vec<usize>,
    Vec<usize>,
))
    requires
        axes@.len() >= 1,
        axes_in_range(axes@, in_shape@.len() as int),
        strictly_increasing(axes@),
    ensures
        reduced_shape(in_shape@, axes@, keep_dims).len() == 0 ==> r.0@ == seq![1usize] && r.1@
            == seq![0usize],
        reduced_shape(in_shape@, axes@, keep_dims).len() > 0 ==> r.0@ == reduced_shape(
            in_shape@,
            axes@,
            keep_dims,
        ) && r.1@ == map_spec(in_shape@.len() as int, axes@, keep_dims),
{
    let (result_shape, res_ix_map): (Vec<usize>, Vec<usize>) = reduced_layout(
        in_shape,
        axes,
        keep_dims,
    );
    if result_shape.len() == 0 {
        let mut sh: Vec<usize> = Vec::new();
        sh.push(1);
        let mut mp: Vec<usize> = Vec::new();
        mp.push(0);
        proof {
            assert(sh@ =~= seq![1usize]);
            assert(mp@ =~= seq![0usize]);
        }
        return (sh, mp);
    }
    return (result_shape, res_ix_map);
}

/// Sum and mean round trip: on the same tensor and axes, the mean reduction
/// is the sum reduction with every slot divided by the pool size.
pub proof fn lemma_sum_mean_round_trip<T: Element>(
    t: Tensor<T>,
    axes: Seq<usize>,
    keep: bool,
    rs: Result<Tensor<T>, TensorError>,
    rm: Result<Tensor<T>, TensorError>,
    d: T,
)
    requires
        pool_ensures(t, axes, keep, CombineOp::Sum, InitOp::Id, PostOp::Id, rs),
        pool_ensures(t, axes, keep, CombineOp::Sum, InitOp::Id, PostOp::DivBy(d), rm),
        rs is Ok,
        rm is Ok,
    ensures
        rs matches Ok(s) ==> rm matches Ok(m) ==> {
            &&& m.sh() == s.sh()
            &&& m.vals().len() == s.vals().len()
            &&& forall|q: int| 0 <= q < s.size ==> m.vals()[q] == s.vals()[q].div_s(d)
        },
{
    let s = rs->Ok_0;
    let m = rm->Ok_0;
    if !keep && axes.len() == t.sh().len() {
        assert(m.vals()[0] == apply_post(
            PostOp::DivBy(d),
            fold_all(t, CombineOp::Sum, InitOp::Id, t.size as int),
        ));
        assert(s.vals()[0] == fold_all(t, CombineOp::Sum, InitOp::Id, t.size as int));
    } else {
        assert forall|q: int| 0 <= q < s.size implies m.vals()[q] == s.vals()[q].div_s(d) by {
            let st = slot_state(t, axes, keep, CombineOp::Sum, InitOp::Id, t.size as int, q);
            assert(s.vals()[q] == apply_post(
                PostOp::Id,
                match st {
                    None => T::zero_s(),
                    Some(a) => a,
                },
            ));
            assert(m.vals()[q] == apply_post(
                PostOp::DivBy(d),
                match st {
                    None => T::zero_s(),
                    Some(a) => a,
                },
            ));
        }
    }
}

/// With positive dimensions, every suffix product of a shape is at most the
/// whole product: the shape's strides fit wherever its size does.
pub proof fn lemma_prod_from_mono_all(s: Seq<usize>)
    requires
        forall|i: int| 0 <= i < s.len() ==> s[i] >= 1,
    ensures
        forall|k: int| 0 <= k <= s.len() ==> #[trigger] prod_from(s, k) <= prod_from(s, 0),
        forall|k: int| 0 <= k <= s.len() ==> 1 <= #[trigger] prod_from(s, k),
{
    lemma_all_pos_prod_bounds(s, 0);
    assert forall|k: int| 0 <= k <= s.len() implies #[trigger] prod_from(s, k) <= prod_from(
        s,
        0,
    ) by {
        lemma_prod_from_mono(s, 0, k);
    }
}

/// No kept axis is a reduced axis.
pub proof fn lemma_kept_axes_not_reduced(rank: int, axes: Seq<usize>)
    requires
        0 <= rank <= usize::MAX,
    ensures
        forall|j: int|
            0 <= j < kept_axes(rank, axes).len() ==> !axes.contains(
                #[trigger] kept_axes(rank, axes)[j],
            ),
    decreases rank,
{
    if rank > 0 {
        lemma_kept_axes_not_reduced(rank - 1, axes);
        let front = kept_axes(rank - 1, axes);
        assert forall|j: int| 0 <= j < kept_axes(rank, axes).len() implies !axes.contains(
            #[trigger] kept_axes(rank, axes)[j],
        ) by {
            if !axes.contains((rank - 1) as usize) {
                if j < front.len() {
                    assert(kept_axes(rank, axes)[j] == front[j]);
                }
            }
        }
    }
}

/// Every kept axis below `r` is below `r`.
pub proof fn lemma_kept_axes_in_range(rank: int, axes: Seq<usize>, r: int)
    requires
        0 <= rank <= r,
        rank <= usize::MAX,
    ensures
        forall|j: int|
            0 <= j < kept_axes(rank, axes).len() ==> #[trigger] kept_axes(rank, axes)[j] < rank,
    decreases rank,
{
    if rank > 0 {
        lemma_kept_axes_in_range(rank - 1, axes, r);
        let front = kept_axes(rank - 1, axes);
        assert forall|j: int| 0 <= j < kept_axes(rank, axes).len() implies #[trigger] kept_axes(
            rank,
            axes,
        )[j] < rank by {
            if !axes.contains((rank - 1) as usize) {
                if j < front.len() {
                    assert(kept_axes(rank, axes)[j] == front[j]);
                }
            }
        }
    }
}

} // verus!
