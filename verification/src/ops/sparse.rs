//! The sparse coordinate-list (COO) engine.
//!
//! A sparse tensor is a pair of dense tensors: an `indices` tensor of shape
//! `[nnz, s]` holding one coordinate row per nonzero over the `s` leading
//! sparse axes, and a `values` tensor of shape `[nnz, ...dense_tail]` holding
//! the matching dense blocks.  The full logical shape is passed alongside.
//! The operations here re-express coordinates under a new flattening, tile
//! them, combine sparse operands with dense or sparse ones, and scatter
//! nonzeros into a dense reduction.

use crate::element::Element;
use crate::errors::TensorError;
use crate::ops::aggregate::apply_combine;
use crate::ops::aggregate::apply_combine_e;
use crate::ops::aggregate::apply_init;
use crate::ops::aggregate::apply_init_e;
use crate::ops::aggregate::CombineOp;
use crate::ops::aggregate::InitOp;
use crate::ops::binary::apply_bin;
use crate::ops::binary::apply_bin_e;
use crate::ops::binary::BinOp;
use crate::shape::dot;
use crate::shape::enc;
use crate::shape::index_of;
use crate::shape::lemma_all_pos_prod_bounds;
use crate::shape::lemma_enc_bounds;
use crate::shape::lemma_index_of;
use crate::shape::lemma_pos_of_eq_enc;
use crate::shape::lemma_prod_range_concat;
use crate::shape::lemma_prod_range_pos;
use crate::shape::lemma_prod_range_suffix;
use crate::shape::lemma_prod_from_take;
use crate::shape::lemma_prod_from_zero_factor;
use crate::shape::pos_of;
use crate::shape::prod_from;
use crate::shape::prod_range;
use crate::shape::size_spec;
use crate::shape::valid_index;
use crate::tensor::Tensor;
use vstd::prelude::*;

verus! {

broadcast use vstd::std_specs::hash::group_hash_axioms;

/// The coordinates of row `i` of an indices buffer with `s` columns.
pub open spec fn coords_row(vals: Seq<u32>, s: int, i: int) -> Seq<usize> {
    Seq::new(s as nat, |j: int| vals[i * s + j] as usize)
}

/// Every one of the first `nnz` rows is a valid multi-index of the sparse
/// shape.
pub open spec fn coords_ok(vals: Seq<u32>, s: int, nnz: int, psh: Seq<usize>) -> bool {
    forall|i: int| 0 <= i < nnz ==> valid_index(#[trigger] coords_row(vals, s, i), psh)
}

/// The linearized coordinate of row `i`: its row-major position in the
/// sparse shape.
pub open spec fn row_pos(vals: Seq<u32>, s: int, i: int, psh: Seq<usize>) -> int {
    pos_of(coords_row(vals, s, i), psh)
}

/// An indices tensor: well-formed, one row per nonzero, one column per
/// sparse axis.
pub open spec fn indices_wf(t: Tensor<u32>) -> bool {
    &&& t.wf()
    &&& t.sh().len() == 2
}

/// A flat row-and-column read into a `[rows, cols]` buffer stays in bounds.
proof fn lemma_row_col_in_bounds(rows: int, cols: int, i: int, j: int, len: int)
    requires
        0 <= i < rows,
        0 <= j < cols,
        len == rows * cols,
    ensures
        0 <= i * cols + j < len,
        i * cols + j <= len,
{
    assert(i * cols + j < rows * cols) by (nonlinear_arith)
        requires
            0 <= i < rows,
            0 <= j < cols,
    ;
    assert(i * cols >= 0) by (nonlinear_arith)
        requires
            i >= 0,
            cols >= 0,
    ;
}

/// The buffer of a well-formed `[rows, cols]` tensor holds `rows * cols`
/// elements.
proof fn lemma_two_dim_size(t: Tensor<u32>)
    requires
        indices_wf(t),
    ensures
        t.size == t.sh()[0] * t.sh()[1],
{
    let s = t.sh();
    assert(prod_from(s, 2) == 1);
    assert(prod_from(s, 1) == s[1] * prod_from(s, 2));
    assert(s[1] * 1 == s[1]) by (nonlinear_arith);
    assert(prod_from(s, 0) == s[0] * prod_from(s, 1));
}

impl Tensor<u32> {
    /// Every stored coordinate lies below the matching leading dimension of
    /// `bound`.
    fn check_coords(&self, bound: &Vec<usize>, s: usize) -> (r: bool)
        requires
            indices_wf(*self),
            self.sh()[1] == s,
            s <= bound@.len(),
        ensures
            r == coords_ok(
                self.vals(),
                s as int,
                self.sh()[0] as int,
                bound@.take(s as int),
            ),
    {
        let nnz: usize = self.get_dim_size(0);
        proof {
            lemma_two_dim_size(*self);
        }
        let mut i: usize = 0;
        while i < nnz
            invariant
                indices_wf(*self),
                self.sh()[0] == nnz,
                self.sh()[1] == s,
                s <= bound@.len(),
                self.size == nnz * s,
                self.vals().len() == self.size,
                0 <= i <= nnz,
                forall|k: int|
                    0 <= k < i ==> valid_index(
                        #[trigger] coords_row(self.vals(), s as int, k),
                        bound@.take(s as int),
                    ),
            decreases nnz - i,
        {
            let mut j: usize = 0;
            while j < s
                invariant
                    indices_wf(*self),
                    self.sh()[0] == nnz,
                    self.sh()[1] == s,
                    s <= bound@.len(),
                    self.size == nnz * s,
                    self.vals().len() == self.size,
                    0 <= i < nnz,
                    0 <= j <= s,
                    forall|m: int|
                        0 <= m < j ==> coords_row(self.vals(), s as int, i as int)[m] < bound@.take(
                            s as int,
                        )[m],
                decreases s - j,
            {
                proof {
                    lemma_row_col_in_bounds(nnz as int, s as int, i as int, j as int, self.size as int);
                }
                let c: u32 = self.get_ix(i * s + j);
                if c as usize >= bound[j] {
                    proof {
                        assert(coords_row(self.vals(), s as int, i as int)[j as int] == c as usize);
                        assert(!valid_index(
                            coords_row(self.vals(), s as int, i as int),
                            bound@.take(s as int),
                        ));
                    }
                    return false;
                }
                j += 1;
            }
            proof {
                assert(valid_index(
                    coords_row(self.vals(), s as int, i as int),
                    bound@.take(s as int),
                ));
            }
            i += 1;
        }
        return true;
    }

    /// The linearized coordinate of one row: the Horner fold of its
    /// coordinates against the leading dimensions of `bound`.
    fn row_position(&self, bound: &Vec<usize>, s: usize, i: usize) -> (p: usize)
        requires
            indices_wf(*self),
            self.sh()[1] == s,
            s <= bound@.len(),
            (i as int) < self.sh()[0],
            valid_index(
                coords_row(self.vals(), s as int, i as int),
                bound@.take(s as int),
            ),
            prod_range(bound@, 0, s as int) <= usize::MAX,
        ensures
            p == row_pos(self.vals(), s as int, i as int, bound@.take(s as int)),
            p < prod_range(bound@, 0, s as int),
    {
        let ghost psh = bound@.take(s as int);
        let ghost row = coords_row(self.vals(), s as int, i as int);
        let nnz: usize = self.get_dim_size(0);
        proof {
            lemma_two_dim_size(*self);
            lemma_pos_of_eq_enc(row, psh);
        }
        let mut p: usize = 0;
        let mut j: usize = 0;
        while j < s
            invariant
                indices_wf(*self),
                self.sh()[0] == nnz,
                self.sh()[1] == s,
                s <= bound@.len(),
                psh == bound@.take(s as int),
                row == coords_row(self.vals(), s as int, i as int),
                valid_index(row, psh),
                self.size == nnz * s,
                self.vals().len() == self.size,
                0 <= i < nnz,
                0 <= j <= s,
                prod_range(bound@, 0, s as int) <= usize::MAX,
                p == enc(row.take(j as int), psh.take(j as int)),
            decreases s - j,
        {
            proof {
                lemma_row_col_in_bounds(nnz as int, s as int, i as int, j as int, self.size as int);
                assert(valid_index(row.take(j as int + 1), psh.take(j as int + 1))) by {
                    assert(forall|m: int|
                        0 <= m < j + 1 ==> row.take(j as int + 1)[m] == row[m]);
                }
                lemma_enc_bounds(row.take(j as int + 1), psh.take(j as int + 1));
                lemma_prod_from_take(bound@, j as int + 1, 0);
                assert(prod_from(psh.take(j as int + 1), 0) == prod_range(bound@, 0, j as int + 1))
                    by {
                    assert(psh.take(j as int + 1) =~= bound@.take(j as int + 1));
                }
                lemma_prod_range_concat(bound@, 0, j as int + 1, s as int);
                assert forall|m: int| j + 1 <= m < s implies bound@[m] >= 1 by {
                    assert(row[m] < psh[m]);
                }
                lemma_prod_range_pos(bound@, j as int + 1, s as int);
                assert(prod_range(bound@, 0, j as int + 1) * 1 <= prod_range(bound@, 0, j as int
                    + 1) * prod_range(bound@, j as int + 1, s as int)) by (nonlinear_arith)
                    requires
                        prod_range(bound@, 0, j as int + 1) >= 0,
                        prod_range(bound@, j as int + 1, s as int) >= 1,
                ;
                assert(row.take(j as int + 1).drop_last() =~= row.take(j as int));
                assert(psh.take(j as int + 1).drop_last() =~= psh.take(j as int));
                assert(enc(row.take(j as int + 1), psh.take(j as int + 1)) == enc(
                    row.take(j as int),
                    psh.take(j as int),
                ) * psh[j as int] + row[j as int]);
            }
            let c: u32 = self.get_ix(i * s + j);
            p = p * bound[j] + (c as usize);
            j += 1;
        }
        proof {
            assert(row.take(s as int) =~= row);
            assert(psh.take(s as int) =~= psh);
            lemma_enc_bounds(row, psh);
            lemma_prod_from_take(bound@, s as int, 0);
        }
        return p;
    }

    /// Add a constant to one coordinate column of every row: entry `k` grows
    /// by `count` (wrapping, and reinterpreting negatives as their two's
    /// complement) exactly when `k` is at offset `axis` within its row.
    pub fn add_index(&self, axis: i32, count: i32) -> (r: Tensor<u32>)
        requires
            self.wf(),
            self.sh().len() == 2,
            self.sh()[1] >= 1,
        ensures
            r.sh() == self.sh(),
            r.st() == self.st(),
            r.size == self.size,
            r.vals().len() == self.size,
            forall|k: int|
                0 <= k < self.size ==> r.vals()[k] == (if axis >= 0 && k >= axis && (k - axis) % (
                self.sh()[1] as int) == 0 {
                    vstd::wrapping::u32_specs::wrapping_add(self.vals()[k], count as u32)
                } else {
                    self.vals()[k]
                }),
    {
        let n: usize = self.size;
        let s: usize = self.get_dim_size(1);
        let mut values: Vec<u32> = Vec::new();
        let mut k: usize = 0;
        while k < n
            invariant
                self.wf(),
                self.sh().len() == 2,
                self.sh()[1] == s,
                s >= 1,
                n == self.size,
                0 <= k <= n,
                values@.len() == k,
                forall|m: int|
                    0 <= m < k ==> values@[m] == (if axis >= 0 && m >= axis && (m - axis) % (
                    s as int) == 0 {
                        vstd::wrapping::u32_specs::wrapping_add(self.vals()[m], count as u32)
                    } else {
                        self.vals()[m]
                    }),
            decreases n - k,
        {
            let v: u32 = self.get_ix(k);
            if axis >= 0 && k >= (axis as usize) && (k - (axis as usize)) % s == 0 {
                values.push(v.wrapping_add(count as u32));
            } else {
                values.push(v);
            }
            k += 1;
        }
        let mut sh: Vec<usize> = Vec::new();
        let mut st: Vec<usize> = Vec::new();
        let rank: usize = self.rank();
        let mut m: usize = 0;
        while m < rank
            invariant
                rank == self.sh().len(),
                rank == self.st().len(),
                0 <= m <= rank,
                sh@ =~= self.sh().take(m as int),
                st@ =~= self.st().take(m as int),
            decreases rank - m,
        {
            sh.push(self.get_dim_size(m));
            st.push(self.get_strides_at(m));
            m += 1;
        }
        proof {
            assert(sh@ =~= self.sh());
            assert(st@ =~= self.st());
        }
        Tensor::new(sh, st, n, values)
    }

    /// Tile a sparse coordinate set `repeats_prod` times: the tile at repeat
    /// index `rep` offsets each coordinate by the tile's own multi-index
    /// times the original dimension, so row `rep * nnz + i` holds
    /// `tile_coordinate[j] * shape[j] + coords[i][j]` (in wrapping 32-bit
    /// arithmetic).
    pub fn _repeat_sparse_indices(&self, repeats: &Vec<usize>, shape: &Vec<usize>, repeats_prod: u32) -> (r:
        Result<Tensor<u32>, TensorError>)
        requires
            indices_wf(*self),
            self.sh()[0] * (repeats_prod as int) * self.sh()[1] <= usize::MAX,
        ensures
            r is Err <==> !(repeats@.len() == self.sh()[1] && shape@.len() == self.sh()[1]
                && size_spec(repeats@) == repeats_prod as int && repeats_prod >= 1),
            r is Err ==> r == Err::<Tensor<u32>, TensorError>(TensorError::ShapeMismatch),
            r matches Ok(out) ==> {
                &&& out.sh() == seq![
                    (self.sh()[0] * repeats_prod as int) as usize,
                    self.sh()[1] as usize,
                ]
                &&& out.st() == seq![self.sh()[1] as usize, 1usize]
                &&& out.size == self.sh()[0] * repeats_prod as int * self.sh()[1]
                &&& out.vals().len() == out.size
                &&& forall|rep: int, i: int, j: int|
                    0 <= rep < repeats_prod as int && 0 <= i < self.sh()[0] && 0 <= j
                        < self.sh()[1] ==> #[trigger] out.vals()[(rep * self.sh()[0] + i)
                        * self.sh()[1] + j] == vstd::wrapping::u32_specs::wrapping_add(
                        vstd::wrapping::u32_specs::wrapping_mul(
                            (index_of(rep, repeats@)[j]) as u32,
                            shape@[j] as u32,
                        ),
                        self.vals()[i * self.sh()[1] + j],
                    )
            },
    {
        let nnz: usize = self.get_dim_size(0);
        let s: usize = self.get_dim_size(1);
        if repeats.len() != s || shape.len() != s {
            return Err(TensorError::ShapeMismatch);
        }
        let rp: usize = match crate::shape::try_get_size(repeats) {
            Some(v) => v,
            None => {
                proof {
                    assert(size_spec(repeats@) > usize::MAX >= repeats_prod as int);
                }
                return Err(TensorError::ShapeMismatch);
            },
        };
        if s == 0 || rp != (repeats_prod as usize) || rp == 0 {
            proof {
                if s == 0 {
                    assert(size_spec(repeats@) == 0);
                    assert(!(size_spec(repeats@) == repeats_prod as int && repeats_prod >= 1));
                }
            }
            return Err(TensorError::ShapeMismatch);
        }
        proof {
            lemma_two_dim_size(*self);
            assert forall|j: int| 0 <= j < repeats@.len() implies repeats@[j] >= 1 by {
                if repeats@[j] == 0 {
                    lemma_prod_from_zero_factor(repeats@, 0, j);
                }
            }
        }
        proof {
            assert((nnz as int) * (rp as int) * (s as int) == self.sh()[0] * (
            repeats_prod as int) * self.sh()[1]);
            assert((nnz as int) * (rp as int) <= (nnz as int) * (rp as int) * (s as int))
                by (nonlinear_arith)
                requires
                    s >= 1,
                    nnz >= 0,
                    rp >= 0,
            ;
            assert((nnz as int) * (rp as int) * (s as int) == ((nnz as int) * (rp as int)) * (
            s as int)) by (nonlinear_arith);
        }
        let nnz_new: usize = nnz * rp;
        let result_size: usize = nnz_new * s;
        proof {
            assert(nnz * rp * s == nnz * (repeats_prod as int) * s) by (nonlinear_arith)
                requires
                    rp == repeats_prod as int,
            ;
            assert((nnz as int) * (rp as int) <= (nnz as int) * (rp as int) * (s as int))
                by (nonlinear_arith)
                requires
                    s >= 1,
                    nnz >= 0,
                    rp >= 0,
            ;
        }
        let mut result_values: Vec<u32> = Vec::new();
        let mut repeat_ix: Vec<usize> = Vec::new();
        let mut z: usize = 0;
        while z < s
            invariant
                0 <= z <= s,
                repeat_ix@.len() == z,
                forall|j: int| 0 <= j < z ==> repeat_ix@[j] == 0usize,
            decreases s - z,
        {
            repeat_ix.push(0);
            z += 1;
        }
        proof {
            assert(repeat_ix@ =~= crate::shape::zero_index(s as int));
        }
        let mut rep: usize = 0;
        while rep < rp
            invariant
                indices_wf(*self),
                self.sh()[0] == nnz,
                self.sh()[1] == s,
                s >= 1,
                rp >= 1,
                self.size == nnz * s,
                self.vals().len() == self.size,
                repeats@.len() == s,
                shape@.len() == s,
                forall|j: int| 0 <= j < s ==> repeats@[j] >= 1,
                prod_from(repeats@, 0) == rp,
                nnz_new == nnz * rp,
                result_size == nnz_new * s,
                0 <= rep <= rp,
                result_values@.len() == rep * (nnz * s),
                repeat_ix@.len() == s,
                repeat_ix@ == index_of(rep as int, repeats@),
                forall|q: int, i: int, j: int|
                    0 <= q < rep && 0 <= i < nnz && 0 <= j < s ==> #[trigger] result_values@[(q
                        * nnz + i) * s + j] == vstd::wrapping::u32_specs::wrapping_add(
                        vstd::wrapping::u32_specs::wrapping_mul(
                            (index_of(q, repeats@)[j]) as u32,
                            shape@[j] as u32,
                        ),
                        self.vals()[i * s + j],
                    ),
            decreases rp - rep,
        {
            proof {
                lemma_index_of(rep as int, repeats@);
                assert((rep + 1) * (nnz * s) <= rp * (nnz * s)) by (nonlinear_arith)
                    requires
                        rep + 1 <= rp,
                        nnz * s >= 0,
                ;
                assert(rp * (nnz * s) == result_size) by (nonlinear_arith)
                    requires
                        nnz_new == nnz * rp,
                        result_size == nnz_new * s,
                ;
                if nnz > 0 {
                    lemma_repeat_offsets(rep as int, 0, nnz as int, s as int, rp as int);
                }
                assert(rep * (nnz * s) + 0 * s == rep * (nnz * s)) by (nonlinear_arith);
            }
            let mut i: usize = 0;
            while i < nnz
                invariant
                    indices_wf(*self),
                    self.sh()[0] == nnz,
                    self.sh()[1] == s,
                    s >= 1,
                    self.size == nnz * s,
                    self.vals().len() == self.size,
                    repeats@.len() == s,
                    shape@.len() == s,
                    nnz_new == nnz * rp,
                    result_size == nnz_new * s,
                    0 <= rep < rp,
                    0 <= i <= nnz,
                    repeat_ix@.len() == s,
                    repeat_ix@ == index_of(rep as int, repeats@),
                    valid_index(repeat_ix@, repeats@),
                    result_values@.len() == rep * (nnz * s) + i * s,
                    (rep * (nnz * s) + i * s) + s <= result_size || i == nnz,
                    forall|q: int, ii: int, j: int|
                        0 <= q < rep && 0 <= ii < nnz && 0 <= j < s ==> #[trigger] result_values@[(
                            q * nnz + ii) * s + j] == vstd::wrapping::u32_specs::wrapping_add(
                            vstd::wrapping::u32_specs::wrapping_mul(
                                (index_of(q, repeats@)[j]) as u32,
                                shape@[j] as u32,
                            ),
                            self.vals()[ii * s + j],
                        ),
                    forall|ii: int, j: int|
                        0 <= ii < i && 0 <= j < s ==> #[trigger] result_values@[(rep * nnz + ii) * s
                            + j] == vstd::wrapping::u32_specs::wrapping_add(
                            vstd::wrapping::u32_specs::wrapping_mul(
                                (index_of(rep as int, repeats@)[j]) as u32,
                                shape@[j] as u32,
                            ),
                            self.vals()[ii * s + j],
                        ),
                decreases nnz - i,
            {
                proof {
                    lemma_repeat_offsets(rep as int, i as int, nnz as int, s as int, rp as int);
                }
                let mut j: usize = 0;
                while j < s
                    invariant
                        indices_wf(*self),
                        self.sh()[0] == nnz,
                        self.sh()[1] == s,
                        self.size == nnz * s,
                        self.vals().len() == self.size,
                        repeats@.len() == s,
                        shape@.len() == s,
                        0 <= rep < rp,
                        0 <= i < nnz,
                        0 <= j <= s,
                        repeat_ix@.len() == s,
                        repeat_ix@ == index_of(rep as int, repeats@),
                        result_values@.len() == rep * (nnz * s) + i * s + j,
                        rep * (nnz * s) + i * s + s <= result_size,
                        rep * (nnz * s) + i * s == (rep * nnz + i) * s,
                        forall|q: int, ii: int, jj: int|
                            0 <= q < rep && 0 <= ii < nnz && 0 <= jj < s ==> #[trigger]
                                result_values@[(q * nnz + ii) * s + jj]
                                == vstd::wrapping::u32_specs::wrapping_add(
                                vstd::wrapping::u32_specs::wrapping_mul(
                                    (index_of(q, repeats@)[jj]) as u32,
                                    shape@[jj] as u32,
                                ),
                                self.vals()[ii * s + jj],
                            ),
                        forall|ii: int, jj: int|
                            0 <= ii < i && 0 <= jj < s ==> #[trigger] result_values@[(rep * nnz + ii)
                                * s + jj] == vstd::wrapping::u32_specs::wrapping_add(
                                vstd::wrapping::u32_specs::wrapping_mul(
                                    (index_of(rep as int, repeats@)[jj]) as u32,
                                    shape@[jj] as u32,
                                ),
                                self.vals()[ii * s + jj],
                            ),
                        forall|jj: int|
                            0 <= jj < j ==> result_values@[(rep * nnz + i) * s + jj]
                                == vstd::wrapping::u32_specs::wrapping_add(
                                vstd::wrapping::u32_specs::wrapping_mul(
                                    (index_of(rep as int, repeats@)[jj]) as u32,
                                    shape@[jj] as u32,
                                ),
                                self.vals()[i * s + jj],
                            ),
                    decreases s - j,
                {
                    proof {
                        lemma_row_col_in_bounds(
                            nnz as int,
                            s as int,
                            i as int,
                            j as int,
                            self.size as int,
                        );
                    }
                    let tile: u32 = (repeat_ix[j] as u32).wrapping_mul(shape[j] as u32);
                    let v: u32 = tile.wrapping_add(self.get_ix(i * s + j));
                    result_values.push(v);
                    proof {
                        assert forall|q: int, ii: int, jj: int|
                            0 <= q < rep && 0 <= ii < nnz && 0 <= jj < s implies #[trigger]
                            result_values@[(q * nnz + ii) * s + jj]
                            == vstd::wrapping::u32_specs::wrapping_add(
                            vstd::wrapping::u32_specs::wrapping_mul(
                                (index_of(q, repeats@)[jj]) as u32,
                                shape@[jj] as u32,
                            ),
                            self.vals()[ii * s + jj],
                        ) by {
                            lemma_repeat_prefix(
                                q,
                                ii,
                                jj,
                                rep as int,
                                i as int,
                                nnz as int,
                                s as int,
                            );
                        }
                        assert forall|ii: int, jj: int| 0 <= ii < i && 0 <= jj < s implies
                            #[trigger] result_values@[(rep * nnz + ii) * s + jj]
                                == vstd::wrapping::u32_specs::wrapping_add(
                                vstd::wrapping::u32_specs::wrapping_mul(
                                    (index_of(rep as int, repeats@)[jj]) as u32,
                                    shape@[jj] as u32,
                                ),
                                self.vals()[ii * s + jj],
                            ) by {
                            lemma_repeat_row_prefix(ii, jj, rep as int, i as int, nnz as int, s as int);
                        }
                    }
                    j += 1;
                }
                i += 1;
                proof {
                    assert(rep * (nnz * s) + (i - 1) * s + s == rep * (nnz * s) + i * s)
                        by (nonlinear_arith);
                    if i < nnz {
                        lemma_repeat_offsets(rep as int, i as int, nnz as int, s as int, rp as int);
                    }
                }
            }
            crate::shape::increment_index(&mut repeat_ix, repeats);
            rep += 1;
            proof {
                assert(((rep - 1) as int) * (nnz * s) + nnz * s == rep * (nnz * s))
                    by (nonlinear_arith);
                assert((rep - 1) * (nnz * s) + nnz * s == result_values@.len());
            }
        }
        let mut result_shape: Vec<usize> = Vec::new();
        result_shape.push(nnz_new);
        result_shape.push(s);
        let mut result_strides: Vec<usize> = Vec::new();
        result_strides.push(s);
        result_strides.push(1);
        proof {
            assert(rep * (nnz * s) == result_size) by (nonlinear_arith)
                requires
                    rep == rp,
                    nnz_new == nnz * rp,
                    result_size == nnz_new * s,
            ;
            assert(nnz * (repeats_prod as int) == nnz_new) by (nonlinear_arith)
                requires
                    rp == repeats_prod as int,
                    nnz_new == nnz * rp,
            ;
        }
        let out = Tensor::new(result_shape, result_strides, result_size, result_values);
        proof {
            assert(out.sh() =~= seq![(nnz * repeats_prod as int) as usize, s as usize]);
            assert(out.st() =~= seq![s as usize, 1usize]);
            assert forall|q: int, ii: int, jj: int|
                0 <= q < repeats_prod as int && 0 <= ii < nnz && 0 <= jj < s implies #[trigger]
                out.vals()[(q * nnz + ii) * s + jj] == vstd::wrapping::u32_specs::wrapping_add(
                vstd::wrapping::u32_specs::wrapping_mul(
                    (index_of(q, repeats@)[jj]) as u32,
                    shape@[jj] as u32,
                ),
                self.vals()[ii * s + jj],
            ) by {}
        }
        return Ok(out);
    }
}

/// Suffix products after a prepended dimension match suffix products of the
/// tail.
proof fn lemma_prod_from_cons(x: usize, t: Seq<usize>, i: int)
    requires
        1 <= i <= t.len() + 1,
    ensures
        prod_from(seq![x] + t, i) == prod_from(t, i - 1),
    decreases t.len() + 1 - i,
{
    let u = seq![x] + t;
    if i == t.len() + 1 {
        assert(prod_from(u, i) == 1);
        assert(prod_from(t, i - 1) == 1);
    } else {
        lemma_prod_from_cons(x, t, i + 1);
        assert(u[i] == t[i - 1]);
    }
}

/// Suffix products of a suffix of a shape match later suffix products of the
/// shape.
proof fn lemma_prod_from_skip(t: Seq<usize>, s: int, i: int)
    requires
        0 <= s,
        0 <= i <= t.len() - s,
        s <= t.len(),
    ensures
        prod_from(t.skip(s), i) == prod_from(t, s + i),
    decreases t.len() - s - i,
{
    if i < t.len() - s {
        lemma_prod_from_skip(t, s, i + 1);
        assert(t.skip(s)[i] == t[s + i]);
    }
}

/// The dense shapes of a sparse operation multiply out: the values buffer of
/// a `[nnz, ...tail]` tensor holds `nnz` blocks of the tail's product, and
/// the full logical shape splits into sparse prefix times dense tail.
proof fn lemma_sparse_layout<T>(a: Tensor<T>, nnz: usize, rsh: Seq<usize>, s: int)
    requires
        a.wf(),
        0 <= s <= rsh.len(),
        rsh.len() >= 1,
        a.sh() == seq![nnz] + rsh.skip(s),
    ensures
        a.size == nnz * prod_from(rsh, s),
        prod_range(rsh, 0, s) * prod_from(rsh, s) == prod_from(rsh, 0),
{
    lemma_prod_from_cons(nnz, rsh.skip(s), 1);
    lemma_prod_from_skip(rsh, s, 0);
    assert(a.sh().len() == 1 + rsh.len() - s);
    assert(a.sh()[0] == nnz);
    assert(prod_from(a.sh(), 0) == a.sh()[0] * prod_from(a.sh(), 1));
    assert(a.size == size_spec(a.sh()));
    lemma_prod_range_concat(rsh, 0, s, rsh.len() as int);
    lemma_prod_range_suffix(rsh, s);
    lemma_prod_range_suffix(rsh, 0);
}

/// Why a sparse-dense elementwise operation rejects its inputs.
/// The dense operand broadcasts against the declared result shape: equal
/// rank, and each axis either matches or is a size-1 broadcast axis read
/// through its stride of zero.
pub open spec fn sd_dense_compatible(bsh: Seq<usize>, rsh: Seq<usize>) -> bool {
    &&& bsh.len() == rsh.len()
    &&& forall|k: int| 0 <= k < rsh.len() ==> #[trigger] bsh[k] == rsh[k] || bsh[k] == 1
}

pub open spec fn sd_error<T>(
    a: Tensor<T>,
    indices: Tensor<u32>,
    b: Tensor<T>,
    rsh: Seq<usize>,
) -> Option<TensorError> {
    let s = indices.sh()[1] as int;
    let nnz = indices.sh()[0] as int;
    if rsh.len() < s || rsh.len() == 0 {
        Some(TensorError::ShapeMismatch)
    } else if a.sh() != seq![indices.sh()[1] as usize].update(0, indices.sh()[0] as usize) + rsh.skip(s) {
        Some(TensorError::ShapeMismatch)
    } else if !sd_dense_compatible(b.sh(), rsh) {
        Some(TensorError::ShapeMismatch)
    } else if !coords_ok(indices.vals(), s, nnz, rsh.take(s)) {
        Some(TensorError::ShapeMismatch)
    } else {
        None
    }
}

/// What a sparse-dense elementwise operation returns: one dense block per
/// nonzero, block `i` at in-block index `j` combining the stored element
/// with the dense operand read through its own strides at row `i`'s sparse
/// coordinates prefixed onto the dense tail index, so size-1 broadcast axes
/// of the operand are re-read via their stride of zero.
pub open spec fn sd_ensures<T: Element>(
    a: Tensor<T>,
    indices: Tensor<u32>,
    b: Tensor<T>,
    rsh: Seq<usize>,
    op: BinOp<T>,
    r: Result<Tensor<T>, TensorError>,
) -> bool {
    &&& (r is Err <==> sd_error(a, indices, b, rsh) is Some)
    &&& (r matches Err(e) ==> Some(e) == sd_error(a, indices, b, rsh))
    &&& (r matches Ok(out) ==> {
        let s = indices.sh()[1] as int;
        let nnz = indices.sh()[0] as int;
        let ds = prod_from(rsh, s);
        &&& out.sh() == a.sh()
        &&& out.st() == a.st()
        &&& out.size == a.size
        &&& out.vals().len() == a.size
        &&& forall|i: int, j: int|
            0 <= i < nnz && 0 <= j < ds ==> #[trigger] out.vals()[i * ds + j] == apply_bin(
                op,
                a.vals()[i * ds + j],
                b.vals()[dot(sp_full_index(indices.vals(), s, i, rsh.skip(s), j), b.st())],
            )
    })
}

impl<DType: Element> Tensor<DType> {
    /// Combine every stored dense block elementwise with the matching slice
    /// of a dense operand: block `i` pairs with the slice of `b` that starts
    /// at the linearized sparse coordinates of row `i`.
    pub fn binary_sparse_dense(
        &self,
        indices: &Tensor<u32>,
        b: &Tensor<DType>,
        result_shape: &Vec<usize>,
        op: BinOp<DType>,
    ) -> (r: Result<Tensor<DType>, TensorError>)
        requires
            self.wf(),
            indices_wf(*indices),
            b.canonical(),
        ensures
            sd_ensures(*self, *indices, *b, result_shape@, op, r),
    {
        let s: usize = indices.get_dim_size(1);
        let nnz: usize = indices.get_dim_size(0);
        proof {
            assert(seq![s].update(0, nnz) =~= seq![nnz]);
        }
        if result_shape.len() < s || result_shape.len() == 0 {
            return Err(TensorError::ShapeMismatch);
        }
        let rl: usize = result_shape.len();
        let d: usize = rl - s;
        let rank_a: usize = self.rank();
        if rank_a == 0 || rank_a - 1 != d {
            proof {
                assert(self.sh().len() != (seq![nnz] + result_shape@.skip(s as int)).len());
            }
            return Err(TensorError::ShapeMismatch);
        }
        if self.get_dim_size(0) != nnz {
            return Err(TensorError::ShapeMismatch);
        }
        let mut k: usize = 0;
        while k < d
            invariant
                self.wf(),
                rl == result_shape@.len(),
                s + d == rl,
                self.sh().len() == d + 1,
                self.sh()[0] == nnz,
                0 <= k <= d,
                forall|m: int| 0 <= m < k ==> #[trigger] self.sh()[1 + m] == result_shape@[s + m],
            decreases d - k,
        {
            if self.get_dim_size(1 + k) != result_shape[s + k] {
                proof {
                    assert(self.sh()[1 + k] != (seq![nnz] + result_shape@.skip(s as int))[1 + k]);
                }
                return Err(TensorError::ShapeMismatch);
            }
            k += 1;
        }
        proof {
            assert forall|l: int| 0 <= l < self.sh().len() implies self.sh()[l] == (seq![nnz]
                + result_shape@.skip(s as int))[l] by {
                if l >= 1 {
                    assert(self.sh()[1 + (l - 1)] == result_shape@[s + (l - 1)]);
                }
            }
            assert(self.sh() =~= seq![nnz] + result_shape@.skip(s as int));
        }
        if b.rank() != rl {
            return Err(TensorError::ShapeMismatch);
        }
        let mut kb: usize = 0;
        while kb < rl
            invariant
                b.wf(),
                rl == result_shape@.len(),
                b.sh().len() == rl,
                0 <= kb <= rl,
                forall|m: int|
                    0 <= m < kb ==> #[trigger] b.sh()[m] == result_shape@[m] || b.sh()[m] == 1,
            decreases rl - kb,
        {
            let bd: usize = b.get_dim_size(kb);
            if !(bd == result_shape[kb] || bd == 1) {
                return Err(TensorError::ShapeMismatch);
            }
            kb += 1;
        }
        if !indices.check_coords(result_shape, s) {
            return Err(TensorError::ShapeMismatch);
        }
        let ghost rsh = result_shape@;
        let ghost ds_spec = prod_from(rsh, s as int);
        proof {
            lemma_sparse_layout(*self, nnz, rsh, s as int);
        }
        let mut sh: Vec<usize> = Vec::new();
        let mut st: Vec<usize> = Vec::new();
        let rank: usize = self.rank();
        let mut m: usize = 0;
        while m < rank
            invariant
                rank == self.sh().len(),
                rank == self.st().len(),
                0 <= m <= rank,
                sh@ =~= self.sh().take(m as int),
                st@ =~= self.st().take(m as int),
            decreases rank - m,
        {
            sh.push(self.get_dim_size(m));
            st.push(self.get_strides_at(m));
            m += 1;
        }
        proof {
            assert(sh@ =~= self.sh());
            assert(st@ =~= self.st());
        }
        if self.size == 0 {
            let values: Vec<DType> = Vec::new();
            let out = Tensor::new(sh, st, 0, values);
            proof {
                assert forall|i: int, j: int| 0 <= i < nnz && 0 <= j < ds_spec implies #[trigger]
                    out.vals()[i * ds_spec + j] == apply_bin(
                    op,
                    self.vals()[i * ds_spec + j],
                    b.vals()[dot(
                        sp_full_index(indices.vals(), s as int, i, rsh.skip(s as int), j),
                        b.st(),
                    )],
                ) by {
                    assert(nnz * ds_spec == 0);
                    assert(i * ds_spec + j < nnz * ds_spec) by (nonlinear_arith)
                        requires
                            0 <= i < nnz,
                            0 <= j < ds_spec,
                    ;
                    assert(i * ds_spec + j >= 0) by (nonlinear_arith)
                        requires
                            i >= 0,
                            j >= 0,
                            ds_spec >= 0,
                    ;
                    assert(false);
                }
            }
            return Ok(out);
        }
        proof {
            assert(nnz * ds_spec == self.size);
            assert(nnz >= 1 && ds_spec >= 1) by {
                if nnz == 0 {
                    assert(nnz * ds_spec == 0) by (nonlinear_arith)
                        requires
                            nnz == 0,
                    ;
                }
                crate::shape::lemma_prod_from_nonneg(rsh, s as int);
                if ds_spec <= 0 {
                    assert(nnz * ds_spec == 0) by (nonlinear_arith)
                        requires
                            ds_spec == 0,
                    ;
                }
            }
            assert forall|j: int| 0 <= j < rsh.len() implies rsh[j] >= 1 by {
                if rsh[j] == 0 {
                    if j < s {
                        let row0 = coords_row(indices.vals(), s as int, 0);
                        assert(valid_index(row0, rsh.take(s as int)));
                        assert(row0[j] < rsh.take(s as int)[j]);
                    } else {
                        lemma_prod_from_zero_factor(rsh, s as int, j);
                    }
                }
            }
        }
        let ds: usize = self.size / nnz;
        proof {
            vstd::arithmetic::div_mod::lemma_fundamental_div_mod_converse(
                self.size as int,
                nnz as int,
                ds_spec,
                0,
            );
            assert(ds == ds_spec);
        }
        let ghost tail = rsh.skip(s as int);
        let mut tail_vec: Vec<usize> = Vec::new();
        let mut zt: usize = 0;
        while zt < d
            invariant
                rl == result_shape@.len(),
                s + d == rl,
                0 <= zt <= d,
                tail_vec@ =~= result_shape@.skip(s as int).take(zt as int),
            decreases d - zt,
        {
            tail_vec.push(result_shape[s + zt]);
            zt += 1;
        }
        proof {
            assert(tail_vec@ =~= tail);
            lemma_two_dim_size(*indices);
        }
        let mut values: Vec<DType> = Vec::new();
        let mut i: usize = 0;
        while i < nnz
            invariant
                self.wf(),
                indices_wf(*indices),
                b.canonical(),
                indices.sh()[0] == nnz,
                indices.sh()[1] == s,
                indices.size == nnz * s,
                indices.vals().len() == indices.size,
                rsh == result_shape@,
                rl == rsh.len(),
                s + d == rl,
                rl >= 1,
                s <= rl,
                tail == rsh.skip(s as int),
                tail.len() == d,
                tail_vec@ == tail,
                forall|m: int| 0 <= m < rl ==> rsh[m] >= 1,
                b.sh().len() == rl,
                forall|m: int| 0 <= m < rl ==> #[trigger] b.sh()[m] == rsh[m] || b.sh()[m] == 1,
                coords_ok(indices.vals(), s as int, nnz as int, rsh.take(s as int)),
                ds == ds_spec,
                ds >= 1,
                self.size == nnz * ds,
                self.vals().len() == self.size,
                0 <= i <= nnz,
                values@.len() == i * ds,
                forall|ii: int, jj: int|
                    0 <= ii < i && 0 <= jj < ds ==> #[trigger] values@[ii * ds + jj] == apply_bin(
                        op,
                        self.vals()[ii * ds + jj],
                        b.vals()[dot(
                            sp_full_index(indices.vals(), s as int, ii, tail, jj),
                            b.st(),
                        )],
                    ),
            decreases nnz - i,
        {
            let ghost row = coords_row(indices.vals(), s as int, i as int);
            let mut full_ix: Vec<usize> = Vec::new();
            let mut kc: usize = 0;
            while kc < s
                invariant
                    indices_wf(*indices),
                    indices.sh()[0] == nnz,
                    indices.sh()[1] == s,
                    indices.size == nnz * s,
                    indices.vals().len() == indices.size,
                    row == coords_row(indices.vals(), s as int, i as int),
                    0 <= i < nnz,
                    0 <= kc <= s,
                    full_ix@ =~= row.take(kc as int),
                decreases s - kc,
            {
                proof {
                    lemma_row_col_in_bounds(
                        nnz as int,
                        s as int,
                        i as int,
                        kc as int,
                        indices.size as int,
                    );
                }
                full_ix.push(indices.get_ix(i * s + kc) as usize);
                kc += 1;
            }
            let mut dense_ix: Vec<usize> = Vec::new();
            let mut zd: usize = 0;
            while zd < d
                invariant
                    row == coords_row(indices.vals(), s as int, i as int),
                    full_ix@.len() == s + zd,
                    0 <= zd <= d,
                    dense_ix@.len() == zd,
                    forall|m: int| 0 <= m < zd ==> dense_ix@[m] == 0usize,
                    forall|m: int| 0 <= m < s ==> full_ix@[m] == row[m],
                    forall|m: int| s <= m < s + zd ==> full_ix@[m] == 0usize,
                decreases d - zd,
            {
                dense_ix.push(0);
                full_ix.push(0);
                zd += 1;
            }
            proof {
                assert(dense_ix@ =~= crate::shape::zero_index(d as int));
                assert(full_ix@ =~= row + dense_ix@);
                assert((i + 1) * ds <= nnz * ds) by (nonlinear_arith)
                    requires
                        i + 1 <= nnz,
                        ds >= 0,
                ;
                assert(i * ds + ds == (i + 1) * ds) by (nonlinear_arith);
                assert(i * ds >= 0) by (nonlinear_arith)
                    requires
                        i >= 0,
                        ds >= 0,
                ;
            }
            let mut j: usize = 0;
            while j < ds
                invariant
                    self.wf(),
                    indices_wf(*indices),
                    b.canonical(),
                    indices.sh()[0] == nnz,
                    indices.sh()[1] == s,
                    rsh == result_shape@,
                    rl == rsh.len(),
                    s + d == rl,
                    rl >= 1,
                    s <= rl,
                    tail == rsh.skip(s as int),
                    tail.len() == d,
                    tail_vec@ == tail,
                    forall|m: int| 0 <= m < rl ==> rsh[m] >= 1,
                    b.sh().len() == rl,
                    forall|m: int| 0 <= m < rl ==> #[trigger] b.sh()[m] == rsh[m] || b.sh()[m]
                        == 1,
                    coords_ok(indices.vals(), s as int, nnz as int, rsh.take(s as int)),
                    row == coords_row(indices.vals(), s as int, i as int),
                    valid_index(row, rsh.take(s as int)),
                    0 <= i < nnz,
                    0 <= j <= ds,
                    ds >= 1,
                    self.size == nnz * ds,
                    self.vals().len() == self.size,
                    i * ds + ds <= self.size,
                    i * ds >= 0,
                    dense_ix@ == index_of(j as int, tail),
                    dense_ix@.len() == d,
                    full_ix@ == row + dense_ix@,
                    values@.len() == i * ds + j,
                    forall|ii: int, jj: int|
                        0 <= ii < i && 0 <= jj < ds ==> #[trigger] values@[ii * ds + jj]
                            == apply_bin(
                            op,
                            self.vals()[ii * ds + jj],
                            b.vals()[dot(
                                sp_full_index(indices.vals(), s as int, ii, tail, jj),
                                b.st(),
                            )],
                        ),
                    forall|jj: int|
                        0 <= jj < j ==> #[trigger] values@[i * ds + jj] == apply_bin(
                            op,
                            self.vals()[i * ds + jj],
                            b.vals()[dot(
                                sp_full_index(indices.vals(), s as int, i as int, tail, jj),
                                b.st(),
                            )],
                        ),
                decreases ds - j,
            {
                proof {
                    assert forall|m: int| 0 <= m < tail.len() implies tail[m] >= 1 by {
                        assert(rsh[s + m] >= 1);
                    }
                    lemma_index_of(j as int, tail);
                    assert forall|m: int| 0 <= m < rl implies full_ix@[m] < rsh[m] by {
                        if m < s {
                            assert(full_ix@[m] == row[m]);
                            assert(row[m] < rsh.take(s as int)[m]);
                        } else {
                            assert(full_ix@[m] == dense_ix@[m - s]);
                            assert(dense_ix@[m - s] < tail[m - s]);
                        }
                    }
                    assert(valid_index(full_ix@, rsh));
                    crate::ops::binary::lemma_read_in_bounds(*b, rsh, full_ix@);
                    assert(full_ix@ == sp_full_index(
                        indices.vals(),
                        s as int,
                        i as int,
                        tail,
                        j as int,
                    ));
                }
                let va = self.get_ix(i * ds + j);
                let vb = b.get(&full_ix);
                values.push(apply_bin_e(op, va, vb));
                proof {
                    assert forall|ii: int, jj: int| 0 <= ii < i && 0 <= jj < ds implies #[trigger]
                        values@[ii * ds + jj] == apply_bin(
                        op,
                        self.vals()[ii * ds + jj],
                        b.vals()[dot(
                            sp_full_index(indices.vals(), s as int, ii, tail, jj),
                            b.st(),
                        )],
                    ) by {
                        assert(ii * ds + jj < i * ds) by (nonlinear_arith)
                            requires
                                0 <= ii < i,
                                0 <= jj < ds,
                        ;
                        assert(ii * ds + jj >= 0) by (nonlinear_arith)
                            requires
                                ii >= 0,
                                jj >= 0,
                                ds >= 0,
                        ;
                    }
                }
                crate::shape::increment_index(&mut dense_ix, &tail_vec);
                let mut kt: usize = 0;
                while kt < d
                    invariant
                        0 <= kt <= d,
                        s + d <= usize::MAX,
                        dense_ix@.len() == d,
                        full_ix@.len() == s + d,
                        row.len() == s,
                        forall|m: int| 0 <= m < s ==> full_ix@[m] == row[m],
                        forall|m: int| 0 <= m < kt ==> full_ix@[s + m] == dense_ix@[m],
                    decreases d - kt,
                {
                    full_ix.set(s + kt, dense_ix[kt]);
                    kt += 1;
                }
                proof {
                    assert(full_ix@ =~= row + dense_ix@);
                }
                j += 1;
            }
            i += 1;
        }
        proof {
            assert(values@.len() == nnz * ds);
        }
        let out = Tensor::new(sh, st, self.size, values);
        return Ok(out);
    }

    /// Sparse-dense addition with scalar coefficients:
    /// `alpha * block + beta * slice`, elementwise per nonzero block.
    pub fn _add_sparse_dense(
        &self,
        indices: &Tensor<u32>,
        b: &Tensor<DType>,
        result_shape: &Vec<usize>,
        alpha: DType,
        beta: DType,
    ) -> (r: Result<Tensor<DType>, TensorError>)
        requires
            self.wf(),
            indices_wf(*indices),
            b.canonical(),
        ensures
            sd_ensures(*self, *indices, *b, result_shape@, BinOp::AddScaled(alpha, beta), r),
    {
        return self.binary_sparse_dense(indices, b, result_shape, BinOp::AddScaled(alpha, beta));
    }

    /// Sparse-dense subtraction with scalar coefficients:
    /// `alpha * block - beta * slice`, elementwise per nonzero block.
    pub fn _subtract_sparse_dense(
        &self,
        indices: &Tensor<u32>,
        b: &Tensor<DType>,
        result_shape: &Vec<usize>,
        alpha: DType,
        beta: DType,
    ) -> (r: Result<Tensor<DType>, TensorError>)
        requires
            self.wf(),
            indices_wf(*indices),
            b.canonical(),
        ensures
            sd_ensures(*self, *indices, *b, result_shape@, BinOp::SubScaled(alpha, beta), r),
    {
        return self.binary_sparse_dense(indices, b, result_shape, BinOp::SubScaled(alpha, beta));
    }

    /// Sparse-dense scaled product, elementwise per nonzero block.
    pub fn _multiply_sparse_dense(
        &self,
        indices: &Tensor<u32>,
        b: &Tensor<DType>,
        result_shape: &Vec<usize>,
        alpha: DType,
    ) -> (r: Result<Tensor<DType>, TensorError>)
        requires
            self.wf(),
            indices_wf(*indices),
            b.canonical(),
        ensures
            sd_ensures(*self, *indices, *b, result_shape@, BinOp::MulScaled(alpha), r),
    {
        return self.binary_sparse_dense(indices, b, result_shape, BinOp::MulScaled(alpha));
    }

    /// Sparse-dense scaled quotient, elementwise per nonzero block; a zero
    /// divisor yields zero.
    pub fn _divide_sparse_dense(
        &self,
        indices: &Tensor<u32>,
        b: &Tensor<DType>,
        result_shape: &Vec<usize>,
        alpha: DType,
    ) -> (r: Result<Tensor<DType>, TensorError>)
        requires
            self.wf(),
            indices_wf(*indices),
            b.canonical(),
        ensures
            sd_ensures(*self, *indices, *b, result_shape@, BinOp::DivScaled(alpha), r),
    {
        return self.binary_sparse_dense(indices, b, result_shape, BinOp::DivScaled(alpha));
    }
}

/// The most recent row among the first `n` whose linearized coordinate is
/// `pos`; a later duplicate coordinate shadows an earlier one, as a hash
/// index built by insertion does.
pub open spec fn last_match(bvals: Seq<u32>, s: int, n: int, pos: int, psh: Seq<usize>) -> Option<
    int,
>
    decreases n,
{
    if n <= 0 {
        None
    } else if row_pos(bvals, s, n - 1, psh) == pos {
        Some(n - 1)
    } else {
        last_match(bvals, s, n - 1, pos, psh)
    }
}

/// The row a match names, or 0 when there is none.
pub open spec fn match_row(bvals: Seq<u32>, s: int, n: int, pos: int, psh: Seq<usize>) -> int {
    match last_match(bvals, s, n, pos, psh) {
        Some(r) => r,
        None => 0,
    }
}

/// A match always names a row among the first `n`.
proof fn lemma_last_match_range(bvals: Seq<u32>, s: int, n: int, pos: int, psh: Seq<usize>)
    requires
        last_match(bvals, s, n, pos, psh) is Some,
    ensures
        0 <= match_row(bvals, s, n, pos, psh) < n,
        row_pos(bvals, s, match_row(bvals, s, n, pos, psh), psh) == pos,
    decreases n,
{
    if n > 0 && row_pos(bvals, s, n - 1, psh) != pos {
        lemma_last_match_range(bvals, s, n - 1, pos, psh);
    }
}

/// Why a sparse-sparse elementwise operation rejects its inputs.
pub open spec fn ss_error<T>(
    a: Tensor<T>,
    indices: Tensor<u32>,
    b_indices: Tensor<u32>,
    b_values: Tensor<T>,
    rsh: Seq<usize>,
) -> Option<TensorError> {
    let s = indices.sh()[1] as int;
    let nnz = indices.sh()[0] as int;
    if rsh.len() < s || rsh.len() == 0 {
        Some(TensorError::ShapeMismatch)
    } else if b_indices.sh()[1] != indices.sh()[1] {
        Some(TensorError::ShapeMismatch)
    } else if b_indices.sh()[0] != indices.sh()[0] {
        Some(TensorError::SparsePatternMismatch)
    } else if a.sh() != seq![indices.sh()[0] as usize] + rsh.skip(s) {
        Some(TensorError::ShapeMismatch)
    } else if b_values.sh() != seq![indices.sh()[0] as usize] + rsh.skip(s) {
        Some(TensorError::ShapeMismatch)
    } else if !coords_ok(indices.vals(), s, nnz, rsh.take(s)) {
        Some(TensorError::ShapeMismatch)
    } else if !coords_ok(b_indices.vals(), s, nnz, rsh.take(s)) {
        Some(TensorError::ShapeMismatch)
    } else if nnz != 0 && prod_range(rsh, 0, s) > usize::MAX {
        Some(TensorError::UnrepresentableConstant)
    } else if exists|i: int|
        0 <= i < nnz && last_match(
            b_indices.vals(),
            s,
            nnz,
            #[trigger] row_pos(indices.vals(), s, i, rsh.take(s)),
            rsh.take(s),
        ) is None {
        Some(TensorError::SparsePatternMismatch)
    } else {
        None
    }
}

/// What a sparse-sparse elementwise operation returns: one dense block per
/// nonzero of the first operand, block `i` combining with the block of the
/// second operand whose coordinates linearize to the same position (the
/// latest such row, when coordinates repeat).
pub open spec fn ss_ensures<T: Element>(
    a: Tensor<T>,
    indices: Tensor<u32>,
    b_indices: Tensor<u32>,
    b_values: Tensor<T>,
    rsh: Seq<usize>,
    op: BinOp<T>,
    r: Result<Tensor<T>, TensorError>,
) -> bool {
    &&& (r is Err <==> ss_error(a, indices, b_indices, b_values, rsh) is Some)
    &&& (r matches Err(e) ==> Some(e) == ss_error(a, indices, b_indices, b_values, rsh))
    &&& (r matches Ok(out) ==> {
        let s = indices.sh()[1] as int;
        let nnz = indices.sh()[0] as int;
        let ds = prod_from(rsh, s);
        &&& out.sh() == a.sh()
        &&& out.st() == a.st()
        &&& out.size == a.size
        &&& out.vals().len() == a.size
        &&& forall|i: int, j: int|
            0 <= i < nnz && 0 <= j < ds ==> #[trigger] out.vals()[i * ds + j] == apply_bin(
                op,
                a.vals()[i * ds + j],
                b_values.vals()[match_row(
                    b_indices.vals(),
                    s,
                    nnz,
                    row_pos(indices.vals(), s, i, rsh.take(s)),
                    rsh.take(s),
                ) * ds + j],
            )
    })
}

impl<DType: Element> Tensor<DType> {
    /// Combine two sparse operands that share one coordinate set: a hash
    /// index from linearized coordinate to row aligns the blocks, and a
    /// coordinate of the first operand that the second lacks is reported as
    /// `SparsePatternMismatch`.
    pub fn binary_sparse_sparse(
        &self,
        indices: &Tensor<u32>,
        b_indices: &Tensor<u32>,
        b_values: &Tensor<DType>,
        result_shape: &Vec<usize>,
        op: BinOp<DType>,
    ) -> (r: Result<Tensor<DType>, TensorError>)
        requires
            self.wf(),
            indices_wf(*indices),
            indices_wf(*b_indices),
            b_values.wf(),
        ensures
            ss_ensures(*self, *indices, *b_indices, *b_values, result_shape@, op, r),
    {
        let s: usize = indices.get_dim_size(1);
        let nnz: usize = indices.get_dim_size(0);
        if result_shape.len() < s || result_shape.len() == 0 {
            return Err(TensorError::ShapeMismatch);
        }
        if b_indices.get_dim_size(1) != s {
            return Err(TensorError::ShapeMismatch);
        }
        if b_indices.get_dim_size(0) != nnz {
            return Err(TensorError::SparsePatternMismatch);
        }
        let rl: usize = result_shape.len();
        let d: usize = rl - s;
        let rank_a: usize = self.rank();
        if rank_a == 0 || rank_a - 1 != d || self.get_dim_size(0) != nnz {
            proof {
                lemma_shape_cons_mismatch(self.sh(), nnz, result_shape@, s as int);
            }
            return Err(TensorError::ShapeMismatch);
        }
        let mut k: usize = 0;
        while k < d
            invariant
                self.wf(),
                indices_wf(*indices),
                indices_wf(*b_indices),
                indices.sh()[0] == nnz,
                indices.sh()[1] == s,
                b_indices.sh()[0] == nnz,
                b_indices.sh()[1] == s,
                rl == result_shape@.len(),
                rl >= 1,
                s <= rl,
                s + d == rl,
                self.sh().len() == d + 1,
                self.sh()[0] == nnz,
                0 <= k <= d,
                forall|m: int| 0 <= m < k ==> #[trigger] self.sh()[1 + m] == result_shape@[s + m],
            decreases d - k,
        {
            if self.get_dim_size(1 + k) != result_shape[s + k] {
                proof {
                    assert(self.sh()[1 + k] != (seq![nnz] + result_shape@.skip(s as int))[1 + k]);
                }
                return Err(TensorError::ShapeMismatch);
            }
            k += 1;
        }
        proof {
            assert forall|l: int| 0 <= l < self.sh().len() implies self.sh()[l] == (seq![nnz]
                + result_shape@.skip(s as int))[l] by {
                if l >= 1 {
                    assert(self.sh()[1 + (l - 1)] == result_shape@[s + (l - 1)]);
                }
            }
            assert(self.sh() =~= seq![nnz] + result_shape@.skip(s as int));
        }
        let rank_b: usize = b_values.rank();
        if rank_b == 0 || rank_b - 1 != d || b_values.get_dim_size(0) != nnz {
            proof {
                lemma_shape_cons_mismatch(b_values.sh(), nnz, result_shape@, s as int);
            }
            return Err(TensorError::ShapeMismatch);
        }
        let mut k2: usize = 0;
        while k2 < d
            invariant
                b_values.wf(),
                indices_wf(*indices),
                indices_wf(*b_indices),
                indices.sh()[0] == nnz,
                indices.sh()[1] == s,
                b_indices.sh()[0] == nnz,
                b_indices.sh()[1] == s,
                rl == result_shape@.len(),
                rl >= 1,
                s <= rl,
                self.sh() == seq![nnz as usize] + result_shape@.skip(s as int),
                s + d == rl,
                b_values.sh().len() == d + 1,
                b_values.sh()[0] == nnz,
                0 <= k2 <= d,
                forall|m: int|
                    0 <= m < k2 ==> #[trigger] b_values.sh()[1 + m] == result_shape@[s + m],
            decreases d - k2,
        {
            if b_values.get_dim_size(1 + k2) != result_shape[s + k2] {
                proof {
                    assert(b_values.sh()[1 + k2] != (seq![nnz] + result_shape@.skip(s as int))[1
                        + k2]);
                }
                return Err(TensorError::ShapeMismatch);
            }
            k2 += 1;
        }
        proof {
            assert forall|l: int| 0 <= l < b_values.sh().len() implies b_values.sh()[l] == (seq![
                nnz,
            ] + result_shape@.skip(s as int))[l] by {
                if l >= 1 {
                    assert(b_values.sh()[1 + (l - 1)] == result_shape@[s + (l - 1)]);
                }
            }
            assert(b_values.sh() =~= seq![nnz] + result_shape@.skip(s as int));
        }
        if !indices.check_coords(result_shape, s) {
            return Err(TensorError::ShapeMismatch);
        }
        if !b_indices.check_coords(result_shape, s) {
            return Err(TensorError::ShapeMismatch);
        }
        let ghost rsh = result_shape@;
        let ghost psh = result_shape@.take(s as int);
        let ghost ds_spec = prod_from(rsh, s as int);
        proof {
            lemma_sparse_layout(*self, nnz, rsh, s as int);
            lemma_sparse_layout(*b_values, nnz, rsh, s as int);
        }
        let mut sh: Vec<usize> = Vec::new();
        let mut st: Vec<usize> = Vec::new();
        let mut m: usize = 0;
        while m < rank_a
            invariant
                rank_a == self.sh().len(),
                rank_a == self.st().len(),
                0 <= m <= rank_a,
                sh@ =~= self.sh().take(m as int),
                st@ =~= self.st().take(m as int),
            decreases rank_a - m,
        {
            sh.push(self.get_dim_size(m));
            st.push(self.get_strides_at(m));
            m += 1;
        }
        proof {
            assert(sh@ =~= self.sh());
            assert(st@ =~= self.st());
        }
        if nnz == 0 {
            let values: Vec<DType> = Vec::new();
            proof {
                assert(self.size == 0) by (nonlinear_arith)
                    requires
                        self.size == nnz * ds_spec,
                        nnz == 0,
                ;
            }
            let out = Tensor::new(sh, st, self.size, values);
            return Ok(out);
        }
        proof {
            assert forall|j: int| 0 <= j < s implies rsh[j] >= 1 by {
                let row0 = coords_row(indices.vals(), s as int, 0);
                assert(valid_index(row0, psh));
                assert(row0[j] < psh[j]);
            }
        }
        let mut pp: usize = 1;
        let mut jp: usize = 0;
        while jp < s
            invariant
                indices_wf(*indices),
                indices_wf(*b_indices),
                indices.sh()[0] == nnz,
                indices.sh()[1] == s,
                b_indices.sh()[0] == nnz,
                b_indices.sh()[1] == s,
                rl == result_shape@.len(),
                rl >= 1,
                s <= rl,
                rsh == result_shape@,
                nnz >= 1,
                self.sh() == seq![nnz as usize] + rsh.skip(s as int),
                b_values.sh() == seq![nnz as usize] + rsh.skip(s as int),
                coords_ok(indices.vals(), s as int, nnz as int, rsh.take(s as int)),
                coords_ok(b_indices.vals(), s as int, nnz as int, rsh.take(s as int)),
                forall|j: int| 0 <= j < s ==> rsh[j] >= 1,
                0 <= jp <= s,
                pp == prod_range(rsh, 0, jp as int),
            decreases s - jp,
        {
            proof {
                lemma_prod_range_concat(rsh, 0, jp as int, jp as int + 1);
                assert(jp as int + 1 <= rsh.len());
                assert(prod_range(rsh, jp as int + 1, jp as int + 1) == 1);
                assert(prod_range(rsh, jp as int, jp as int + 1) == rsh[jp as int] * prod_range(
                    rsh,
                    jp as int + 1,
                    jp as int + 1,
                ));
                assert(rsh[jp as int] * 1 == rsh[jp as int]) by (nonlinear_arith);
            }
            match pp.checked_mul(result_shape[jp]) {
                Some(v) => {
                    pp = v;
                },
                None => {
                    proof {
                        lemma_prod_range_concat(rsh, 0, jp as int + 1, s as int);
                        lemma_prod_range_pos(rsh, jp as int + 1, s as int);
                        assert(prod_range(rsh, 0, jp as int + 1) * 1 <= prod_range(
                            rsh,
                            0,
                            jp as int + 1,
                        ) * prod_range(rsh, jp as int + 1, s as int)) by (nonlinear_arith)
                            requires
                                prod_range(rsh, 0, jp as int + 1) >= 0,
                                prod_range(rsh, jp as int + 1, s as int) >= 1,
                        ;
                    }
                    return Err(TensorError::UnrepresentableConstant);
                },
            }
            jp += 1;
        }
        let mut b_position_map: std::collections::HashMap<usize, usize> =
            std::collections::HashMap::new();
        let mut r: usize = 0;
        while r < nnz
            invariant
                indices_wf(*b_indices),
                b_indices.sh()[0] == nnz,
                b_indices.sh()[1] == s,
                s <= rsh.len(),
                rsh == result_shape@,
                psh == rsh.take(s as int),
                coords_ok(b_indices.vals(), s as int, nnz as int, psh),
                prod_range(rsh, 0, s as int) <= usize::MAX,
                0 <= r <= nnz,
                forall|pos: usize|
                    b_position_map@.contains_key(pos) <==> last_match(
                        b_indices.vals(),
                        s as int,
                        r as int,
                        pos as int,
                        psh,
                    ) is Some,
                forall|pos: usize|
                    #[trigger] b_position_map@.contains_key(pos) ==> b_position_map@[pos] as int
                        == match_row(b_indices.vals(), s as int, r as int, pos as int, psh),
            decreases nnz - r,
        {
            let pos: usize = b_indices.row_position(result_shape, s, r);
            b_position_map.insert(pos, r);
            proof {
                assert forall|p2: usize|
                    b_position_map@.contains_key(p2) <==> last_match(
                        b_indices.vals(),
                        s as int,
                        r as int + 1,
                        p2 as int,
                        psh,
                    ) is Some by {
                    if p2 != pos {
                        assert(row_pos(b_indices.vals(), s as int, r as int, psh) != p2 as int);
                    }
                }
            }
            r += 1;
        }
        proof {
            crate::shape::lemma_prod_from_nonneg(rsh, s as int);
            assert(nnz >= 1 && ds_spec >= 0);
            assert(self.size == nnz * ds_spec);
            vstd::arithmetic::div_mod::lemma_fundamental_div_mod_converse(
                self.size as int,
                nnz as int,
                ds_spec,
                0,
            );
        }
        let ds: usize = self.size / nnz;
        proof {
            vstd::arithmetic::div_mod::lemma_fundamental_div_mod_converse(
                self.size as int,
                nnz as int,
                ds_spec,
                0,
            );
            assert(ds == ds_spec);
        }
        let mut values: Vec<DType> = Vec::new();
        let mut i: usize = 0;
        while i < nnz
            invariant
                self.wf(),
                indices_wf(*indices),
                indices_wf(*b_indices),
                b_values.wf(),
                indices.sh()[0] == nnz,
                indices.sh()[1] == s,
                b_indices.sh()[0] == nnz,
                b_indices.sh()[1] == s,
                rsh == result_shape@,
                rl == result_shape@.len(),
                rl >= 1,
                s <= rl,
                psh == rsh.take(s as int),
                s <= rsh.len(),
                self.sh() == seq![nnz as usize] + rsh.skip(s as int),
                b_values.sh() == seq![nnz as usize] + rsh.skip(s as int),
                coords_ok(indices.vals(), s as int, nnz as int, psh),
                coords_ok(b_indices.vals(), s as int, nnz as int, psh),
                prod_range(rsh, 0, s as int) <= usize::MAX,
                forall|pos: usize|
                    b_position_map@.contains_key(pos) <==> last_match(
                        b_indices.vals(),
                        s as int,
                        nnz as int,
                        pos as int,
                        psh,
                    ) is Some,
                forall|pos: usize|
                    #[trigger] b_position_map@.contains_key(pos) ==> b_position_map@[pos] as int
                        == match_row(b_indices.vals(), s as int, nnz as int, pos as int, psh),
                ds == ds_spec,
                ds >= 0,
                nnz >= 1,
                self.size == nnz * ds,
                self.vals().len() == self.size,
                b_values.size == nnz * ds,
                b_values.vals().len() == b_values.size,
                0 <= i <= nnz,
                values@.len() == i * ds,
                forall|ii: int|
                    0 <= ii < i ==> last_match(
                        b_indices.vals(),
                        s as int,
                        nnz as int,
                        #[trigger] row_pos(indices.vals(), s as int, ii, psh),
                        psh,
                    ) is Some,
                forall|ii: int, jj: int|
                    0 <= ii < i && 0 <= jj < ds ==> #[trigger] values@[ii * ds + jj] == apply_bin(
                        op,
                        self.vals()[ii * ds + jj],
                        b_values.vals()[match_row(
                            b_indices.vals(),
                            s as int,
                            nnz as int,
                            row_pos(indices.vals(), s as int, ii, psh),
                            psh,
                        ) * ds + jj],
                    ),
            decreases nnz - i,
        {
            let pos: usize = indices.row_position(result_shape, s, i);
            let rb: usize = match b_position_map.get(&pos) {
                Some(v) => *v,
                None => {
                    proof {
                        assert(last_match(
                            b_indices.vals(),
                            s as int,
                            nnz as int,
                            row_pos(indices.vals(), s as int, i as int, psh),
                            psh,
                        ) is None);
                    }
                    return Err(TensorError::SparsePatternMismatch);
                },
            };
            proof {
                lemma_last_match_range(b_indices.vals(), s as int, nnz as int, pos as int, psh);
                assert(rb as int == match_row(b_indices.vals(), s as int, nnz as int, pos as int, psh));
                assert(0 <= rb < nnz);
                assert((i + 1) * ds <= nnz * ds) by (nonlinear_arith)
                    requires
                        i + 1 <= nnz,
                        ds >= 0,
                ;
                assert(i * ds + ds == (i + 1) * ds) by (nonlinear_arith);
                assert((rb + 1) * ds <= nnz * ds) by (nonlinear_arith)
                    requires
                        rb + 1 <= nnz,
                        ds >= 0,
                ;
                assert(rb * ds + ds == (rb + 1) * ds) by (nonlinear_arith);
                assert(rb * ds >= 0) by (nonlinear_arith)
                    requires
                        rb >= 0,
                        ds >= 0,
                ;
            }
            let mut j: usize = 0;
            while j < ds
                invariant
                    self.wf(),
                    b_values.wf(),
                    0 <= i < nnz,
                    0 <= j <= ds,
                    ds >= 0,
                    self.size == nnz * ds,
                    self.vals().len() == self.size,
                    b_values.vals().len() == b_values.size,
                    rb * ds + ds <= b_values.size,
                    i * ds + ds <= self.size,
                    rb as int == match_row(
                        b_indices.vals(),
                        s as int,
                        nnz as int,
                        row_pos(indices.vals(), s as int, i as int, psh),
                        psh,
                    ),
                    values@.len() == i * ds + j,
                    forall|ii: int, jj: int|
                        0 <= ii < i && 0 <= jj < ds ==> #[trigger] values@[ii * ds + jj]
                            == apply_bin(
                            op,
                            self.vals()[ii * ds + jj],
                            b_values.vals()[match_row(
                                b_indices.vals(),
                                s as int,
                                nnz as int,
                                row_pos(indices.vals(), s as int, ii, psh),
                                psh,
                            ) * ds + jj],
                        ),
                    forall|jj: int|
                        0 <= jj < j ==> #[trigger] values@[i * ds + jj] == apply_bin(
                            op,
                            self.vals()[i * ds + jj],
                            b_values.vals()[rb * ds + jj],
                        ),
                decreases ds - j,
            {
                let va = self.get_ix(i * ds + j);
                let vb = b_values.get_ix(rb * ds + j);
                values.push(apply_bin_e(op, va, vb));
                proof {
                    assert forall|ii: int, jj: int| 0 <= ii < i && 0 <= jj < ds implies #[trigger]
                        values@[ii * ds + jj] == apply_bin(
                        op,
                        self.vals()[ii * ds + jj],
                        b_values.vals()[match_row(
                            b_indices.vals(),
                            s as int,
                            nnz as int,
                            row_pos(indices.vals(), s as int, ii, psh),
                            psh,
                        ) * ds + jj],
                    ) by {
                        assert(ii * ds + jj < i * ds) by (nonlinear_arith)
                            requires
                                0 <= ii < i,
                                0 <= jj < ds,
                        ;
                        assert(ii * ds + jj >= 0) by (nonlinear_arith)
                            requires
                                ii >= 0,
                                jj >= 0,
                                ds >= 0,
                        ;
                    }
                }
                j += 1;
            }
            i += 1;
        }
        let out = Tensor::new(sh, st, self.size, values);
        return Ok(out);
    }

    /// Sparse-sparse addition with scalar coefficients, block by aligned
    /// block.
    pub fn _add_sparse_sparse(
        &self,
        indices: &Tensor<u32>,
        b_indices: &Tensor<u32>,
        b_values: &Tensor<DType>,
        result_shape: &Vec<usize>,
        alpha: DType,
        beta: DType,
    ) -> (r: Result<Tensor<DType>, TensorError>)
        requires
            self.wf(),
            indices_wf(*indices),
            indices_wf(*b_indices),
            b_values.wf(),
        ensures
            ss_ensures(
                *self,
                *indices,
                *b_indices,
                *b_values,
                result_shape@,
                BinOp::AddScaled(alpha, beta),
                r,
            ),
    {
        return self.binary_sparse_sparse(
            indices,
            b_indices,
            b_values,
            result_shape,
            BinOp::AddScaled(alpha, beta),
        );
    }

    /// Sparse-sparse subtraction with scalar coefficients, block by aligned
    /// block.
    pub fn _subtract_sparse_sparse(
        &self,
        indices: &Tensor<u32>,
        b_indices: &Tensor<u32>,
        b_values: &Tensor<DType>,
        result_shape: &Vec<usize>,
        alpha: DType,
        beta: DType,
    ) -> (r: Result<Tensor<DType>, TensorError>)
        requires
            self.wf(),
            indices_wf(*indices),
            indices_wf(*b_indices),
            b_values.wf(),
        ensures
            ss_ensures(
                *self,
                *indices,
                *b_indices,
                *b_values,
                result_shape@,
                BinOp::SubScaled(alpha, beta),
                r,
            ),
    {
        return self.binary_sparse_sparse(
            indices,
            b_indices,
            b_values,
            result_shape,
            BinOp::SubScaled(alpha, beta),
        );
    }

    /// Sparse-sparse scaled product, block by aligned block.
    pub fn _multiply_sparse_sparse(
        &self,
        indices: &Tensor<u32>,
        b_indices: &Tensor<u32>,
        b_values: &Tensor<DType>,
        result_shape: &Vec<usize>,
        alpha: DType,
    ) -> (r: Result<Tensor<DType>, TensorError>)
        requires
            self.wf(),
            indices_wf(*indices),
            indices_wf(*b_indices),
            b_values.wf(),
        ensures
            ss_ensures(
                *self,
                *indices,
                *b_indices,
                *b_values,
                result_shape@,
                BinOp::MulScaled(alpha),
                r,
            ),
    {
        return self.binary_sparse_sparse(
            indices,
            b_indices,
            b_values,
            result_shape,
            BinOp::MulScaled(alpha),
        );
    }

    /// Sparse-sparse scaled quotient, block by aligned block; a zero divisor
    /// yields zero.
    pub fn _divide_sparse_sparse(
        &self,
        indices: &Tensor<u32>,
        b_indices: &Tensor<u32>,
        b_values: &Tensor<DType>,
        result_shape: &Vec<usize>,
        alpha: DType,
    ) -> (r: Result<Tensor<DType>, TensorError>)
        requires
            self.wf(),
            indices_wf(*indices),
            indices_wf(*b_indices),
            b_values.wf(),
        ensures
            ss_ensures(
                *self,
                *indices,
                *b_indices,
                *b_values,
                result_shape@,
                BinOp::DivScaled(alpha),
                r,
            ),
    {
        return self.binary_sparse_sparse(
            indices,
            b_indices,
            b_values,
            result_shape,
            BinOp::DivScaled(alpha),
        );
    }
}

/// A shape that fails the rank or leading-dimension test differs from the
/// `[nnz, ...tail]` form.
proof fn lemma_shape_cons_mismatch(ash: Seq<usize>, nnz: usize, rsh: Seq<usize>, s: int)
    requires
        0 <= s <= rsh.len(),
        ash.len() != 1 + rsh.len() - s || (ash.len() > 0 && ash[0] != nnz),
    ensures
        ash != seq![nnz] + rsh.skip(s),
{
    let u = seq![nnz] + rsh.skip(s);
    assert(u.len() == 1 + rsh.len() - s);
    assert(u[0] == nnz);
}

/// A dense tail of product zero makes the whole buffer empty, so a
/// nonempty sparse prefix cannot coexist with it when the element count is
/// positive.
proof fn lemma_prod_range_dense_zero(rsh: Seq<usize>, s: int)
    requires
        0 <= s <= rsh.len(),
    ensures
        prod_range(rsh, 0, s) * prod_from(rsh, s) == prod_from(rsh, 0),
{
    lemma_prod_range_concat(rsh, 0, s, rsh.len() as int);
    lemma_prod_range_suffix(rsh, s);
    lemma_prod_range_suffix(rsh, 0);
}




/// How many leading axes of the new shape the accumulation takes before
/// reaching the old sparse extent: the loop takes axes while the running
/// product is still below the old size.
pub open spec fn take_count(ns: Seq<usize>, old: int, acc: int, i: int) -> int
    decreases ns.len() - i,
{
    if i >= ns.len() || acc >= old {
        i
    } else {
        take_count(ns, old, acc * ns[i], i + 1)
    }
}

/// Whether accumulating the new sparse prefix overflows the machine word
/// before reaching the old sparse extent.
pub open spec fn take_overflows(ns: Seq<usize>, old: int, acc: int, i: int) -> bool
    decreases ns.len() - i,
{
    if i >= ns.len() || acc >= old {
        false
    } else if acc * ns[i] > usize::MAX {
        true
    } else {
        take_overflows(ns, old, acc * ns[i], i + 1)
    }
}

/// Why a sparse coordinate reshape rejects its inputs.
pub open spec fn reshape_error(
    indices: Tensor<u32>,
    old_shape: Seq<usize>,
    new_shape: Seq<usize>,
) -> Option<TensorError> {
    let s_old = indices.sh()[1] as int;
    let nnz = indices.sh()[0] as int;
    let old_size = size_spec(old_shape);
    let cnt = take_count(new_shape, old_size, 1, 0);
    let ssz = prod_range(new_shape, 0, cnt);
    if old_shape.len() != s_old {
        Some(TensorError::ShapeMismatch)
    } else if old_size > usize::MAX {
        Some(TensorError::UnrepresentableConstant)
    } else if old_size == 0 {
        Some(TensorError::EmptyTensor)
    } else if !coords_ok(indices.vals(), s_old, nnz, old_shape) {
        Some(TensorError::ShapeMismatch)
    } else if take_overflows(new_shape, old_size, 1, 0) {
        Some(TensorError::UnrepresentableConstant)
    } else if exists|j: int| 0 <= j < cnt && #[trigger] new_shape[j] > u32::MAX {
        Some(TensorError::UnrepresentableConstant)
    } else if ssz % old_size != 0 {
        Some(TensorError::ShapeMismatch)
    } else if nnz * (ssz / old_size) > usize::MAX || nnz * (ssz / old_size) * cnt > usize::MAX {
        Some(TensorError::UnrepresentableConstant)
    } else {
        None
    }
}

impl Tensor<u32> {
    /// Re-express a sparse coordinate set under a new flattening of the same
    /// linear extent: the new sparse shape is the shortest prefix of the new
    /// shape covering the old one, each old row linearizes, rescales by how
    /// many new rows one old row fans out into, and converts back; new row
    /// `i` therefore holds the valid multi-index of the new sparse shape
    /// whose position is `pos(old row i / frac) * frac + i % frac`.
    #[verifier::rlimit(100)]
    #[verifier::spinoff_prover]
    pub fn _reshape_sparse_indices(&self, old_sparse_shape: &Vec<usize>, new_shape: &Vec<usize>) -> (r:
        Result<Tensor<u32>, TensorError>)
        requires
            indices_wf(*self),
        ensures
            r is Err <==> reshape_error(*self, old_sparse_shape@, new_shape@) is Some,
            r matches Err(e) ==> Some(e) == reshape_error(*self, old_sparse_shape@, new_shape@),
            r matches Ok(out) ==> {
                let s_old = self.sh()[1] as int;
                let nnz = self.sh()[0] as int;
                let old_size = size_spec(old_sparse_shape@);
                let cnt = take_count(new_shape@, old_size, 1, 0);
                let frac = prod_range(new_shape@, 0, cnt) / old_size;
                let psh = new_shape@.take(cnt);
                &&& out.sh() == seq![(nnz * frac) as usize, cnt as usize]
                &&& out.st() == seq![cnt as usize, 1usize]
                &&& out.size == nnz * frac * cnt
                &&& out.vals().len() == out.size
                &&& forall|i: int|
                    0 <= i < nnz * frac ==> valid_index(
                        #[trigger] coords_row(out.vals(), cnt, i),
                        psh,
                    )
                &&& forall|i: int|
                    0 <= i < nnz * frac ==> #[trigger] row_pos(out.vals(), cnt, i, psh) == row_pos(
                        self.vals(),
                        s_old,
                        i / frac,
                        old_sparse_shape@,
                    ) * frac + i % frac
            },
    {
        let s_old: usize = self.get_dim_size(1);
        let nnz: usize = self.get_dim_size(0);
        if old_sparse_shape.len() != s_old {
            return Err(TensorError::ShapeMismatch);
        }
        let old_size: usize = match crate::shape::try_get_size(old_sparse_shape) {
            Some(v) => v,
            None => {
                return Err(TensorError::UnrepresentableConstant);
            },
        };
        if old_size == 0 {
            return Err(TensorError::EmptyTensor);
        }
        proof {
            assert(old_sparse_shape@.take(s_old as int) =~= old_sparse_shape@);
        }
        if !self.check_coords(old_sparse_shape, s_old) {
            return Err(TensorError::ShapeMismatch);
        }
        let ghost ns = new_shape@;
        let nl: usize = new_shape.len();
        let mut sparse_size: usize = 1;
        let mut cnt: usize = 0;
        while cnt < nl && sparse_size < old_size
            invariant
                indices_wf(*self),
                self.sh()[0] == nnz,
                self.sh()[1] == s_old,
                old_sparse_shape@.len() == s_old,
                old_size == size_spec(old_sparse_shape@),
                old_size >= 1,
                coords_ok(self.vals(), s_old as int, nnz as int, old_sparse_shape@),
                ns == new_shape@,
                nl == ns.len(),
                0 <= cnt <= nl,
                sparse_size == prod_range(ns, 0, cnt as int),
                take_count(ns, old_size as int, 1, 0) == take_count(
                    ns,
                    old_size as int,
                    sparse_size as int,
                    cnt as int,
                ),
                take_overflows(ns, old_size as int, 1, 0) == take_overflows(
                    ns,
                    old_size as int,
                    sparse_size as int,
                    cnt as int,
                ),
            decreases nl - cnt,
        {
            proof {
                lemma_prod_range_concat(ns, 0, cnt as int, cnt as int + 1);
                assert(prod_range(ns, cnt as int + 1, cnt as int + 1) == 1);
                assert(prod_range(ns, cnt as int, cnt as int + 1) == ns[cnt as int] * prod_range(
                    ns,
                    cnt as int + 1,
                    cnt as int + 1,
                ));
                assert(ns[cnt as int] * 1 == ns[cnt as int]) by (nonlinear_arith);
            }
            match sparse_size.checked_mul(new_shape[cnt]) {
                Some(v) => {
                    sparse_size = v;
                },
                None => {
                    proof {
                        assert(take_overflows(
                            ns,
                            old_size as int,
                            sparse_size as int,
                            cnt as int,
                        ));
                    }
                    return Err(TensorError::UnrepresentableConstant);
                },
            }
            cnt += 1;
        }
        proof {
            assert(take_count(ns, old_size as int, sparse_size as int, cnt as int) == cnt as int);
            assert(!take_overflows(ns, old_size as int, sparse_size as int, cnt as int));
            assert(cnt as int == take_count(ns, old_size as int, 1, 0));
            assert(!take_overflows(ns, old_size as int, 1, 0));
        }
        let mut sparse_shape: Vec<usize> = Vec::new();
        let mut zc: usize = 0;
        while zc < cnt
            invariant
                indices_wf(*self),
                self.sh()[0] == nnz,
                self.sh()[1] == s_old,
                old_sparse_shape@.len() == s_old,
                old_size == size_spec(old_sparse_shape@),
                old_size >= 1,
                coords_ok(self.vals(), s_old as int, nnz as int, old_sparse_shape@),
                ns == new_shape@,
                cnt <= ns.len(),
                cnt as int == take_count(ns, old_size as int, 1, 0),
                !take_overflows(ns, old_size as int, 1, 0),
                0 <= zc <= cnt,
                sparse_shape@ =~= ns.take(cnt as int).take(zc as int),
                forall|j: int| 0 <= j < zc ==> #[trigger] ns[j] <= u32::MAX,
            decreases cnt - zc,
        {
            if new_shape[zc] > u32::MAX as usize {
                proof {
                    assert(ns[zc as int] > u32::MAX);
                }
                return Err(TensorError::UnrepresentableConstant);
            }
            sparse_shape.push(new_shape[zc]);
            zc += 1;
        }
        let ghost psh = ns.take(cnt as int);
        proof {
            assert(sparse_shape@ =~= psh);
            assert(forall|j: int| 0 <= j < cnt ==> #[trigger] psh[j] <= u32::MAX);
        }
        if sparse_size % old_size != 0 {
            return Err(TensorError::ShapeMismatch);
        }
        let nnz_fraction: usize = sparse_size / old_size;
        let nnz_new: usize = match nnz.checked_mul(nnz_fraction) {
            Some(v) => v,
            None => {
                return Err(TensorError::UnrepresentableConstant);
            },
        };
        let total: usize = match nnz_new.checked_mul(cnt) {
            Some(v) => v,
            None => {
                proof {
                    assert(nnz * nnz_fraction * cnt == nnz_new * cnt) by (nonlinear_arith)
                        requires
                            nnz_new == (nnz as int) * (nnz_fraction as int),
                    ;
                }
                return Err(TensorError::UnrepresentableConstant);
            },
        };
        proof {
            assert(nnz * nnz_fraction * cnt == nnz_new * cnt) by (nonlinear_arith)
                requires
                    nnz_new == (nnz as int) * (nnz_fraction as int),
            ;
            vstd::arithmetic::div_mod::lemma_fundamental_div_mod(
                sparse_size as int,
                old_size as int,
            );
            assert(sparse_size as int == (nnz_fraction as int) * (old_size as int))
                by (nonlinear_arith)
                requires
                    sparse_size as int == (old_size as int) * ((sparse_size as int) / (
                    old_size as int)) + (sparse_size as int) % (old_size as int),
                    (sparse_size as int) % (old_size as int) == 0,
                    nnz_fraction as int == (sparse_size as int) / (old_size as int),
            ;
            lemma_two_dim_size(*self);
            lemma_prod_from_take(ns, cnt as int, 0);
            if nnz_fraction >= 1 {
                assert(sparse_size >= old_size) by (nonlinear_arith)
                    requires
                        sparse_size as int == (nnz_fraction as int) * (old_size as int),
                        nnz_fraction >= 1,
                        old_size >= 0,
                ;
                assert forall|j: int| 0 <= j < cnt implies #[trigger] psh[j] >= 1 by {
                    if ns[j] == 0 {
                        lemma_prefix_zero(ns, j, cnt as int);
                    }
                }
            }
        }

        let mut indice_values: Vec<u32> = Vec::new();
        let mut i: usize = 0;
        while i < nnz_new
            invariant
                indices_wf(*self),
                self.sh()[0] == nnz,
                self.sh()[1] == s_old,
                self.size == nnz * s_old,
                self.vals().len() == self.size,
                ns == new_shape@,
                cnt <= ns.len(),
                psh == ns.take(cnt as int),
                sparse_shape@ == psh,
                sparse_shape@.len() == cnt,
                nnz_fraction >= 1 ==> (forall|j: int| 0 <= j < cnt ==> #[trigger] psh[j] >= 1),
                forall|j: int| 0 <= j < cnt ==> #[trigger] psh[j] <= u32::MAX,
                old_sparse_shape@.len() == s_old,
                old_size == size_spec(old_sparse_shape@),
                old_size >= 1,
                coords_ok(self.vals(), s_old as int, nnz as int, old_sparse_shape@),
                sparse_size == prod_range(ns, 0, cnt as int),
                sparse_size == nnz_fraction * old_size,
                nnz_new == nnz * nnz_fraction,
                total == nnz_new * cnt,
                0 <= i <= nnz_new,
                indice_values@.len() == i * cnt,
                forall|ii: int|
                    0 <= ii < i ==> valid_index(
                        #[trigger] coords_row(indice_values@, cnt as int, ii),
                        psh,
                    ),
                forall|ii: int|
                    0 <= ii < i ==> #[trigger] row_pos(indice_values@, cnt as int, ii, psh)
                        == row_pos(
                        self.vals(),
                        s_old as int,
                        ii / nnz_fraction as int,
                        old_sparse_shape@,
                    ) * nnz_fraction + ii % nnz_fraction as int,
            decreases nnz_new - i,
        {
            proof {
                assert(nnz_fraction >= 1) by (nonlinear_arith)
                    requires
                        nnz_new == (nnz as int) * (nnz_fraction as int),
                        i < nnz_new,
                        nnz >= 0,
                        nnz_fraction >= 0,
                ;
                assert(forall|j: int| 0 <= j < cnt ==> #[trigger] psh[j] >= 1);
                assert(i / nnz_fraction < nnz) by {
                    crate::shape::lemma_div_bound(
                        i as int,
                        nnz as int,
                        nnz_fraction as int,
                    );
                    assert((i as int) < (nnz as int) * (nnz_fraction as int)) by (nonlinear_arith)
                        requires
                            i < nnz_new,
                            nnz_new == (nnz as int) * (nnz_fraction as int),
                    ;
                }
                vstd::arithmetic::div_mod::lemma_fundamental_div_mod(
                    i as int,
                    nnz_fraction as int,
                );
                vstd::arithmetic::div_mod::lemma_mod_bound(i as int, nnz_fraction as int);
            }
            let old_nnz_ix: usize = i / nnz_fraction;
            let rem: usize = i % nnz_fraction;
            proof {
                lemma_prod_range_suffix(old_sparse_shape@, 0);
                assert(prod_range(old_sparse_shape@, 0, s_old as int) == prod_from(
                    old_sparse_shape@,
                    0,
                ));
                assert(old_sparse_shape@.take(s_old as int) =~= old_sparse_shape@);
            }
            let old_pos: usize = self.row_position(old_sparse_shape, s_old, old_nnz_ix);
            proof {
                assert((old_pos as int) * (nnz_fraction as int) + rem < sparse_size)
                    by (nonlinear_arith)
                    requires
                        old_pos < old_size,
                        rem < nnz_fraction,
                        sparse_size as int == (nnz_fraction as int) * (old_size as int),
                        nnz_fraction >= 1,
                        old_pos >= 0,
                        rem >= 0,
                ;
                assert((old_pos as int) * (nnz_fraction as int) >= 0) by (nonlinear_arith)
                    requires
                        old_pos >= 0,
                        nnz_fraction >= 0,
                ;
            }
            let new_pos: usize = old_pos * nnz_fraction + rem;
            proof {
                crate::ops::aggregate::lemma_prod_from_mono_all(psh);
                lemma_prod_from_take(ns, cnt as int, 0);
                assert(prod_from(psh, 0) == sparse_size);
                assert(crate::shape::fits_usize(psh));
            }
            let new_strides: Vec<usize> = crate::shape::compute_strides_no_zero(&sparse_shape);
            let digits: Vec<usize> = crate::shape::pos_to_index(new_pos, &new_strides);
            proof {
                lemma_digit_facts(digits@, psh, new_strides@, new_pos as int);
            }
            let mut jj: usize = 0;
            proof {
                assert((i as int) * (cnt as int) >= 0) by (nonlinear_arith)
                    requires
                        i >= 0,
                        cnt >= 0,
                ;
            }
            while jj < cnt
                invariant
                    0 <= jj <= cnt,
                    0 <= i,
                    psh.len() == cnt,
                    digits@.len() == cnt,
                    forall|j: int| 0 <= j < cnt ==> #[trigger] digits@[j] < psh[j],
                    forall|j: int| 0 <= j < cnt ==> psh[j] <= u32::MAX,
                    nnz_fraction >= 1,
                    old_sparse_shape@.len() == s_old,
                    indice_values@.len() == i * cnt + jj,
                    i * cnt >= 0,
                    forall|m: int|
                        i * cnt <= m < i * cnt + jj ==> indice_values@[m] == (digits@[m - i
                            * cnt] as u32),
                    forall|ii: int|
                        0 <= ii < i ==> valid_index(
                            #[trigger] coords_row(indice_values@, cnt as int, ii),
                            psh,
                        ),
                    forall|ii: int|
                        0 <= ii < i ==> #[trigger] row_pos(indice_values@, cnt as int, ii, psh)
                            == row_pos(
                            self.vals(),
                            s_old as int,
                            ii / nnz_fraction as int,
                            old_sparse_shape@,
                        ) * nnz_fraction + ii % nnz_fraction as int,
                decreases cnt - jj,
            {
                let ghost old_vals = indice_values@;
                indice_values.push(digits[jj] as u32);
                proof {
                    assert forall|ii: int| 0 <= ii < i implies coords_row(
                        indice_values@,
                        cnt as int,
                        ii,
                    ) =~= coords_row(old_vals, cnt as int, ii) by {
                        assert forall|j: int| 0 <= j < cnt implies coords_row(
                            indice_values@,
                            cnt as int,
                            ii,
                        )[j] == coords_row(old_vals, cnt as int, ii)[j] by {
                            lemma_row_block_bound(ii, j, i as int, cnt as int);
                        }
                    }
                    assert forall|ii: int| 0 <= ii < i implies valid_index(
                        #[trigger] coords_row(indice_values@, cnt as int, ii),
                        psh,
                    ) && row_pos(indice_values@, cnt as int, ii, psh) == row_pos(
                        self.vals(),
                        s_old as int,
                        ii / nnz_fraction as int,
                        old_sparse_shape@,
                    ) * nnz_fraction + ii % nnz_fraction as int by {
                        assert(coords_row(indice_values@, cnt as int, ii) == coords_row(
                            old_vals,
                            cnt as int,
                            ii,
                        ));
                        assert(valid_index(coords_row(old_vals, cnt as int, ii), psh));
                        assert(row_pos(old_vals, cnt as int, ii, psh) == row_pos(
                            self.vals(),
                            s_old as int,
                            ii / nnz_fraction as int,
                            old_sparse_shape@,
                        ) * nnz_fraction + ii % nnz_fraction as int);
                        assert(row_pos(indice_values@, cnt as int, ii, psh) == row_pos(
                            old_vals,
                            cnt as int,
                            ii,
                            psh,
                        ));
                    }
                }
                jj += 1;
            }
            proof {
                lemma_row_extend(
                    indice_values@,
                    digits@,
                    cnt as int,
                    i as int,
                    psh,
                    new_pos as int,
                    new_strides@,
                );
                assert((i as int) * (cnt as int) + cnt as int == ((i + 1) as int) * (cnt as int))
                    by (nonlinear_arith);
                assert(((i + 1) as int) * (cnt as int) <= (nnz_new as int) * (cnt as int))
                    by (nonlinear_arith)
                    requires
                        i + 1 <= nnz_new,
                        cnt >= 0,
                ;
                assert forall|ii: int| 0 <= ii < i + 1 implies valid_index(
                    #[trigger] coords_row(indice_values@, cnt as int, ii),
                    psh,
                ) && row_pos(indice_values@, cnt as int, ii, psh) == row_pos(
                    self.vals(),
                    s_old as int,
                    ii / nnz_fraction as int,
                    old_sparse_shape@,
                ) * nnz_fraction + ii % nnz_fraction as int by {
                    if ii == i {
                        assert((i as int) / (nnz_fraction as int) == old_nnz_ix as int);
                        assert((i as int) % (nnz_fraction as int) == rem as int);
                    }
                }
            }
            i += 1;
        }
        let mut result_shape: Vec<usize> = Vec::new();
        result_shape.push(nnz_new);
        result_shape.push(cnt);
        let mut result_strides: Vec<usize> = Vec::new();
        result_strides.push(cnt);
        result_strides.push(1);
        proof {
            assert(indice_values@.len() == (nnz_new as int) * (cnt as int));
        }
        let out = Tensor::new(result_shape, result_strides, total, indice_values);
        proof {
            assert(out.sh() =~= seq![nnz_new as usize, cnt as usize]);
            assert(out.st() =~= seq![cnt as usize, 1usize]);
        }
        return Ok(out);
    }
}

/// A zero dimension inside the taken prefix zeroes its product.
proof fn lemma_prefix_zero(ns: Seq<usize>, j: int, cnt: int)
    requires
        0 <= j < cnt <= ns.len(),
        ns[j] == 0,
    ensures
        prod_range(ns, 0, cnt) == 0,
{
    lemma_prod_range_concat(ns, 0, j, cnt);
    lemma_prod_range_concat(ns, j, j + 1, cnt);
    assert(prod_range(ns, j, j + 1) == ns[j] * prod_range(ns, j + 1, j + 1));
    assert(ns[j] * 1 == 0) by (nonlinear_arith)
        requires
            ns[j] == 0,
    ;
    assert(prod_range(ns, j, cnt) == 0 * prod_range(ns, j + 1, cnt)) by (nonlinear_arith)
        requires
            prod_range(ns, j, j + 1) == 0,
            prod_range(ns, j, cnt) == prod_range(ns, j, j + 1) * prod_range(ns, j + 1, cnt),
    ;
    assert(0 * prod_range(ns, j + 1, cnt) == 0) by (nonlinear_arith);
    assert(prod_range(ns, 0, j) * 0 == 0) by (nonlinear_arith);
}

/// When the row count overflows, so does the whole buffer size.
proof fn lemma_new_total_big(nnz: int, frac: int, cnt: int)
    requires
        nnz >= 0,
        frac >= 0,
        cnt >= 1,
        nnz * frac > usize::MAX,
    ensures
        nnz * frac * cnt > usize::MAX,
{
    assert(nnz * frac * cnt >= nnz * frac * 1) by (nonlinear_arith)
        requires
            nnz * frac >= 0,
            cnt >= 1,
    ;
    assert(nnz * frac * 1 == nnz * frac) by (nonlinear_arith);
}

/// The digits `pos_to_index` produces are valid coordinates that linearize
/// back to the position.
proof fn lemma_digit_facts(digits: Seq<usize>, psh: Seq<usize>, st: Seq<usize>, p: int)
    requires
        digits.len() == psh.len(),
        st.len() == psh.len(),
        forall|j: int| 0 <= j < psh.len() ==> psh[j] >= 1,
        forall|j: int| 0 <= j < psh.len() ==> st[j] == crate::shape::nz_stride_at(psh, j),
        forall|j: int|
            0 <= j < psh.len() ==> digits[j] == crate::shape::rem_chain(p, st, j) / (st[j] as int),
        0 <= p < prod_from(psh, 0),
    ensures
        valid_index(digits, psh),
        pos_of(digits, psh) == p,
    decreases 0int,
{
    crate::shape::lemma_pos_index_round_trip(digits, psh, st, p);
    lemma_all_pos_prod_bounds(psh, 0);
    assert forall|j: int| 0 <= j < psh.len() implies digits[j] < psh[j] by {
        crate::shape::lemma_rem_chain_bound(psh, st, p, j);
        assert(crate::shape::rem_chain(p, st, j) < prod_from(psh, j));
        assert(prod_from(psh, j) == psh[j] * prod_from(psh, j + 1));
        assert(st[j] >= 1);
        assert(psh[j] * prod_from(psh, j + 1) == (psh[j] as int) * (st[j] as int));
        crate::shape::lemma_div_bound(
            crate::shape::rem_chain(p, st, j),
            psh[j] as int,
            st[j] as int,
        );
    }
    assert(pos_of(digits, psh) == crate::shape::dot(digits, st)) by {
        crate::shape::lemma_dot_matches_pos(digits, psh, st, psh.len() as int);
    }
}

/// An entry of an earlier coordinate row sits strictly before the current
/// row's block.
proof fn lemma_row_block_bound(ii: int, j: int, i: int, cnt: int)
    requires
        0 <= ii < i,
        0 <= j < cnt,
    ensures
        0 <= ii * cnt + j < i * cnt,
{
    assert(ii * cnt + j < (ii + 1) * cnt) by (nonlinear_arith)
        requires
            0 <= j < cnt,
    ;
    assert((ii + 1) * cnt <= i * cnt) by (nonlinear_arith)
        requires
            ii + 1 <= i,
            cnt >= 0,
    ;
    assert(ii * cnt + j >= 0) by (nonlinear_arith)
        requires
            ii >= 0,
            cnt >= 0,
            j >= 0,
    ;
}

/// After pushing the digits of a new row, that row reads back as exactly
/// those digits, so its coordinates are valid and linearize to the intended
/// position.
proof fn lemma_row_extend(
    vals: Seq<u32>,
    digits: Seq<usize>,
    cnt: int,
    i: int,
    psh: Seq<usize>,
    p: int,
    st: Seq<usize>,
)
    requires
        cnt >= 0,
        i >= 0,
        digits.len() == cnt,
        psh.len() == cnt,
        vals.len() == i * cnt + cnt,
        forall|j: int| 0 <= j < cnt ==> psh[j] <= u32::MAX,
        valid_index(digits, psh),
        pos_of(digits, psh) == p,
        forall|m: int| i * cnt <= m < i * cnt + cnt ==> vals[m] == (digits[m - i * cnt] as u32),
    ensures
        valid_index(coords_row(vals, cnt, i), psh),
        row_pos(vals, cnt, i, psh) == p,
{
    let row = coords_row(vals, cnt, i);
    assert forall|j: int| 0 <= j < cnt implies row[j] == digits[j] by {
        assert(i * cnt <= i * cnt + j < i * cnt + cnt) by (nonlinear_arith)
            requires
                0 <= j < cnt,
                i >= 0,
        ;
        assert(vals[i * cnt + j] == (digits[j] as u32));
        assert(digits[j] < psh[j]);
        assert(psh[j] <= u32::MAX);
        assert((digits[j] as u32) as usize == digits[j]);
    }
    assert(row =~= digits);
}

/// The postprocess of a sparse aggregation, applied once per output slot
/// together with the slot's visit count.
#[derive(Debug, Clone, Copy)]
pub enum SparsePostOp {
    /// the accumulator itself
    Id,
    /// the accumulator divided by the number of visits; a slot nothing
    /// visited keeps its zero, since the sparse tensor's empty positions
    /// must not enter the denominator
    MeanByCount,
}

/// The full multi-index of one scattered element: the sparse coordinates of
/// its row followed by the dense-tail index of its offset within the block.
pub open spec fn sp_full_index(
    ivals: Seq<u32>,
    s: int,
    i: int,
    tail: Seq<usize>,
    j: int,
) -> Seq<usize> {
    coords_row(ivals, s, i) + index_of(j, tail)
}

/// The output slot the `t`-th stored element scatters into: its row's
/// coordinates and its in-block index, projected through the kept axes onto
/// the output strides.
pub open spec fn sp_slot(
    ivals: Seq<u32>,
    s: int,
    shape: Seq<usize>,
    axes: Seq<usize>,
    keep: bool,
    ds: int,
    t: int,
) -> int {
    crate::ops::aggregate::proj_prefix(
        sp_full_index(ivals, s, t / ds, shape.skip(s), t % ds),
        crate::ops::aggregate::map_spec(shape.len() as int, axes, keep),
        crate::ops::aggregate::reduced_shape(shape, axes, keep),
        crate::ops::aggregate::reduced_shape(shape, axes, keep).len() as int,
    )
}

/// How many of the first `n` stored elements scatter into slot `q`.
pub open spec fn sp_count(
    ivals: Seq<u32>,
    s: int,
    shape: Seq<usize>,
    axes: Seq<usize>,
    keep: bool,
    ds: int,
    n: int,
    q: int,
) -> int
    decreases n,
{
    if n <= 0 {
        0
    } else {
        sp_count(ivals, s, shape, axes, keep, ds, n - 1, q) + if sp_slot(
            ivals,
            s,
            shape,
            axes,
            keep,
            ds,
            n - 1,
        ) == q {
            1int
        } else {
            0int
        }
    }
}

/// The accumulator of slot `q` after the first `n` stored elements have been
/// scattered.  Slots start at zero; a slot's first element replaces the zero
/// through the init transform when one is chosen, and otherwise every
/// element joins through the combine operation.
pub open spec fn sp_state<T: Element>(
    vals: Seq<T>,
    ivals: Seq<u32>,
    s: int,
    shape: Seq<usize>,
    axes: Seq<usize>,
    keep: bool,
    ds: int,
    c: CombineOp,
    init: InitOp,
    n: int,
    q: int,
) -> T
    decreases n,
{
    if n <= 0 {
        T::zero_s()
    } else {
        let prev = sp_state(vals, ivals, s, shape, axes, keep, ds, c, init, n - 1, q);
        if sp_slot(ivals, s, shape, axes, keep, ds, n - 1) == q {
            if init is Square && sp_count(ivals, s, shape, axes, keep, ds, n - 1, q) == 0 {
                apply_init(InitOp::Square, vals[n - 1])
            } else {
                apply_combine(c, vals[n - 1], prev)
            }
        } else {
            prev
        }
    }
}

/// The shape a sparse aggregation produces: the reduced logical shape, with
/// a one-element shape standing in when every axis is reduced away.
pub open spec fn sp_result_shape(shape: Seq<usize>, axes: Seq<usize>, keep: bool) -> Seq<usize> {
    let rs = crate::ops::aggregate::reduced_shape(shape, axes, keep);
    if rs.len() == 0 {
        seq![1usize]
    } else {
        rs
    }
}

/// The value the sparse postprocess produces from an accumulator and its
/// visit count.
pub open spec fn apply_sp_post<T: Element>(p: SparsePostOp, x: T, count: int) -> T {
    match p {
        SparsePostOp::Id => x,
        SparsePostOp::MeanByCount => if count == 0 {
            x
        } else {
            match T::from_usize_s(count as usize) {
                Some(d) => x.div_s(d),
                None => x,
            }
        },
    }
}

/// Why a sparse aggregation rejects its inputs.
pub open spec fn sp_agg_error<T>(
    vals: Tensor<T>,
    shape: Seq<usize>,
    indices: Tensor<u32>,
    axes: Seq<usize>,
    keep: bool,
) -> Option<TensorError> {
    let s = indices.sh()[1] as int;
    let nnz = indices.sh()[0] as int;
    if shape.len() < s || shape.len() == 0 {
        Some(TensorError::ShapeMismatch)
    } else if vals.sh() != seq![indices.sh()[0] as usize] + shape.skip(s) {
        Some(TensorError::ShapeMismatch)
    } else if axes.len() == 0 {
        Some(TensorError::ShapeMismatch)
    } else if !crate::ops::aggregate::axes_in_range(axes, shape.len() as int) {
        Some(TensorError::AxisOutOfRange)
    } else if !crate::ops::aggregate::strictly_increasing(axes) {
        Some(TensorError::ShapeMismatch)
    } else if !coords_ok(indices.vals(), s, nnz, shape.take(s)) {
        Some(TensorError::ShapeMismatch)
    } else if size_spec(sp_result_shape(shape, axes, keep)) > usize::MAX {
        Some(TensorError::UnrepresentableConstant)
    } else if size_spec(sp_result_shape(shape, axes, keep)) == 0 {
        Some(TensorError::EmptyTensor)
    } else {
        None
    }
}

/// No slot is visited more often than there are elements.
proof fn lemma_sp_count_le(
    ivals: Seq<u32>,
    s: int,
    shape: Seq<usize>,
    axes: Seq<usize>,
    keep: bool,
    ds: int,
    n: int,
    q: int,
)
    requires
        n >= 0,
    ensures
        0 <= sp_count(ivals, s, shape, axes, keep, ds, n, q) <= n,
    decreases n,
{
    if n > 0 {
        lemma_sp_count_le(ivals, s, shape, axes, keep, ds, n - 1, q);
    }
}

/// What a sparse aggregation returns: the declared error exactly when the
/// inputs are rejected or a visit count cannot be represented, otherwise a
/// contiguous tensor of the reduced shape whose slot `q` holds the
/// postprocessed fold of the elements scattering to `q`.
pub open spec fn sp_agg_ensures<T: Element>(
    vals: Tensor<T>,
    shape: Seq<usize>,
    indices: Tensor<u32>,
    axes: Seq<usize>,
    keep: bool,
    c: CombineOp,
    init: InitOp,
    post: SparsePostOp,
    r: Result<Tensor<T>, TensorError>,
) -> bool {
    let s = indices.sh()[1] as int;
    let ds = prod_from(shape, s);
    let n = vals.size as int;
    let rsh = sp_result_shape(shape, axes, keep);
    let base_err = sp_agg_error(vals, shape, indices, axes, keep);
    &&& (base_err matches Some(e) ==> r == Err::<Tensor<T>, TensorError>(e))
    &&& (base_err is None ==> if post is MeanByCount && exists|q: int|
        0 <= q < size_spec(rsh) && #[trigger] sp_count(indices.vals(), s, shape, axes, keep, ds, n, q)
            > 0 && T::from_usize_s(
            sp_count(indices.vals(), s, shape, axes, keep, ds, n, q) as usize,
        ) is None {
        r == Err::<Tensor<T>, TensorError>(TensorError::UnrepresentableConstant)
    } else {
        &&& r is Ok
        &&& (r matches Ok(out) ==> {
            &&& out.canonical()
            &&& out.sh() == rsh
            &&& out.size == size_spec(rsh)
            &&& forall|q: int|
                0 <= q < out.size ==> out.vals()[q] == apply_sp_post(
                    post,
                    sp_state(
                        vals.vals(),
                        indices.vals(),
                        s,
                        shape,
                        axes,
                        keep,
                        ds,
                        c,
                        init,
                        n,
                        q,
                    ),
                    sp_count(indices.vals(), s, shape, axes, keep, ds, n, q),
                )
        })
    })
}

impl<DType: Element> Tensor<DType> {
    /// Scatter every stored element of a sparse tensor into a dense
    /// reduction over the given axes: each element's output slot projects
    /// its sparse coordinates and its in-block index through the kept axes,
    /// and a per-slot visit counter feeds the count-dependent postprocess.
    #[verifier::rlimit(100)]
    #[verifier::spinoff_prover]
    pub fn aggregate_sparse(
        &self,
        shape: &Vec<usize>,
        indices: &Tensor<u32>,
        axes: &Vec<usize>,
        keep_dims: bool,
        c: CombineOp,
        init: InitOp,
        post: SparsePostOp,
    ) -> (r: Result<Tensor<DType>, TensorError>)
        requires
            self.wf(),
            indices_wf(*indices),
        ensures
            sp_agg_ensures(*self, shape@, *indices, axes@, keep_dims, c, init, post, r),
    {
        let s: usize = indices.get_dim_size(1);
        let nnz: usize = indices.get_dim_size(0);
        if shape.len() < s || shape.len() == 0 {
            return Err(TensorError::ShapeMismatch);
        }
        let rl: usize = shape.len();
        let d: usize = rl - s;
        let rank_a: usize = self.rank();
        if rank_a == 0 || rank_a - 1 != d || self.get_dim_size(0) != nnz {
            proof {
                lemma_shape_cons_mismatch(self.sh(), nnz, shape@, s as int);
            }
            return Err(TensorError::ShapeMismatch);
        }
        let mut kv: usize = 0;
        while kv < d
            invariant
                self.wf(),
                indices_wf(*indices),
                indices.sh()[0] == nnz,
                indices.sh()[1] == s,
                rl == shape@.len(),
                rl >= 1,
                s <= rl,
                s + d == rl,
                self.sh().len() == d + 1,
                self.sh()[0] == nnz,
                0 <= kv <= d,
                forall|m: int| 0 <= m < kv ==> #[trigger] self.sh()[1 + m] == shape@[s + m],
            decreases d - kv,
        {
            if self.get_dim_size(1 + kv) != shape[s + kv] {
                proof {
                    assert(self.sh()[1 + kv] != (seq![nnz] + shape@.skip(s as int))[1 + kv]);
                }
                return Err(TensorError::ShapeMismatch);
            }
            kv += 1;
        }
        proof {
            assert forall|l: int| 0 <= l < self.sh().len() implies self.sh()[l] == (seq![nnz]
                + shape@.skip(s as int))[l] by {
                if l >= 1 {
                    assert(self.sh()[1 + (l - 1)] == shape@[s + (l - 1)]);
                }
            }
            assert(self.sh() =~= seq![nnz] + shape@.skip(s as int));
        }
        if axes.len() == 0 {
            return Err(TensorError::ShapeMismatch);
        }
        let na: usize = axes.len();
        let mut ia: usize = 0;
        while ia < na
            invariant
                self.wf(),
                indices_wf(*indices),
                indices.sh()[0] == nnz,
                indices.sh()[1] == s,
                rl == shape@.len(),
                rl >= 1,
                s <= rl,
                self.sh() == seq![nnz as usize] + shape@.skip(s as int),
                na == axes@.len(),
                na >= 1,
                0 <= ia <= na,
                forall|k: int| 0 <= k < ia ==> axes@[k] < rl,
            decreases na - ia,
        {
            if axes[ia] >= rl {
                return Err(TensorError::AxisOutOfRange);
            }
            ia += 1;
        }
        let mut ka: usize = 1;
        while ka < na
            invariant
                self.wf(),
                indices_wf(*indices),
                indices.sh()[0] == nnz,
                indices.sh()[1] == s,
                rl == shape@.len(),
                rl >= 1,
                s <= rl,
                self.sh() == seq![nnz as usize] + shape@.skip(s as int),
                na == axes@.len(),
                na >= 1,
                crate::ops::aggregate::axes_in_range(axes@, rl as int),
                1 <= ka <= na,
                forall|j: int| 0 <= j < ka - 1 ==> #[trigger] axes@[j] < axes@[j + 1],
            decreases na - ka,
        {
            if axes[ka] <= axes[ka - 1] {
                return Err(TensorError::ShapeMismatch);
            }
            ka += 1;
        }
        if !indices.check_coords(shape, s) {
            return Err(TensorError::ShapeMismatch);
        }
        let (mut result_shape, res_ix_map): (Vec<usize>, Vec<usize>) =
            crate::ops::aggregate::reduced_layout(shape, axes, keep_dims);
        let ghost rs = crate::ops::aggregate::reduced_shape(shape@, axes@, keep_dims);
        let ghost ms = crate::ops::aggregate::map_spec(rl as int, axes@, keep_dims);
        if result_shape.len() == 0 {
            result_shape.push(1);
        }
        proof {
            assert(result_shape@ =~= sp_result_shape(shape@, axes@, keep_dims));
        }
        let ghost rsh = sp_result_shape(shape@, axes@, keep_dims);
        let result_size: usize = match crate::shape::try_get_size(&result_shape) {
            Some(v) => v,
            None => {
                return Err(TensorError::UnrepresentableConstant);
            },
        };
        if result_size == 0 {
            return Err(TensorError::EmptyTensor);
        }
        proof {
            assert forall|j: int| 0 <= j < rsh.len() implies rsh[j] >= 1 by {
                if rsh[j] == 0 {
                    lemma_prod_from_zero_factor(rsh, 0, j);
                }
            }
            crate::ops::aggregate::lemma_prod_from_mono_all(rsh);
            assert(crate::shape::fits_usize(rsh));
        }
        let result_strides: Vec<usize> = crate::shape::compute_strides(&result_shape);
        let result_rank: usize = res_ix_map.len();
        let ghost n_total = self.size as int;
        let ghost tail = shape@.skip(s as int);
        let ghost ds_spec = prod_from(shape@, s as int);
        proof {
            lemma_sparse_layout(*self, nnz, shape@, s as int);
            crate::shape::lemma_prod_from_nonneg(shape@, s as int);
            crate::ops::aggregate::lemma_kept_axes_in_range(rl as int, axes@, rl as int);
            assert forall|k: int| 0 <= k < ms.len() implies #[trigger] ms[k] < rl by {
                if keep_dims {
                    assert(ms[k] == k as usize);
                } else {
                    assert(ms[k] == crate::ops::aggregate::kept_axes(rl as int, axes@)[k]);
                }
            }
            assert(sp_agg_error(*self, shape@, *indices, axes@, keep_dims) is None);
        }
        let mut values: Vec<DType> = Vec::new();
        let mut counts: Vec<usize> = Vec::new();
        let zero = DType::zero_e();
        let mut z: usize = 0;
        while z < result_size
            invariant
                0 <= z <= result_size,
                values@.len() == z,
                counts@.len() == z,
                zero == DType::zero_s(),
                forall|q: int| 0 <= q < z ==> values@[q] == DType::zero_s(),
                forall|q: int| 0 <= q < z ==> counts@[q] == 0usize,
            decreases result_size - z,
        {
            values.push(zero);
            counts.push(0);
            z += 1;
        }
        let mut tail_vec: Vec<usize> = Vec::new();
        let mut zt: usize = 0;
        while zt < d
            invariant
                rl == shape@.len(),
                s + d == rl,
                0 <= zt <= d,
                tail_vec@ =~= shape@.skip(s as int).take(zt as int),
            decreases d - zt,
        {
            tail_vec.push(shape[s + zt]);
            zt += 1;
        }
        proof {
            assert(tail_vec@ =~= tail);
        }
        if nnz > 0 && self.size > 0 {
            let ds: usize = self.size / nnz;
            proof {
                vstd::arithmetic::div_mod::lemma_fundamental_div_mod_converse(
                    self.size as int,
                    nnz as int,
                    ds_spec,
                    0,
                );
                assert(ds == ds_spec);
                lemma_prod_from_skip(shape@, s as int, 0);
                assert(prod_from(tail, 0) == ds_spec);
                assert(ds >= 1) by (nonlinear_arith)
                    requires
                        self.size == (nnz as int) * (ds as int),
                        self.size > 0,
                        ds >= 0,
                ;
                assert forall|m: int| 0 <= m < tail.len() implies tail[m] >= 1 by {
                    if tail[m] == 0 {
                        lemma_prod_from_zero_factor(tail, 0, m);
                    }
                }
            }
            let mut i: usize = 0;
            while i < nnz
                invariant
                    self.wf(),
                    indices_wf(*indices),
                    indices.sh()[0] == nnz,
                    indices.sh()[1] == s,
                    nnz > 0,
                    rl == shape@.len(),
                    rl >= 1,
                    s <= rl,
                    s + d == rl,
                    tail == shape@.skip(s as int),
                    tail.len() == d,
                    tail_vec@ == tail,
                    coords_ok(indices.vals(), s as int, nnz as int, shape@.take(s as int)),
                    crate::ops::aggregate::axes_in_range(axes@, rl as int),
                    crate::ops::aggregate::strictly_increasing(axes@),
                    rs == crate::ops::aggregate::reduced_shape(shape@, axes@, keep_dims),
                    ms == crate::ops::aggregate::map_spec(rl as int, axes@, keep_dims),
                    rs.len() == ms.len(),
                    forall|k: int| 0 <= k < ms.len() ==> #[trigger] ms[k] < rl,
                    rsh == sp_result_shape(shape@, axes@, keep_dims),
                    forall|j: int| 0 <= j < rsh.len() ==> #[trigger] rsh[j] >= 1,
                    result_shape@ == rsh,
                    result_rank == ms.len(),
                    result_strides@.len() == rsh.len(),
                    forall|k: int|
                        0 <= k < rsh.len() ==> result_strides@[k] == crate::shape::stride_at(
                            rsh,
                            k,
                        ),
                    res_ix_map@ == ms,
                    result_size == size_spec(rsh),
                    result_size == prod_from(rsh, 0),
                    ds == ds_spec,
                    ds == prod_from(tail, 0),
                    self.size == nnz * ds,
                    self.vals().len() == self.size,
                    n_total == self.size,
                    ds >= 1,
                    forall|m: int| 0 <= m < tail.len() ==> tail[m] >= 1,
                    0 <= i <= nnz,
                    values@.len() == result_size,
                    counts@.len() == result_size,
                    forall|q: int|
                        0 <= q < result_size ==> counts@[q] == sp_count(
                            indices.vals(),
                            s as int,
                            shape@,
                            axes@,
                            keep_dims,
                            ds as int,
                            i as int * ds as int,
                            q,
                        ),
                    forall|q: int|
                        0 <= q < result_size ==> values@[q] == sp_state(
                            self.vals(),
                            indices.vals(),
                            s as int,
                            shape@,
                            axes@,
                            keep_dims,
                            ds as int,
                            c,
                            init,
                            i as int * ds as int,
                            q,
                        ),
                decreases nnz - i,
            {
                let mut dense_ix: Vec<usize> = Vec::new();
                let mut zd: usize = 0;
                while zd < d
                    invariant
                        0 <= zd <= d,
                        dense_ix@.len() == zd,
                        forall|m: int| 0 <= m < zd ==> dense_ix@[m] == 0usize,
                    decreases d - zd,
                {
                    dense_ix.push(0);
                    zd += 1;
                }
                proof {
                    assert(dense_ix@ =~= crate::shape::zero_index(d as int));
                    assert((i as int) * (ds as int) + ds as int == ((i + 1) as int) * (ds as int))
                        by (nonlinear_arith);
                    assert(((i + 1) as int) * (ds as int) <= (nnz as int) * (ds as int))
                        by (nonlinear_arith)
                        requires
                            i + 1 <= nnz,
                            ds >= 0,
                    ;
                    assert((i as int) * (ds as int) >= 0) by (nonlinear_arith)
                        requires
                            i >= 0,
                            ds >= 0,
                    ;
                }
                let mut j: usize = 0;
                while j < ds
                    invariant
                        self.wf(),
                        indices_wf(*indices),
                        indices.sh()[0] == nnz,
                        indices.sh()[1] == s,
                        nnz > 0,
                        rl == shape@.len(),
                        s <= rl,
                        s + d == rl,
                        tail == shape@.skip(s as int),
                        tail.len() == d,
                        tail_vec@ == tail,
                        forall|m: int| 0 <= m < tail.len() ==> tail[m] >= 1,
                        coords_ok(indices.vals(), s as int, nnz as int, shape@.take(s as int)),
                        rs == crate::ops::aggregate::reduced_shape(shape@, axes@, keep_dims),
                        ms == crate::ops::aggregate::map_spec(rl as int, axes@, keep_dims),
                        rs.len() == ms.len(),
                        forall|k: int| 0 <= k < ms.len() ==> #[trigger] ms[k] < rl,
                        rsh == sp_result_shape(shape@, axes@, keep_dims),
                        forall|jq: int| 0 <= jq < rsh.len() ==> #[trigger] rsh[jq] >= 1,
                        result_shape@ == rsh,
                        result_rank == ms.len(),
                        result_strides@.len() == rsh.len(),
                        forall|k: int|
                            0 <= k < rsh.len() ==> result_strides@[k] == crate::shape::stride_at(
                                rsh,
                                k,
                            ),
                        res_ix_map@ == ms,
                        result_size == size_spec(rsh),
                        result_size == prod_from(rsh, 0),
                        ds == prod_from(tail, 0),
                        self.size == nnz * ds,
                        self.vals().len() == self.size,
                        0 <= i < nnz,
                        0 <= j <= ds,
                        i as int * ds as int + ds as int <= self.size,
                        i as int * ds as int >= 0,
                        dense_ix@ == index_of(j as int, tail),
                        values@.len() == result_size,
                        counts@.len() == result_size,
                        forall|q: int|
                            0 <= q < result_size ==> counts@[q] == sp_count(
                                indices.vals(),
                                s as int,
                                shape@,
                                axes@,
                                keep_dims,
                                ds as int,
                                i as int * ds as int + j as int,
                                q,
                            ),
                        forall|q: int|
                            0 <= q < result_size ==> values@[q] == sp_state(
                                self.vals(),
                                indices.vals(),
                                s as int,
                                shape@,
                                axes@,
                                keep_dims,
                                ds as int,
                                c,
                                init,
                                i as int * ds as int + j as int,
                                q,
                            ),
                    decreases ds - j,
                {
                    let ghost t = i as int * ds as int + j as int;
                    let ghost row = coords_row(indices.vals(), s as int, i as int);
                    let ghost full = sp_full_index(
                        indices.vals(),
                        s as int,
                        i as int,
                        tail,
                        j as int,
                    );
                    proof {
                        lemma_index_of(j as int, tail);
                        vstd::arithmetic::div_mod::lemma_fundamental_div_mod_converse(
                            t,
                            ds as int,
                            i as int,
                            j as int,
                        );
                        assert(full == row + index_of(j as int, tail));
                        assert(valid_index(row, shape@.take(s as int)));
                        assert(full.len() == rl);
                        assert forall|k: int| 0 <= k < rs.len() implies (rs[k] == 1 || full[
                            #[trigger] ms[k] as int] < rs[k]) by {
                            lemma_sp_axis_bound(
                                shape@,
                                axes@,
                                keep_dims,
                                row,
                                index_of(j as int, tail),
                                s as int,
                                k,
                            );
                        }
                    }
                    let mut out_pos: usize = 0;
                    let mut k: usize = 0;
                    while k < result_rank
                        invariant
                            indices_wf(*indices),
                            indices.sh()[0] == nnz,
                            indices.sh()[1] == s,
                            0 <= i < nnz,
                            0 <= j < ds,
                            rl == shape@.len(),
                            s <= rl,
                            s + d == rl,
                            tail == shape@.skip(s as int),
                            tail.len() == d,
                            full == sp_full_index(indices.vals(), s as int, i as int, tail, j as int),
                            full.len() == rl,
                            dense_ix@ == index_of(j as int, tail),
                            dense_ix@.len() == d,
                            rs.len() == ms.len(),
                            result_rank == ms.len(),
                            forall|m: int| 0 <= m < ms.len() ==> #[trigger] ms[m] < rl,
                            forall|jq: int| 0 <= jq < rs.len() ==> #[trigger] rs[jq] >= 1,
                            forall|m: int|
                                0 <= m < rs.len() ==> (rs[m] == 1 || full[#[trigger] ms[m] as int]
                                    < rs[m]),
                            result_strides@.len() == rs.len() || (rs.len() == 0
                                && result_strides@.len() == 1),
                            forall|m: int|
                                0 <= m < rs.len() ==> result_strides@[m]
                                    == crate::shape::stride_at(rsh, m),
                            rsh == sp_result_shape(shape@, axes@, keep_dims),
                            rs == crate::ops::aggregate::reduced_shape(shape@, axes@, keep_dims),
                            res_ix_map@ == ms,
                            result_size == prod_from(rsh, 0),
                            0 <= k <= result_rank,
                            out_pos == crate::ops::aggregate::proj_prefix(full, ms, rs, k as int),
                        decreases result_rank - k,
                    {
                        proof {
                            lemma_sp_strides_align(rsh, rs, k as int);
                            crate::ops::aggregate::lemma_proj_bound(full, ms, rs, k as int);
                            crate::ops::aggregate::lemma_proj_bound(full, ms, rs, k as int + 1);
                            crate::shape::lemma_prod_from_nonneg(rs, k as int + 1);
                            crate::ops::aggregate::lemma_prod_from_mono_all(rs);
                            lemma_sp_size_align(shape@, axes@, keep_dims);
                        }
                        let m: usize = res_ix_map[k];
                        let cv: usize = if m < s {
                            proof {
                                lemma_two_dim_size(*indices);
                                lemma_row_col_in_bounds(
                                    nnz as int,
                                    s as int,
                                    i as int,
                                    m as int,
                                    indices.size as int,
                                );
                                assert(full == coords_row(indices.vals(), s as int, i as int)
                                    + index_of(j as int, tail));
                                assert(coords_row(indices.vals(), s as int, i as int).len()
                                    == s as int);
                                assert(full[m as int] == coords_row(
                                    indices.vals(),
                                    s as int,
                                    i as int,
                                )[m as int]);
                                assert(coords_row(indices.vals(), s as int, i as int)[m as int]
                                    == indices.vals()[i as int * s as int + m as int] as usize);
                            }
                            indices.get_ix(i * s + m) as usize
                        } else {
                            proof {
                                assert(full[m as int] == index_of(j as int, tail)[m - s]);
                            }
                            dense_ix[m - s]
                        };
                        proof {
                            assert(cv == full[m as int]);
                            assert(crate::ops::aggregate::proj_prefix(full, ms, rs, k as int + 1)
                                == crate::ops::aggregate::proj_prefix(full, ms, rs, k as int) + full[
                                ms[k as int] as int] * crate::shape::stride_at(rs, k as int));
                            assert(full[ms[k as int] as int] * crate::shape::stride_at(
                                rs,
                                k as int,
                            ) >= 0) by (nonlinear_arith)
                                requires
                                    full[ms[k as int] as int] >= 0,
                                    crate::shape::stride_at(rs, k as int) >= 0,
                            ;
                            assert((result_strides@[k as int] as int) * (cv as int) == (cv as int)
                                * (result_strides@[k as int] as int)) by (nonlinear_arith);
                        }
                        out_pos = out_pos + result_strides[k] * cv;
                        k += 1;
                    }
                    proof {
                        crate::ops::aggregate::lemma_proj_bound(full, ms, rs, rs.len() as int);
                        assert(prod_from(rs, rs.len() as int) == 1);
                        lemma_sp_size_align(shape@, axes@, keep_dims);
                        assert(out_pos < result_size);
                        assert(out_pos == sp_slot(
                            indices.vals(),
                            s as int,
                            shape@,
                            axes@,
                            keep_dims,
                            ds as int,
                            t,
                        ));
                        lemma_sp_count_le(
                            indices.vals(),
                            s as int,
                            shape@,
                            axes@,
                            keep_dims,
                            ds as int,
                            t,
                            out_pos as int,
                        );
                    }
                    let v = self.get_ix(i * ds + j);
                    let is_first = counts[out_pos] == 0;
                    let first_square = match init {
                        InitOp::Square => is_first,
                        InitOp::Id => false,
                    };
                    if first_square {
                        values.set(out_pos, apply_init_e(InitOp::Square, v));
                    } else {
                        let cur = values[out_pos];
                        values.set(out_pos, apply_combine_e(c, v, cur));
                    }
                    let cur_count: usize = counts[out_pos];
                    counts.set(out_pos, cur_count + 1);
                    proof {
                        assert forall|q: int| 0 <= q < result_size implies {
                            &&& counts@[q] == sp_count(
                                indices.vals(),
                                s as int,
                                shape@,
                                axes@,
                                keep_dims,
                                ds as int,
                                t + 1,
                                q,
                            )
                            &&& values@[q] == sp_state(
                                self.vals(),
                                indices.vals(),
                                s as int,
                                shape@,
                                axes@,
                                keep_dims,
                                ds as int,
                                c,
                                init,
                                t + 1,
                                q,
                            )
                        } by {
                            assert(sp_slot(
                                indices.vals(),
                                s as int,
                                shape@,
                                axes@,
                                keep_dims,
                                ds as int,
                                t,
                            ) == out_pos);
                        }
                    }
                    crate::shape::increment_index(&mut dense_ix, &tail_vec);
                    j += 1;
                }
                i += 1;
            }
        }
        proof {
            if !(nnz > 0 && self.size > 0) {
                assert(self.size == 0) by (nonlinear_arith)
                    requires
                        self.size == (nnz as int) * ds_spec,
                        nnz == 0 || self.size == 0,
                        ds_spec >= 0,
                ;
                assert(n_total == 0);
                assert forall|qq: int| 0 <= qq < result_size implies {
                    &&& counts@[qq] == sp_count(
                        indices.vals(),
                        s as int,
                        shape@,
                        axes@,
                        keep_dims,
                        ds_spec,
                        n_total,
                        qq,
                    )
                    &&& values@[qq] == sp_state(
                        self.vals(),
                        indices.vals(),
                        s as int,
                        shape@,
                        axes@,
                        keep_dims,
                        ds_spec,
                        c,
                        init,
                        n_total,
                        qq,
                    )
                } by {}
            }
        }
        match post {
            SparsePostOp::Id => {},
            SparsePostOp::MeanByCount => {
                let mut q: usize = 0;
                while q < result_size
                    invariant
                        post is MeanByCount,
                        sp_agg_error(*self, shape@, *indices, axes@, keep_dims) is None,
                        s == indices.sh()[1],
                        rsh == sp_result_shape(shape@, axes@, keep_dims),
                        result_size == size_spec(rsh),
                        n_total == self.size,
                        ds_spec == prod_from(shape@, s as int),
                        0 <= q <= result_size,
                        values@.len() == result_size,
                        counts@.len() == result_size,
                        forall|qq: int|
                            q <= qq < result_size ==> values@[qq] == sp_state(
                                self.vals(),
                                indices.vals(),
                                s as int,
                                shape@,
                                axes@,
                                keep_dims,
                                ds_spec,
                                c,
                                init,
                                n_total,
                                qq,
                            ),
                        forall|qq: int|
                            0 <= qq < result_size ==> counts@[qq] == sp_count(
                                indices.vals(),
                                s as int,
                                shape@,
                                axes@,
                                keep_dims,
                                ds_spec,
                                n_total,
                                qq,
                            ),
                        forall|qq: int|
                            0 <= qq < q ==> values@[qq] == apply_sp_post(
                                SparsePostOp::MeanByCount,
                                sp_state(
                                    self.vals(),
                                    indices.vals(),
                                    s as int,
                                    shape@,
                                    axes@,
                                    keep_dims,
                                    ds_spec,
                                    c,
                                    init,
                                    n_total,
                                    qq,
                                ),
                                sp_count(
                                    indices.vals(),
                                    s as int,
                                    shape@,
                                    axes@,
                                    keep_dims,
                                    ds_spec,
                                    n_total,
                                    qq,
                                ),
                            ),
                        forall|qq: int|
                            0 <= qq < q ==> !(sp_count(
                                indices.vals(),
                                s as int,
                                shape@,
                                axes@,
                                keep_dims,
                                ds_spec,
                                n_total,
                                qq,
                            ) > 0 && DType::from_usize_s(
                                sp_count(
                                    indices.vals(),
                                    s as int,
                                    shape@,
                                    axes@,
                                    keep_dims,
                                    ds_spec,
                                    n_total,
                                    qq,
                                ) as usize,
                            ) is None),
                    decreases result_size - q,
                {
                    let cnt: usize = counts[q];
                    if cnt > 0 {
                        match DType::from_usize_e(cnt) {
                            Some(dv) => {
                                let cur = values[q];
                                values.set(q, cur.div_e(dv));
                            },
                            None => {
                                proof {
                                    let ghost qq = q as int;
                                    assert(counts@[qq] == sp_count(
                                        indices.vals(),
                                        s as int,
                                        shape@,
                                        axes@,
                                        keep_dims,
                                        ds_spec,
                                        n_total,
                                        qq,
                                    ));
                                    assert(sp_count(
                                        indices.vals(),
                                        s as int,
                                        shape@,
                                        axes@,
                                        keep_dims,
                                        ds_spec,
                                        n_total,
                                        qq,
                                    ) as usize == cnt);
                                    assert(0 <= qq < size_spec(rsh) && sp_count(
                                        indices.vals(),
                                        s as int,
                                        shape@,
                                        axes@,
                                        keep_dims,
                                        ds_spec,
                                        n_total,
                                        qq,
                                    ) > 0 && DType::from_usize_s(
                                        sp_count(
                                            indices.vals(),
                                            s as int,
                                            shape@,
                                            axes@,
                                            keep_dims,
                                            ds_spec,
                                            n_total,
                                            qq,
                                        ) as usize,
                                    ) is None);
                                }
                                return Err(TensorError::UnrepresentableConstant);
                            },
                        }
                    }
                    q += 1;
                }
            },
        }
        proof {
            crate::tensor::lemma_canonical_shape(rsh);
            lemma_all_pos_prod_bounds(rsh, 0);
        }
        let out = Tensor::new(result_shape, result_strides, result_size, values);
        return Ok(out);
    }

    /// Sparse sum over the given axes: scatter-add every stored element into
    /// its output slot.
    pub fn _sum_sparse(
        &self,
        shape: &Vec<usize>,
        indices: &Tensor<u32>,
        axes: &Vec<usize>,
        keep_dims: bool,
    ) -> (r: Result<Tensor<DType>, TensorError>)
        requires
            self.wf(),
            indices_wf(*indices),
        ensures
            sp_agg_ensures(
                *self,
                shape@,
                *indices,
                axes@,
                keep_dims,
                CombineOp::Sum,
                InitOp::Id,
                SparsePostOp::Id,
                r,
            ),
    {
        return self.aggregate_sparse(
            shape,
            indices,
            axes,
            keep_dims,
            CombineOp::Sum,
            InitOp::Id,
            SparsePostOp::Id,
        );
    }

    /// Sparse sum of squares over the given axes.
    pub fn _sum_square_sparse(
        &self,
        shape: &Vec<usize>,
        indices: &Tensor<u32>,
        axes: &Vec<usize>,
        keep_dims: bool,
    ) -> (r: Result<Tensor<DType>, TensorError>)
        requires
            self.wf(),
            indices_wf(*indices),
        ensures
            sp_agg_ensures(
                *self,
                shape@,
                *indices,
                axes@,
                keep_dims,
                CombineOp::SumSquare,
                InitOp::Square,
                SparsePostOp::Id,
                r,
            ),
    {
        return self.aggregate_sparse(
            shape,
            indices,
            axes,
            keep_dims,
            CombineOp::SumSquare,
            InitOp::Square,
            SparsePostOp::Id,
        );
    }

    /// Sparse mean over the given axes: the scatter-added sum of each slot
    /// divided by its own visit count, so positions the sparse tensor never
    /// touches do not enter the denominator.
    pub fn _reduce_mean_sparse(
        &self,
        shape: &Vec<usize>,
        indices: &Tensor<u32>,
        axes: &Vec<usize>,
        keep_dims: bool,
    ) -> (r: Result<Tensor<DType>, TensorError>)
        requires
            self.wf(),
            indices_wf(*indices),
        ensures
            sp_agg_ensures(
                *self,
                shape@,
                *indices,
                axes@,
                keep_dims,
                CombineOp::Sum,
                InitOp::Id,
                SparsePostOp::MeanByCount,
                r,
            ),
    {
        return self.aggregate_sparse(
            shape,
            indices,
            axes,
            keep_dims,
            CombineOp::Sum,
            InitOp::Id,
            SparsePostOp::MeanByCount,
        );
    }
}

/// The projection of a scattered element stays inside each output axis: the
/// coordinate an output axis reads is below its dimension unless the axis
/// was kept at size 1.
proof fn lemma_sp_axis_bound(
    shape: Seq<usize>,
    axes: Seq<usize>,
    keep: bool,
    row: Seq<usize>,
    dix: Seq<usize>,
    s: int,
    k: int,
)
    requires
        0 <= s <= shape.len(),
        shape.len() <= usize::MAX,
        row.len() == s,
        dix.len() == shape.len() - s,
        valid_index(row, shape.take(s)),
        valid_index(dix, shape.skip(s)),
        0 <= k < crate::ops::aggregate::reduced_shape(shape, axes, keep).len(),
        crate::ops::aggregate::reduced_shape(shape, axes, keep).len()
            == crate::ops::aggregate::map_spec(shape.len() as int, axes, keep).len(),
        forall|m: int|
            0 <= m < crate::ops::aggregate::map_spec(shape.len() as int, axes, keep).len()
                ==> #[trigger] crate::ops::aggregate::map_spec(shape.len() as int, axes, keep)[m]
                < shape.len(),
    ensures
        crate::ops::aggregate::reduced_shape(shape, axes, keep)[k] == 1 || (row + dix)[
            crate::ops::aggregate::map_spec(shape.len() as int, axes, keep)[k] as int]
            < crate::ops::aggregate::reduced_shape(shape, axes, keep)[k],
{
    let rs = crate::ops::aggregate::reduced_shape(shape, axes, keep);
    let ms = crate::ops::aggregate::map_spec(shape.len() as int, axes, keep);
    let m = ms[k] as int;
    let full = row + dix;
    assert(full[m] < shape[m]) by {
        if m < s {
            assert(full[m] == row[m]);
            assert(row[m] < shape.take(s)[m]);
        } else {
            assert(full[m] == dix[m - s]);
            assert(dix[m - s] < shape.skip(s)[m - s]);
        }
    }
    if keep {
        assert(ms[k] == k as usize);
        if !axes.contains(k as usize) {
            assert(rs[k] == shape[k]);
        }
    } else {
        crate::ops::aggregate::lemma_kept_axes_not_reduced(shape.len() as int, axes);
        assert(rs[k] == shape[m]);
    }
}

/// The padded result shape agrees with the reduced shape on every real axis.
proof fn lemma_sp_strides_align(rsh: Seq<usize>, rs: Seq<usize>, k: int)
    requires
        rsh == if rs.len() == 0 {
            seq![1usize]
        } else {
            rs
        },
        0 <= k < rs.len(),
    ensures
        crate::shape::stride_at(rsh, k) == crate::shape::stride_at(rs, k),
{
}

/// The padded result shape has the same element count as the reduced shape's
/// product.
proof fn lemma_sp_size_align(shape: Seq<usize>, axes: Seq<usize>, keep: bool)
    requires
        shape.len() <= usize::MAX,
    ensures
        prod_from(sp_result_shape(shape, axes, keep), 0) == prod_from(
            crate::ops::aggregate::reduced_shape(shape, axes, keep),
            0,
        ),
{
    let rs = crate::ops::aggregate::reduced_shape(shape, axes, keep);
    if rs.len() == 0 {
        assert(prod_from(rs, 0) == 1);
        assert(prod_from(seq![1usize], 1) == 1);
        assert(prod_from(seq![1usize], 0) == 1 * prod_from(seq![1usize], 1));
        assert(1 * 1 == 1) by (nonlinear_arith);
    }
}

/// A sparse aggregation lays its output out exactly like the dense reduction
/// of a densified tensor of the declared logical shape: same output shape,
/// same strides, same element count, on every axis list and `keep_dims`
/// choice the two accept together.
pub proof fn lemma_sparse_dense_reduction_layout<T: Element>(
    dense: Tensor<T>,
    vals: Tensor<T>,
    indices: Tensor<u32>,
    shape: Seq<usize>,
    axes: Seq<usize>,
    keep: bool,
    c: CombineOp,
    init: InitOp,
    post: crate::ops::aggregate::PostOp<T>,
    rd: Result<Tensor<T>, TensorError>,
    rs: Result<Tensor<T>, TensorError>,
)
    requires
        dense.sh() == shape,
        shape.len() <= usize::MAX,
        crate::ops::aggregate::reduced_shape(shape, axes, keep).len() > 0 || (!keep && axes.len()
            == shape.len()),
        crate::ops::aggregate::pool_ensures(dense, axes, keep, c, init, post, rd),
        sp_agg_ensures(vals, shape, indices, axes, keep, c, init, SparsePostOp::Id, rs),
        rd is Ok,
        rs is Ok,
    ensures
        rd matches Ok(d) ==> rs matches Ok(s_) ==> {
            &&& d.sh() == s_.sh()
            &&& d.size == s_.size
        },
{
    let d = rd->Ok_0;
    let s_ = rs->Ok_0;
    let reduced = crate::ops::aggregate::reduced_shape(shape, axes, keep);
    assert(crate::ops::aggregate::pool_error(dense, axes) is None);
    assert(sp_agg_error(vals, shape, indices, axes, keep) is None);
    if !keep && axes.len() == shape.len() {
        assert(d.sh() == seq![1usize]);
        assert(s_.sh() == sp_result_shape(shape, axes, keep));
        assert(reduced.len() == 0) by {
            lemma_kept_all_reduced(shape.len() as int, axes, shape.len() as int);
        }
        assert(s_.sh() == seq![1usize]);
        assert(size_spec(seq![1usize]) == 1) by {
            assert(prod_from(seq![1usize], 1) == 1);
            assert(prod_from(seq![1usize], 0) == 1 * prod_from(seq![1usize], 1));
            assert((1 as int) * 1 == 1) by (nonlinear_arith);
        }
    } else {
        assert(d.sh() == reduced);
        assert(reduced.len() > 0);
        assert(s_.sh() == reduced);
        assert(d.size == size_spec(reduced) && s_.size == size_spec(reduced));
    }
}

/// When every axis of a shape is reduced, no axis is kept.
proof fn lemma_kept_all_reduced(rank: int, axes: Seq<usize>, r: int)
    requires
        0 <= r <= rank <= usize::MAX,
        axes.len() == rank,
        crate::ops::aggregate::strictly_increasing(axes),
        crate::ops::aggregate::axes_in_range(axes, rank),
    ensures
        crate::ops::aggregate::kept_axes(r, axes).len() == 0,
    decreases r,
{
    if r > 0 {
        lemma_kept_all_reduced(rank, axes, r - 1);
        assert(axes.contains((r - 1) as usize)) by {
            lemma_axes_exact(axes, r - 1, rank);
            assert(axes[r - 1] == (r - 1) as usize);
        }
    }
}

/// In a strictly increasing in-range axis list of full rank, entry `m` is
/// exactly `m`: each entry is at least its position, and anything larger
/// leaves no room for the entries above it.
proof fn lemma_axes_exact(axes: Seq<usize>, m: int, rank: int)
    requires
        axes.len() == rank,
        crate::ops::aggregate::strictly_increasing(axes),
        crate::ops::aggregate::axes_in_range(axes, rank),
        0 <= m < rank,
    ensures
        axes[m] == m,
    decreases rank - m,
{
    crate::ops::aggregate::lemma_axes_lower(axes, m);
    if m < rank - 1 {
        lemma_axes_exact(axes, m + 1, rank);
        assert(axes[m] < axes[m + 1]);
    }
}

/// Offset arithmetic for the tile loops: the next row's block stays inside
/// the result, and block starts agree between nestings.
proof fn lemma_repeat_offsets(rep: int, i: int, nnz: int, s: int, rp: int)
    requires
        0 <= rep < rp,
        0 <= i < nnz,
        s >= 0,
    ensures
        rep * (nnz * s) + i * s + s <= (nnz * rp) * s,
        rep * (nnz * s) + i * s == (rep * nnz + i) * s,
{
    assert(rep * (nnz * s) + i * s == (rep * nnz + i) * s) by (nonlinear_arith);
    assert((rep * nnz + i) * s + s == (rep * nnz + i + 1) * s) by (nonlinear_arith);
    assert(rep * nnz + i + 1 <= rp * nnz) by (nonlinear_arith)
        requires
            0 <= rep < rp,
            0 <= i < nnz,
    ;
    assert((rep * nnz + i + 1) * s <= (rp * nnz) * s) by (nonlinear_arith)
        requires
            rep * nnz + i + 1 <= rp * nnz,
            s >= 0,
    ;
    assert((rp * nnz) * s == (nnz * rp) * s) by (nonlinear_arith);
}

/// Pushing one value cannot disturb the blocks of earlier tiles.
proof fn lemma_repeat_prefix(q: int, ii: int, jj: int, rep: int, i: int, nnz: int, s: int)
    requires
        0 <= q < rep,
        0 <= ii < nnz,
        0 <= jj < s,
        0 <= i < nnz,
    ensures
        (q * nnz + ii) * s + jj < rep * (nnz * s) + i * s,
{
    assert((q * nnz + ii) * s + jj < (q * nnz + ii + 1) * s) by (nonlinear_arith)
        requires
            jj < s,
            s >= 1,
    ;
    assert(q * nnz + ii + 1 <= rep * nnz) by (nonlinear_arith)
        requires
            0 <= q < rep,
            0 <= ii < nnz,
    ;
    assert((q * nnz + ii + 1) * s <= (rep * nnz) * s) by (nonlinear_arith)
        requires
            q * nnz + ii + 1 <= rep * nnz,
            s >= 0,
    ;
    assert((rep * nnz) * s == rep * (nnz * s)) by (nonlinear_arith);
    assert(rep * (nnz * s) <= rep * (nnz * s) + i * s) by (nonlinear_arith)
        requires
            i >= 0,
            s >= 0,
    ;
}

/// Pushing one value cannot disturb the earlier rows of the current tile.
proof fn lemma_repeat_row_prefix(ii: int, jj: int, rep: int, i: int, nnz: int, s: int)
    requires
        0 <= ii < i,
        0 <= jj < s,
        0 <= i < nnz,
        rep >= 0,
    ensures
        (rep * nnz + ii) * s + jj < rep * (nnz * s) + i * s,
{
    assert((rep * nnz + ii) * s + jj < (rep * nnz + ii + 1) * s) by (nonlinear_arith)
        requires
            jj < s,
            s >= 1,
    ;
    assert((rep * nnz + ii + 1) * s <= (rep * nnz + i) * s) by (nonlinear_arith)
        requires
            ii + 1 <= i,
            s >= 0,
            nnz >= 0,
            rep >= 0,
    ;
    assert((rep * nnz + i) * s == rep * (nnz * s) + i * s) by (nonlinear_arith);
}

} // verus!
