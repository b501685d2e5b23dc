//! Small shape utilities shared by windowed operations.

use vstd::prelude::*;

verus! {

/// The output extent of one windowed axis: input plus both pads, minus the
/// dilated kernel, divided by the stride, plus one.
pub open spec fn conv_out_at(
    in_sizes: Seq<usize>,
    kernels: Seq<usize>,
    pads: Seq<usize>,
    dilations: Seq<usize>,
    strides: Seq<usize>,
    i: int,
) -> int {
    let dkernel = dilations[i] * (kernels[i + 2] - 1) + 1;
    (in_sizes[i + 2] + pads[i] + pads[i + dilations.len()] - dkernel) / (strides[i] as int) + 1
}

/// The spatial output sizes of a windowed operation, one per dilation
/// entry; the kernel and input shapes carry two leading non-spatial axes.
pub fn conv_output_size(
    in_sizes: &Vec<usize>,
    kernels: &Vec<usize>,
    pads: &Vec<usize>,
    dilations: &Vec<usize>,
    strides: &Vec<usize>,
) -> (result: Vec<usize>)
    requires
        in_sizes@.len() >= dilations@.len() + 2,
        kernels@.len() >= dilations@.len() + 2,
        pads@.len() >= 2 * dilations@.len(),
        strides@.len() >= dilations@.len(),
        forall|i: int| 0 <= i < dilations@.len() ==> strides@[i] >= 1,
        forall|i: int| 0 <= i < dilations@.len() ==> #[trigger] kernels@[i + 2] >= 1,
        forall|i: int|
            0 <= i < dilations@.len() ==> #[trigger] dilations@[i] * (kernels@[i + 2] - 1) + 1
                <= usize::MAX,
        forall|i: int|
            0 <= i < dilations@.len() ==> #[trigger] in_sizes@[i + 2] + pads@[i] + pads@[i
                + dilations@.len()] < usize::MAX,
        forall|i: int|
            0 <= i < dilations@.len() ==> #[trigger] in_sizes@[i + 2] + pads@[i] + pads@[i
                + dilations@.len()] >= dilations@[i] * (kernels@[i + 2] - 1) + 1,
    ensures
        result@.len() == dilations@.len(),
        forall|i: int|
            0 <= i < dilations@.len() ==> result@[i] == conv_out_at(
                in_sizes@,
                kernels@,
                pads@,
                dilations@,
                strides@,
                i,
            ),
{
    let n: usize = dilations.len();
    let kl: usize = kernels.len();
    let pl: usize = pads.len();
    let il: usize = in_sizes.len();
    proof {
        assert(kernels@.len() == kl && pads@.len() == pl && in_sizes@.len() == il);
    }
    let mut result: Vec<usize> = Vec::new();
    let mut i: usize = 0;
    while i < n
        invariant
            n == dilations@.len(),
            kernels@.len() == kl,
            pads@.len() == pl,
            in_sizes@.len() == il,
            in_sizes@.len() >= n + 2,
            kernels@.len() >= n + 2,
            pads@.len() >= 2 * n,
            strides@.len() >= n,
            forall|j: int| 0 <= j < n ==> strides@[j] >= 1,
            forall|j: int| 0 <= j < n ==> #[trigger] kernels@[j + 2] >= 1,
            forall|j: int|
                0 <= j < n ==> #[trigger] dilations@[j] * (kernels@[j + 2] - 1) + 1 <= usize::MAX,
            forall|j: int|
                0 <= j < n ==> #[trigger] in_sizes@[j + 2] + pads@[j] + pads@[j + n] < usize::MAX,
            forall|j: int|
                0 <= j < n ==> #[trigger] in_sizes@[j + 2] + pads@[j] + pads@[j + n] >= dilations@[j]
                    * (kernels@[j + 2] - 1) + 1,
            0 <= i <= n,
            result@.len() == i,
            forall|j: int|
                0 <= j < i ==> result@[j] == conv_out_at(
                    in_sizes@,
                    kernels@,
                    pads@,
                    dilations@,
                    strides@,
                    j,
                ),
        decreases n - i,
    {
        proof {
            assert(dilations@[i as int] * (kernels@[i as int + 2] - 1) >= 0) by (nonlinear_arith)
                requires
                    dilations@[i as int] >= 0,
                    kernels@[i as int + 2] >= 1,
            ;
        }
        let dkernel: usize = dilations[i] * (kernels[i + 2] - 1) + 1;
        let numer: usize = in_sizes[i + 2] + pads[i] + pads[i + n] - dkernel;
        proof {
            vstd::arithmetic::div_mod::lemma_div_nonincreasing(
                numer as int,
                strides@[i as int] as int,
            );
        }
        result.push(numer / strides[i] + 1);
        i += 1;
    }
    return result;
}

} // verus!
