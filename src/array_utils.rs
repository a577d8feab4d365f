use vstd::prelude::*;

verus! {

/// `s` read as `height` rows of `width` elements, transposed into `width`
/// rows of `height` elements: element `(x, y)` of the result is element
/// `(y, x)` of `s`.
pub open spec fn transposed<T>(width: nat, height: nat, s: Seq<T>) -> Seq<T> {
    Seq::new(width * height, |k: int| s[(k % (height as int)) * width + k / (height as int)])
}

/// Position `k` of a `width`-by-`height` matrix read by columns lies in bounds.
pub proof fn lemma_transposed_index_bounds(width: int, height: int, k: int)
    requires
        0 <= k < width * height,
        height > 0,
    ensures
        0 <= k / height < width,
        0 <= k % height < height,
        0 <= (k % height) * width + k / height < width * height,
{
    let x = k / height;
    let y = k % height;
    vstd::arithmetic::div_mod::lemma_fundamental_div_mod(k, height);
    assert(0 <= y < height);
    assert(x >= 0) by (nonlinear_arith)
        requires
            k == height * x + y,
            0 <= k,
            0 <= y < height,
    ;
    assert(x < width) by (nonlinear_arith)
        requires
            k == height * x + y,
            k < width * height,
            0 <= y,
            height > 0,
    ;
    assert(y * width + x < width * height) by (nonlinear_arith)
        requires
            0 <= y < height,
            0 <= x < width,
    ;
    assert(0 <= y * width) by (nonlinear_arith)
        requires
            0 <= y,
            0 <= x < width,
    ;
}

/// Writes into `output` the transpose of `input`, read as `height` rows of
/// `width` elements.
pub fn transpose<T: Copy>(width: usize, height: usize, input: &[T], output: &mut [T])
    requires
        input@.len() == width * height,
        old(output)@.len() == width * height,
    ensures
        final(output)@.len() == old(output)@.len(),
        final(output)@ == transposed(width as nat, height as nat, input@),
{
    let n = output.len();
    let mut k: usize = 0;
    while k < n
        invariant
            0 <= k <= n,
            n == width * height,
            input@.len() == n,
            output@.len() == n,
            forall|j: int| 0 <= j < k ==> #[trigger] output@[j] == input@[(j % (height as int)) * width + j / (height as int)],
        decreases n - k,
    {
        proof {
            lemma_transposed_index_bounds(width as int, height as int, k as int);
        }
        let x = k / height;
        let y = k % height;
        let v = input[y * width + x];
        output[k] = v;
        k = k + 1;
    }
    proof {
        assert(output@ =~= transposed(width as nat, height as nat, input@));
    }
}

} // verus!
