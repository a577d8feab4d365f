use vstd::prelude::*;

use crate::algorithm::{rows_transformed, process_rows, FFTAlgorithm, lemma_rows_transformed_agree};
use crate::array_utils::{transposed, transpose, lemma_transposed_index_bounds};
use crate::math_utils::{gcd, bezout, lemma_bezout, lemma_crt_unique, lemma_coprime_cancel, extended_euclidean_algorithm};

verus! {

/// The Ruritanian map: where position `i` of the reordered input is read
/// from, with `x = i % width` and `y = i / width`.
pub open spec fn input_index(width: nat, height: nat, i: int) -> int {
    ((i % (width as int)) * height + (i / (width as int)) * width) % (width * height) as int
}

/// The CRT map: `k` is where position `i` of the factored result belongs,
/// the one index below `width * height` with `k % width == i / height` and
/// `k % height == i % height`.
pub open spec fn is_output_index(width: nat, height: nat, i: int, k: int) -> bool {
    &&& 0 <= k < width * height
    &&& k % (width as int) == i / (height as int)
    &&& k % (height as int) == i % (height as int)
}

/// The CRT map as a formula over the inverses of `width` modulo `height` and
/// of `height` modulo `width`, with `x = i / height` and `y = i % height`.
pub open spec fn output_index(width: nat, height: nat, width_inverse: nat, height_inverse: nat, i: int) -> int {
    ((i / (height as int)) * height * height_inverse + (i % (height as int)) * width * width_inverse) % (width * height) as int
}

/// Every index below `n` appears in `m` exactly once.
pub open spec fn is_permutation(m: Seq<usize>, n: nat) -> bool {
    &&& m.len() == n
    &&& forall|i: int| 0 <= i < n ==> #[trigger] m[i] < n
    &&& forall|i: int, j: int| 0 <= i < n && 0 <= j < n && #[trigger] m[i] == #[trigger] m[j] ==> i == j
    &&& forall|k: usize| k < n ==> #[trigger] m.contains(k)
}

/// `(x * height + y * width) % (width * height)`, computed without overflow.
fn ruritanian_index(width: usize, height: usize, x: usize, y: usize) -> (r: usize)
    requires
        x < width,
        y < height,
        width * height <= usize::MAX,
    ensures
        r as int == (x * height + y * width) % (width * height) as int,
{
    let n = width * height;
    proof {
        assert(x * height < n && y * width < n) by (nonlinear_arith)
            requires
                x < width,
                y < height,
                n == width * height,
        ;
        assert(x * height >= 0 && y * width >= 0) by (nonlinear_arith)
            requires
                x < width,
                y < height,
        ;
    }
    let a = x * height;
    let b = y * width;
    if a >= n - b {
        proof {
            vstd::arithmetic::div_mod::lemma_fundamental_div_mod_converse_mod(a + b, n as int, 1, a + b - n);
        }
        a - (n - b)
    } else {
        proof {
            vstd::arithmetic::div_mod::lemma_fundamental_div_mod_converse_mod(a + b, n as int, 0, a + b);
        }
        a + b
    }
}

/// `v` below `w * h`, written as `(a * h + b * w) % (w * h)`, lies at `x`
/// modulo `w` when `a` is `x * h_inv` modulo `w` and `h * h_inv` is one modulo `w`.
proof fn lemma_crt_component(w: int, h: int, h_inv: int, x: int, a: int, b: int, v: int)
    requires
        w > 0,
        h > 0,
        0 <= x < w,
        0 <= h_inv,
        (h * h_inv) % w == 1int % w,
        a == (x * h_inv) % w,
        b >= 0,
        v == (a * h + b * w) % (w * h),
    ensures
        v % w == x,
{
    let n = w * h;
    assert(n > 0) by (nonlinear_arith)
        requires
            w > 0,
            h > 0,
            n == w * h,
    ;
    vstd::arithmetic::div_mod::lemma_fundamental_div_mod(a * h + b * w, n);
    vstd::arithmetic::div_mod::lemma_fundamental_div_mod(x * h_inv, w);
    vstd::arithmetic::div_mod::lemma_fundamental_div_mod(h * h_inv, w);
    let c = (a * h + b * w) / n;
    let q1 = (x * h_inv) / w;
    let e = (h * h_inv) / w;
    if w == 1 {
        assert(x == 0);
        vstd::arithmetic::div_mod::lemma_mod_bound(v, 1);
    } else {
        vstd::arithmetic::div_mod::lemma_small_mod(1, w as nat);
        assert(h * h_inv == w * e + 1);
        assert(a * h == x * h_inv * h - w * q1 * h) by (nonlinear_arith)
            requires
                x * h_inv == w * q1 + a,
        ;
        assert(x * h_inv * h == x * w * e + x) by (nonlinear_arith)
            requires
                h * h_inv == w * e + 1,
        ;
        assert(w * (x * e - h * q1 + b - c * h) == w * (x * e) - w * (h * q1) + w * b - w * (c * h))
            by (nonlinear_arith);
        assert(x * w * e == w * (x * e)) by (nonlinear_arith);
        assert(w * q1 * h == w * (h * q1)) by (nonlinear_arith);
        assert(b * w == w * b) by (nonlinear_arith);
        assert(n * c == w * (c * h)) by (nonlinear_arith)
            requires
                n == w * h,
        ;
        assert(v == x + w * (x * e - h * q1 + b - c * h));
        vstd::arithmetic::div_mod::lemma_fundamental_div_mod_converse_mod(v, w, x * e - h * q1 + b - c * h, x);
    }
}

/// The CRT map at `i`, computed from the inverses of `width` modulo `height`
/// and of `height` modulo `width`, without overflow.
fn crt_index(width: usize, height: usize, width_inverse: usize, height_inverse: usize, i: usize) -> (r: usize)
    requires
        width > 0,
        height > 0,
        width * height <= usize::MAX,
        i < width * height,
        width_inverse <= height,
        height_inverse <= width,
        (width * width_inverse) % (height as int) == 1int % (height as int),
        (height * height_inverse) % (width as int) == 1int % (width as int),
    ensures
        is_output_index(width as nat, height as nat, i as int, r as int),
{
    proof {
        lemma_transposed_index_bounds(width as int, height as int, i as int);
        assert((i / height) as int * height_inverse < 0x1_0000_0000_0000_0000_0000_0000_0000_0000) by (nonlinear_arith)
            requires
                (i / height) < width,
                height_inverse <= width,
                width <= usize::MAX,
                usize::MAX < 0x1_0000_0000_0000_0000,
        ;
        assert((i % height) as int * width_inverse < 0x1_0000_0000_0000_0000_0000_0000_0000_0000) by (nonlinear_arith)
            requires
                (i % height) < height,
                width_inverse <= height,
                height <= usize::MAX,
                usize::MAX < 0x1_0000_0000_0000_0000,
        ;
    }
    let x = i / height;
    let y = i % height;
    let a = ((x as u128 * height_inverse as u128) % width as u128) as usize;
    let b = ((y as u128 * width_inverse as u128) % height as u128) as usize;
    let r = ruritanian_index(width, height, a, b);
    proof {
        lemma_crt_component(width as int, height as int, height_inverse as int, x as int, a as int, b as int, r as int);
        assert(width as int * height as int == height as int * width as int) by (nonlinear_arith);
        assert(b as int * width as int + a as int * height as int == a as int * height as int + b as int * width as int);
        lemma_crt_component(height as int, width as int, width_inverse as int, y as int, b as int, a as int, r as int);
        vstd::arithmetic::div_mod::lemma_mod_bound(r as int, (width * height) as int);
    }
    r
}

/// An inverse found from Bezout's identity `a * x + b * y == 1`, moved to
/// be non-negative, is still an inverse of `a` modulo `b`.
proof fn lemma_normalized_inverse(a: int, b: int, x: int, y: int, inverse: int)
    requires
        b > 0,
        a * x + b * y == 1,
        inverse == x || inverse == x + b,
    ensures
        (a * inverse) % b == 1int % b,
{
    let k = if inverse == x { -y } else { a - y };
    assert(a * inverse == b * k + 1) by (nonlinear_arith)
        requires
            a * x + b * y == 1,
            inverse == x || inverse == x + b,
            k == if inverse == x { -y } else { a - y },
    ;
    vstd::arithmetic::div_mod::lemma_mod_multiples_vanish(k, 1, b);
}

/// `signal` reordered by the Ruritanian map.
pub open spec fn gathered<T>(width: nat, height: nat, signal: Seq<T>) -> Seq<T> {
    Seq::new(width * height, |i: int| signal[input_index(width, height, i)])
}

/// `s` moved by the CRT map: position `k` of the result holds the element of
/// `s` whose output index is `k`.
pub open spec fn scattered<T>(width: nat, height: nat, s: Seq<T>) -> Seq<T> {
    Seq::new(width * height, |k: int| s[(k % (width as int)) * height + k % (height as int)])
}

/// What the prime-factor decomposition computes for `signal`: reorder by the
/// Ruritanian map, transform each of `height` rows of length `width`,
/// transpose, transform each of `width` rows of length `height`, and reorder
/// by the CRT map.
pub open spec fn good_thomas_transform<T, W: FFTAlgorithm<T>, H: FFTAlgorithm<T>>(
    width: nat,
    height: nat,
    width_fft: W,
    height_fft: H,
    signal: Seq<T>,
) -> Seq<T> {
    let first = rows_transformed(width_fft, gathered(width, height, signal), width);
    let second = rows_transformed(height_fft, transposed(width, height, first), height);
    scattered(width, height, second)
}

/// Two positions with the same output index are the same position.
pub proof fn lemma_output_index_injective(width: nat, height: nat, i: int, j: int, k: int)
    requires
        height > 0,
        0 <= i,
        0 <= j,
        is_output_index(width, height, i, k),
        is_output_index(width, height, j, k),
    ensures
        i == j,
{
    vstd::arithmetic::div_mod::lemma_fundamental_div_mod(i, height as int);
    vstd::arithmetic::div_mod::lemma_fundamental_div_mod(j, height as int);
}

/// Every index below `width * height` is the output index of the position
/// `(k % width) * height + k % height`, and of no other.
pub proof fn lemma_output_index_onto(width: nat, height: nat, k: int)
    requires
        width > 0,
        height > 0,
        gcd(width, height) == 1,
        0 <= k < width * height,
    ensures
        0 <= (k % (width as int)) * height + k % (height as int) < width * height,
        is_output_index(width, height, (k % (width as int)) * height + k % (height as int), k),
        forall|m: int| #[trigger] is_output_index(width, height, (k % (width as int)) * height + k % (height as int), m) ==> m == k,
{
    let x = k % (width as int);
    let y = k % (height as int);
    let i = x * height + y;
    vstd::arithmetic::div_mod::lemma_mod_bound(k, width as int);
    vstd::arithmetic::div_mod::lemma_mod_bound(k, height as int);
    assert(0 <= i < width * height) by (nonlinear_arith)
        requires
            0 <= x < width,
            0 <= y < height,
            i == x * height + y,
    ;
    vstd::arithmetic::div_mod::lemma_fundamental_div_mod_converse(i, height as int, x, y);
    assert forall|m: int| #[trigger] is_output_index(width, height, i, m) implies m == k by {
        lemma_crt_unique(width, height, m, k);
    }
}

/// Every index below `width * height` is the input index of some position.
pub proof fn lemma_input_index_onto(width: nat, height: nat, k: int) -> (i: int)
    requires
        width > 0,
        height > 0,
        gcd(width, height) == 1,
        0 <= k < width * height,
    ensures
        0 <= i < width * height,
        input_index(width, height, i) == k,
{
    lemma_bezout(width, height);
    let (bx, by) = bezout(width, height);
    let w = width as int;
    let h = height as int;
    let n = w * h;
    let x = (k * by) % w;
    let y = (k * bx) % h;
    vstd::arithmetic::div_mod::lemma_fundamental_div_mod(k * by, w);
    vstd::arithmetic::div_mod::lemma_fundamental_div_mod(k * bx, h);
    let q1 = (k * by) / w;
    let q2 = (k * bx) / h;
    let i = y * w + x;
    assert(0 <= i < n) by (nonlinear_arith)
        requires
            0 <= x < w,
            0 <= y < h,
            i == y * w + x,
            n == w * h,
    ;
    vstd::arithmetic::div_mod::lemma_fundamental_div_mod_converse(i, w, y, x);
    assert(x * h == (k * by) * h - (w * q1) * h) by (nonlinear_arith)
        requires
            k * by == w * q1 + x,
    ;
    assert(y * w == (k * bx) * w - (h * q2) * w) by (nonlinear_arith)
        requires
            k * bx == h * q2 + y,
    ;
    assert((k * by) * h + (k * bx) * w == k * (w * bx + h * by)) by (nonlinear_arith);
    assert((w * q1) * h + (h * q2) * w == n * (q1 + q2)) by (nonlinear_arith)
        requires
            n == w * h,
    ;
    assert(k * (w * bx + h * by) == k) by (nonlinear_arith)
        requires
            w * bx + h * by == 1,
    ;
    assert(n * (-(q1 + q2)) == -(n * (q1 + q2))) by (nonlinear_arith);
    assert(x * h + y * w == n * (-(q1 + q2)) + k);
    vstd::arithmetic::div_mod::lemma_mod_multiples_vanish(-(q1 + q2), k, n);
    vstd::arithmetic::div_mod::lemma_small_mod(k as nat, n as nat);
    i
}

/// Two positions with the same input index are the same position.
pub proof fn lemma_input_index_injective(width: nat, height: nat, i: int, j: int)
    requires
        width > 0,
        height > 0,
        gcd(width, height) == 1,
        0 <= i < width * height,
        0 <= j < width * height,
        input_index(width, height, i) == input_index(width, height, j),
    ensures
        i == j,
{
    let w = width as int;
    let h = height as int;
    let n = w * h;
    assert(n == h * w) by (nonlinear_arith)
        requires
            n == w * h,
    ;
    lemma_transposed_index_bounds(h, w, i);
    lemma_transposed_index_bounds(h, w, j);
    let xi = i % w;
    let yi = i / w;
    let xj = j % w;
    let yj = j / w;
    vstd::arithmetic::div_mod::lemma_fundamental_div_mod(i, w);
    vstd::arithmetic::div_mod::lemma_fundamental_div_mod(j, w);
    let si = xi * h + yi * w;
    let sj = xj * h + yj * w;
    vstd::arithmetic::div_mod::lemma_fundamental_div_mod(si, n);
    vstd::arithmetic::div_mod::lemma_fundamental_div_mod(sj, n);
    let t = si / n - sj / n;
    assert(si - sj == n * t) by (nonlinear_arith)
        requires
            si == n * (si / n) + si % n,
            sj == n * (sj / n) + sj % n,
            si % n == sj % n,
            t == si / n - sj / n,
    ;
    let d = yi - yj;
    assert((xi - xj) * h == xi * h - xj * h) by (nonlinear_arith);
    assert(yi * w - yj * w == w * d) by (nonlinear_arith)
        requires
            d == yi - yj,
    ;
    assert(n * t == w * (h * t)) by (nonlinear_arith)
        requires
            n == w * h,
    ;
    assert(w * (h * t) - w * d == w * (h * t - d)) by (nonlinear_arith);
    assert((xi - xj) * h == w * (h * t - (yi - yj)));
    lemma_coprime_cancel(width, height, xi - xj, h * t - (yi - yj));
    assert(w * (d - h * t) == 0) by (nonlinear_arith)
        requires
            w * (h * t) == w * d,
    ;
    assert(d == h * t) by (nonlinear_arith)
        requires
            w * (d - h * t) == 0,
            w > 0,
    ;
    assert(d == 0) by (nonlinear_arith)
        requires
            d == h * t,
            -h < d < h,
    ;
}

/// A discrete Fourier transform of length `width * height`, for coprime
/// `width` and `height`, computed by the prime-factor (Good-Thomas)
/// decomposition: `height` transforms of length `width`, then `width`
/// transforms of length `height`, with index permutations in place of
/// twiddle factors.
pub struct GoodThomasAlgorithm<T, W, H> {
    width: usize,
    width_size_fft: W,
    height: usize,
    height_size_fft: H,
    input_map: Vec<usize>,
    output_map: Vec<usize>,
    scratch: Vec<T>,
}

impl<T, W, H> GoodThomasAlgorithm<T, W, H> {
    /// The length of the first factor.
    pub closed spec fn width(&self) -> nat {
        self.width as nat
    }

    /// The length of the second factor.
    pub closed spec fn height(&self) -> nat {
        self.height as nat
    }

    /// The transform of length `width` applied to each row in the first pass.
    pub closed spec fn width_fft(&self) -> W {
        self.width_size_fft
    }

    /// The transform of length `height` applied to each row in the second pass.
    pub closed spec fn height_fft(&self) -> H {
        self.height_size_fft
    }

    /// Position `i` of the reordered input is read from `spec_input_map()[i]`.
    pub closed spec fn spec_input_map(&self) -> Seq<usize> {
        self.input_map@
    }

    /// Position `i` of the factored result is written to `spec_output_map()[i]`.
    pub closed spec fn spec_output_map(&self) -> Seq<usize> {
        self.output_map@
    }

    /// The length of the working buffer.
    pub closed spec fn scratch_len(&self) -> nat {
        self.scratch@.len()
    }

    /// The factors, maps and buffer agree with each other.
    pub open spec fn good_thomas_wf(&self) -> bool
        where W: FFTAlgorithm<T>, H: FFTAlgorithm<T>
    {
        let n = self.width() * self.height();
        &&& self.width() > 0
        &&& self.height() > 0
        &&& n <= usize::MAX
        &&& gcd(self.width(), self.height()) == 1
        &&& self.width_fft().well_formed()
        &&& self.width_fft().spec_len() == self.width()
        &&& self.height_fft().well_formed()
        &&& self.height_fft().spec_len() == self.height()
        &&& self.spec_input_map().len() == n
        &&& forall|i: int| 0 <= i < n ==> #[trigger] self.spec_input_map()[i] as int == input_index(self.width(), self.height(), i)
        &&& self.spec_output_map().len() == n
        &&& forall|i: int| 0 <= i < n ==> is_output_index(self.width(), self.height(), i, #[trigger] self.spec_output_map()[i] as int)
        &&& self.scratch_len() == n
    }
}

impl<T: Copy + Default, W: FFTAlgorithm<T>, H: FFTAlgorithm<T>> GoodThomasAlgorithm<T, W, H> {
    /// Builds the transform of length `n1 * n2` from transforms of lengths
    /// `n1` and `n2`, or returns `None` where `n1` and `n2` are not coprime.
    pub fn try_new(n1: usize, n1_fft: W, n2: usize, n2_fft: H) -> (r: Option<Self>)
        requires
            n1 > 0,
            n2 > 0,
            n1 * n2 <= usize::MAX,
            n1_fft.well_formed(),
            n1_fft.spec_len() == n1,
            n2_fft.well_formed(),
            n2_fft.spec_len() == n2,
        ensures
            r.is_some() <==> gcd(n1 as nat, n2 as nat) == 1,
            r matches Some(g) ==> {
                &&& g.good_thomas_wf()
                &&& g.width() == n1
                &&& g.height() == n2
                &&& g.width_fft() == n1_fft
                &&& g.height_fft() == n2_fft
            },
    {
        let (g, x, y) = extended_euclidean_algorithm(n1 as i128, n2 as i128);
        if g != 1 {
            return None;
        }
        proof {
            lemma_bezout(n1 as nat, n2 as nat);
        }
        let mut n1_inverse = x;
        let mut n2_inverse = y;
        if n1_inverse < 0 {
            n1_inverse = n1_inverse + n2 as i128;
        }
        if n2_inverse < 0 {
            n2_inverse = n2_inverse + n1 as i128;
        }
        proof {
            lemma_normalized_inverse(n1 as int, n2 as int, x as int, y as int, n1_inverse as int);
            lemma_normalized_inverse(n2 as int, n1 as int, y as int, x as int, n2_inverse as int);
        }
        let width_inverse = n1_inverse as usize;
        let height_inverse = n2_inverse as usize;
        let n = n1 * n2;

        let mut input_map: Vec<usize> = Vec::with_capacity(n);
        let mut i: usize = 0;
        while i < n
            invariant
                n == n1 * n2,
                n1 > 0,
                0 <= i <= n,
                input_map@.len() == i,
                forall|j: int| 0 <= j < i ==> #[trigger] input_map@[j] as int == input_index(n1 as nat, n2 as nat, j),
            decreases n - i,
        {
            proof {
                assert(n1 * n2 == n2 * n1) by (nonlinear_arith);
                lemma_transposed_index_bounds(n2 as int, n1 as int, i as int);
            }
            input_map.push(ruritanian_index(n1, n2, i % n1, i / n1));
            i = i + 1;
        }

        let mut output_map: Vec<usize> = Vec::with_capacity(n);
        let mut i: usize = 0;
        while i < n
            invariant
                n == n1 * n2,
                n1 > 0,
                n2 > 0,
                width_inverse <= n2,
                height_inverse <= n1,
                (n1 * width_inverse) % (n2 as int) == 1int % (n2 as int),
                (n2 * height_inverse) % (n1 as int) == 1int % (n1 as int),
                0 <= i <= n,
                output_map@.len() == i,
                forall|j: int| 0 <= j < i ==> is_output_index(n1 as nat, n2 as nat, j, #[trigger] output_map@[j] as int),
            decreases n - i,
        {
            output_map.push(crt_index(n1, n2, width_inverse, height_inverse, i));
            i = i + 1;
        }

        Some(GoodThomasAlgorithm {
            width: n1,
            width_size_fft: n1_fft,
            height: n2,
            height_size_fft: n2_fft,
            input_map,
            output_map,
            scratch: vec![T::default(); n],
        })
    }

    /// Builds the transform of length `n1 * n2` from transforms of lengths
    /// `n1` and `n2`, which must be coprime.
    pub fn new(n1: usize, n1_fft: W, n2: usize, n2_fft: H) -> (r: Self)
        requires
            n1 > 0,
            n2 > 0,
            n1 * n2 <= usize::MAX,
            gcd(n1 as nat, n2 as nat) == 1,
            n1_fft.well_formed(),
            n1_fft.spec_len() == n1,
            n2_fft.well_formed(),
            n2_fft.spec_len() == n2,
        ensures
            r.good_thomas_wf(),
            r.width() == n1,
            r.height() == n2,
            r.width_fft() == n1_fft,
            r.height_fft() == n2_fft,
    {
        Self::try_new(n1, n1_fft, n2, n2_fft).unwrap()
    }
}

impl<T: Copy, W: FFTAlgorithm<T>, H: FFTAlgorithm<T>> GoodThomasAlgorithm<T, W, H> {
    /// The Ruritanian map: position `i` of the reordered input is read from
    /// `input_map()[i]`.
    pub fn input_map(&self) -> (r: &[usize])
        ensures
            r@ == self.spec_input_map(),
    {
        self.input_map.as_slice()
    }

    /// The CRT map: position `i` of the factored result is written to
    /// `output_map()[i]`.
    pub fn output_map(&self) -> (r: &[usize])
        ensures
            r@ == self.spec_output_map(),
    {
        self.output_map.as_slice()
    }

    /// Copies `input` into `output`, reordered by the Ruritanian map.
    fn copy_from_input(&self, input: &[T], output: &mut [T])
        requires
            self.good_thomas_wf(),
            input@.len() == self.width() * self.height(),
            old(output)@.len() == self.width() * self.height(),
        ensures
            final(output)@.len() == old(output)@.len(),
            final(output)@ == gathered(self.width(), self.height(), input@),
    {
        let n = output.len();
        let mut i: usize = 0;
        while i < n
            invariant
                self.good_thomas_wf(),
                n == self.width() * self.height(),
                input@.len() == n,
                output@.len() == n,
                0 <= i <= n,
                forall|j: int| 0 <= j < i ==> #[trigger] output@[j] == input@[input_index(self.width(), self.height(), j)],
            decreases n - i,
        {
            proof {
                vstd::arithmetic::div_mod::lemma_mod_bound(
                    (i as int % self.width() as int) * self.height() + (i as int / self.width() as int) * self.width(),
                    n as int,
                );
            }
            let v = input[self.input_map[i]];
            output[i] = v;
            i = i + 1;
        }
        proof {
            assert(output@ =~= gathered(self.width(), self.height(), input@));
        }
    }

    /// Copies the working buffer into `output`, reordered by the CRT map.
    fn copy_transposed_scratch_to_output(&self, output: &mut [T])
        requires
            self.good_thomas_wf(),
            old(output)@.len() == self.width() * self.height(),
        ensures
            final(output)@.len() == old(output)@.len(),
            final(output)@ == scattered(self.width(), self.height(), self.scratch@),
    {
        let n = output.len();
        let mut i: usize = 0;
        while i < n
            invariant
                self.good_thomas_wf(),
                n == self.width() * self.height(),
                output@.len() == n,
                0 <= i <= n,
                forall|j: int| 0 <= j < i ==> output@[#[trigger] self.output_map@[j] as int] == self.scratch@[j],
            decreases n - i,
        {
            let k = self.output_map[i];
            let v = self.scratch[i];
            proof {
                assert forall|j: int| 0 <= j < i implies self.output_map@[j] != k by {
                    if self.output_map@[j] == k {
                        assert(is_output_index(self.width(), self.height(), j, self.output_map@[j] as int));
                        assert(is_output_index(self.width(), self.height(), i as int, self.output_map@[i as int] as int));
                        lemma_output_index_injective(self.width(), self.height(), i as int, j, k as int);
                    }
                }
            }
            output[k] = v;
            i = i + 1;
        }
        proof {
            let w = self.width();
            let h = self.height();
            assert forall|k: int| 0 <= k < n implies #[trigger] output@[k] == scattered(w, h, self.scratch@)[k] by {
                lemma_output_index_onto(w, h, k);
                let i = (k % (w as int)) * h + k % (h as int);
                assert(is_output_index(w, h, i, self.output_map@[i] as int));
            }
            assert(output@ =~= scattered(w, h, self.scratch@));
        }
    }
}

impl<T: Copy, W: FFTAlgorithm<T>, H: FFTAlgorithm<T>> FFTAlgorithm<T> for GoodThomasAlgorithm<T, W, H> {
    open spec fn spec_len(&self) -> nat {
        self.width() * self.height()
    }

    open spec fn well_formed(&self) -> bool {
        self.good_thomas_wf()
    }

    open spec fn transform(&self, signal: Seq<T>) -> Seq<T> {
        good_thomas_transform(self.width(), self.height(), self.width_fft(), self.height_fft(), signal)
    }

    /// Runs the transform on `signal`, placing the result in `spectrum`; the
    /// working buffer is reused, never reallocated.
    fn process(&mut self, signal: &[T], spectrum: &mut [T]) {
        let ghost w = self.width();
        let ghost h = self.height();
        let ghost wfft = self.width_fft();
        let ghost hfft = self.height_fft();
        self.copy_from_input(signal, spectrum);
        proof {
            vstd::arithmetic::div_mod::lemma_mod_multiples_basic(h as int, w as int);
            assert(w * h == h * w) by (nonlinear_arith);
            vstd::arithmetic::div_mod::lemma_mod_multiples_basic(w as int, h as int);
        }
        process_rows(&mut self.width_size_fft, self.width, &*spectrum, self.scratch.as_mut_slice());
        transpose(self.width, self.height, self.scratch.as_slice(), spectrum);
        process_rows(&mut self.height_size_fft, self.height, &*spectrum, self.scratch.as_mut_slice());
        self.copy_transposed_scratch_to_output(spectrum);
        proof {
            assert forall|s: Seq<T>| #[trigger] self.transform(s) == good_thomas_transform(w, h, wfft, hfft, s) by {
                let first = rows_transformed(wfft, gathered(w, h, s), w);
                lemma_rows_transformed_agree(self.width_fft(), wfft, gathered(w, h, s), w);
                lemma_rows_transformed_agree(self.height_fft(), hfft, transposed(w, h, first), h);
            }
        }
    }
}

/// Both index maps of a well-formed instance are permutations of
/// `0 .. width * height`: every index appears in each exactly once.
pub proof fn lemma_maps_are_permutations<T, W: FFTAlgorithm<T>, H: FFTAlgorithm<T>>(
    g: &GoodThomasAlgorithm<T, W, H>,
)
    requires
        g.good_thomas_wf(),
    ensures
        is_permutation(g.spec_input_map(), g.width() * g.height()),
        is_permutation(g.spec_output_map(), g.width() * g.height()),
{
    let w = g.width();
    let h = g.height();
    let n = w * h;
    let im = g.spec_input_map();
    let om = g.spec_output_map();
    assert forall|i: int| 0 <= i < n implies #[trigger] im[i] < n by {
        vstd::arithmetic::div_mod::lemma_mod_bound((i % (w as int)) * h + (i / (w as int)) * w, n as int);
    }
    assert forall|i: int, j: int| 0 <= i < n && 0 <= j < n && #[trigger] im[i] == #[trigger] im[j] implies i == j by {
        lemma_input_index_injective(w, h, i, j);
    }
    assert forall|k: usize| k < n implies #[trigger] im.contains(k) by {
        let i = lemma_input_index_onto(w, h, k as int);
        assert(im[i] == k);
    }
    assert forall|i: int| 0 <= i < n implies #[trigger] om[i] < n by {
        assert(is_output_index(w, h, i, om[i] as int));
    }
    assert forall|i: int, j: int| 0 <= i < n && 0 <= j < n && #[trigger] om[i] == #[trigger] om[j] implies i == j by {
        assert(is_output_index(w, h, i, om[i] as int));
        assert(is_output_index(w, h, j, om[j] as int));
        lemma_output_index_injective(w, h, i, j, om[i] as int);
    }
    assert forall|k: usize| k < n implies #[trigger] om.contains(k) by {
        lemma_output_index_onto(w, h, k as int);
        let i = (k as int % (w as int)) * h + k as int % (h as int);
        assert(is_output_index(w, h, i, om[i] as int));
        assert(om[i] == k);
    }
}

/// `(x * h * h_inv + b * w) % (w * h)` lies at `x` modulo `w` when `h_inv`
/// is an inverse of `h` modulo `w`.
proof fn lemma_formula_component(w: int, h: int, h_inv: int, x: int, b: int)
    requires
        w > 0,
        h > 0,
        0 <= x < w,
        0 <= h_inv,
        0 <= b,
        (h * h_inv) % w == 1int % w,
    ensures
        ((x * h * h_inv + b * w) % (w * h)) % w == x,
{
    let n = w * h;
    let s = x * h * h_inv + b * w;
    let v = s % n;
    assert(n > 0) by (nonlinear_arith)
        requires
            w > 0,
            h > 0,
            n == w * h,
    ;
    vstd::arithmetic::div_mod::lemma_fundamental_div_mod(s, n);
    vstd::arithmetic::div_mod::lemma_fundamental_div_mod(h * h_inv, w);
    let c = s / n;
    let e = (h * h_inv) / w;
    if w == 1 {
        vstd::arithmetic::div_mod::lemma_mod_bound(v, 1);
    } else {
        vstd::arithmetic::div_mod::lemma_small_mod(1, w as nat);
        assert(x * h * h_inv == x * (w * e + 1)) by (nonlinear_arith)
            requires
                h * h_inv == w * e + 1,
        ;
        assert(x * (w * e + 1) == w * (x * e) + x) by (nonlinear_arith);
        assert(n * c == w * (h * c)) by (nonlinear_arith)
            requires
                n == w * h,
        ;
        assert(b * w == w * b) by (nonlinear_arith);
        assert(w * (x * e) + w * b - w * (h * c) == w * (x * e + b - h * c)) by (nonlinear_arith);
        assert(v == x + w * (x * e + b - h * c));
        vstd::arithmetic::div_mod::lemma_fundamental_div_mod_converse_mod(v, w, x * e + b - h * c, x);
    }
}

/// The output map of a well-formed instance is the CRT formula, for any
/// inverses of `width` modulo `height` and of `height` modulo `width`.
pub proof fn lemma_output_map_formula<T, W: FFTAlgorithm<T>, H: FFTAlgorithm<T>>(
    g: &GoodThomasAlgorithm<T, W, H>,
    width_inverse: nat,
    height_inverse: nat,
    i: int,
)
    requires
        g.good_thomas_wf(),
        (g.width() * width_inverse) as int % (g.height() as int) == 1int % (g.height() as int),
        (g.height() * height_inverse) as int % (g.width() as int) == 1int % (g.width() as int),
        0 <= i < g.width() * g.height(),
    ensures
        g.spec_output_map()[i] as int == output_index(g.width(), g.height(), width_inverse, height_inverse, i),
{
    let w = g.width() as int;
    let h = g.height() as int;
    let n = w * h;
    let x = i / h;
    let y = i % h;
    lemma_transposed_index_bounds(w, h, i);
    let v = output_index(g.width(), g.height(), width_inverse, height_inverse, i);
    assert(0 <= y * w * width_inverse) by (nonlinear_arith)
        requires
            0 <= y,
            0 <= w,
            0 <= width_inverse,
    ;
    assert(0 <= x * h * height_inverse) by (nonlinear_arith)
        requires
            0 <= x,
            0 <= h,
            0 <= height_inverse,
    ;
    lemma_formula_component(w, h, height_inverse as int, x, y * width_inverse);
    assert(y * w * width_inverse == (y * width_inverse) * w) by (nonlinear_arith);
    assert(x * h * height_inverse == (x * height_inverse) * h) by (nonlinear_arith);
    assert(h * w == n) by (nonlinear_arith)
        requires
            n == w * h,
    ;
    assert(0 <= x * height_inverse) by (nonlinear_arith)
        requires
            0 <= x,
            0 <= height_inverse,
    ;
    lemma_formula_component(h, w, width_inverse as int, y, x * height_inverse);
    vstd::arithmetic::div_mod::lemma_mod_bound(x * h * height_inverse + y * w * width_inverse, n);
    assert(is_output_index(g.width(), g.height(), i, g.spec_output_map()[i] as int));
    lemma_crt_unique(g.width(), g.height(), g.spec_output_map()[i] as int, v);
}

} // verus!
