//! The Fourier-transform engine: power-of-two size normalization, the
//! recursive radix-2 transform, and its separable two-dimensional variant.
//!
//! Every contract pins the result down to the exact combination of complex
//! operations (named in [`crate::complex`]) that produced it; the sequence
//! structure itself (lengths, positions, padding) is stated directly.

use crate::complex::{
    c_add, c_add_of, c_div, c_div_of, c_exp, c_from_usize, c_ln, c_mul, c_mul_of, c_neg,
    c_of_usize,
};
use num_complex::Complex32;
use vstd::prelude::*;

verus! {

/// Whether `n` is an exact power of two.
pub open spec fn is_pow2(n: nat) -> bool
    decreases n,
{
    if n == 0 {
        false
    } else if n == 1 {
        true
    } else {
        n % 2 == 0 && is_pow2(n / 2)
    }
}

/// The smallest power of two that is at least `n`, for `n >= 1`.
pub open spec fn next_pow2(n: nat) -> nat
    decreases n,
{
    if n <= 1 {
        1
    } else {
        2 * next_pow2((n + 1) / 2)
    }
}

/// The largest power of two that is at most `n`, for `n >= 1`.
pub open spec fn prev_pow2(n: nat) -> nat
    recommends
        n >= 1,
    decreases n,
{
    if n <= 1 {
        1
    } else {
        2 * prev_pow2(n / 2)
    }
}

pub proof fn lemma_next_pow2(n: nat)
    requires
        n >= 1,
    ensures
        is_pow2(next_pow2(n)),
        next_pow2(n) >= n,
        n >= 2 ==> next_pow2(n) <= 2 * (n - 1),
    decreases n,
{
    if n > 1 {
        lemma_next_pow2((n + 1) / 2);
    }
}

pub proof fn lemma_prev_pow2(n: nat)
    requires
        n >= 1,
    ensures
        is_pow2(prev_pow2(n)),
        prev_pow2(n) <= n,
        n < 2 * prev_pow2(n),
    decreases n,
{
    if n > 1 {
        lemma_prev_pow2(n / 2);
    }
}

/// A power of two at least `n` is at least the next power of two:
/// `next_pow2(n)` really is the smallest.
pub proof fn lemma_next_pow2_minimal(n: nat, m: nat)
    requires
        n >= 1,
        is_pow2(m),
        m >= n,
    ensures
        m >= next_pow2(n),
    decreases n,
{
    if n > 1 {
        lemma_next_pow2_minimal((n + 1) / 2, m / 2);
    }
}

/// A power of two at most `n` is at most `prev_pow2(n)`:
/// `prev_pow2(n)` really is the largest.
pub proof fn lemma_prev_pow2_maximal(n: nat, m: nat)
    requires
        is_pow2(m),
        m <= n,
    ensures
        m <= prev_pow2(n),
    decreases n,
{
    if m > 1 {
        lemma_prev_pow2_maximal(n / 2, m / 2);
    } else {
        lemma_prev_pow2(n);
    }
}

/// The length a buffer of length `n` has after padding to a power of two.
/// An empty buffer stays empty.
pub open spec fn padded_len(n: nat) -> nat {
    if n == 0 {
        0
    } else {
        next_pow2(n)
    }
}

/// The smallest power of two that is at least `n`.
fn next_pow2_exec(n: usize) -> (r: usize)
    requires
        1 <= n <= usize::MAX / 2 + 1,
    ensures
        r == next_pow2(n as nat),
    decreases n,
{
    if n <= 1 {
        1
    } else {
        proof {
            lemma_next_pow2(((n + 1) / 2) as nat);
        }
        2 * next_pow2_exec((n + 1) / 2)
    }
}

/// The largest power of two that is at most `n`.
fn prev_pow2_exec(n: usize) -> (r: usize)
    requires
        n >= 1,
    ensures
        r == prev_pow2(n as nat),
    decreases n,
{
    if n <= 1 {
        1
    } else {
        proof {
            lemma_prev_pow2((n / 2) as nat);
        }
        2 * prev_pow2_exec(n / 2)
    }
}

/// The padded length of a buffer of length `n`: the smallest power of two
/// at least `n`, or zero for an empty buffer.
pub fn padded_len_exec(n: usize) -> (r: usize)
    requires
        n <= usize::MAX / 2 + 1,
    ensures
        r == padded_len(n as nat),
{
    if n == 0 {
        0
    } else {
        next_pow2_exec(n)
    }
}

/// Pads the buffer with copies of `fill` so that its length becomes the
/// smallest power of two at least the original length; an empty buffer is
/// left empty.
pub fn round_sample_size_up<T: Copy>(sample: &mut Vec<T>, fill: T)
    requires
        old(sample).len() <= usize::MAX / 2 + 1,
    ensures
        final(sample)@ == old(sample)@ + Seq::new(
            (padded_len(old(sample)@.len()) - old(sample)@.len()) as nat,
            |i: int| fill,
        ),
        old(sample).len() >= 1 ==> is_pow2(final(sample)@.len()),
        forall|m: nat|
            is_pow2(m) && m >= old(sample)@.len() ==> final(sample)@.len() <= m,
{
    proof {
        if sample@.len() >= 1 {
            lemma_next_pow2(sample@.len());
        }
        assert forall|m: nat| is_pow2(m) && m >= old(sample)@.len() implies padded_len(
            old(sample)@.len(),
        ) <= m by {
            if old(sample)@.len() >= 1 {
                lemma_next_pow2_minimal(old(sample)@.len(), m);
            }
        }
    }
    let original_size = sample.len();
    if original_size == 0 {
        assert(final(sample)@ =~= old(sample)@ + Seq::new(0, |i: int| fill));
        return ;
    }
    proof {
        lemma_next_pow2(original_size as nat);
    }
    let target = next_pow2_exec(original_size);
    while sample.len() < target
        invariant
            original_size <= sample.len() <= target,
            target == next_pow2(original_size as nat),
            sample@ == old(sample)@ + Seq::new(
                (sample@.len() - original_size) as nat,
                |i: int| fill,
            ),
        decreases target - sample.len(),
    {
        sample.push(fill);
        assert(sample@ =~= old(sample)@ + Seq::new(
            (sample@.len() - original_size) as nat,
            |i: int| fill,
        ));
    }
}

/// Truncates the buffer to the largest power of two at most the original
/// length; an empty buffer is left empty.
pub fn round_sample_size_down<T>(sample: &mut Vec<T>)
    ensures
        old(sample).len() == 0 ==> final(sample)@ == old(sample)@,
        old(sample).len() >= 1 ==> final(sample)@ == old(sample)@.subrange(
            0,
            prev_pow2(old(sample)@.len()) as int,
        ),
        old(sample).len() >= 1 ==> is_pow2(final(sample)@.len()),
        forall|m: nat|
            is_pow2(m) && m <= old(sample)@.len() ==> m <= final(sample)@.len(),
{
    proof {
        if sample@.len() >= 1 {
            lemma_prev_pow2(sample@.len());
        }
        assert forall|m: nat| is_pow2(m) && m <= old(sample)@.len() implies m <= prev_pow2(
            old(sample)@.len(),
        ) by {
            lemma_prev_pow2_maximal(old(sample)@.len(), m);
        }
    }
    if sample.len() == 0 {
        return ;
    }
    proof {
        lemma_prev_pow2(sample@.len());
    }
    let target = prev_pow2_exec(sample.len());
    sample.truncate(target);
}


/// The even-indexed half of a sequence.
pub open spec fn evens_of(s: Seq<Complex32>) -> Seq<Complex32> {
    Seq::new(s.len() / 2, |i: int| s[2 * i])
}

/// The odd-indexed half of a sequence.
pub open spec fn odds_of(s: Seq<Complex32>) -> Seq<Complex32> {
    Seq::new(s.len() / 2, |i: int| s[2 * i + 1])
}

/// One combine step of the radix-2 transform over a given sequence of
/// twiddle factors: bin `j` pairs the transformed even and odd halves with
/// twiddle value `tw[j]`.
pub open spec fn fft_combine_with(
    e: Seq<Complex32>,
    o: Seq<Complex32>,
    tw: Seq<Complex32>,
) -> Seq<Complex32> {
    let half = e.len() as int;
    Seq::new(
        2 * e.len(),
        |j: int|
            if j < half {
                c_add_of(e[j], c_mul_of(tw[j], o[j]))
            } else {
                c_add_of(e[j - half], c_mul_of(tw[j], o[j - half]))
            },
    )
}

/// What it is to be a radix-2 Cooley-Tukey transform of `s`: a length-one
/// sequence is its own transform; otherwise the result combines transforms
/// of the even- and odd-indexed halves with some twiddle factor per output
/// bin of this combine step.
///
/// The twiddle factors are `e^(-i*pi*j/half)` (sign flipped for the inverse
/// direction), but they come from the complex exponential, whose precision
/// std documents as unspecified and non-deterministic, so no value can be
/// named for them: each occurrence is quantified separately, and the two
/// directions satisfy one relation, differing only in those values. All
/// the rest - lengths, which input bins feed which output bin, and the exact
/// additions and multiplications combining them - is pinned.
pub open spec fn fft_rel(s: Seq<Complex32>, r: Seq<Complex32>) -> bool
    decreases s.len(),
{
    if s.len() <= 1 {
        r == s
    } else {
        exists|e: Seq<Complex32>, o: Seq<Complex32>, tw: Seq<Complex32>|
            #![trigger fft_combine_with(e, o, tw)]
            {
                &&& e.len() == s.len() / 2
                &&& o.len() == s.len() / 2
                &&& tw.len() == s.len()
                &&& fft_rel(evens_of(s), e)
                &&& fft_rel(odds_of(s), o)
                &&& r == fft_combine_with(e, o, tw)
            }
    }
}

/// Every bin of a spectrum divided by the (real sample) length `n`.
pub open spec fn scale_bins(s: Seq<Complex32>, n: nat) -> Seq<Complex32> {
    s.map_values(|c: Complex32| c_div_of(c, c_of_usize(n as usize)))
}

/// What it is to be the inverse transform of `s`: some reverse-direction
/// transform of `s` with every bin divided by the length.
pub open spec fn ifft_rel(s: Seq<Complex32>, r: Seq<Complex32>) -> bool {
    exists|mid: Seq<Complex32>|
        #![trigger scale_bins(mid, s.len())]
        {
            &&& fft_rel(s, mid)
            &&& mid.len() == s.len()
            &&& r == scale_bins(mid, s.len())
        }
}

/// A one-dimensional transform in either direction: the plain transform
/// forward, the length-normalized transform backward.
pub open spec fn transform1d_rel(s: Seq<Complex32>, r: Seq<Complex32>, invert: bool) -> bool {
    if invert {
        ifft_rel(s, r)
    } else {
        fft_rel(s, r)
    }
}

/// A transform of a power-of-two-length sequence has the sequence's length.
pub proof fn lemma_fft_rel_len(s: Seq<Complex32>, r: Seq<Complex32>)
    requires
        is_pow2(s.len()),
        fft_rel(s, r),
    ensures
        r.len() == s.len(),
{
    if s.len() > 1 {
        let (e, o, tw) = choose|e: Seq<Complex32>, o: Seq<Complex32>, tw: Seq<Complex32>|
            #![trigger fft_combine_with(e, o, tw)]
            {
                &&& e.len() == s.len() / 2
                &&& o.len() == s.len() / 2
                &&& tw.len() == s.len()
                &&& fft_rel(evens_of(s), e)
                &&& fft_rel(odds_of(s), o)
                &&& r == fft_combine_with(e, o, tw)
            };
        assert(r.len() == 2 * e.len());
    }
}

/// The twiddle factor `e^(-i*pi*k/half)` (sign flipped for the inverse
/// direction): negating the real sample one gives `-1 - 0i`, whose principal
/// logarithm is `-i*pi`, which is scaled by `k/half` and exponentiated. The
/// exponential's and logarithm's precision is unspecified, so no value is
/// claimed for the result.
fn twiddle_factor(k: usize, half: usize, invert: bool) -> Complex32 {
    let minus_one = c_neg(c_from_usize(1));
    let minus_i_pi = c_ln(minus_one);
    let ratio = c_div(c_from_usize(k), c_from_usize(half));
    let angle = c_mul(minus_i_pi, ratio);
    let signed = if invert {
        c_neg(angle)
    } else {
        angle
    };
    c_exp(signed)
}

/// Whether `n` is an exact power of two.
pub fn is_pow2_exec(n: usize) -> (r: bool)
    ensures
        r == is_pow2(n as nat),
    decreases n,
{
    if n == 0 {
        false
    } else if n == 1 {
        true
    } else if n % 2 == 1 {
        false
    } else {
        is_pow2_exec(n / 2)
    }
}

/// Padding a buffer up to a power of two and then truncating back to its
/// original length returns the buffer exactly: size normalization alone
/// never loses information.
pub proof fn lemma_round_up_truncate_exact<T>(s: Seq<T>, fill: T)
    ensures
        (s + Seq::new((padded_len(s.len()) - s.len()) as nat, |i: int| fill)).subrange(
            0,
            s.len() as int,
        ) == s,
{
    assert((s + Seq::new((padded_len(s.len()) - s.len()) as nat, |i: int| fill)).subrange(
        0,
        s.len() as int,
    ) =~= s);
}

/// A copy of a sample buffer.
pub(crate) fn copy_samples(samples: &Vec<Complex32>) -> (r: Vec<Complex32>)
    ensures
        r@ == samples@,
{
    let mut out: Vec<Complex32> = Vec::new();
    let mut i: usize = 0;
    while i < samples.len()
        invariant
            i <= samples.len(),
            out@ == samples@.subrange(0, i as int),
        decreases samples.len() - i,
    {
        out.push(samples[i]);
        assert(out@ =~= samples@.subrange(0, i + 1));
        i = i + 1;
    }
    assert(out@ =~= samples@);
    out
}

fn fft_recursive(sample: Vec<Complex32>, invert: bool) -> (r: Vec<Complex32>)
    requires
        is_pow2(sample@.len()),
    ensures
        fft_rel(sample@, r@),
        r@.len() == sample@.len(),
    decreases sample@.len(),
{
    let ghost orig = sample@;
    let sample_size = sample.len();
    if sample_size == 1 {
        return sample;
    }
    let half_size = sample_size / 2;

    // Collect transforms of the even- and odd-indexed samples (recursive).
    let mut evens: Vec<Complex32> = Vec::new();
    let mut odds: Vec<Complex32> = Vec::new();
    let mut i: usize = 0;
    while i < half_size
        invariant
            i <= half_size,
            half_size == orig.len() / 2,
            2 * half_size == orig.len(),
            sample@ == orig,
            sample_size == orig.len(),
            evens@ == evens_of(orig).subrange(0, i as int),
            odds@ == odds_of(orig).subrange(0, i as int),
        decreases half_size - i,
    {
        evens.push(sample[2 * i]);
        odds.push(sample[2 * i + 1]);
        assert(evens@ =~= evens_of(orig).subrange(0, i + 1));
        assert(odds@ =~= odds_of(orig).subrange(0, i + 1));
        i = i + 1;
    }
    assert(evens@ =~= evens_of(orig));
    assert(odds@ =~= odds_of(orig));

    let freq_evens = fft_recursive(evens, invert);
    let freq_odds = fft_recursive(odds, invert);

    // Calculate the frequency bins: `k` and `k + half_size` per pair, each
    // with its own freshly computed twiddle factor.
    let mut low_bins: Vec<Complex32> = Vec::new();
    let mut high_bins: Vec<Complex32> = Vec::new();
    let ghost mut twiddles_low: Seq<Complex32> = Seq::empty();
    let ghost mut twiddles_high: Seq<Complex32> = Seq::empty();
    let mut k: usize = 0;
    while k < half_size
        invariant
            k <= half_size,
            1 <= half_size <= usize::MAX / 2,
            freq_evens@.len() == half_size,
            freq_odds@.len() == half_size,
            twiddles_low.len() == k,
            twiddles_high.len() == k,
            low_bins@.len() == k,
            high_bins@.len() == k,
            forall|j: int|
                0 <= j < k ==> #[trigger] low_bins@[j] == c_add_of(
                    freq_evens@[j],
                    c_mul_of(twiddles_low[j], freq_odds@[j]),
                ),
            forall|j: int|
                0 <= j < k ==> #[trigger] high_bins@[j] == c_add_of(
                    freq_evens@[j],
                    c_mul_of(twiddles_high[j], freq_odds@[j]),
                ),
        decreases half_size - k,
    {
        let e_low = twiddle_factor(k, half_size, invert);
        let e_high = twiddle_factor(k + half_size, half_size, invert);
        low_bins.push(c_add(freq_evens[k], c_mul(e_low, freq_odds[k])));
        high_bins.push(c_add(freq_evens[k], c_mul(e_high, freq_odds[k])));
        proof {
            twiddles_low = twiddles_low.push(e_low);
            twiddles_high = twiddles_high.push(e_high);
        }
        k = k + 1;
    }
    let mut freq_bins = low_bins;
    freq_bins.append(&mut high_bins);
    proof {
        let tw = twiddles_low + twiddles_high;
        assert(freq_bins@ =~= fft_combine_with(freq_evens@, freq_odds@, tw));
        assert(fft_rel(orig, freq_bins@));
    }
    freq_bins
}

fn transform1d_exec(samples: Vec<Complex32>, invert: bool) -> (r: Vec<Complex32>)
    requires
        is_pow2(samples@.len()),
    ensures
        transform1d_rel(samples@, r@, invert),
        r@.len() == samples@.len(),
{
    let ghost orig = samples@;
    let sample_size = samples.len();
    let transformed = fft_recursive(samples, invert);
    if !invert {
        return transformed;
    }
    let ghost mid = transformed@;
    let scale = c_from_usize(sample_size);
    let mut out: Vec<Complex32> = Vec::new();
    let mut i: usize = 0;
    while i < transformed.len()
        invariant
            i <= transformed.len(),
            transformed@ == mid,
            mid.len() == orig.len(),
            sample_size == orig.len(),
            scale == c_of_usize(sample_size),
            out@ == scale_bins(mid, orig.len()).subrange(0, i as int),
        decreases transformed.len() - i,
    {
        out.push(c_div(transformed[i], scale));
        assert(out@ =~= scale_bins(mid, orig.len()).subrange(0, i + 1));
        i = i + 1;
    }
    assert(out@ =~= scale_bins(mid, orig.len()));
    assert(ifft_rel(orig, out@));
    out
}

/// The forward Fourier transform of a power-of-two-length sample buffer.
pub fn fft(samples: &Vec<Complex32>) -> (r: Vec<Complex32>)
    requires
        is_pow2(samples@.len()),
    ensures
        fft_rel(samples@, r@),
        r@.len() == samples@.len(),
{
    transform1d_exec(copy_samples(samples), false)
}

/// The inverse Fourier transform of a power-of-two-length spectrum: the
/// reverse-direction transform with every bin divided by the length.
pub fn fft_inverse(samples: &Vec<Complex32>) -> (r: Vec<Complex32>)
    requires
        is_pow2(samples@.len()),
    ensures
        ifft_rel(samples@, r@),
        r@.len() == samples@.len(),
{
    transform1d_exec(copy_samples(samples), true)
}

/// The sequence-of-sequences abstraction of a grid of rows.
pub open spec fn grid_view<T>(g: Seq<Vec<T>>) -> Seq<Seq<T>> {
    g.map_values(|row: Vec<T>| row@)
}

/// Whether every row of the grid has width `w`.
pub open spec fn is_rect(g: Seq<Seq<Complex32>>, w: nat) -> bool {
    forall|y: int| 0 <= y < g.len() ==> (#[trigger] g[y]).len() == w
}

/// Column `x` of a grid, top to bottom.
pub open spec fn column_of(g: Seq<Seq<Complex32>>, x: int) -> Seq<Complex32> {
    Seq::new(g.len(), |y: int| g[y][x])
}

/// Every row independently transformed, in the given direction.
pub open spec fn rows_rel(g: Seq<Seq<Complex32>>, r: Seq<Seq<Complex32>>, invert: bool) -> bool {
    &&& r.len() == g.len()
    &&& forall|y: int| 0 <= y < g.len() ==> transform1d_rel(g[y], #[trigger] r[y], invert)
}

/// The transformed columns `t` laid out again as `h` rows of `w` entries.
pub open spec fn columns_layout(t: Seq<Seq<Complex32>>, h: nat, w: nat) -> Seq<Seq<Complex32>> {
    Seq::new(h, |y: int| Seq::new(w, |x: int| t[x][y]))
}

/// The width of a grid: the length of its first row, or zero if it has none.
pub open spec fn grid_width(g: Seq<Seq<Complex32>>) -> nat {
    if g.len() == 0 {
        0nat
    } else {
        g[0].len()
    }
}

/// Every column independently transformed, laid out again as rows.
pub open spec fn cols_rel(g: Seq<Seq<Complex32>>, r: Seq<Seq<Complex32>>, invert: bool) -> bool {
    exists|t: Seq<Seq<Complex32>>|
        #![trigger columns_layout(t, g.len(), grid_width(g))]
        {
            &&& t.len() == grid_width(g)
            &&& forall|x: int|
                0 <= x < t.len() ==> transform1d_rel(column_of(g, x), #[trigger] t[x], invert)
                    && t[x].len() == g.len()
            &&& r == columns_layout(t, g.len(), grid_width(g))
        }
}

/// A nonempty rectangular grid whose height and width are both powers of
/// two, as the two-dimensional transforms require.
pub open spec fn pow2_grid(g: Seq<Seq<Complex32>>) -> bool {
    &&& g.len() >= 1
    &&& is_pow2(g.len())
    &&& is_rect(g, g[0].len())
    &&& is_pow2(g[0].len())
}

/// The separable two-dimensional transform: rows first, then columns.
pub open spec fn fft_2d_rel(g: Seq<Seq<Complex32>>, r: Seq<Seq<Complex32>>) -> bool {
    exists|mid: Seq<Seq<Complex32>>|
        #![trigger rows_rel(g, mid, false)]
        rows_rel(g, mid, false) && cols_rel(mid, r, false)
}

/// The inverse two-dimensional transform: columns first, then rows.
pub open spec fn fft_2d_inverse_rel(g: Seq<Seq<Complex32>>, r: Seq<Seq<Complex32>>) -> bool {
    exists|mid: Seq<Seq<Complex32>>|
        #![trigger cols_rel(g, mid, true)]
        cols_rel(g, mid, true) && rows_rel(mid, r, true)
}

fn transform_rows(samples: &Vec<Vec<Complex32>>, invert: bool) -> (r: Vec<Vec<Complex32>>)
    requires
        forall|y: int|
            0 <= y < samples@.len() ==> is_pow2((#[trigger] samples@[y])@.len()),
    ensures
        rows_rel(grid_view(samples@), grid_view(r@), invert),
        r@.len() == samples@.len(),
        forall|y: int|
            0 <= y < samples@.len() ==> (#[trigger] r@[y])@.len() == samples@[y]@.len(),
{
    let ghost g = grid_view(samples@);
    let mut out: Vec<Vec<Complex32>> = Vec::new();
    let mut y: usize = 0;
    while y < samples.len()
        invariant
            y <= samples@.len(),
            g == grid_view(samples@),
            forall|yy: int|
                0 <= yy < samples@.len() ==> is_pow2((#[trigger] samples@[yy])@.len()),
            out@.len() == y,
            forall|yy: int|
                0 <= yy < y ==> transform1d_rel(g[yy], (#[trigger] out@[yy])@, invert)
                    && out@[yy]@.len() == g[yy].len(),
        decreases samples@.len() - y,
    {
        let row = copy_samples(&samples[y]);
        out.push(transform1d_exec(row, invert));
        y = y + 1;
    }
    proof {
        assert forall|yy: int| 0 <= yy < g.len() implies transform1d_rel(
            g[yy],
            #[trigger] grid_view(out@)[yy],
            invert,
        ) by {
            assert(grid_view(out@)[yy] == out@[yy]@);
        }
        assert forall|yy: int| 0 <= yy < samples@.len() implies (#[trigger] out@[yy])@.len()
            == samples@[yy]@.len() by {
            assert(g[yy] == samples@[yy]@);
        }
    }
    out
}

fn transform_cols(samples: &Vec<Vec<Complex32>>, invert: bool) -> (r: Vec<Vec<Complex32>>)
    requires
        samples@.len() >= 1,
        is_pow2(samples@.len()),
        is_rect(grid_view(samples@), samples@[0]@.len()),
    ensures
        cols_rel(grid_view(samples@), grid_view(r@), invert),
        r@.len() == samples@.len(),
        forall|y: int| 0 <= y < r@.len() ==> (#[trigger] r@[y])@.len() == samples@[0]@.len(),
{
    let ghost g = grid_view(samples@);
    let height = samples.len();
    let row0 = &samples[0];
    let width = row0.len();
    let mut transposed: Vec<Vec<Complex32>> = Vec::new();
    let mut x: usize = 0;
    while x < width
        invariant
            x <= width,
            g == grid_view(samples@),
            height == g.len(),
            1 <= height,
            is_pow2(height as nat),
            is_rect(g, width as nat),
            transposed@.len() == x,
            forall|xx: int|
                0 <= xx < x ==> transform1d_rel(
                    column_of(g, xx),
                    (#[trigger] transposed@[xx])@,
                    invert,
                ) && transposed@[xx]@.len() == height,
        decreases width - x,
    {
        let mut col: Vec<Complex32> = Vec::new();
        let mut y: usize = 0;
        while y < height
            invariant
                y <= height,
                g == grid_view(samples@),
                height == g.len(),
                x < width,
                is_rect(g, width as nat),
                col@ == column_of(g, x as int).subrange(0, y as int),
            decreases height - y,
        {
            let row_ref = &samples[y];
            assert(row_ref@ == g[y as int]);
            assert(g[y as int].len() == width);
            col.push(row_ref[x]);
            assert(col@ =~= column_of(g, x as int).subrange(0, y + 1));
            y = y + 1;
        }
        assert(col@ =~= column_of(g, x as int));
        let t = transform1d_exec(col, invert);
        transposed.push(t);
        x = x + 1;
    }
    let mut out: Vec<Vec<Complex32>> = Vec::new();
    let mut y: usize = 0;
    while y < height
        invariant
            y <= height,
            g == grid_view(samples@),
            height == g.len(),
            transposed@.len() == width,
            forall|xx: int|
                0 <= xx < width ==> transform1d_rel(
                    column_of(g, xx),
                    (#[trigger] transposed@[xx])@,
                    invert,
                ) && transposed@[xx]@.len() == height,
            out@.len() == y,
            forall|yy: int|
                0 <= yy < y ==> (#[trigger] out@[yy])@ == Seq::new(
                    width as nat,
                    |xx: int| transposed@[xx]@[yy],
                ),
        decreases height - y,
    {
        let mut row: Vec<Complex32> = Vec::new();
        let mut x2: usize = 0;
        while x2 < width
            invariant
                x2 <= width,
                y < height,
                transposed@.len() == width,
                forall|xx: int|
                    0 <= xx < width ==> (#[trigger] transposed@[xx])@.len() == height,
                row@ == Seq::new(width as nat, |xx: int| transposed@[xx]@[y as int]).subrange(
                    0,
                    x2 as int,
                ),
            decreases width - x2,
        {
            let t_ref = &transposed[x2];
            row.push(t_ref[y]);
            assert(row@ =~= Seq::new(width as nat, |xx: int| transposed@[xx]@[y as int]).subrange(
                0,
                x2 + 1,
            ));
            x2 = x2 + 1;
        }
        assert(row@ =~= Seq::new(width as nat, |xx: int| transposed@[xx]@[y as int]));
        out.push(row);
        y = y + 1;
    }
    proof {
        let t = grid_view(transposed@);
        assert forall|xx: int| 0 <= xx < width implies transform1d_rel(
            column_of(g, xx),
            #[trigger] t[xx],
            invert,
        ) && t[xx].len() == height by {
            assert(t[xx] == transposed@[xx]@);
        }
        assert(g[0] == samples@[0]@);
        assert(width as nat == grid_width(g));
        assert(grid_view(out@) =~~= columns_layout(t, height as nat, width as nat)) by {
            assert forall|yy: int| 0 <= yy < height implies #[trigger] grid_view(out@)[yy]
                =~= columns_layout(t, height as nat, width as nat)[yy] by {
                assert(grid_view(out@)[yy] == out@[yy]@);
                assert forall|xx: int| 0 <= xx < width implies #[trigger] out@[yy]@[xx] == t[xx][yy] by {
                    assert(t[xx] == transposed@[xx]@);
                }
            }
        }
        assert(grid_view(out@) == columns_layout(t, g.len(), grid_width(g)));
        assert(cols_rel(g, grid_view(out@), invert));
        assert forall|yy: int| 0 <= yy < out@.len() implies (#[trigger] out@[yy])@.len()
            == samples@[0]@.len() by {
            assert(out@[yy]@ == grid_view(out@)[yy]);
        }
    }
    out
}

/// The one-dimensional transform applied to every row of a grid.
pub fn fft_2d_horizontal(samples: &Vec<Vec<Complex32>>) -> (r: Vec<Vec<Complex32>>)
    requires
        forall|y: int|
            0 <= y < samples@.len() ==> is_pow2((#[trigger] samples@[y])@.len()),
    ensures
        rows_rel(grid_view(samples@), grid_view(r@), false),
        r@.len() == samples@.len(),
        forall|y: int|
            0 <= y < samples@.len() ==> (#[trigger] r@[y])@.len() == samples@[y]@.len(),
{
    transform_rows(samples, false)
}

/// The inverse one-dimensional transform applied to every row of a grid.
pub fn fft_2d_horizontal_inverse(samples: &Vec<Vec<Complex32>>) -> (r: Vec<Vec<Complex32>>)
    requires
        forall|y: int|
            0 <= y < samples@.len() ==> is_pow2((#[trigger] samples@[y])@.len()),
    ensures
        rows_rel(grid_view(samples@), grid_view(r@), true),
        r@.len() == samples@.len(),
        forall|y: int|
            0 <= y < samples@.len() ==> (#[trigger] r@[y])@.len() == samples@[y]@.len(),
{
    transform_rows(samples, true)
}

/// The one-dimensional transform applied to every column of a grid.
pub fn fft_2d_vertical(samples: &Vec<Vec<Complex32>>) -> (r: Vec<Vec<Complex32>>)
    requires
        samples@.len() >= 1,
        is_pow2(samples@.len()),
        is_rect(grid_view(samples@), samples@[0]@.len()),
    ensures
        cols_rel(grid_view(samples@), grid_view(r@), false),
        r@.len() == samples@.len(),
        forall|y: int| 0 <= y < r@.len() ==> (#[trigger] r@[y])@.len() == samples@[0]@.len(),
{
    transform_cols(samples, false)
}

/// The inverse one-dimensional transform applied to every column of a grid.
pub fn fft_2d_vertical_inverse(samples: &Vec<Vec<Complex32>>) -> (r: Vec<Vec<Complex32>>)
    requires
        samples@.len() >= 1,
        is_pow2(samples@.len()),
        is_rect(grid_view(samples@), samples@[0]@.len()),
    ensures
        cols_rel(grid_view(samples@), grid_view(r@), true),
        r@.len() == samples@.len(),
        forall|y: int| 0 <= y < r@.len() ==> (#[trigger] r@[y])@.len() == samples@[0]@.len(),
{
    transform_cols(samples, true)
}

/// The two-dimensional transform of a power-of-two grid: rows, then columns.
pub fn fft_2d(samples: &Vec<Vec<Complex32>>) -> (r: Vec<Vec<Complex32>>)
    requires
        pow2_grid(grid_view(samples@)),
    ensures
        fft_2d_rel(grid_view(samples@), grid_view(r@)),
        pow2_grid(grid_view(r@)),
        grid_view(r@).len() == grid_view(samples@).len(),
        is_rect(grid_view(r@), grid_view(samples@)[0].len()),
{
    let ghost g = grid_view(samples@);
    proof {
        assert forall|y: int| 0 <= y < samples@.len() implies is_pow2(
            (#[trigger] samples@[y])@.len(),
        ) by {
            assert(samples@[y]@ == g[y]);
        }
    }
    let rows = transform_rows(samples, false);
    proof {
        assert(grid_view(rows@)[0] == rows@[0]@);
        assert(samples@[0]@ == g[0]);
        assert forall|y: int| 0 <= y < rows@.len() implies (#[trigger] grid_view(rows@)[y]).len()
            == g[0].len() by {
            assert(grid_view(rows@)[y] == rows@[y]@);
            assert(samples@[y]@ == g[y]);
        }
        assert(is_rect(grid_view(rows@), rows@[0]@.len()));
    }
    let r = transform_cols(&rows, false);
    proof {
        assert(fft_2d_rel(g, grid_view(r@)));
        assert(grid_view(r@)[0] == r@[0]@);
        assert forall|y: int| 0 <= y < grid_view(r@).len() implies (#[trigger] grid_view(r@)[y]).len()
            == g[0].len() by {
            assert(grid_view(r@)[y] == r@[y]@);
            assert(rows@[0]@ == grid_view(rows@)[0]);
        }
        assert(pow2_grid(grid_view(r@)));
    }
    r
}

/// The inverse two-dimensional transform: columns, then rows.
pub fn fft_2d_inverse(samples: &Vec<Vec<Complex32>>) -> (r: Vec<Vec<Complex32>>)
    requires
        pow2_grid(grid_view(samples@)),
    ensures
        fft_2d_inverse_rel(grid_view(samples@), grid_view(r@)),
        pow2_grid(grid_view(r@)),
        grid_view(r@).len() == grid_view(samples@).len(),
        is_rect(grid_view(r@), grid_view(samples@)[0].len()),
{
    let ghost g = grid_view(samples@);
    proof {
        assert(samples@[0]@ == g[0]);
    }
    let cols = transform_cols(samples, true);
    proof {
        assert forall|y: int| 0 <= y < cols@.len() implies is_pow2(
            (#[trigger] cols@[y])@.len(),
        ) by {
            assert(cols@[y]@ == grid_view(cols@)[y]);
        }
    }
    let r = transform_rows(&cols, true);
    proof {
        assert(fft_2d_inverse_rel(g, grid_view(r@)));
        assert(grid_view(r@)[0] == r@[0]@);
        assert(cols@[0]@ == grid_view(cols@)[0]);
        assert forall|y: int| 0 <= y < grid_view(r@).len() implies (#[trigger] grid_view(r@)[y]).len()
            == g[0].len() by {
            assert(grid_view(r@)[y] == r@[y]@);
            assert(cols@[y]@ == grid_view(cols@)[y]);
        }
        assert(pow2_grid(grid_view(r@)));
    }
    r
}

} // verus!
