//! The primitive layer of the binary record formats.
//!
//! Both codecs serialize records as flat little-endian fields: `u64` for
//! counts and rates, and a length-prefixed run of `(u32, u32)` pairs holding
//! the IEEE-754 bit patterns of a spectrum's `(re, im)` bins. Every field is
//! written and read here, with the byte layout pinned down exactly.

use vstd::bytes::{
    lemma_auto_spec_u32_to_from_le_bytes, spec_u32_from_le_bytes, spec_u32_to_le_bytes,
    spec_u64_from_le_bytes, u32_from_le_bytes, u32_to_le_bytes, u64_from_le_bytes,
};
use crate::fft::grid_view;
use vstd::arithmetic::mul::lemma_mul_inequality;
use vstd::prelude::*;
use vstd::slice::slice_subrange;

verus! {

/// The eight bytes of one `(re, im)` bit-pattern pair: each word
/// little-endian, real part first.
pub open spec fn pair_bytes(p: (u32, u32)) -> Seq<u8> {
    spec_u32_to_le_bytes(p.0) + spec_u32_to_le_bytes(p.1)
}

/// The concatenated bytes of a run of bit-pattern pairs, in order.
pub open spec fn pairs_bytes(s: Seq<(u32, u32)>) -> Seq<u8>
    decreases s.len(),
{
    if s.len() == 0 {
        Seq::empty()
    } else {
        pairs_bytes(s.drop_last()) + pair_bytes(s.last())
    }
}

pub proof fn lemma_pairs_bytes_len(s: Seq<(u32, u32)>)
    ensures
        pairs_bytes(s).len() == 8 * s.len(),
    decreases s.len(),
{
    lemma_auto_spec_u32_to_from_le_bytes();
    if s.len() > 0 {
        lemma_pairs_bytes_len(s.drop_last());
    }
}

pub proof fn lemma_pairs_bytes_push(s: Seq<(u32, u32)>, p: (u32, u32))
    ensures
        pairs_bytes(s.push(p)) == pairs_bytes(s) + pair_bytes(p),
{
    assert(s.push(p).drop_last() =~= s);
    assert(s.push(p).last() == p);
}

/// Two runs with the same bytes and the same count hold the same pairs.
pub proof fn lemma_pairs_bytes_injective(a: Seq<(u32, u32)>, b: Seq<(u32, u32)>)
    requires
        a.len() == b.len(),
        pairs_bytes(a) == pairs_bytes(b),
    ensures
        a == b,
    decreases a.len(),
{
    lemma_auto_spec_u32_to_from_le_bytes();
    if a.len() > 0 {
        lemma_pairs_bytes_len(a.drop_last());
        lemma_pairs_bytes_len(b.drop_last());
        lemma_pairs_bytes_len(a);
        let abytes = pairs_bytes(a);
        let n = abytes.len() as int;
        assert(pairs_bytes(a.drop_last()) =~= pairs_bytes(b.drop_last())) by {
            assert(pairs_bytes(a.drop_last()) =~= abytes.subrange(0, n - 8));
            assert(pairs_bytes(b.drop_last()) =~= abytes.subrange(0, n - 8));
        }
        lemma_pairs_bytes_injective(a.drop_last(), b.drop_last());
        let pa = pair_bytes(a.last());
        let pb = pair_bytes(b.last());
        assert(pa =~= abytes.subrange(n - 8, n));
        assert(pb =~= abytes.subrange(n - 8, n));
        assert(spec_u32_to_le_bytes(b.last().0) =~= pa.subrange(0, 4));
        assert(spec_u32_to_le_bytes(b.last().1) =~= pa.subrange(4, 8));
        assert(spec_u32_to_le_bytes(a.last().0) =~= pa.subrange(0, 4));
        assert(spec_u32_to_le_bytes(a.last().1) =~= pa.subrange(4, 8));
        assert(a.last().0 == spec_u32_from_le_bytes(spec_u32_to_le_bytes(a.last().0)));
        assert(b.last().0 == spec_u32_from_le_bytes(spec_u32_to_le_bytes(b.last().0)));
        assert(a.last().1 == spec_u32_from_le_bytes(spec_u32_to_le_bytes(a.last().1)));
        assert(b.last().1 == spec_u32_from_le_bytes(spec_u32_to_le_bytes(b.last().1)));
        assert(a.last() == b.last());
        assert(a =~= a.drop_last().push(a.last()));
        assert(b =~= b.drop_last().push(b.last()));
    } else {
        assert(a =~= b);
    }
}

/// The byte run of a sequence of bit-pattern pairs.
pub fn pairs_to_bytes(pairs: &Vec<(u32, u32)>) -> (r: Vec<u8>)
    ensures
        r@ == pairs_bytes(pairs@),
{
    let mut out: Vec<u8> = Vec::new();
    let mut i: usize = 0;
    while i < pairs.len()
        invariant
            i <= pairs@.len(),
            out@ == pairs_bytes(pairs@.subrange(0, i as int)),
        decreases pairs@.len() - i,
    {
        let (re_bits, im_bits) = pairs[i];
        let mut re_bytes = u32_to_le_bytes(re_bits);
        out.append(&mut re_bytes);
        let mut im_bytes = u32_to_le_bytes(im_bits);
        out.append(&mut im_bytes);
        proof {
            lemma_pairs_bytes_push(pairs@.subrange(0, i as int), pairs@[i as int]);
            assert(pairs@.subrange(0, i + 1) =~= pairs@.subrange(0, i as int).push(
                pairs@[i as int],
            ));
            assert(out@ =~= pairs_bytes(pairs@.subrange(0, i + 1)));
        }
        i = i + 1;
    }
    assert(pairs@.subrange(0, pairs@.len() as int) =~= pairs@);
    out
}

/// Reads the `u64` field at `pos`.
pub fn read_u64_le(bytes: &Vec<u8>, pos: usize) -> (r: u64)
    requires
        pos + 8 <= bytes@.len(),
    ensures
        r == spec_u64_from_le_bytes(bytes@.subrange(pos as int, pos + 8)),
{
    let total = bytes.len();
    assert(pos + 8 <= total);
    u64_from_le_bytes(slice_subrange(bytes.as_slice(), pos, pos + 8))
}

/// Reads the `u32` field at `pos`.
pub fn read_u32_le(bytes: &Vec<u8>, pos: usize) -> (r: u32)
    requires
        pos + 4 <= bytes@.len(),
    ensures
        r == spec_u32_from_le_bytes(bytes@.subrange(pos as int, pos + 4)),
{
    let total = bytes.len();
    assert(pos + 4 <= total);
    u32_from_le_bytes(slice_subrange(bytes.as_slice(), pos, pos + 4))
}

/// Reads the run of `count` bit-pattern pairs starting at `pos`.
pub fn read_pairs(bytes: &Vec<u8>, pos: usize, count: usize) -> (r: Vec<(u32, u32)>)
    requires
        pos + 8 * count <= bytes@.len(),
    ensures
        r@.len() == count,
        pairs_bytes(r@) == bytes@.subrange(pos as int, pos + 8 * count),
{
    let total = bytes.len();
    let mut out: Vec<(u32, u32)> = Vec::new();
    let mut i: usize = 0;
    while i < count
        invariant
            i <= count,
            pos + 8 * count <= total,
            total == bytes@.len(),
            out@.len() == i,
            pairs_bytes(out@) == bytes@.subrange(pos as int, pos + 8 * i),
        decreases count - i,
    {
        let re_bits = read_u32_le(bytes, pos + 8 * i);
        let im_bits = read_u32_le(bytes, pos + 8 * i + 4);
        proof {
            lemma_auto_spec_u32_to_from_le_bytes();
            lemma_pairs_bytes_push(out@, (re_bits, im_bits));
            assert(spec_u32_to_le_bytes(re_bits) =~= bytes@.subrange(
                pos + 8 * i,
                pos + 8 * i + 4,
            ));
            assert(spec_u32_to_le_bytes(im_bits) =~= bytes@.subrange(
                pos + 8 * i + 4,
                pos + 8 * i + 8,
            ));
            assert(pairs_bytes(out@.push((re_bits, im_bits))) =~= bytes@.subrange(
                pos as int,
                pos + 8 * (i + 1),
            ));
        }
        out.push((re_bits, im_bits));
        i = i + 1;
    }
    out
}


/// The concatenated bytes of a run of rows of bit-pattern pairs, in order.
pub open spec fn rows_bytes(g: Seq<Seq<(u32, u32)>>) -> Seq<u8>
    decreases g.len(),
{
    if g.len() == 0 {
        Seq::empty()
    } else {
        rows_bytes(g.drop_last()) + pairs_bytes(g.last())
    }
}

pub proof fn lemma_rows_bytes_len(g: Seq<Seq<(u32, u32)>>, w: nat)
    requires
        forall|y: int| 0 <= y < g.len() ==> (#[trigger] g[y]).len() == w,
    ensures
        rows_bytes(g).len() == 8 * w * g.len(),
    decreases g.len(),
{
    if g.len() > 0 {
        lemma_rows_bytes_len(g.drop_last(), w);
        lemma_pairs_bytes_len(g.last());
        assert(8 * w * (g.len() - 1) + 8 * w == 8 * w * g.len()) by (nonlinear_arith);
    }
}

pub proof fn lemma_rows_bytes_push(g: Seq<Seq<(u32, u32)>>, row: Seq<(u32, u32)>)
    ensures
        rows_bytes(g.push(row)) == rows_bytes(g) + pairs_bytes(row),
{
    assert(g.push(row).drop_last() =~= g);
    assert(g.push(row).last() == row);
}

/// The byte run of a channel of bit-pattern pairs, row-major.
pub fn rows_to_bytes(channel: &Vec<Vec<(u32, u32)>>) -> (r: Vec<u8>)
    ensures
        r@ == rows_bytes(grid_view(channel@)),
{
    let ghost g = grid_view(channel@);
    let mut out: Vec<u8> = Vec::new();
    let mut y: usize = 0;
    while y < channel.len()
        invariant
            y <= g.len(),
            g == grid_view(channel@),
            out@ == rows_bytes(g.subrange(0, y as int)),
        decreases channel@.len() - y,
    {
        let row = &channel[y];
        assert(row@ == g[y as int]);
        let mut row_bytes = pairs_to_bytes(row);
        out.append(&mut row_bytes);
        proof {
            lemma_rows_bytes_push(g.subrange(0, y as int), g[y as int]);
            assert(g.subrange(0, y + 1) =~= g.subrange(0, y as int).push(g[y as int]));
        }
        y = y + 1;
    }
    assert(g.subrange(0, g.len() as int) =~= g);
    out
}

/// Reads `h` rows of `w` bit-pattern pairs each, starting at `pos`.
pub fn read_rows(bytes: &Vec<u8>, pos: usize, w: usize, h: usize) -> (r: Vec<Vec<(u32, u32)>>)
    requires
        pos + 8 * w * h <= bytes@.len(),
    ensures
        r@.len() == h,
        forall|y: int| 0 <= y < h ==> (#[trigger] r@[y])@.len() == w,
        rows_bytes(grid_view(r@)) == bytes@.subrange(pos as int, pos + 8 * w * h),
{
    let total = bytes.len();
    let mut out: Vec<Vec<(u32, u32)>> = Vec::new();
    let mut y: usize = 0;
    let mut cur: usize = pos;
    while y < h
        invariant
            y <= h,
            total == bytes@.len(),
            pos + 8 * w * h <= total,
            cur == pos + 8 * w * y,
            out@.len() == y,
            forall|yy: int| 0 <= yy < y ==> (#[trigger] out@[yy])@.len() == w,
            rows_bytes(grid_view(out@)) == bytes@.subrange(pos as int, cur as int),
        decreases h - y,
    {
        proof {
            lemma_mul_inequality(y + 1 as int, h as int, 8 * w as int);
            assert(8 * w * (y + 1) == 8 * w * y + 8 * w) by (nonlinear_arith);
            assert((y + 1) * (8 * w) == 8 * w * (y + 1)) by (nonlinear_arith);
            assert(h * (8 * w) == 8 * w * h) by (nonlinear_arith);
        }
        let row = read_pairs(bytes, cur, w);
        proof {
            lemma_rows_bytes_push(grid_view(out@), row@);
            assert(grid_view(out@.push(row)) =~= grid_view(out@).push(row@));
            assert(rows_bytes(grid_view(out@)) + pairs_bytes(row@) =~= bytes@.subrange(
                pos as int,
                cur + 8 * w,
            ));
        }
        out.push(row);
        cur = cur + 8 * w;
        y = y + 1;
    }
    out
}

} // verus!
