//! The image codec: each color channel is padded to power-of-two dimensions,
//! transformed in two dimensions, and only the coefficients nearest the four
//! corners of the unshifted frequency grid are kept; the record keeps both
//! the transformed and the original dimensions so decompression can rebuild
//! a grid of the padded size and invert it.
//!
//! ## Record byte layout
//!
//! All fields are little-endian:
//!
//! | offset | field                                       |
//! |--------|---------------------------------------------|
//! | 0      | transformed (padded) width, `u64`           |
//! | 8      | transformed (padded) height, `u64`          |
//! | 16     | original (pre-padding) width, `u64`         |
//! | 24     | original (pre-padding) height, `u64`        |
//! | 32     | stored corner rows `h`, `u64`               |
//! | 40     | stored corner columns `w`, `u64`            |
//! | 48     | red, green, then blue channel: `h * w` bins each, row-major, every bin `(re, im)` as two `u32` IEEE-754 bit patterns |

use crate::bytes::{lemma_rows_bytes_len, read_rows, read_u64_le, rows_bytes, rows_to_bytes};
use crate::complex::{c_bits_of, c_from_bits, c_from_usize, c_of_bits, c_of_usize, c_to_bits};
use crate::fft::{grid_view, padded_len, padded_len_exec};
use num_complex::Complex32;
use vstd::bytes::{
    lemma_auto_spec_u64_to_from_le_bytes, spec_u64_from_le_bytes, spec_u64_to_le_bytes,
    u64_to_le_bytes,
};
use vstd::prelude::*;

verus! {

/// A row of `n` zero samples.
pub open spec fn zero_row(n: nat) -> Seq<Complex32> {
    Seq::new(n, |i: int| c_of_usize(0))
}

/// A row padded with zero samples to width `w`.
pub open spec fn pad_row(row: Seq<Complex32>, w: nat) -> Seq<Complex32> {
    row + zero_row((w - row.len()) as nat)
}

/// A channel padded with zero samples to `w` columns and `h` rows.
pub open spec fn pad_grid(g: Seq<Seq<Complex32>>, w: nat, h: nat) -> Seq<Seq<Complex32>> {
    Seq::new(
        h,
        |y: int|
            if y < g.len() {
                pad_row(g[y], w)
            } else {
                zero_row(w)
            },
    )
}

/// A channel cut back to its first `w` columns and `h` rows.
pub open spec fn truncate_grid(g: Seq<Seq<Complex32>>, w: nat, h: nat) -> Seq<Seq<Complex32>> {
    Seq::new(h, |y: int| g[y].subrange(0, w as int))
}

/// The `cw` leftmost and `cw` rightmost entries of a row: the two
/// low-frequency ends of an unshifted spectrum row.
pub open spec fn corner_row(row: Seq<Complex32>, cw: nat) -> Seq<Complex32> {
    row.subrange(0, cw as int) + row.subrange(row.len() - cw, row.len() as int)
}

/// The four corners of a channel: the `ch` top and `ch` bottom rows, each
/// reduced to its `cw` leftmost and `cw` rightmost entries.
pub open spec fn corners_grid(g: Seq<Seq<Complex32>>, cw: nat, ch: nat) -> Seq<Seq<Complex32>> {
    Seq::new(
        2 * ch,
        |y: int|
            corner_row(
                if y < ch {
                    g[y]
                } else {
                    g[g.len() - 2 * ch + y]
                },
                cw,
            ),
    )
}

/// A stored corner row widened back to `w` columns: a zero middle band is
/// spliced in at the midpoint, between the two corner halves.
pub open spec fn fill_row(row: Seq<Complex32>, w: nat) -> Seq<Complex32> {
    let mid = row.len() / 2;
    row.subrange(0, mid as int) + zero_row((w - row.len()) as nat) + row.subrange(
        mid as int,
        row.len() as int,
    )
}

/// A stored corner channel widened back to `w` columns and `h` rows: every
/// row gets its zero middle band, and a band of zero rows is spliced in
/// between the top and bottom halves.
pub open spec fn fill_grid(g: Seq<Seq<Complex32>>, w: nat, h: nat) -> Seq<Seq<Complex32>> {
    let mid = g.len() / 2;
    let missing = h - g.len();
    Seq::new(
        h,
        |y: int|
            if y < mid {
                fill_row(g[y], w)
            } else if y < mid + missing {
                zero_row(w)
            } else {
                fill_row(g[y - missing], w)
            },
    )
}

/// The quadrant swap used only for visualization: the top-left and
/// bottom-right halves trade places, as do the other two; with odd
/// dimensions the last row and column stay put.
pub open spec fn shifted_grid<T>(g: Seq<Seq<T>>) -> Seq<Seq<T>> {
    let hx = g.len() / 2;
    Seq::new(
        g.len(),
        |x: int|
            {
                let sx = if x < hx {
                    x + hx
                } else if x < 2 * hx {
                    x - hx
                } else {
                    x
                };
                let w = g[0].len();
                let hy = w / 2;
                Seq::new(
                    w,
                    |y: int|
                        {
                            let sy = if y < hy {
                                y + hy
                            } else if y < 2 * hy {
                                y - hy
                            } else {
                                y
                            };
                            g[sx][sy]
                        },
                )
            },
    )
}

/// Swaps the four quadrants of a rectangular grid in place, for display of a
/// centered spectrum; with odd dimensions the middle row and column stay
/// put. Never used on the compression path.
pub fn shift_vector<T: Copy>(channel: &mut Vec<Vec<T>>)
    requires
        old(channel)@.len() >= 1,
        forall|x: int|
            0 <= x < old(channel)@.len() ==> (#[trigger] old(channel)@[x])@.len() == old(
                channel,
            )@[0]@.len(),
    ensures
        grid_view(final(channel)@) == shifted_grid(grid_view(old(channel)@)),
{
    let ghost g = grid_view(old(channel)@);
    let size_x = channel.len();
    let row0 = &channel[0];
    let size_y = row0.len();
    let half_x = size_x / 2;
    let half_y = size_y / 2;
    let mut out: Vec<Vec<T>> = Vec::new();
    let mut x: usize = 0;
    while x < size_x
        invariant
            x <= size_x,
            g == grid_view(channel@),
            channel@ == old(channel)@,
            size_x == g.len(),
            size_x >= 1,
            size_y == g[0].len(),
            half_x == size_x / 2,
            half_y == size_y / 2,
            forall|xx: int| 0 <= xx < size_x ==> (#[trigger] g[xx]).len() == size_y,
            out@.len() == x,
            forall|xx: int|
                0 <= xx < x ==> (#[trigger] out@[xx])@ == shifted_grid(g)[xx],
        decreases size_x - x,
    {
        let sx = if x < half_x {
            x + half_x
        } else if half_x <= x && x < 2 * half_x {
            x - half_x
        } else {
            x
        };
        let mut row: Vec<T> = Vec::new();
        let mut y: usize = 0;
        while y < size_y
            invariant
                y <= size_y,
                g == grid_view(channel@),
                channel@ == old(channel)@,
                size_x == g.len(),
                size_y == g[0].len(),
                half_y == size_y / 2,
                sx < size_x,
                x < size_x,
                sx == ({
                    let hx = g.len() / 2;
                    if x < hx {
                        x + hx
                    } else if x < 2 * hx {
                        x - hx
                    } else {
                        x as int
                    }
                }),
                forall|xx: int| 0 <= xx < size_x ==> (#[trigger] g[xx]).len() == size_y,
                row@.len() == y,
                forall|yy: int| 0 <= yy < y ==> #[trigger] row@[yy] == shifted_grid(g)[x as int][yy],
            decreases size_y - y,
        {
            let sy = if y < half_y {
                y + half_y
            } else if half_y <= y && y < 2 * half_y {
                y - half_y
            } else {
                y
            };
            let src_row = &channel[sx];
            assert(src_row@ == g[sx as int]);
            let v = src_row[sy];
            row.push(v);
            assert(row@[y as int] == shifted_grid(g)[x as int][y as int]);
            y = y + 1;
        }
        assert(row@ =~= shifted_grid(g)[x as int]);
        out.push(row);
        x = x + 1;
    }
    *channel = out;
    assert(grid_view(final(channel)@) =~~= shifted_grid(g));
}


fn zero_row_exec(w: usize, zero: Complex32) -> (r: Vec<Complex32>)
    requires
        zero == c_of_usize(0),
    ensures
        r@ == zero_row(w as nat),
{
    let mut row: Vec<Complex32> = Vec::new();
    let mut i: usize = 0;
    while i < w
        invariant
            i <= w,
            zero == c_of_usize(0),
            row@.len() == i,
            forall|j: int| 0 <= j < i ==> #[trigger] row@[j] == c_of_usize(0),
        decreases w - i,
    {
        row.push(zero);
        i = i + 1;
    }
    assert(row@ =~= zero_row(w as nat));
    row
}

fn pad_row_exec(row: &Vec<Complex32>, w: usize, zero: Complex32) -> (r: Vec<Complex32>)
    requires
        row@.len() <= w,
        zero == c_of_usize(0),
    ensures
        r@ == pad_row(row@, w as nat),
{
    let mut out: Vec<Complex32> = Vec::new();
    let mut i: usize = 0;
    while i < row.len()
        invariant
            i <= row@.len(),
            out@ == row@.subrange(0, i as int),
        decreases row@.len() - i,
    {
        out.push(row[i]);
        assert(out@ =~= row@.subrange(0, i + 1));
        i = i + 1;
    }
    assert(out@ =~= row@);
    while out.len() < w
        invariant
            row@.len() <= out@.len() <= w,
            zero == c_of_usize(0),
            out@.subrange(0, row@.len() as int) == row@,
            forall|j: int| row@.len() <= j < out@.len() ==> #[trigger] out@[j] == c_of_usize(0),
        decreases w - out.len(),
    {
        out.push(zero);
        assert(out@.subrange(0, row@.len() as int) =~= row@);
    }
    assert(out@ =~= pad_row(row@, w as nat));
    out
}

fn prefix_row_exec(row: &Vec<Complex32>, w: usize) -> (r: Vec<Complex32>)
    requires
        w <= row@.len(),
    ensures
        r@ == row@.subrange(0, w as int),
{
    let mut out: Vec<Complex32> = Vec::new();
    let mut i: usize = 0;
    while i < w
        invariant
            i <= w <= row@.len(),
            out@ == row@.subrange(0, i as int),
        decreases w - i,
    {
        out.push(row[i]);
        assert(out@ =~= row@.subrange(0, i + 1));
        i = i + 1;
    }
    out
}

fn corner_row_exec(row: &Vec<Complex32>, cw: usize) -> (r: Vec<Complex32>)
    requires
        2 * cw <= row@.len(),
    ensures
        r@ == corner_row(row@, cw as nat),
{
    let len = row.len();
    let mut out = prefix_row_exec(row, cw);
    let mut i: usize = len - cw;
    while i < len
        invariant
            cw <= len == row@.len(),
            len - cw <= i <= len,
            out@ == row@.subrange(0, cw as int) + row@.subrange((len - cw) as int, i as int),
        decreases len - i,
    {
        out.push(row[i]);
        assert(out@ =~= row@.subrange(0, cw as int) + row@.subrange(
            (len - cw) as int,
            i + 1,
        ));
        i = i + 1;
    }
    out
}

fn fill_row_exec(row: &Vec<Complex32>, w: usize, zero: Complex32) -> (r: Vec<Complex32>)
    requires
        row@.len() <= w,
        zero == c_of_usize(0),
    ensures
        r@ == fill_row(row@, w as nat),
{
    let len = row.len();
    let mid = len / 2;
    let missing = w - len;
    let mut out = prefix_row_exec(row, mid);
    let mut i: usize = 0;
    while i < missing
        invariant
            i <= missing,
            zero == c_of_usize(0),
            mid == row@.len() / 2,
            out@ == row@.subrange(0, mid as int) + zero_row(i as nat),
        decreases missing - i,
    {
        out.push(zero);
        assert(out@ =~= row@.subrange(0, mid as int) + zero_row((i + 1) as nat));
        i = i + 1;
    }
    let mut j: usize = mid;
    while j < len
        invariant
            mid <= j <= len == row@.len(),
            mid == row@.len() / 2,
            missing == w - row@.len(),
            out@ == row@.subrange(0, mid as int) + zero_row(missing as nat) + row@.subrange(
                mid as int,
                j as int,
            ),
        decreases len - j,
    {
        out.push(row[j]);
        assert(out@ =~= row@.subrange(0, mid as int) + zero_row(missing as nat) + row@.subrange(
            mid as int,
            j + 1,
        ));
        j = j + 1;
    }
    assert(out@ =~= fill_row(row@, w as nat));
    out
}


fn pad_channel(channel: &Vec<Vec<Complex32>>, w: usize, h: usize, zero: Complex32) -> (r: Vec<
    Vec<Complex32>,
>)
    requires
        zero == c_of_usize(0),
        channel@.len() <= h,
        forall|y: int| 0 <= y < channel@.len() ==> (#[trigger] channel@[y])@.len() <= w,
    ensures
        grid_view(r@) == pad_grid(grid_view(channel@), w as nat, h as nat),
{
    let ghost g = grid_view(channel@);
    let rows = channel.len();
    let mut out: Vec<Vec<Complex32>> = Vec::new();
    let mut y: usize = 0;
    while y < rows
        invariant
            y <= rows,
            rows == g.len(),
            g == grid_view(channel@),
            zero == c_of_usize(0),
            forall|yy: int| 0 <= yy < rows ==> (#[trigger] g[yy]).len() <= w,
            out@.len() == y,
            forall|yy: int| 0 <= yy < y ==> (#[trigger] out@[yy])@ == pad_row(g[yy], w as nat),
        decreases rows - y,
    {
        assert(channel@[y as int]@ == g[y as int]);
        let padded = pad_row_exec(&channel[y], w, zero);
        out.push(padded);
        y = y + 1;
    }
    while out.len() < h
        invariant
            rows <= out@.len() <= h,
            rows == g.len(),
            zero == c_of_usize(0),
            forall|yy: int| 0 <= yy < rows ==> (#[trigger] out@[yy])@ == pad_row(g[yy], w as nat),
            forall|yy: int| rows <= yy < out@.len() ==> (#[trigger] out@[yy])@ == zero_row(w as nat),
        decreases h - out.len(),
    {
        let zrow = zero_row_exec(w, zero);
        out.push(zrow);
    }
    assert(grid_view(out@) =~~= pad_grid(g, w as nat, h as nat));
    out
}

fn truncate_channel(channel: &Vec<Vec<Complex32>>, w: usize, h: usize) -> (r: Vec<Vec<Complex32>>)
    requires
        h <= channel@.len(),
        forall|y: int| 0 <= y < channel@.len() ==> w <= (#[trigger] channel@[y])@.len(),
    ensures
        grid_view(r@) == truncate_grid(grid_view(channel@), w as nat, h as nat),
{
    let ghost g = grid_view(channel@);
    let mut out: Vec<Vec<Complex32>> = Vec::new();
    let mut y: usize = 0;
    while y < h
        invariant
            y <= h <= g.len(),
            g == grid_view(channel@),
            forall|yy: int| 0 <= yy < g.len() ==> w <= (#[trigger] g[yy]).len(),
            out@.len() == y,
            forall|yy: int|
                0 <= yy < y ==> (#[trigger] out@[yy])@ == g[yy].subrange(0, w as int),
        decreases h - y,
    {
        assert(channel@[y as int]@ == g[y as int]);
        let cut = prefix_row_exec(&channel[y], w);
        out.push(cut);
        y = y + 1;
    }
    assert(grid_view(out@) =~~= truncate_grid(g, w as nat, h as nat));
    out
}

fn corners_channel(channel: &Vec<Vec<Complex32>>, cw: usize, ch: usize) -> (r: Vec<
    Vec<Complex32>,
>)
    requires
        2 * ch <= channel@.len(),
        forall|y: int| 0 <= y < channel@.len() ==> 2 * cw <= (#[trigger] channel@[y])@.len(),
    ensures
        grid_view(r@) == corners_grid(grid_view(channel@), cw as nat, ch as nat),
{
    let ghost g = grid_view(channel@);
    let rows = channel.len();
    let mut out: Vec<Vec<Complex32>> = Vec::new();
    let mut y: usize = 0;
    while y < ch
        invariant
            y <= ch,
            2 * ch <= rows == g.len(),
            g == grid_view(channel@),
            forall|yy: int| 0 <= yy < g.len() ==> 2 * cw <= (#[trigger] g[yy]).len(),
            out@.len() == y,
            forall|yy: int|
                0 <= yy < y ==> (#[trigger] out@[yy])@ == corner_row(g[yy], cw as nat),
        decreases ch - y,
    {
        assert(channel@[y as int]@ == g[y as int]);
        let cut = corner_row_exec(&channel[y], cw);
        out.push(cut);
        y = y + 1;
    }
    let mut y2: usize = rows - ch;
    while y2 < rows
        invariant
            rows - ch <= y2 <= rows,
            2 * ch <= rows == g.len(),
            g == grid_view(channel@),
            forall|yy: int| 0 <= yy < g.len() ==> 2 * cw <= (#[trigger] g[yy]).len(),
            out@.len() == ch + (y2 - (rows - ch)),
            forall|yy: int|
                0 <= yy < ch ==> (#[trigger] out@[yy])@ == corner_row(g[yy], cw as nat),
            forall|yy: int|
                ch <= yy < out@.len() ==> (#[trigger] out@[yy])@ == corner_row(
                    g[g.len() - 2 * ch + yy],
                    cw as nat,
                ),
        decreases rows - y2,
    {
        assert(channel@[y2 as int]@ == g[y2 as int]);
        let cut = corner_row_exec(&channel[y2], cw);
        out.push(cut);
        y2 = y2 + 1;
    }
    assert(grid_view(out@) =~~= corners_grid(g, cw as nat, ch as nat));
    out
}

fn fill_channel(
    channel: &Vec<Vec<Complex32>>,
    w: usize,
    h: usize,
    zero: Complex32,
) -> (r: Vec<Vec<Complex32>>)
    requires
        zero == c_of_usize(0),
        channel@.len() <= h,
        forall|y: int| 0 <= y < channel@.len() ==> (#[trigger] channel@[y])@.len() <= w,
    ensures
        grid_view(r@) == fill_grid(grid_view(channel@), w as nat, h as nat),
{
    let ghost g = grid_view(channel@);
    let rows = channel.len();
    let mid = rows / 2;
    let missing = h - rows;
    let mut out: Vec<Vec<Complex32>> = Vec::new();
    let mut y: usize = 0;
    while y < mid
        invariant
            y <= mid,
            mid == rows / 2,
            rows == g.len(),
            g == grid_view(channel@),
            zero == c_of_usize(0),
            forall|yy: int| 0 <= yy < rows ==> (#[trigger] g[yy]).len() <= w,
            out@.len() == y,
            forall|yy: int| 0 <= yy < y ==> (#[trigger] out@[yy])@ == fill_row(g[yy], w as nat),
        decreases mid - y,
    {
        assert(channel@[y as int]@ == g[y as int]);
        let filled = fill_row_exec(&channel[y], w, zero);
        out.push(filled);
        y = y + 1;
    }
    let mut z: usize = 0;
    while z < missing
        invariant
            z <= missing,
            missing == h - rows,
            mid == rows / 2,
            rows == g.len(),
            g == grid_view(channel@),
            zero == c_of_usize(0),
            forall|yy: int| 0 <= yy < rows ==> (#[trigger] g[yy]).len() <= w,
            out@.len() == mid + z,
            forall|yy: int| 0 <= yy < mid ==> (#[trigger] out@[yy])@ == fill_row(g[yy], w as nat),
            forall|yy: int| mid <= yy < out@.len() ==> (#[trigger] out@[yy])@ == zero_row(w as nat),
        decreases missing - z,
    {
        let zrow = zero_row_exec(w, zero);
        out.push(zrow);
        z = z + 1;
    }
    let mut y2: usize = mid;
    while y2 < rows
        invariant
            mid <= y2 <= rows,
            missing == h - rows,
            mid == rows / 2,
            rows == g.len(),
            g == grid_view(channel@),
            zero == c_of_usize(0),
            forall|yy: int| 0 <= yy < rows ==> (#[trigger] g[yy]).len() <= w,
            out@.len() == missing + y2,
            forall|yy: int| 0 <= yy < mid ==> (#[trigger] out@[yy])@ == fill_row(g[yy], w as nat),
            forall|yy: int| mid <= yy < mid + missing ==> (#[trigger] out@[yy])@ == zero_row(w as nat),
            forall|yy: int|
                mid + missing <= yy < out@.len() ==> (#[trigger] out@[yy])@ == fill_row(
                    g[yy - missing],
                    w as nat,
                ),
        decreases rows - y2,
    {
        assert(channel@[y2 as int]@ == g[y2 as int]);
        let filled = fill_row_exec(&channel[y2], w, zero);
        out.push(filled);
        y2 = y2 + 1;
    }
    assert(grid_view(out@) =~~= fill_grid(g, w as nat, h as nat));
    out
}


/// One decoded image: a grid of complex values per color channel. All three
/// channels always share identical dimensions.
pub struct ComplexImage {
    pub red: Vec<Vec<Complex32>>,
    pub green: Vec<Vec<Complex32>>,
    pub blue: Vec<Vec<Complex32>>,
}

impl ComplexImage {
    /// The image height: the row count of each channel.
    pub open spec fn spec_height(&self) -> nat {
        self.red@.len()
    }

    /// The image width: the column count of each channel.
    pub open spec fn spec_width(&self) -> nat {
        if self.red@.len() == 0 {
            0nat
        } else {
            self.red@[0]@.len()
        }
    }

    /// Every channel is rectangular and all three share one size.
    pub open spec fn well_formed(&self) -> bool {
        &&& self.green@.len() == self.spec_height()
        &&& self.blue@.len() == self.spec_height()
        &&& forall|y: int|
            0 <= y < self.spec_height() ==> (#[trigger] self.red@[y])@.len() == self.spec_width()
        &&& forall|y: int|
            0 <= y < self.spec_height() ==> (#[trigger] self.green@[y])@.len() == self.spec_width()
        &&& forall|y: int|
            0 <= y < self.spec_height() ==> (#[trigger] self.blue@[y])@.len() == self.spec_width()
    }

    pub fn new(
        red: Vec<Vec<Complex32>>,
        green: Vec<Vec<Complex32>>,
        blue: Vec<Vec<Complex32>>,
    ) -> (r: ComplexImage)
        ensures
            r.red == red,
            r.green == green,
            r.blue == blue,
    {
        ComplexImage { red, green, blue }
    }

    /// The column count shared by the channels; zero for an empty image.
    pub fn width(&self) -> (r: usize)
        requires
            self.well_formed(),
        ensures
            r == self.spec_width(),
    {
        if self.red.len() == 0 {
            return 0;
        }
        let row0 = &self.red[0];
        row0.len()
    }

    /// The row count shared by the channels.
    pub fn height(&self) -> (r: usize)
        requires
            self.well_formed(),
        ensures
            r == self.spec_height(),
    {
        self.red.len()
    }

    /// The image size as `(width, height)`.
    pub fn size(&self) -> (r: (usize, usize))
        requires
            self.well_formed(),
        ensures
            r.0 == self.spec_width(),
            r.1 == self.spec_height(),
    {
        (self.width(), self.height())
    }

    /// The three channels, in red, green, blue order.
    pub fn channels(&self) -> (r: [&Vec<Vec<Complex32>>; 3])
        ensures
            r[0] == &self.red,
            r[1] == &self.green,
            r[2] == &self.blue,
    {
        [&self.red, &self.green, &self.blue]
    }

    /// The image padded with zero samples, on every axis, to the smallest
    /// power-of-two size at least its own.
    pub fn round_up(&self) -> (r: ComplexImage)
        requires
            self.well_formed(),
            self.spec_width() <= usize::MAX / 2 + 1,
            self.spec_height() <= usize::MAX / 2 + 1,
        ensures
            grid_view(r.red@) == pad_grid(
                grid_view(self.red@),
                padded_len(self.spec_width()),
                padded_len(self.spec_height()),
            ),
            grid_view(r.green@) == pad_grid(
                grid_view(self.green@),
                padded_len(self.spec_width()),
                padded_len(self.spec_height()),
            ),
            grid_view(r.blue@) == pad_grid(
                grid_view(self.blue@),
                padded_len(self.spec_width()),
                padded_len(self.spec_height()),
            ),
    {
        let zero = c_from_usize(0);
        let new_width = padded_len_exec(self.width());
        let new_height = padded_len_exec(self.height());
        proof {
            if self.spec_width() >= 1 {
                crate::fft::lemma_next_pow2(self.spec_width());
            }
            if self.spec_height() >= 1 {
                crate::fft::lemma_next_pow2(self.spec_height());
            }
        }
        let red = pad_channel(&self.red, new_width, new_height, zero);
        let green = pad_channel(&self.green, new_width, new_height, zero);
        let blue = pad_channel(&self.blue, new_width, new_height, zero);
        ComplexImage { red, green, blue }
    }

    /// The image cut back to `new_size.0` columns and `new_size.1` rows.
    pub fn truncate(&self, new_size: (usize, usize)) -> (r: ComplexImage)
        requires
            self.well_formed(),
            new_size.0 <= self.spec_width(),
            new_size.1 <= self.spec_height(),
        ensures
            grid_view(r.red@) == truncate_grid(
                grid_view(self.red@),
                new_size.0 as nat,
                new_size.1 as nat,
            ),
            grid_view(r.green@) == truncate_grid(
                grid_view(self.green@),
                new_size.0 as nat,
                new_size.1 as nat,
            ),
            grid_view(r.blue@) == truncate_grid(
                grid_view(self.blue@),
                new_size.0 as nat,
                new_size.1 as nat,
            ),
    {
        let red = truncate_channel(&self.red, new_size.0, new_size.1);
        let green = truncate_channel(&self.green, new_size.0, new_size.1);
        let blue = truncate_channel(&self.blue, new_size.0, new_size.1);
        ComplexImage { red, green, blue }
    }

    /// One channel reduced to its four corners: `corner_height` rows from
    /// the top and bottom, each keeping `corner_width` columns from the left
    /// and right.
    pub fn channel_corners(
        &self,
        channel: &Vec<Vec<Complex32>>,
        corner_width: usize,
        corner_height: usize,
    ) -> (r: Vec<Vec<Complex32>>)
        requires
            self.well_formed(),
            channel@.len() == self.spec_height(),
            forall|y: int|
                0 <= y < channel@.len() ==> (#[trigger] channel@[y])@.len() == self.spec_width(),
            2 * corner_width <= self.spec_width(),
            2 * corner_height <= self.spec_height(),
        ensures
            grid_view(r@) == corners_grid(
                grid_view(channel@),
                corner_width as nat,
                corner_height as nat,
            ),
    {
        corners_channel(channel, corner_width, corner_height)
    }

    /// The image reduced to its four corners: kept rows and columns are
    /// split evenly between the two ends of each axis, by integer halving of
    /// the target size, so an odd target drops its extra row or column.
    /// A target at or above the current size on either axis is refused.
    pub fn corners(&self, new_width: usize, new_height: usize) -> (r: Result<ComplexImage, ()>)
        requires
            self.well_formed(),
        ensures
            r is Err <==> (new_width >= self.spec_width() || new_height >= self.spec_height()),
            r matches Ok(img) ==> {
                &&& grid_view(img.red@) == corners_grid(
                    grid_view(self.red@),
                    (new_width / 2) as nat,
                    (new_height / 2) as nat,
                )
                &&& grid_view(img.green@) == corners_grid(
                    grid_view(self.green@),
                    (new_width / 2) as nat,
                    (new_height / 2) as nat,
                )
                &&& grid_view(img.blue@) == corners_grid(
                    grid_view(self.blue@),
                    (new_width / 2) as nat,
                    (new_height / 2) as nat,
                )
            },
    {
        if new_width >= self.width() || new_height >= self.height() {
            return Err(());
        }
        let corner_width = new_width / 2;
        let corner_height = new_height / 2;
        let red = self.channel_corners(&self.red, corner_width, corner_height);
        let green = self.channel_corners(&self.green, corner_width, corner_height);
        let blue = self.channel_corners(&self.blue, corner_width, corner_height);
        Ok(ComplexImage { red, green, blue })
    }

    /// One stored corner channel widened back to `original_size`
    /// (`(width, height)`): zero bands are spliced into the middle of each
    /// axis, between the corner halves.
    pub fn fill_from_channel_corners(
        &self,
        channel: &Vec<Vec<Complex32>>,
        original_size: (usize, usize),
    ) -> (r: Vec<Vec<Complex32>>)
        requires
            self.well_formed(),
            channel@.len() == self.spec_height(),
            forall|y: int|
                0 <= y < channel@.len() ==> (#[trigger] channel@[y])@.len() == self.spec_width(),
            self.spec_width() <= original_size.0,
            self.spec_height() <= original_size.1,
        ensures
            grid_view(r@) == fill_grid(
                grid_view(channel@),
                original_size.0 as nat,
                original_size.1 as nat,
            ),
    {
        let zero = c_from_usize(0);
        fill_channel(channel, original_size.0, original_size.1, zero)
    }

    /// The image widened back to `original_size`, channel by channel.
    pub fn fill_from_corners(&self, original_size: (usize, usize)) -> (r: ComplexImage)
        requires
            self.well_formed(),
            self.spec_width() <= original_size.0,
            self.spec_height() <= original_size.1,
        ensures
            grid_view(r.red@) == fill_grid(
                grid_view(self.red@),
                original_size.0 as nat,
                original_size.1 as nat,
            ),
            grid_view(r.green@) == fill_grid(
                grid_view(self.green@),
                original_size.0 as nat,
                original_size.1 as nat,
            ),
            grid_view(r.blue@) == fill_grid(
                grid_view(self.blue@),
                original_size.0 as nat,
                original_size.1 as nat,
            ),
    {
        let red = self.fill_from_channel_corners(&self.red, original_size);
        let green = self.fill_from_channel_corners(&self.green, original_size);
        let blue = self.fill_from_channel_corners(&self.blue, original_size);
        ComplexImage { red, green, blue }
    }
}


/// The IEEE-754 bit patterns of every entry of a channel.
pub open spec fn bits_grid(g: Seq<Seq<Complex32>>) -> Seq<Seq<(u32, u32)>> {
    Seq::new(g.len(), |y: int| Seq::new(g[y].len(), |x: int| c_bits_of(g[y][x])))
}

/// The complex samples whose parts have the given bit patterns.
pub open spec fn complex_grid(g: Seq<Seq<(u32, u32)>>) -> Seq<Seq<Complex32>> {
    Seq::new(g.len(), |y: int| Seq::new(g[y].len(), |x: int| c_of_bits(g[y][x].0, g[y][x].1)))
}

/// A transformed channel reduced to its bit patterns, entry by entry.
pub fn convert_complex_to_raw(channel: &Vec<Vec<Complex32>>) -> (r: Vec<Vec<(u32, u32)>>)
    ensures
        grid_view(r@) == bits_grid(grid_view(channel@)),
        complex_grid(grid_view(r@)) == grid_view(channel@),
{
    let ghost g = grid_view(channel@);
    let mut out: Vec<Vec<(u32, u32)>> = Vec::new();
    let mut y: usize = 0;
    while y < channel.len()
        invariant
            y <= g.len(),
            g == grid_view(channel@),
            out@.len() == y,
            forall|yy: int|
                0 <= yy < y ==> (#[trigger] out@[yy])@ == bits_grid(g)[yy],
            forall|yy: int|
                0 <= yy < y ==> complex_grid(grid_view(out@))[yy] == g[yy],
        decreases channel@.len() - y,
    {
        let row = &channel[y];
        assert(row@ == g[y as int]);
        let mut raw_row: Vec<(u32, u32)> = Vec::new();
        let mut x: usize = 0;
        while x < row.len()
            invariant
                x <= row@.len(),
                raw_row@.len() == x,
                forall|xx: int|
                    0 <= xx < x ==> (#[trigger] raw_row@[xx]) == c_bits_of(row@[xx])
                        && c_of_bits(raw_row@[xx].0, raw_row@[xx].1) == row@[xx],
            decreases row@.len() - x,
        {
            let bits = c_to_bits(row[x]);
            raw_row.push(bits);
            x = x + 1;
        }
        out.push(raw_row);
        proof {
            assert(grid_view(out@)[y as int] =~= bits_grid(g)[y as int]);
            assert forall|yy: int| 0 <= yy < y + 1 implies complex_grid(grid_view(out@))[yy]
                == g[yy] by {
                assert(complex_grid(grid_view(out@))[yy] =~= g[yy]);
            }
        }
        y = y + 1;
    }
    proof {
        assert(grid_view(out@) =~~= bits_grid(g));
        assert(complex_grid(grid_view(out@)) =~~= g);
    }
    out
}

/// A stored channel rebuilt from its bit patterns, entry by entry.
pub fn convert_raw_to_complex(channel: &Vec<Vec<(u32, u32)>>) -> (r: Vec<Vec<Complex32>>)
    ensures
        grid_view(r@) == complex_grid(grid_view(channel@)),
        bits_grid(grid_view(r@)) == grid_view(channel@),
{
    let ghost g = grid_view(channel@);
    let mut out: Vec<Vec<Complex32>> = Vec::new();
    let mut y: usize = 0;
    while y < channel.len()
        invariant
            y <= g.len(),
            g == grid_view(channel@),
            out@.len() == y,
            forall|yy: int|
                0 <= yy < y ==> (#[trigger] out@[yy])@ == complex_grid(g)[yy],
            forall|yy: int|
                0 <= yy < y ==> bits_grid(grid_view(out@))[yy] == g[yy],
        decreases channel@.len() - y,
    {
        let row = &channel[y];
        assert(row@ == g[y as int]);
        let mut crow: Vec<Complex32> = Vec::new();
        let mut x: usize = 0;
        while x < row.len()
            invariant
                x <= row@.len(),
                crow@.len() == x,
                forall|xx: int|
                    0 <= xx < x ==> (#[trigger] crow@[xx]) == c_of_bits(row@[xx].0, row@[xx].1)
                        && c_bits_of(crow@[xx]) == row@[xx],
            decreases row@.len() - x,
        {
            let (re_bits, im_bits) = row[x];
            let sample = c_from_bits(re_bits, im_bits);
            crow.push(sample);
            x = x + 1;
        }
        out.push(crow);
        proof {
            assert(grid_view(out@)[y as int] =~= complex_grid(g)[y as int]);
            assert forall|yy: int| 0 <= yy < y + 1 implies bits_grid(grid_view(out@))[yy]
                == g[yy] by {
                assert(bits_grid(grid_view(out@))[yy] =~= g[yy]);
            }
        }
        y = y + 1;
    }
    proof {
        assert(grid_view(out@) =~~= complex_grid(g));
        assert(bits_grid(grid_view(out@)) =~~= g);
    }
    out
}


/// Returned when a compressed image record declares inconsistent contents.
#[derive(Debug, Clone, Copy, PartialEq, Eq, Structural)]
pub enum CorruptionError {
    /// The three stored channels do not share one rectangular shape.
    InvalidChannels,
    /// The declared sizes do not fit together: the stored corners must fit
    /// in the power-of-two transformed size, and the original size must fit
    /// in the transformed size.
    InvalidDimensions,
}

/// A compressed image: the corner coefficients of each transformed channel
/// as IEEE-754 bit patterns, the transformed (padded, power-of-two) size the
/// corners were cut from, and the original size to restore.
pub struct CompressedData {
    pub red: Vec<Vec<(u32, u32)>>,
    pub green: Vec<Vec<(u32, u32)>>,
    pub blue: Vec<Vec<(u32, u32)>>,
    pub transformed_size: (usize, usize),
    pub original_size: (usize, usize),
}

impl CompressedData {
    /// The stored corner row count of each channel.
    pub open spec fn stored_height(&self) -> nat {
        self.red@.len()
    }

    /// The stored corner column count of each channel.
    pub open spec fn stored_width(&self) -> nat {
        if self.red@.len() == 0 {
            0nat
        } else {
            self.red@[0]@.len()
        }
    }

    /// Every stored channel is rectangular and all three share one size.
    pub open spec fn channels_consistent(&self) -> bool {
        &&& self.green@.len() == self.stored_height()
        &&& self.blue@.len() == self.stored_height()
        &&& forall|y: int|
            0 <= y < self.stored_height() ==> (#[trigger] self.red@[y])@.len()
                == self.stored_width()
        &&& forall|y: int|
            0 <= y < self.stored_height() ==> (#[trigger] self.green@[y])@.len()
                == self.stored_width()
        &&& forall|y: int|
            0 <= y < self.stored_height() ==> (#[trigger] self.blue@[y])@.len()
                == self.stored_width()
    }

    /// Whether the record is internally consistent: consistent channels that
    /// fit in the power-of-two transformed size, and an original size the
    /// transformed grid can cover.
    pub open spec fn valid(&self) -> bool {
        &&& self.channels_consistent()
        &&& self.stored_width() <= self.transformed_size.0
        &&& self.stored_height() <= self.transformed_size.1
        &&& crate::fft::is_pow2(self.transformed_size.0 as nat)
        &&& crate::fft::is_pow2(self.transformed_size.1 as nat)
        &&& self.original_size.0 <= self.transformed_size.0
        &&& self.original_size.1 <= self.transformed_size.1
    }

    pub fn new(
        red: Vec<Vec<(u32, u32)>>,
        green: Vec<Vec<(u32, u32)>>,
        blue: Vec<Vec<(u32, u32)>>,
        transformed_size: (usize, usize),
        original_size: (usize, usize),
    ) -> (r: CompressedData)
        ensures
            r.red == red,
            r.green == green,
            r.blue == blue,
            r.transformed_size == transformed_size,
            r.original_size == original_size,
    {
        CompressedData { red, green, blue, transformed_size, original_size }
    }

    /// The stored corner column count; zero for an empty record.
    pub fn width(&self) -> (r: usize)
        requires
            self.channels_consistent(),
        ensures
            r == self.stored_width(),
    {
        if self.red.len() == 0 {
            return 0;
        }
        let row0 = &self.red[0];
        row0.len()
    }

    /// The stored corner row count.
    pub fn height(&self) -> (r: usize)
        requires
            self.channels_consistent(),
        ensures
            r == self.stored_height(),
    {
        self.red.len()
    }
}

/// What it is to be one stored channel of a compressed image: the grid is
/// padded to power-of-two dimensions, some two-dimensional transform of the
/// padded grid is reduced to the corners that keep `cw` columns at each side
/// and `ch` rows at each end, and the bit patterns of those corners are the
/// stored channel. The transform is related, not a function of the input,
/// because its twiddle factors come from the complex exponential, whose
/// precision is unspecified.
pub open spec fn compressed_channel_rel(
    g: Seq<Seq<Complex32>>,
    w: nat,
    h: nat,
    cw: nat,
    ch: nat,
    raw: Seq<Seq<(u32, u32)>>,
) -> bool {
    exists|t: Seq<Seq<Complex32>>|
        #![trigger crate::fft::fft_2d_rel(pad_grid(g, padded_len(w), padded_len(h)), t)]
        {
            &&& crate::fft::fft_2d_rel(pad_grid(g, padded_len(w), padded_len(h)), t)
            &&& t.len() == padded_len(h)
            &&& crate::fft::is_rect(t, padded_len(w))
            &&& raw == bits_grid(corners_grid(t, cw, ch))
            &&& complex_grid(raw) == corners_grid(t, cw, ch)
        }
}

/// What it is to be one channel of a decompressed image: the stored corners
/// are rebuilt from their bit patterns, widened with a zero middle band back
/// to the transformed size, some inverse two-dimensional transform of that
/// grid is taken, and the result is cut back to the original size.
pub open spec fn decompressed_channel_rel(
    raw: Seq<Seq<(u32, u32)>>,
    transformed: (usize, usize),
    original: (usize, usize),
    out: Seq<Seq<Complex32>>,
) -> bool {
    exists|inv: Seq<Seq<Complex32>>|
        #![trigger crate::fft::fft_2d_inverse_rel(
            fill_grid(complex_grid(raw), transformed.0 as nat, transformed.1 as nat),
            inv,
        )]
        {
            &&& crate::fft::fft_2d_inverse_rel(
                fill_grid(complex_grid(raw), transformed.0 as nat, transformed.1 as nat),
                inv,
            )
            &&& inv.len() == transformed.1
            &&& crate::fft::is_rect(inv, transformed.0 as nat)
            &&& out == truncate_grid(inv, original.0 as nat, original.1 as nat)
        }
}

/// Compresses an image to a target size per axis: each channel is padded to
/// a power-of-two size, transformed, and reduced to the corners the target
/// keeps - `new_width / 2` columns at the left and right edges and
/// `new_height / 2` rows at the top and bottom, by integer halving, so an
/// odd target drops its extra line. A target at or above the padded size on
/// either axis is refused. Content outside the corners is irrecoverable.
pub fn compress_image(image: &ComplexImage, new_width: usize, new_height: usize) -> (r: Result<
    CompressedData,
    (),
>)
    requires
        image.well_formed(),
        1 <= image.spec_width() <= usize::MAX / 2 + 1,
        1 <= image.spec_height() <= usize::MAX / 2 + 1,
    ensures
        r is Err <==> (new_width >= padded_len(image.spec_width()) || new_height >= padded_len(
            image.spec_height(),
        )),
        r matches Ok(rec) ==> {
            &&& rec.valid()
            &&& rec.transformed_size.0 == padded_len(image.spec_width())
            &&& rec.transformed_size.1 == padded_len(image.spec_height())
            &&& rec.original_size.0 == image.spec_width()
            &&& rec.original_size.1 == image.spec_height()
            &&& compressed_channel_rel(
                grid_view(image.red@),
                image.spec_width(),
                image.spec_height(),
                (new_width / 2) as nat,
                (new_height / 2) as nat,
                grid_view(rec.red@),
            )
            &&& compressed_channel_rel(
                grid_view(image.green@),
                image.spec_width(),
                image.spec_height(),
                (new_width / 2) as nat,
                (new_height / 2) as nat,
                grid_view(rec.green@),
            )
            &&& compressed_channel_rel(
                grid_view(image.blue@),
                image.spec_width(),
                image.spec_height(),
                (new_width / 2) as nat,
                (new_height / 2) as nat,
                grid_view(rec.blue@),
            )
        },
{
    let ghost w = image.spec_width();
    let ghost h = image.spec_height();
    proof {
        crate::fft::lemma_next_pow2(w);
        crate::fft::lemma_next_pow2(h);
    }
    let rounded = image.round_up();
    proof {
        lemma_pad_grid_shape(grid_view(image.red@), padded_len(w), padded_len(h));
        lemma_pad_grid_shape(grid_view(image.green@), padded_len(w), padded_len(h));
        lemma_pad_grid_shape(grid_view(image.blue@), padded_len(w), padded_len(h));
        assert forall|y: int| 0 <= y < rounded.red@.len() implies (
        #[trigger] rounded.red@[y])@.len() == padded_len(w) by {
            assert(rounded.red@[y]@ == grid_view(rounded.red@)[y]);
        }
        assert forall|y: int| 0 <= y < rounded.green@.len() implies (
        #[trigger] rounded.green@[y])@.len() == padded_len(w) by {
            assert(rounded.green@[y]@ == grid_view(rounded.green@)[y]);
        }
        assert forall|y: int| 0 <= y < rounded.blue@.len() implies (
        #[trigger] rounded.blue@[y])@.len() == padded_len(w) by {
            assert(rounded.blue@[y]@ == grid_view(rounded.blue@)[y]);
        }
        assert(rounded.well_formed());
        assert(grid_view(rounded.red@)[0] == rounded.red@[0]@);
        assert(grid_view(rounded.green@)[0] == rounded.green@[0]@);
        assert(grid_view(rounded.blue@)[0] == rounded.blue@[0]@);
        assert(crate::fft::pow2_grid(grid_view(rounded.red@)));
        assert(crate::fft::pow2_grid(grid_view(rounded.green@)));
        assert(crate::fft::pow2_grid(grid_view(rounded.blue@)));
    }
    let transformed = ComplexImage::new(
        crate::fft::fft_2d(&rounded.red),
        crate::fft::fft_2d(&rounded.green),
        crate::fft::fft_2d(&rounded.blue),
    );
    proof {
        assert forall|y: int| 0 <= y < transformed.red@.len() implies (
        #[trigger] transformed.red@[y])@.len() == padded_len(w) by {
            assert(transformed.red@[y]@ == grid_view(transformed.red@)[y]);
            assert(grid_view(transformed.red@)[y].len() == grid_view(rounded.red@)[0].len());
        }
        assert forall|y: int| 0 <= y < transformed.green@.len() implies (
        #[trigger] transformed.green@[y])@.len() == padded_len(w) by {
            assert(transformed.green@[y]@ == grid_view(transformed.green@)[y]);
            assert(grid_view(transformed.green@)[y].len() == grid_view(rounded.green@)[0].len());
        }
        assert forall|y: int| 0 <= y < transformed.blue@.len() implies (
        #[trigger] transformed.blue@[y])@.len() == padded_len(w) by {
            assert(transformed.blue@[y]@ == grid_view(transformed.blue@)[y]);
            assert(grid_view(transformed.blue@)[y].len() == grid_view(rounded.blue@)[0].len());
        }
        assert(transformed.spec_width() == padded_len(w));
        assert(transformed.well_formed());
    }
    let compressed = match transformed.corners(new_width, new_height) {
        Ok(img) => img,
        Err(_) => {
            return Err(());
        },
    };
    let transformed_size = transformed.size();
    let original_size = image.size();
    let record = CompressedData::new(
        convert_complex_to_raw(&compressed.red),
        convert_complex_to_raw(&compressed.green),
        convert_complex_to_raw(&compressed.blue),
        transformed_size,
        original_size,
    );
    proof {
        let cw = (new_width / 2) as nat;
        let chh = (new_height / 2) as nat;
        assert(record.stored_height() == 2 * chh);
        assert forall|y: int| 0 <= y < record.stored_height() implies (
        #[trigger] record.red@[y])@.len() == 2 * cw by {
            assert(record.red@[y]@ == grid_view(record.red@)[y]);
            assert(grid_view(record.red@)[y].len() == corners_grid(
                grid_view(transformed.red@),
                cw,
                chh,
            )[y].len());
        }
        assert forall|y: int| 0 <= y < record.stored_height() implies (
        #[trigger] record.green@[y])@.len() == 2 * cw by {
            assert(record.green@[y]@ == grid_view(record.green@)[y]);
            assert(grid_view(record.green@)[y].len() == corners_grid(
                grid_view(transformed.green@),
                cw,
                chh,
            )[y].len());
        }
        assert forall|y: int| 0 <= y < record.stored_height() implies (
        #[trigger] record.blue@[y])@.len() == 2 * cw by {
            assert(record.blue@[y]@ == grid_view(record.blue@)[y]);
            assert(grid_view(record.blue@)[y].len() == corners_grid(
                grid_view(transformed.blue@),
                cw,
                chh,
            )[y].len());
        }
        if record.stored_height() > 0 {
            assert(record.stored_width() == 2 * cw);
        }
        assert(record.channels_consistent());
        assert(record.valid());
        assert(grid_view(rounded.red@) == pad_grid(
            grid_view(image.red@),
            padded_len(w),
            padded_len(h),
        ));
        assert(compressed_channel_rel(
            grid_view(image.red@),
            w,
            h,
            cw,
            chh,
            grid_view(record.red@),
        ));
        assert(compressed_channel_rel(
            grid_view(image.green@),
            w,
            h,
            cw,
            chh,
            grid_view(record.green@),
        ));
        assert(compressed_channel_rel(
            grid_view(image.blue@),
            w,
            h,
            cw,
            chh,
            grid_view(record.blue@),
        ));
    }
    Ok(record)
}

/// Padding a channel gives a rectangular grid of the padded size.
pub proof fn lemma_pad_grid_shape(g: Seq<Seq<Complex32>>, w: nat, h: nat)
    requires
        g.len() <= h,
        forall|y: int| 0 <= y < g.len() ==> (#[trigger] g[y]).len() <= w,
    ensures
        pad_grid(g, w, h).len() == h,
        forall|y: int| 0 <= y < h ==> (#[trigger] pad_grid(g, w, h)[y]).len() == w,
{
}

fn check_channel_rect(channel: &Vec<Vec<(u32, u32)>>, w: usize) -> (r: bool)
    ensures
        r == forall|y: int| 0 <= y < channel@.len() ==> (#[trigger] channel@[y])@.len() == w,
{
    let mut y: usize = 0;
    while y < channel.len()
        invariant
            y <= channel@.len(),
            forall|yy: int| 0 <= yy < y ==> (#[trigger] channel@[yy])@.len() == w,
        decreases channel@.len() - y,
    {
        let row = &channel[y];
        if row.len() != w {
            assert(channel@[y as int]@.len() != w);
            return false;
        }
        y = y + 1;
    }
    true
}

/// Decompresses a record: the stored corners are rebuilt from their bit
/// patterns, widened with zero bands back to the transformed size,
/// inverse-transformed per channel, and cut back to the original size. A
/// record whose declared sizes or channel shapes are inconsistent is
/// rejected before any reconstruction.
pub fn decompress_image(record: &CompressedData) -> (r: Result<ComplexImage, CorruptionError>)
    ensures
        r is Ok <==> record.valid(),
        r == Err::<ComplexImage, CorruptionError>(CorruptionError::InvalidChannels) <==> !record.channels_consistent(),
        r == Err::<ComplexImage, CorruptionError>(CorruptionError::InvalidDimensions) <==> (
        record.channels_consistent() && !record.valid()),
        r matches Ok(img) ==> {
            &&& decompressed_channel_rel(
                grid_view(record.red@),
                record.transformed_size,
                record.original_size,
                grid_view(img.red@),
            )
            &&& decompressed_channel_rel(
                grid_view(record.green@),
                record.transformed_size,
                record.original_size,
                grid_view(img.green@),
            )
            &&& decompressed_channel_rel(
                grid_view(record.blue@),
                record.transformed_size,
                record.original_size,
                grid_view(img.blue@),
            )
            &&& record.original_size.1 > 0 ==> img.spec_width() == record.original_size.0
            &&& img.spec_height() == record.original_size.1
            &&& img.well_formed()
        },
{
    let stored_h = record.red.len();
    let stored_w = if stored_h == 0 {
        0
    } else {
        let row0 = &record.red[0];
        row0.len()
    };
    if record.green.len() != stored_h || record.blue.len() != stored_h {
        return Err(CorruptionError::InvalidChannels);
    }
    if !check_channel_rect(&record.red, stored_w) || !check_channel_rect(&record.green, stored_w)
        || !check_channel_rect(&record.blue, stored_w) {
        return Err(CorruptionError::InvalidChannels);
    }
    assert(record.channels_consistent());
    let (tw, th) = record.transformed_size;
    let (ow, oh) = record.original_size;
    if stored_w > tw || stored_h > th || !crate::fft::is_pow2_exec(tw) || !crate::fft::is_pow2_exec(
        th,
    ) || ow > tw || oh > th {
        return Err(CorruptionError::InvalidDimensions);
    }
    assert(record.valid());
    let red_corners = convert_raw_to_complex(&record.red);
    let green_corners = convert_raw_to_complex(&record.green);
    let blue_corners = convert_raw_to_complex(&record.blue);
    let compressed_image = ComplexImage::new(red_corners, green_corners, blue_corners);
    proof {
        lemma_complex_grid_shape(grid_view(record.red@));
        lemma_complex_grid_shape(grid_view(record.green@));
        lemma_complex_grid_shape(grid_view(record.blue@));
        assert forall|y: int| 0 <= y < compressed_image.red@.len() implies (
        #[trigger] compressed_image.red@[y])@.len() == stored_w by {
            assert(compressed_image.red@[y]@ == grid_view(compressed_image.red@)[y]);
            assert(record.red@[y]@ == grid_view(record.red@)[y]);
        }
        assert forall|y: int| 0 <= y < compressed_image.green@.len() implies (
        #[trigger] compressed_image.green@[y])@.len() == stored_w by {
            assert(compressed_image.green@[y]@ == grid_view(compressed_image.green@)[y]);
            assert(record.green@[y]@ == grid_view(record.green@)[y]);
        }
        assert forall|y: int| 0 <= y < compressed_image.blue@.len() implies (
        #[trigger] compressed_image.blue@[y])@.len() == stored_w by {
            assert(compressed_image.blue@[y]@ == grid_view(compressed_image.blue@)[y]);
            assert(record.blue@[y]@ == grid_view(record.blue@)[y]);
        }
        if stored_h > 0 {
            assert(compressed_image.red@[0]@ == grid_view(compressed_image.red@)[0]);
        }
        assert(compressed_image.well_formed());
    }
    let filled = compressed_image.fill_from_corners(record.transformed_size);
    proof {
        lemma_fill_grid_shape(grid_view(compressed_image.red@), tw as nat, th as nat);
        lemma_fill_grid_shape(grid_view(compressed_image.green@), tw as nat, th as nat);
        lemma_fill_grid_shape(grid_view(compressed_image.blue@), tw as nat, th as nat);
        assert forall|y: int| 0 <= y < filled.red@.len() implies (#[trigger] filled.red@[y])@.len()
            == tw by {
            assert(filled.red@[y]@ == grid_view(filled.red@)[y]);
        }
        assert forall|y: int| 0 <= y < filled.green@.len() implies (
        #[trigger] filled.green@[y])@.len() == tw by {
            assert(filled.green@[y]@ == grid_view(filled.green@)[y]);
        }
        assert forall|y: int| 0 <= y < filled.blue@.len() implies (
        #[trigger] filled.blue@[y])@.len() == tw by {
            assert(filled.blue@[y]@ == grid_view(filled.blue@)[y]);
        }
        assert(grid_view(filled.red@)[0] == filled.red@[0]@);
        assert(grid_view(filled.green@)[0] == filled.green@[0]@);
        assert(grid_view(filled.blue@)[0] == filled.blue@[0]@);
        assert(crate::fft::pow2_grid(grid_view(filled.red@)));
        assert(crate::fft::pow2_grid(grid_view(filled.green@)));
        assert(crate::fft::pow2_grid(grid_view(filled.blue@)));
    }
    let restored = ComplexImage::new(
        crate::fft::fft_2d_inverse(&filled.red),
        crate::fft::fft_2d_inverse(&filled.green),
        crate::fft::fft_2d_inverse(&filled.blue),
    );
    proof {
        assert(grid_view(filled.red@)[0] == filled.red@[0]@);
        assert(grid_view(filled.green@)[0] == filled.green@[0]@);
        assert(grid_view(filled.blue@)[0] == filled.blue@[0]@);
        assert forall|y: int| 0 <= y < restored.red@.len() implies (
        #[trigger] restored.red@[y])@.len() == tw by {
            assert(restored.red@[y]@ == grid_view(restored.red@)[y]);
            assert(grid_view(restored.red@)[y].len() == grid_view(filled.red@)[0].len());
        }
        assert forall|y: int| 0 <= y < restored.green@.len() implies (
        #[trigger] restored.green@[y])@.len() == tw by {
            assert(restored.green@[y]@ == grid_view(restored.green@)[y]);
            assert(grid_view(restored.green@)[y].len() == grid_view(filled.green@)[0].len());
        }
        assert forall|y: int| 0 <= y < restored.blue@.len() implies (
        #[trigger] restored.blue@[y])@.len() == tw by {
            assert(restored.blue@[y]@ == grid_view(restored.blue@)[y]);
            assert(grid_view(restored.blue@)[y].len() == grid_view(filled.blue@)[0].len());
        }
        assert(restored.spec_height() == th);
        assert(restored.spec_width() == tw || restored.spec_height() == 0);
        assert(restored.well_formed());
    }
    let out = restored.truncate(record.original_size);
    proof {
        assert(out.red@.len() == grid_view(out.red@).len());
        assert(out.green@.len() == grid_view(out.green@).len());
        assert(out.blue@.len() == grid_view(out.blue@).len());
        assert(out.red@.len() == oh);
        assert(out.green@.len() == oh);
        assert(out.blue@.len() == oh);
        assert forall|y: int| 0 <= y < out.red@.len() implies (#[trigger] out.red@[y])@.len()
            == ow by {
            assert(out.red@[y]@ == grid_view(out.red@)[y]);
            assert(restored.red@[y]@ == grid_view(restored.red@)[y]);
            assert(grid_view(out.red@)[y] == grid_view(restored.red@)[y].subrange(0, ow as int));
        }
        assert forall|y: int| 0 <= y < out.green@.len() implies (#[trigger] out.green@[y])@.len()
            == ow by {
            assert(out.green@[y]@ == grid_view(out.green@)[y]);
            assert(restored.green@[y]@ == grid_view(restored.green@)[y]);
            assert(grid_view(out.green@)[y] == grid_view(restored.green@)[y].subrange(
                0,
                ow as int,
            ));
        }
        assert forall|y: int| 0 <= y < out.blue@.len() implies (#[trigger] out.blue@[y])@.len()
            == ow by {
            assert(out.blue@[y]@ == grid_view(out.blue@)[y]);
            assert(restored.blue@[y]@ == grid_view(restored.blue@)[y]);
            assert(grid_view(out.blue@)[y] == grid_view(restored.blue@)[y].subrange(0, ow as int));
        }
        if oh > 0 {
            assert(out.red@[0]@ == grid_view(out.red@)[0]);
        }
        assert(out.well_formed());
        assert(grid_view(filled.red@) == fill_grid(
            complex_grid(grid_view(record.red@)),
            tw as nat,
            th as nat,
        ));
        assert(grid_view(filled.green@) == fill_grid(
            complex_grid(grid_view(record.green@)),
            tw as nat,
            th as nat,
        ));
        assert(grid_view(filled.blue@) == fill_grid(
            complex_grid(grid_view(record.blue@)),
            tw as nat,
            th as nat,
        ));
        assert(crate::fft::is_rect(grid_view(restored.red@), tw as nat)) by {
            assert forall|y: int| 0 <= y < grid_view(restored.red@).len() implies (
            #[trigger] grid_view(restored.red@)[y]).len() == tw by {
                assert(grid_view(restored.red@)[y] == restored.red@[y]@);
            }
        }
        assert(crate::fft::is_rect(grid_view(restored.green@), tw as nat)) by {
            assert forall|y: int| 0 <= y < grid_view(restored.green@).len() implies (
            #[trigger] grid_view(restored.green@)[y]).len() == tw by {
                assert(grid_view(restored.green@)[y] == restored.green@[y]@);
            }
        }
        assert(crate::fft::is_rect(grid_view(restored.blue@), tw as nat)) by {
            assert forall|y: int| 0 <= y < grid_view(restored.blue@).len() implies (
            #[trigger] grid_view(restored.blue@)[y]).len() == tw by {
                assert(grid_view(restored.blue@)[y] == restored.blue@[y]@);
            }
        }
        assert(decompressed_channel_rel(
            grid_view(record.red@),
            record.transformed_size,
            record.original_size,
            grid_view(out.red@),
        ));
        assert(decompressed_channel_rel(
            grid_view(record.green@),
            record.transformed_size,
            record.original_size,
            grid_view(out.green@),
        ));
        assert(decompressed_channel_rel(
            grid_view(record.blue@),
            record.transformed_size,
            record.original_size,
            grid_view(out.blue@),
        ));
    }
    Ok(out)
}

/// Rebuilding a channel from bit patterns keeps its shape.
pub proof fn lemma_complex_grid_shape(g: Seq<Seq<(u32, u32)>>)
    ensures
        complex_grid(g).len() == g.len(),
        forall|y: int| 0 <= y < g.len() ==> (#[trigger] complex_grid(g)[y]).len() == g[y].len(),
{
}

/// Widening a channel back to `w` columns and `h` rows gives a rectangular
/// grid of that size.
pub proof fn lemma_fill_grid_shape(g: Seq<Seq<Complex32>>, w: nat, h: nat)
    requires
        g.len() <= h,
        forall|y: int| 0 <= y < g.len() ==> (#[trigger] g[y]).len() <= w,
    ensures
        fill_grid(g, w, h).len() == h,
        forall|y: int| 0 <= y < h ==> (#[trigger] fill_grid(g, w, h)[y]).len() == w,
{
    assert forall|y: int| 0 <= y < h implies (#[trigger] fill_grid(g, w, h)[y]).len() == w by {
        let mid = g.len() / 2;
        let missing = h - g.len();
        if y < mid {
            assert(fill_grid(g, w, h)[y] == fill_row(g[y], w));
        } else if y < mid + missing {
        } else {
            assert(fill_grid(g, w, h)[y] == fill_row(g[y - missing], w));
        }
    }
}


/// The serialized bytes of an image record, in the documented layout.
pub open spec fn image_record_bytes(d: CompressedData) -> Seq<u8> {
    spec_u64_to_le_bytes(d.transformed_size.0 as u64) + spec_u64_to_le_bytes(
        d.transformed_size.1 as u64,
    ) + spec_u64_to_le_bytes(d.original_size.0 as u64) + spec_u64_to_le_bytes(
        d.original_size.1 as u64,
    ) + spec_u64_to_le_bytes(d.stored_height() as u64) + spec_u64_to_le_bytes(
        d.stored_width() as u64,
    ) + rows_bytes(grid_view(d.red@)) + rows_bytes(grid_view(d.green@)) + rows_bytes(
        grid_view(d.blue@),
    )
}

/// Serializes an image record into the documented byte layout.
pub fn encode_image_record(record: &CompressedData) -> (r: Vec<u8>)
    requires
        record.channels_consistent(),
    ensures
        r@ == image_record_bytes(*record),
{
    let mut out = u64_to_le_bytes(record.transformed_size.0 as u64);
    let mut field = u64_to_le_bytes(record.transformed_size.1 as u64);
    out.append(&mut field);
    let mut field = u64_to_le_bytes(record.original_size.0 as u64);
    out.append(&mut field);
    let mut field = u64_to_le_bytes(record.original_size.1 as u64);
    out.append(&mut field);
    let mut field = u64_to_le_bytes(record.height() as u64);
    out.append(&mut field);
    let mut field = u64_to_le_bytes(record.width() as u64);
    out.append(&mut field);
    let mut channel = rows_to_bytes(&record.red);
    out.append(&mut channel);
    let mut channel = rows_to_bytes(&record.green);
    out.append(&mut channel);
    let mut channel = rows_to_bytes(&record.blue);
    out.append(&mut channel);
    assert(out@ =~= image_record_bytes(*record));
    out
}

/// Whether a byte string is a well-formed image record: six `u64` header
/// fields that fit the platform's sizes, and exactly three channels of the
/// declared corner size.
pub open spec fn wf_image_bytes(b: Seq<u8>) -> bool {
    &&& b.len() >= 48
    &&& spec_u64_from_le_bytes(b.subrange(0, 8)) <= usize::MAX
    &&& spec_u64_from_le_bytes(b.subrange(8, 16)) <= usize::MAX
    &&& spec_u64_from_le_bytes(b.subrange(16, 24)) <= usize::MAX
    &&& spec_u64_from_le_bytes(b.subrange(24, 32)) <= usize::MAX
    &&& spec_u64_from_le_bytes(b.subrange(32, 40)) <= usize::MAX
    &&& spec_u64_from_le_bytes(b.subrange(40, 48)) <= usize::MAX
    &&& (spec_u64_from_le_bytes(b.subrange(32, 40)) == 0 ==> spec_u64_from_le_bytes(
        b.subrange(40, 48),
    ) == 0)
    &&& b.len() == 48 + 3 * (8 * (spec_u64_from_le_bytes(b.subrange(32, 40))
        * spec_u64_from_le_bytes(b.subrange(40, 48))))
}

/// Parses an image record from the documented byte layout: exactly the
/// well-formed byte strings parse, and what parses re-serializes to the same
/// bytes.
pub fn decode_image_record(bytes: &Vec<u8>) -> (r: Option<CompressedData>)
    ensures
        r is Some <==> wf_image_bytes(bytes@),
        r matches Some(d) ==> image_record_bytes(d) == bytes@ && d.channels_consistent(),
{
    let blen = bytes.len();
    if blen < 48 {
        return None;
    }
    let tw_w = read_u64_le(bytes, 0);
    let th_w = read_u64_le(bytes, 8);
    let ow_w = read_u64_le(bytes, 16);
    let oh_w = read_u64_le(bytes, 24);
    let h_w = read_u64_le(bytes, 32);
    let w_w = read_u64_le(bytes, 40);
    proof {
        lemma_auto_spec_u64_to_from_le_bytes();
    }
    if tw_w > usize::MAX as u64 || th_w > usize::MAX as u64 || ow_w > usize::MAX as u64 || oh_w
        > usize::MAX as u64 || h_w > usize::MAX as u64 || w_w > usize::MAX as u64 {
        return None;
    }
    let h = h_w as usize;
    let w = w_w as usize;
    if h == 0 && w != 0 {
        return None;
    }
    let wh = match h.checked_mul(w) {
        Some(v) => v,
        None => {
            proof {
                assert(!wf_image_bytes(bytes@));
            }
            return None;
        },
    };
    let channel_size = match wh.checked_mul(8) {
        Some(v) => v,
        None => {
            proof {
                assert((h as int) * (w as int) * 8 >= (h as int) * (w as int))
                    by (nonlinear_arith);
                assert(!wf_image_bytes(bytes@));
            }
            return None;
        },
    };
    let payload = match channel_size.checked_mul(3) {
        Some(v) => v,
        None => {
            proof {
                assert(!wf_image_bytes(bytes@));
            }
            return None;
        },
    };
    if payload > usize::MAX - 48 {
        proof {
            assert(!wf_image_bytes(bytes@));
        }
        return None;
    }
    proof {
        assert(8 * (w as int) * (h as int) == (h as int) * (w as int) * 8) by (nonlinear_arith);
        assert(channel_size == 8 * w * h);
        assert(payload == 3 * (8 * ((h as int) * (w as int)))) by (nonlinear_arith)
            requires
                payload == ((h as int) * (w as int) * 8) * 3,
        ;
    }
    if blen != 48 + payload {
        return None;
    }
    let red = read_rows(bytes, 48, w, h);
    let green = read_rows(bytes, 48 + channel_size, w, h);
    let blue = read_rows(bytes, 48 + channel_size + channel_size, w, h);
    let d = CompressedData {
        red,
        green,
        blue,
        transformed_size: (tw_w as usize, th_w as usize),
        original_size: (ow_w as usize, oh_w as usize),
    };
    proof {
        assert(d.stored_height() == h);
        if h > 0 {
            assert(d.red@[0]@.len() == w);
        }
        assert(d.stored_width() == w || h == 0);
        if h == 0 {
            assert(d.stored_width() == 0);
        }
        assert(d.channels_consistent());
        assert forall|y: int| 0 <= y < grid_view(d.red@).len() implies (
        #[trigger] grid_view(d.red@)[y]).len() == w as nat by {
            assert(grid_view(d.red@)[y] == d.red@[y]@);
        }
        assert forall|y: int| 0 <= y < grid_view(d.green@).len() implies (
        #[trigger] grid_view(d.green@)[y]).len() == w as nat by {
            assert(grid_view(d.green@)[y] == d.green@[y]@);
        }
        assert forall|y: int| 0 <= y < grid_view(d.blue@).len() implies (
        #[trigger] grid_view(d.blue@)[y]).len() == w as nat by {
            assert(grid_view(d.blue@)[y] == d.blue@[y]@);
        }
        lemma_rows_bytes_len(grid_view(d.red@), w as nat);
        lemma_rows_bytes_len(grid_view(d.green@), w as nat);
        lemma_rows_bytes_len(grid_view(d.blue@), w as nat);
        assert(spec_u64_to_le_bytes(d.transformed_size.0 as u64) == bytes@.subrange(0, 8));
        assert(spec_u64_to_le_bytes(d.transformed_size.1 as u64) == bytes@.subrange(8, 16));
        assert(spec_u64_to_le_bytes(d.original_size.0 as u64) == bytes@.subrange(16, 24));
        assert(spec_u64_to_le_bytes(d.original_size.1 as u64) == bytes@.subrange(24, 32));
        assert(spec_u64_to_le_bytes(d.stored_height() as u64) == bytes@.subrange(32, 40));
        assert(spec_u64_to_le_bytes(d.stored_width() as u64) == bytes@.subrange(40, 48));
        assert(rows_bytes(grid_view(d.red@)) == bytes@.subrange(48, 48 + channel_size));
        assert(rows_bytes(grid_view(d.green@)) == bytes@.subrange(
            48 + channel_size,
            48 + 2 * channel_size,
        ));
        assert(rows_bytes(grid_view(d.blue@)) == bytes@.subrange(
            48 + 2 * channel_size,
            48 + 3 * channel_size,
        ));
        assert(image_record_bytes(d) =~= bytes@);
    }
    Some(d)
}


/// Padding a channel up to power-of-two dimensions and truncating back to
/// its original size returns the channel exactly: two-dimensional size
/// normalization alone never loses information.
pub proof fn lemma_round_up_truncate_exact_grid(g: Seq<Seq<Complex32>>, w: nat, h: nat)
    requires
        g.len() == h,
        forall|y: int| 0 <= y < g.len() ==> (#[trigger] g[y]).len() == w,
    ensures
        truncate_grid(pad_grid(g, padded_len(w), padded_len(h)), w, h) == g,
{
    if w >= 1 {
        crate::fft::lemma_next_pow2(w);
    }
    if h >= 1 {
        crate::fft::lemma_next_pow2(h);
    }
    assert forall|y: int| 0 <= y < h implies #[trigger] truncate_grid(
        pad_grid(g, padded_len(w), padded_len(h)),
        w,
        h,
    )[y] == g[y] by {
        assert(pad_grid(g, padded_len(w), padded_len(h))[y] == pad_row(g[y], padded_len(w)));
        assert(pad_row(g[y], padded_len(w)).subrange(0, w as int) =~= g[y]);
    }
    assert(truncate_grid(pad_grid(g, padded_len(w), padded_len(h)), w, h) =~= g);
}

/// The size bookkeeping of the image codec is exact: whatever a valid
/// record's stored corner content and whatever twiddle values its transforms
/// used, any channel decompression can return for it has exactly the
/// original dimensions, even though the pixel values are lossy.
pub proof fn lemma_compressed_image_dims(
    raw: Seq<Seq<(u32, u32)>>,
    rec: CompressedData,
    out: Seq<Seq<Complex32>>,
)
    requires
        rec.valid(),
        decompressed_channel_rel(raw, rec.transformed_size, rec.original_size, out),
    ensures
        out.len() == rec.original_size.1,
        crate::fft::is_rect(out, rec.original_size.0 as nat),
{
    let tw = rec.transformed_size.0 as nat;
    let th = rec.transformed_size.1 as nat;
    let inv = choose|inv: Seq<Seq<Complex32>>|
        #![trigger crate::fft::fft_2d_inverse_rel(
            fill_grid(complex_grid(raw), rec.transformed_size.0 as nat, rec.transformed_size.1 as nat),
            inv,
        )]
        {
            &&& crate::fft::fft_2d_inverse_rel(
                fill_grid(
                    complex_grid(raw),
                    rec.transformed_size.0 as nat,
                    rec.transformed_size.1 as nat,
                ),
                inv,
            )
            &&& inv.len() == rec.transformed_size.1
            &&& crate::fft::is_rect(inv, rec.transformed_size.0 as nat)
            &&& out == truncate_grid(
                inv,
                rec.original_size.0 as nat,
                rec.original_size.1 as nat,
            )
        };
    assert forall|y: int| 0 <= y < out.len() implies (#[trigger] out[y]).len()
        == rec.original_size.0 as nat by {
        assert(out[y] == inv[y].subrange(0, rec.original_size.0 as int));
        assert(inv[y].len() == tw);
    }
}

} // verus!
