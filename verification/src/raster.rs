//! Frame rasterizer: converts one decoded image into one text frame.
//!
//! The image is sampled on a coarse grid. Each output cell covers a
//! `step_x x step_y` block of source pixels, where the steps come from
//! ceiling division of the source dimensions by the requested character
//! grid. The average intensity of a block (its sum divided by the square
//! of the vertical step, rounded to nearest — an odd normalization kept
//! for output compatibility) selects either a blank or the fill glyph.
//! Rows are prefixed with a carriage return and terminated with a
//! cursor-down control sequence, so a frame paints from the top-left
//! without per-row repositioning.

use vstd::prelude::*;

verus! {

/// Luminance at or above this is rendered as a blank cell.
pub const BLANK_THRESHOLD: u128 = 125;

/// Default target character-grid width.
pub const DEFAULT_COLUMNS: u32 = 480;

/// Default target character-grid height.
pub const DEFAULT_ROWS: u32 = 360;

/// Carriage return, prefixed to every output row.
pub const ROW_PREFIX_BYTE: u8 = 13;

/// A decoded image reduced to its intensity channel: `pixels[y * width + x]`
/// is the intensity of the pixel at column `x`, row `y`.
pub struct ImageGray {
    pub width: u32,
    pub height: u32,
    pub pixels: Vec<u8>,
}

impl ImageGray {
    /// The pixel buffer holds exactly one byte per coordinate.
    pub open spec fn wf(&self) -> bool {
        self.pixels@.len() == self.width * self.height
    }

    /// Intensity of the pixel at `(x, y)`.
    pub open spec fn pixel(&self, x: int, y: int) -> u8 {
        self.pixels@[y * self.width + x]
    }
}

/// Ceiling division: the least `q` with `q * cells >= size` (for positive inputs).
pub open spec fn ceil_div(size: int, cells: int) -> int {
    (size + cells - 1) / cells
}

/// Sum of the intensities of `count` pixels in row `y` starting at column `x`.
pub open spec fn row_sum(img: ImageGray, x: int, y: int, count: nat) -> int
    decreases count,
{
    if count == 0 {
        0
    } else {
        row_sum(img, x, y, (count - 1) as nat) + img.pixel(x + count - 1, y)
    }
}

/// Sum of the intensities of the `step_x x step_y` block anchored at `(x, y)`.
pub open spec fn block_sum(img: ImageGray, x: int, y: int, step_x: nat, step_y: nat) -> int
    decreases step_y,
{
    if step_y == 0 {
        0
    } else {
        block_sum(img, x, y, step_x, (step_y - 1) as nat) + row_sum(img, x, y + step_y - 1, step_x)
    }
}

/// Block luminance: the block sum divided by the square of the vertical step,
/// rounded to the nearest integer (halves round up).
pub open spec fn luminance(img: ImageGray, x: int, y: int, step_x: nat, step_y: nat) -> int {
    (2 * block_sum(img, x, y, step_x, step_y) + (step_y * step_y) as int) / (2 * (step_y * step_y)
        as int)
}

/// The bytes emitted for one cell: blank when the block's luminance reaches
/// the threshold, the fill glyph otherwise.
pub open spec fn cell_bytes(
    img: ImageGray,
    x: int,
    y: int,
    step_x: nat,
    step_y: nat,
    fill: Seq<u8>,
) -> Seq<u8> {
    if luminance(img, x, y, step_x, step_y) >= BLANK_THRESHOLD {
        seq![32u8]
    } else {
        fill
    }
}

/// The cursor-down-one-line control sequence that terminates each row.
pub open spec fn row_suffix() -> Seq<u8> {
    seq![27u8, 91u8, 49u8, 66u8]
}

/// The cells of one output row, from column index `c` (anchored at `c * step_x`)
/// up to `n_cols`, concatenated left to right.
pub open spec fn frame_cells(
    img: ImageGray,
    y: int,
    step_x: nat,
    step_y: nat,
    fill: Seq<u8>,
    c: int,
    n_cols: int,
) -> Seq<u8>
    decreases n_cols - c,
{
    if c >= n_cols {
        Seq::empty()
    } else {
        cell_bytes(img, c * step_x, y, step_x, step_y, fill) + frame_cells(
            img,
            y,
            step_x,
            step_y,
            fill,
            c + 1,
            n_cols,
        )
    }
}

/// The output rows from row index `r` (anchored at `r * step_y`) up to
/// `n_rows`: each is a carriage return, the row's cells, and the cursor-down
/// sequence.
pub open spec fn frame_rows(
    img: ImageGray,
    step_x: nat,
    step_y: nat,
    fill: Seq<u8>,
    r: int,
    n_rows: int,
    n_cols: int,
) -> Seq<u8>
    decreases n_rows - r,
{
    if r >= n_rows {
        Seq::empty()
    } else {
        seq![ROW_PREFIX_BYTE] + frame_cells(img, r * step_y, step_x, step_y, fill, 0, n_cols)
            + row_suffix() + frame_rows(img, step_x, step_y, fill, r + 1, n_rows, n_cols)
    }
}

/// Horizontal block step for a requested column count.
pub open spec fn spec_step_x(img: ImageGray, columns: int) -> int {
    ceil_div(img.width as int, columns)
}

/// Vertical block step for a requested row count.
pub open spec fn spec_step_y(img: ImageGray, rows: int) -> int {
    ceil_div(img.height as int, rows)
}

/// Number of cells per output row: anchors 0, step_x, ... up to `width - step_x`.
pub open spec fn spec_n_cols(img: ImageGray, columns: int) -> int {
    (img.width - spec_step_x(img, columns)) / spec_step_x(img, columns) + 1
}

/// Number of output rows: anchors 0, step_y, ... up to `height - step_y`.
pub open spec fn spec_n_rows(img: ImageGray, rows: int) -> int {
    (img.height - spec_step_y(img, rows)) / spec_step_y(img, rows) + 1
}

/// The whole text frame for `img` at the requested grid, with the given fill
/// glyph bytes.
pub open spec fn glyph_frame(img: ImageGray, columns: int, rows: int, fill: Seq<u8>) -> Seq<u8> {
    frame_rows(
        img,
        spec_step_x(img, columns) as nat,
        spec_step_y(img, rows) as nat,
        fill,
        0,
        spec_n_rows(img, rows),
        spec_n_cols(img, columns),
    )
}

/// The block sum of a `step_x x step_y` block is at most `255 * step_x * step_y`
/// and never negative.
proof fn lemma_row_sum_bound(img: ImageGray, x: int, y: int, count: nat)
    ensures
        0 <= row_sum(img, x, y, count) <= 255 * count,
    decreases count,
{
    if count > 0 {
        lemma_row_sum_bound(img, x, y, (count - 1) as nat);
        assert(255 * (count - 1) + 255 == 255 * count) by (nonlinear_arith);
    }
}

/// See `lemma_row_sum_bound`; the same bound over the whole block.
proof fn lemma_block_sum_bound(img: ImageGray, x: int, y: int, step_x: nat, step_y: nat)
    ensures
        0 <= block_sum(img, x, y, step_x, step_y) <= 255 * step_x * step_y,
    decreases step_y,
{
    if step_y > 0 {
        lemma_block_sum_bound(img, x, y, step_x, (step_y - 1) as nat);
        lemma_row_sum_bound(img, x, y + step_y - 1, step_x);
        assert(255 * step_x * (step_y - 1) + 255 * step_x == 255 * step_x * step_y)
            by (nonlinear_arith);
    }
}

/// Average the intensity channel over the `step_x x step_y` block anchored at
/// `(x, y)`: the block sum divided by the square of the vertical step, rounded
/// to the nearest integer.
pub fn block_luminance(img: &ImageGray, x: u32, y: u32, step_x: u32, step_y: u32) -> (luma: u128)
    requires
        img.wf(),
        1 <= step_y,
        x + step_x <= img.width,
        y + step_y <= img.height,
    ensures
        luma == luminance(*img, x as int, y as int, step_x as nat, step_y as nat),
{
    let width = img.width;
    let n_pixels = img.pixels.len();
    let mut sum: u128 = 0;
    let mut j: u32 = 0;
    while j < step_y
        invariant
            img.wf(),
            1 <= step_y,
            x + step_x <= img.width,
            y + step_y <= img.height,
            width == img.width,
            n_pixels == img.pixels@.len(),
            0 <= j <= step_y,
            sum == block_sum(*img, x as int, y as int, step_x as nat, j as nat),
        decreases step_y - j,
    {
        let row = y + j;
        let mut i: u32 = 0;
        let mut racc: u128 = 0;
        while i < step_x
            invariant
                img.wf(),
                x + step_x <= img.width,
                y + step_y <= img.height,
                row == y + j,
                j < step_y,
                width == img.width,
                n_pixels == img.pixels@.len(),
                0 <= i <= step_x,
                racc == row_sum(*img, x as int, row as int, i as nat),
                racc <= 255 * (i as int),
            decreases step_x - i,
        {
            let col = x + i;
            proof {
                assert((row as int) * (width as int) + (col as int) < (img.width as int) * (
                img.height as int)) by (nonlinear_arith)
                    requires
                        col < width,
                        row < img.height,
                        width == img.width,
                        0 <= row,
                        0 <= col,
                ;
            }
            let idx: usize = (row as usize) * (width as usize) + (col as usize);
            let p = img.pixels[idx];
            racc = racc + (p as u128);
            i = i + 1;
            assert(racc == row_sum(*img, x as int, row as int, i as nat));
        }
        proof {
            lemma_row_sum_bound(*img, x as int, row as int, step_x as nat);
            lemma_block_sum_bound(*img, x as int, y as int, step_x as nat, j as nat);
            assert(sum + racc <= 255 * 0x1_0000_0000 * 0x1_0000_0000 + 255 * 0x1_0000_0000)
                by (nonlinear_arith)
                requires
                    sum <= 255 * (step_x as int) * (j as int),
                    racc <= 255 * (step_x as int),
                    step_x <= 0xffff_ffffu32,
                    j <= 0xffff_ffffu32,
                    0 <= sum,
                    0 <= racc,
            ;
        }
        sum = sum + racc;
        j = j + 1;
        proof {
            lemma_block_sum_bound(*img, x as int, y as int, step_x as nat, j as nat);
        }
    }
    proof {
        assert(1 <= (step_y as int) * (step_y as int) < 0x1_0000_0000_0000_0000)
            by (nonlinear_arith)
            requires
                1 <= step_y <= 0xffff_ffffu32,
        ;
        lemma_block_sum_bound(*img, x as int, y as int, step_x as nat, step_y as nat);
        assert(255 * (step_x as int) * (step_y as int) <= 255 * 0x1_0000_0000 * 0x1_0000_0000)
            by (nonlinear_arith)
            requires
                0 <= step_x <= 0xffff_ffffu32,
                0 <= step_y <= 0xffff_ffffu32,
        ;
    }
    let d: u128 = (step_y as u128) * (step_y as u128);
    (2 * sum + d) / (2 * d)
}

/// Ceiling division of a positive size by a positive cell count yields a
/// step between 1 and the size.
proof fn lemma_ceil_div_bounds(size: int, cells: int)
    requires
        1 <= size,
        1 <= cells,
    ensures
        1 <= ceil_div(size, cells) <= size,
{
    vstd::arithmetic::div_mod::lemma_div_non_zero(size + cells - 1, cells);
    assert(size + cells - 1 <= size * cells + cells - 1) by (nonlinear_arith)
        requires
            1 <= size,
            1 <= cells,
    ;
    vstd::arithmetic::div_mod::lemma_fundamental_div_mod_converse(
        size * cells + cells - 1,
        cells,
        size,
        cells - 1,
    );
    vstd::arithmetic::div_mod::lemma_div_is_ordered(
        size + cells - 1,
        size * cells + cells - 1,
        cells,
    );
}

/// Any anchor index up to the quotient keeps its multiple of the step within
/// the extent.
proof fn lemma_anchor_within(v: int, s: int, k: int)
    requires
        0 <= v,
        1 <= s,
        0 <= k <= v / s,
    ensures
        k * s <= v,
{
    vstd::arithmetic::div_mod::lemma_fundamental_div_mod(v, s);
    vstd::arithmetic::div_mod::lemma_mod_pos_bound(v, s);
    vstd::arithmetic::mul::lemma_mul_inequality(k, v / s, s);
}

/// An anchor that lies within the extent has an index no more than the
/// quotient.
proof fn lemma_anchor_index_le(v: int, s: int, k: int)
    requires
        0 <= v,
        1 <= s,
        0 <= k,
        k * s <= v,
    ensures
        k <= v / s,
{
    vstd::arithmetic::div_mod::lemma_div_is_ordered(k * s, v, s);
    vstd::arithmetic::div_mod::lemma_div_multiples_vanish(k, s);
    assert(s * k == k * s) by (nonlinear_arith);
}

/// When `k * s` first passes the extent `v`, `k` is exactly the number of
/// anchors `0, s, 2s, ...` that lie within it.
proof fn lemma_anchor_exit(v: int, s: int, k: int)
    requires
        0 <= v,
        1 <= s,
        0 <= k,
        v < k * s <= v + s,
    ensures
        k == v / s + 1,
{
    assert(1 <= k) by (nonlinear_arith)
        requires
            0 <= k,
            1 <= s,
            0 < k * s,
    ;
    assert((k - 1) * s == k * s - s) by (nonlinear_arith);
    vstd::arithmetic::div_mod::lemma_fundamental_div_mod_converse(
        v,
        s,
        k - 1,
        v - (k - 1) * s,
    );
}

/// Exact ceiling division on machine integers.
pub fn ceil_div_u32(size: u32, cells: u32) -> (q: u32)
    requires
        1 <= size,
        1 <= cells,
    ensures
        q == ceil_div(size as int, cells as int),
        1 <= q <= size,
{
    proof {
        lemma_ceil_div_bounds(size as int, cells as int);
    }
    (((size as u64) + (cells as u64) - 1) / (cells as u64)) as u32
}

/// Rasterize one image to one text frame: for each grid cell, average the
/// intensity of its pixel block and emit a blank (at or above the threshold)
/// or the fill glyph, one carriage-return-prefixed, cursor-down-terminated
/// row per grid row. The frame is a pure function of the inputs, so repeated
/// runs on identical input yield byte-identical frames.
pub fn rasterize(img: &ImageGray, columns: u32, rows: u32, fill: &[u8]) -> (frame: Vec<u8>)
    requires
        img.wf(),
        1 <= columns,
        1 <= rows,
        1 <= img.width,
        1 <= img.height,
    ensures
        frame@ == glyph_frame(*img, columns as int, rows as int, fill@),
{
    let step_x = ceil_div_u32(img.width, columns);
    let step_y = ceil_div_u32(img.height, rows);
    let end_x = img.width - step_x;
    let end_y = img.height - step_y;
    proof {
        vstd::arithmetic::div_mod::lemma_div_basics_4(end_x as int, step_x as int);
        vstd::arithmetic::div_mod::lemma_div_basics_5(end_x as int, step_x as int);
        vstd::arithmetic::div_mod::lemma_div_basics_4(end_y as int, step_y as int);
        vstd::arithmetic::div_mod::lemma_div_basics_5(end_y as int, step_y as int);
    }
    let n_cols = end_x / step_x + 1;
    let n_rows = end_y / step_y + 1;

    let ghost gsx = step_x as nat;
    let ghost gsy = step_y as nat;
    let ghost total = frame_rows(*img, gsx, gsy, fill@, 0, n_rows as int, n_cols as int);

    let mut out: Vec<u8> = Vec::new();
    let mut y: u32 = 0;
    let ghost mut r: int = 0;
    proof {
        assert(out@ + frame_rows(*img, gsx, gsy, fill@, 0, n_rows as int, n_cols as int)
            =~= total);
        assert(r * gsy == 0) by (nonlinear_arith)
            requires
                r == 0,
        ;
    }
    while y <= end_y
        invariant
            img.wf(),
            1 <= columns,
            1 <= rows,
            1 <= img.width,
            1 <= img.height,
            gsx == step_x,
            gsy == step_y,
            step_x == ceil_div(img.width as int, columns as int),
            step_y == ceil_div(img.height as int, rows as int),
            1 <= step_x <= img.width,
            1 <= step_y <= img.height,
            end_x == img.width - step_x,
            end_y == img.height - step_y,
            n_cols == end_x as int / step_x as int + 1,
            n_rows == end_y as int / step_y as int + 1,
            y == r * gsy,
            0 <= r <= n_rows,
            y <= end_y + step_y,
            out@ + frame_rows(*img, gsx, gsy, fill@, r, n_rows as int, n_cols as int) == total,
        decreases end_y + step_y - y,
    {
        proof {
            lemma_anchor_index_le(end_y as int, step_y as int, r);
        }
        out.push(ROW_PREFIX_BYTE);
        let ghost row_rest = frame_cells(*img, y as int, gsx, gsy, fill@, 0, n_cols as int)
            + row_suffix() + frame_rows(*img, gsx, gsy, fill@, r + 1, n_rows as int,
        n_cols as int);
        proof {
            assert(out@ + frame_cells(*img, y as int, gsx, gsy, fill@, 0, n_cols as int)
                + row_suffix() + frame_rows(*img, gsx, gsy, fill@, r + 1, n_rows as int,
            n_cols as int) =~= total);
        }

        let mut x: u32 = 0;
        let ghost mut c: int = 0;
        proof {
            assert(c * gsx == 0) by (nonlinear_arith)
                requires
                    c == 0,
            ;
        }
        while x <= end_x
            invariant
                img.wf(),
                gsx == step_x,
                gsy == step_y,
                1 <= step_x <= img.width,
                1 <= step_y <= img.height,
                end_x == img.width - step_x,
                end_y == img.height - step_y,
                n_cols == end_x as int / step_x as int + 1,
                y <= end_y,
                x == c * gsx,
                0 <= c <= n_cols,
                x <= end_x + step_x,
                out@ + frame_cells(*img, y as int, gsx, gsy, fill@, c, n_cols as int)
                    + row_suffix() + frame_rows(*img, gsx, gsy, fill@, r + 1, n_rows as int,
                n_cols as int) == total,
            decreases end_x + step_x - x,
        {
            proof {
                lemma_anchor_index_le(end_x as int, step_x as int, c);
            }
            let luma = block_luminance(img, x, y, step_x, step_y);
            let ghost before = out@;
            if luma >= BLANK_THRESHOLD {
                out.push(32u8);
            } else {
                out.extend_from_slice(fill);
            }
            proof {
                assert(out@ =~= before + cell_bytes(*img, x as int, y as int, gsx, gsy, fill@));
                assert((c + 1) * gsx == c * gsx + gsx) by (nonlinear_arith);
                assert(out@ + frame_cells(*img, y as int, gsx, gsy, fill@, c + 1, n_cols as int)
                    + row_suffix() + frame_rows(*img, gsx, gsy, fill@, r + 1, n_rows as int,
                n_cols as int) =~= total);
                c = c + 1;
            }
            x = x + step_x;
        }
        proof {
            lemma_anchor_exit(end_x as int, step_x as int, c);
            assert(frame_cells(*img, y as int, gsx, gsy, fill@, c, n_cols as int)
                =~= Seq::<u8>::empty());
        }
        out.push(27u8);
        out.push(91u8);
        out.push(49u8);
        out.push(66u8);
        proof {
            assert(out@ + frame_rows(*img, gsx, gsy, fill@, r + 1, n_rows as int, n_cols as int)
                =~= total);
            assert((r + 1) * gsy == r * gsy + gsy) by (nonlinear_arith);
            r = r + 1;
        }
        y = y + step_y;
    }
    proof {
        lemma_anchor_exit(end_y as int, step_y as int, r);
        assert(out@ + frame_rows(*img, gsx, gsy, fill@, r, n_rows as int, n_cols as int)
            =~= out@);
    }
    out
}

/// Rasterization is deterministic: any two frames that meet `rasterize`'s
/// contract for the same image, grid and glyph are byte-identical.
pub proof fn lemma_rasterize_deterministic(
    img: ImageGray,
    columns: int,
    rows: int,
    fill: Seq<u8>,
    frame1: Seq<u8>,
    frame2: Seq<u8>,
)
    requires
        frame1 == glyph_frame(img, columns, rows, fill),
        frame2 == glyph_frame(img, columns, rows, fill),
    ensures
        frame1 == frame2,
{
}

/// The blank boundary is inclusive: a block whose luminance is exactly the
/// threshold is emitted blank; the fill glyph appears only strictly below it.
pub proof fn lemma_threshold_boundary(
    img: ImageGray,
    x: int,
    y: int,
    step_x: nat,
    step_y: nat,
    fill: Seq<u8>,
)
    ensures
        luminance(img, x, y, step_x, step_y) == BLANK_THRESHOLD ==> cell_bytes(
            img,
            x,
            y,
            step_x,
            step_y,
            fill,
        ) == seq![32u8],
        luminance(img, x, y, step_x, step_y) < BLANK_THRESHOLD ==> cell_bytes(
            img,
            x,
            y,
            step_x,
            step_y,
            fill,
        ) == fill,
{
}

/// Every pixel of the image has intensity `v`.
pub open spec fn solid(img: ImageGray, v: u8) -> bool {
    forall|i: int| 0 <= i < img.pixels@.len() ==> img.pixels@[i] == v
}

/// A row of identical cells, from index `c` up to `n_cols`.
pub open spec fn uniform_cells(glyph: Seq<u8>, c: int, n_cols: int) -> Seq<u8>
    decreases n_cols - c,
{
    if c >= n_cols {
        Seq::empty()
    } else {
        glyph + uniform_cells(glyph, c + 1, n_cols)
    }
}

/// A frame whose every cell is the same glyph, from row `r` up to `n_rows`.
pub open spec fn uniform_frame(glyph: Seq<u8>, r: int, n_rows: int, n_cols: int) -> Seq<u8>
    decreases n_rows - r,
{
    if r >= n_rows {
        Seq::empty()
    } else {
        seq![ROW_PREFIX_BYTE] + uniform_cells(glyph, 0, n_cols) + row_suffix() + uniform_frame(
            glyph,
            r + 1,
            n_rows,
            n_cols,
        )
    }
}

/// In a solid image every in-bounds row segment sums to `v` per pixel.
proof fn lemma_solid_row_sum(img: ImageGray, v: u8, x: int, y: int, count: nat)
    requires
        img.wf(),
        solid(img, v),
        0 <= x,
        0 <= y,
        x + count <= img.width,
        y < img.height,
    ensures
        row_sum(img, x, y, count) == v * count,
    decreases count,
{
    if count == 0 {
        assert(v * count == 0) by (nonlinear_arith)
            requires
                count == 0,
        ;
    } else {
        lemma_solid_row_sum(img, v, x, y, (count - 1) as nat);
        assert(0 <= y * img.width + (x + count - 1) < img.width * img.height)
            by (nonlinear_arith)
            requires
                0 <= y < img.height,
                0 <= x,
                0 <= x + count - 1 < img.width,
        ;
        assert(v * (count - 1) + v == v * count) by (nonlinear_arith);
    }
}

/// See `lemma_solid_row_sum`: a solid in-bounds block sums to `v` per pixel.
proof fn lemma_solid_block_sum(img: ImageGray, v: u8, x: int, y: int, step_x: nat, step_y: nat)
    requires
        img.wf(),
        solid(img, v),
        0 <= x,
        0 <= y,
        x + step_x <= img.width,
        y + step_y <= img.height,
    ensures
        block_sum(img, x, y, step_x, step_y) == v * step_x * step_y,
    decreases step_y,
{
    if step_y == 0 {
        assert(v * step_x * step_y == 0) by (nonlinear_arith)
            requires
                step_y == 0,
        ;
    } else {
        lemma_solid_block_sum(img, v, x, y, step_x, (step_y - 1) as nat);
        lemma_solid_row_sum(img, v, x, y + step_y - 1, step_x);
        assert(v * step_x * (step_y - 1) + v * step_x == v * step_x * step_y)
            by (nonlinear_arith);
    }
}

/// A cell of a solid white image is blank whenever the block shape satisfies
/// `510 * step_x >= 249 * step_y` (exactly when the height-squared
/// normalization keeps the average at or above the threshold).
proof fn lemma_white_cell(img: ImageGray, x: int, y: int, step_x: nat, step_y: nat, fill: Seq<u8>)
    requires
        img.wf(),
        solid(img, 255),
        0 <= x,
        0 <= y,
        1 <= step_y,
        x + step_x <= img.width,
        y + step_y <= img.height,
        510 * step_x >= 249 * step_y,
    ensures
        cell_bytes(img, x, y, step_x, step_y, fill) == seq![32u8],
{
    lemma_solid_block_sum(img, 255, x, y, step_x, step_y);
    let sx = step_x as int;
    let sy = step_y as int;
    let d = 2 * (sy * sy);
    let num = 2 * (255 * sx * sy) + sy * sy;
    assert(num >= d * 125) by (nonlinear_arith)
        requires
            num == 2 * (255 * sx * sy) + sy * sy,
            d == 2 * (sy * sy),
            510 * sx >= 249 * sy,
            1 <= sy,
    ;
    assert(1 <= d) by (nonlinear_arith)
        requires
            d == 2 * (sy * sy),
            1 <= sy,
    ;
    vstd::arithmetic::div_mod::lemma_div_multiples_vanish(125, d);
    vstd::arithmetic::div_mod::lemma_div_is_ordered(d * 125, num, d);
    assert(luminance(img, x, y, step_x, step_y) >= 125);
}

/// A cell of a solid black image is always the fill glyph.
proof fn lemma_black_cell(img: ImageGray, x: int, y: int, step_x: nat, step_y: nat, fill: Seq<u8>)
    requires
        img.wf(),
        solid(img, 0),
        0 <= x,
        0 <= y,
        1 <= step_y,
        x + step_x <= img.width,
        y + step_y <= img.height,
    ensures
        cell_bytes(img, x, y, step_x, step_y, fill) == fill,
{
    lemma_solid_block_sum(img, 0, x, y, step_x, step_y);
    let sy = step_y as int;
    assert(0 * step_x * step_y == 0) by (nonlinear_arith);
    assert(0 <= sy * sy && sy * sy < 2 * (sy * sy) && sy * sy == 0 * (2 * (sy * sy)) + sy * sy)
        by (nonlinear_arith)
        requires
            1 <= sy,
    ;
    vstd::arithmetic::div_mod::lemma_fundamental_div_mod_converse(
        sy * sy,
        2 * (sy * sy),
        0,
        sy * sy,
    );
    assert(luminance(img, x, y, step_x, step_y) == 0);
}

/// The cell at grid position `(k, rr)`: column `k`, row `rr` of the output.
pub open spec fn grid_cell(
    img: ImageGray,
    k: int,
    rr: int,
    step_x: nat,
    step_y: nat,
    fill: Seq<u8>,
) -> Seq<u8> {
    cell_bytes(img, k * step_x, rr * step_y, step_x, step_y, fill)
}

/// When every cell from `c` on is the same glyph, the row is uniform.
proof fn lemma_cells_uniform(
    img: ImageGray,
    rr: int,
    step_x: nat,
    step_y: nat,
    fill: Seq<u8>,
    g: Seq<u8>,
    c: int,
    n_cols: int,
)
    requires
        forall|k: int| c <= k < n_cols ==> #[trigger] grid_cell(img, k, rr, step_x, step_y, fill)
            == g,
    ensures
        frame_cells(img, rr * step_y, step_x, step_y, fill, c, n_cols) == uniform_cells(
            g,
            c,
            n_cols,
        ),
    decreases n_cols - c,
{
    if c < n_cols {
        assert(grid_cell(img, c, rr, step_x, step_y, fill) == g);
        lemma_cells_uniform(img, rr, step_x, step_y, fill, g, c + 1, n_cols);
    }
}

/// When every cell from row `r` on is the same glyph, the frame is uniform.
proof fn lemma_rows_uniform(
    img: ImageGray,
    step_x: nat,
    step_y: nat,
    fill: Seq<u8>,
    g: Seq<u8>,
    r: int,
    n_rows: int,
    n_cols: int,
)
    requires
        forall|rr: int, k: int|
            r <= rr < n_rows && 0 <= k < n_cols ==> #[trigger] grid_cell(
                img,
                k,
                rr,
                step_x,
                step_y,
                fill,
            ) == g,
    ensures
        frame_rows(img, step_x, step_y, fill, r, n_rows, n_cols) == uniform_frame(
            g,
            r,
            n_rows,
            n_cols,
        ),
    decreases n_rows - r,
{
    if r < n_rows {
        lemma_cells_uniform(img, r, step_x, step_y, fill, g, 0, n_cols);
        lemma_rows_uniform(img, step_x, step_y, fill, g, r + 1, n_rows, n_cols);
    }
}

/// Every anchor of the sampling grid keeps its whole block inside the image.
proof fn lemma_grid_anchor_in_bounds(img: ImageGray, columns: int, rows: int, rr: int, k: int)
    requires
        1 <= columns,
        1 <= rows,
        1 <= img.width,
        1 <= img.height,
        0 <= rr < spec_n_rows(img, rows),
        0 <= k < spec_n_cols(img, columns),
    ensures
        0 <= k * spec_step_x(img, columns),
        k * spec_step_x(img, columns) + spec_step_x(img, columns) <= img.width,
        0 <= rr * spec_step_y(img, rows),
        rr * spec_step_y(img, rows) + spec_step_y(img, rows) <= img.height,
        1 <= spec_step_x(img, columns) <= img.width,
        1 <= spec_step_y(img, rows) <= img.height,
{
    lemma_ceil_div_bounds(img.width as int, columns);
    lemma_ceil_div_bounds(img.height as int, rows);
    let sx = spec_step_x(img, columns);
    let sy = spec_step_y(img, rows);
    lemma_anchor_within(img.width - sx, sx, k);
    lemma_anchor_within(img.height - sy, sy, rr);
    assert(0 <= k * sx) by (nonlinear_arith)
        requires
            0 <= k,
            1 <= sx,
    ;
    assert(0 <= rr * sy) by (nonlinear_arith)
        requires
            0 <= rr,
            1 <= sy,
    ;
}

/// On a solid white image (maximum intensity everywhere) every emitted glyph
/// is blank, provided the block shape satisfies `510 * step_x >= 249 * step_y`
/// — in particular whenever the blocks are at least as wide as they are tall,
/// as with square blocks from an evenly dividing grid. (For much taller than
/// wide blocks the height-squared normalization pushes even white below the
/// threshold.)
pub proof fn lemma_solid_white_all_blank(img: ImageGray, columns: int, rows: int, fill: Seq<u8>)
    requires
        img.wf(),
        solid(img, 255),
        1 <= columns,
        1 <= rows,
        1 <= img.width,
        1 <= img.height,
        510 * spec_step_x(img, columns) >= 249 * spec_step_y(img, rows),
    ensures
        glyph_frame(img, columns, rows, fill) == uniform_frame(
            seq![32u8],
            0,
            spec_n_rows(img, rows),
            spec_n_cols(img, columns),
        ),
{
    let sx = spec_step_x(img, columns) as nat;
    let sy = spec_step_y(img, rows) as nat;
    let n_rows = spec_n_rows(img, rows);
    let n_cols = spec_n_cols(img, columns);
    assert forall|rr: int, k: int| 0 <= rr < n_rows && 0 <= k < n_cols implies #[trigger] grid_cell(
        img,
        k,
        rr,
        sx,
        sy,
        fill,
    ) == seq![32u8] by {
        lemma_grid_anchor_in_bounds(img, columns, rows, rr, k);
        lemma_white_cell(img, k * sx, rr * sy, sx, sy, fill);
    }
    lemma_rows_uniform(img, sx, sy, fill, seq![32u8], 0, n_rows, n_cols);
}

/// On a solid black image (zero intensity everywhere) every emitted glyph is
/// the fill glyph, for every target grid.
pub proof fn lemma_solid_black_all_fill(img: ImageGray, columns: int, rows: int, fill: Seq<u8>)
    requires
        img.wf(),
        solid(img, 0),
        1 <= columns,
        1 <= rows,
        1 <= img.width,
        1 <= img.height,
    ensures
        glyph_frame(img, columns, rows, fill) == uniform_frame(
            fill,
            0,
            spec_n_rows(img, rows),
            spec_n_cols(img, columns),
        ),
{
    let sx = spec_step_x(img, columns) as nat;
    let sy = spec_step_y(img, rows) as nat;
    let n_rows = spec_n_rows(img, rows);
    let n_cols = spec_n_cols(img, columns);
    assert forall|rr: int, k: int| 0 <= rr < n_rows && 0 <= k < n_cols implies #[trigger] grid_cell(
        img,
        k,
        rr,
        sx,
        sy,
        fill,
    ) == fill by {
        lemma_grid_anchor_in_bounds(img, columns, rows, rr, k);
        lemma_black_cell(img, k * sx, rr * sy, sx, sy, fill);
    }
    lemma_rows_uniform(img, sx, sy, fill, fill, 0, n_rows, n_cols);
}

} // verus!
