use vstd::prelude::*;

verus! {

/// Colour of the border pixels of every computed outline: opaque black.
pub const OUTLINE_BORDER: u32 = 0xFF000000;

/// Interior colour of a plain rectangle's outline: transparent white.
pub const RECT_HIGHLIGHT: u32 = 0xFFFFFF;

/// A buffer of `n` pixels, all of one colour.
pub open spec fn filled(n: nat, c: u32) -> Seq<u32> {
    Seq::new(n, |k: int| c)
}

/// A pixel is opaque when its top byte (the visibility flag) is non-zero.
pub open spec fn opaque(c: u32) -> bool {
    c / 0x1000000 != 0
}

/// Reports whether a pixel value is opaque.
pub fn is_opaque(c: u32) -> (r: bool)
    ensures
        r == opaque(c),
{
    c / 0x1000000 != 0
}

/// The rows of a vector of rows, as a sequence of sequences.
pub open spec fn grid_of(rows: Seq<Vec<u32>>) -> Seq<Seq<u32>> {
    Seq::new(rows.len(), |i: int| rows[i]@)
}

/// A pixel grid is well formed when it has at least one row, at least one
/// column, and every row is as long as the first.
pub open spec fn grid_wf(g: Seq<Seq<u32>>) -> bool {
    &&& g.len() >= 1
    &&& g[0].len() >= 1
    &&& forall|i: int| 0 <= i < g.len() ==> #[trigger] g[i].len() == g[0].len()
}

/// Width of a grid: the length of its first row.
pub open spec fn grid_width(g: Seq<Seq<u32>>) -> nat {
    g[0].len()
}

/// Height of a grid: its number of rows.
pub open spec fn grid_height(g: Seq<Seq<u32>>) -> nat {
    g.len()
}

/// A local point hits a grid when it lies inside the bounds and the pixel
/// there is opaque.
pub open spec fn contains_at(g: Seq<Seq<u32>>, dx: int, dy: int) -> bool {
    &&& 0 <= dx < grid_width(g)
    &&& 0 <= dy < grid_height(g)
    &&& opaque(g[dy][dx])
}

/// One pixel of a blit: the colour lands at linear index `k` when it is
/// opaque and the index lies inside the buffer; otherwise nothing changes.
pub open spec fn blit_px(b: Seq<u32>, k: int, c: u32) -> Seq<u32> {
    if opaque(c) && 0 <= k < b.len() {
        b.update(k, c)
    } else {
        b
    }
}

/// The first `n` pixels of one grid row blitted into the buffer, left to
/// right; the row occupies absolute row `yrow` of a canvas `width` pixels
/// wide, starting at column `x`.
pub open spec fn blit_row(b: Seq<u32>, row: Seq<u32>, width: int, x: int, yrow: int, n: int) -> Seq<
    u32,
>
    decreases n,
{
    if n <= 0 {
        b
    } else {
        blit_px(blit_row(b, row, width, x, yrow, n - 1), yrow * width + x + (n - 1), row[n - 1])
    }
}

/// The first `n` rows of the grid blitted into the buffer, top to bottom.
pub open spec fn blit_rows(b: Seq<u32>, g: Seq<Seq<u32>>, width: int, x: int, y: int, n: int) -> Seq<
    u32,
>
    decreases n,
{
    if n <= 0 {
        b
    } else {
        blit_row(blit_rows(b, g, width, x, y, n - 1), g[n - 1], width, x, y + (n - 1), g[n
            - 1].len() as int)
    }
}

/// A whole grid blitted into a buffer laid out in rows of `width` pixels:
/// grid pixel (row i, column j) lands at linear index (y + i) * width + x + j;
/// transparent pixels and indices outside the buffer are skipped.
pub open spec fn blit(b: Seq<u32>, g: Seq<Seq<u32>>, width: int, x: int, y: int) -> Seq<u32> {
    blit_rows(b, g, width, x, y, g.len() as int)
}

/// One row's blit, pixel by pixel: inside the blitted span an opaque source
/// pixel replaces the buffer pixel, everything else is untouched.
proof fn lemma_blit_row_pointwise(
    b: Seq<u32>,
    row: Seq<u32>,
    width: int,
    x: int,
    yrow: int,
    n: int,
    k: int,
)
    requires
        0 <= n <= row.len(),
        0 <= k < b.len(),
    ensures
        blit_row(b, row, width, x, yrow, n).len() == b.len(),
        ({
            let base = yrow * width + x;
            blit_row(b, row, width, x, yrow, n)[k] == if base <= k < base + n && opaque(
                row[k - base],
            ) {
                row[k - base]
            } else {
                b[k]
            }
        }),
    decreases n,
{
    if n > 0 {
        lemma_blit_row_pointwise(b, row, width, x, yrow, n - 1, k);
    }
}

/// The first `n` rows' blit, pixel by pixel over canvas coordinates: when
/// every grid row lies inside one canvas row (x + row length <= width), the
/// pixel at canvas column k % width and canvas row k / width is replaced
/// exactly when it falls on an opaque pixel of the grid's footprint.
proof fn lemma_blit_rows_pointwise(
    b: Seq<u32>,
    g: Seq<Seq<u32>>,
    width: int,
    x: int,
    y: int,
    n: int,
    k: int,
)
    requires
        grid_wf(g),
        0 <= n <= g.len(),
        0 <= x,
        0 <= y,
        1 <= width,
        x + grid_width(g) <= width,
        0 <= k < b.len(),
    ensures
        blit_rows(b, g, width, x, y, n).len() == b.len(),
        ({
            let cx = k % width;
            let cy = k / width;
            blit_rows(b, g, width, x, y, n)[k] == if x <= cx < x + grid_width(g) && y <= cy < y
                + n && opaque(g[cy - y][cx - x]) {
                g[cy - y][cx - x]
            } else {
                b[k]
            }
        }),
    decreases n,
{
    vstd::arithmetic::div_mod::lemma_fundamental_div_mod(k, width);
    vstd::arithmetic::div_mod::lemma_mod_bound(k, width);
    let cx = k % width;
    let cy = k / width;
    assert(cy >= 0) by (nonlinear_arith)
        requires
            k >= 0,
            width >= 1,
            k == width * cy + cx,
            0 <= cx < width,
    ;
    if n > 0 {
        lemma_blit_rows_pointwise(b, g, width, x, y, n - 1, k);
        let prev = blit_rows(b, g, width, x, y, n - 1);
        let gw = grid_width(g) as int;
        let rowbase = (y + n - 1) * width + x;
        assert(g[n - 1].len() == gw);
        lemma_blit_row_pointwise(prev, g[n - 1], width, x, y + n - 1, gw, k);
        assert((y + n - 1) * width == width * (y + n - 1)) by (nonlinear_arith);
        assert(rowbase == width * (y + n - 1) + x);
        if rowbase <= k < rowbase + gw {
            vstd::arithmetic::div_mod::lemma_fundamental_div_mod_converse(
                k,
                width,
                y + n - 1,
                x + (k - rowbase),
            );
            assert(cy == y + n - 1 && cx == x + (k - rowbase));
        } else {
            if cy == y + n - 1 && x <= cx < x + gw {
                assert(rowbase <= k < rowbase + gw);
            }
        }
    }
}

/// Law: a grid blitted wholly inside the canvas row span (origin on the
/// canvas, x plus the grid's width at most the canvas width) changes exactly
/// the opaque pixels of its footprint: the canvas pixel at column k % width,
/// row k / width shows the grid pixel there when that grid pixel exists and
/// is opaque, and the old buffer pixel everywhere else.
pub proof fn lemma_blit_footprint(
    b: Seq<u32>,
    g: Seq<Seq<u32>>,
    width: int,
    x: int,
    y: int,
    k: int,
)
    requires
        grid_wf(g),
        0 <= x,
        0 <= y,
        1 <= width,
        x + grid_width(g) <= width,
        0 <= k < b.len(),
    ensures
        blit(b, g, width, x, y).len() == b.len(),
        ({
            let cx = k % width;
            let cy = k / width;
            blit(b, g, width, x, y)[k] == if x <= cx < x + grid_width(g) && y <= cy < y
                + grid_height(g) && opaque(g[cy - y][cx - x]) {
                g[cy - y][cx - x]
            } else {
                b[k]
            }
        }),
{
    lemma_blit_rows_pointwise(b, g, width, x, y, g.len() as int, k);
}

/// The border-only version of a w-by-h grid: the top and bottom rows and the
/// two outer columns are opaque black, every interior pixel is the given
/// colour.
pub open spec fn outline_seq(w: nat, h: nat, interior: u32) -> Seq<Seq<u32>> {
    Seq::new(
        h,
        |i: int|
            Seq::new(
                w,
                |j: int|
                    if i == 0 || i == h - 1 || j == 0 || j == w - 1 {
                        OUTLINE_BORDER
                    } else {
                        interior
                    },
            ),
    )
}

/// Law: an outline has the dimensions it was asked for, its border pixels are
/// opaque, and its interior is a single uniform colour.
pub proof fn lemma_outline_form(w: nat, h: nat, interior: u32)
    requires
        w >= 1,
        h >= 1,
    ensures
        outline_seq(w, h, interior).len() == h,
        forall|i: int| 0 <= i < h ==> #[trigger] outline_seq(w, h, interior)[i].len() == w,
        forall|i: int, j: int|
            0 <= i < h && 0 <= j < w && (i == 0 || i == h - 1 || j == 0 || j == w - 1)
                ==> #[trigger] outline_seq(w, h, interior)[i][j] == OUTLINE_BORDER && opaque(
                outline_seq(w, h, interior)[i][j],
            ),
        forall|i: int, j: int|
            0 < i < h - 1 && 0 < j < w - 1 ==> #[trigger] outline_seq(w, h, interior)[i][j]
                == interior,
        grid_wf(outline_seq(w, h, interior)),
{
    assert(OUTLINE_BORDER / 0x1000000 == 0xFF);
}

/// Builds the border-only grid: top and bottom rows and the two outer columns
/// opaque black, everything inside the given interior colour.
pub fn outline_grid(w: usize, h: usize, interior: u32) -> (r: Vec<Vec<u32>>)
    requires
        w >= 1,
        h >= 1,
    ensures
        grid_of(r@) == outline_seq(w as nat, h as nat, interior),
{
    let mut ret: Vec<Vec<u32>> = Vec::new();
    let mut i: usize = 0;
    while i < h
        invariant
            i <= h,
            w >= 1,
            h >= 1,
            ret@.len() == i,
            forall|a: int| 0 <= a < i ==> #[trigger] ret@[a]@ == outline_seq(w as nat, h as nat, interior)[a],
        decreases h - i,
    {
        let mut row: Vec<u32> = Vec::new();
        let mut j: usize = 0;
        while j < w
            invariant
                j <= w,
                i < h,
                w >= 1,
                h >= 1,
                row@.len() == j,
                forall|b: int| 0 <= b < j ==> #[trigger] row@[b] == outline_seq(w as nat, h as nat, interior)[i as int][b],
            decreases w - j,
        {
            if i == 0 || i == h - 1 || j == 0 || j == w - 1 {
                row.push(OUTLINE_BORDER);
            } else {
                row.push(interior);
            }
            j += 1;
        }
        proof {
            assert(row@ =~= outline_seq(w as nat, h as nat, interior)[i as int]);
        }
        ret.push(row);
        i += 1;
    }
    proof {
        assert(grid_of(ret@) =~= outline_seq(w as nat, h as nat, interior));
    }
    ret
}

/// Copies a vector of pixel rows.
pub fn copy_grid(v: &Vec<Vec<u32>>) -> (r: Vec<Vec<u32>>)
    ensures
        grid_of(r@) == grid_of(v@),
{
    let mut ret: Vec<Vec<u32>> = Vec::new();
    let mut i: usize = 0;
    while i < v.len()
        invariant
            i <= v@.len(),
            ret@.len() == i,
            forall|a: int| 0 <= a < i ==> #[trigger] ret@[a]@ == v@[a]@,
        decreases v@.len() - i,
    {
        let src = &v[i];
        let mut row: Vec<u32> = Vec::new();
        let mut j: usize = 0;
        while j < src.len()
            invariant
                j <= src@.len(),
                row@.len() == j,
                forall|b: int| 0 <= b < j ==> #[trigger] row@[b] == src@[b],
            decreases src@.len() - j,
        {
            row.push(src[j]);
            j += 1;
        }
        proof {
            assert(row@ =~= v@[i as int]@);
        }
        ret.push(row);
        i += 1;
    }
    proof {
        assert(grid_of(ret@) =~= grid_of(v@));
    }
    ret
}

} // verus!
