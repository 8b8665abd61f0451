use vstd::prelude::*;

use crate::grid::blit;
use crate::grid::blit_px;
use crate::grid::blit_row;
use crate::grid::blit_rows;
use crate::grid::contains_at;
use crate::grid::copy_grid;
use crate::grid::grid_of;
use crate::grid::grid_wf;
use crate::grid::grid_height;
use crate::grid::grid_width;
use crate::grid::is_opaque;
use crate::grid::lemma_outline_form;
use crate::grid::outline_grid;
use crate::grid::outline_seq;
use crate::grid::RECT_HIGHLIGHT;

verus! {

broadcast use vstd::std_specs::vec::axiom_spec_len;

/// Anything that can render itself into a pixel buffer, test a local point
/// for containment, and produce a border-only outline of itself.
pub trait Draw: Sized {
    /// The pixel grid of the drawable.
    spec fn grid(&self) -> Seq<Seq<u32>>;

    /// The grid of the outline drawable that `get_outline` produces.
    spec fn outline_view(&self) -> Seq<Seq<u32>>;

    /// Well-formedness: the grid (and any stored outline) is rectangular and
    /// of positive dimensions.
    spec fn wf(&self) -> bool;

    fn width(&self) -> (w: usize)
        requires
            self.wf(),
        ensures
            w == grid_width(self.grid()),
            w >= 1,
    ;

    fn height(&self) -> (h: usize)
        requires
            self.wf(),
        ensures
            h == grid_height(self.grid()),
            h >= 1,
    ;

    /// Blits every opaque pixel of the grid into `img` at offset `pos`,
    /// skipping destination indices that fall outside the buffer.
    fn draw(&self, img: &mut Vec<u32>, width: usize, pos: (usize, usize))
        requires
            self.wf(),
        ensures
            final(img)@ == blit(old(img)@, self.grid(), width as int, pos.0 as int, pos.1 as int),
            final(img)@.len() == old(img)@.len(),
    ;

    /// True exactly when the local point lies inside the grid on an opaque
    /// pixel.
    fn contains(&self, pos: (usize, usize)) -> (r: bool)
        requires
            self.wf(),
        ensures
            r == contains_at(self.grid(), pos.0 as int, pos.1 as int),
    ;

    /// A border-only rectangle of the drawable's dimensions, used as the
    /// selection highlight.
    fn get_outline(&self) -> (r: Rect)
        requires
            self.wf(),
        ensures
            grid_of(r.0@) == self.outline_view(),
            grid_wf(grid_of(r.0@)),
    ;
}

/// A plain rectangular sprite: an immutable pixel grid.
#[derive(Debug, PartialEq)]
pub struct Rect(pub Vec<Vec<u32>>);

/// A tile sprite: a pixel grid plus an optional precomputed outline that
/// overrides the computed one.
#[derive(Debug, PartialEq)]
pub struct Tile {
    pub rect: Rect,
    pub select: Option<Rect>,
}

/// The rows of a pixel vector chunked into rows of `w` pixels each; a
/// trailing partial row is dropped.
pub open spec fn grid_chunks(s: Seq<u32>, w: int) -> Seq<Seq<u32>> {
    Seq::new((s.len() as int / w) as nat, |r: int| Seq::new(w as nat, |c: int| s[r * w + c]))
}

impl Rect {
    /// Wraps a ready pixel grid.
    pub fn new(inp: Vec<Vec<u32>>) -> (r: Rect)
        ensures
            r.grid() == grid_of(inp@),
            r.0 == inp,
    {
        Rect(inp)
    }

    /// Builds a rectangle from a flat pixel vector, `w` pixels to a row.
    pub fn new_w(inp: Vec<u32>, w: usize) -> (r: Rect)
        requires
            w >= 1,
            inp@.len() >= w,
        ensures
            r.grid() == grid_chunks(inp@, w as int),
            r.wf(),
    {
        let rows: usize = inp.len() / w;
        proof {
            let l = inp@.len() as int;
            let wi = w as int;
            vstd::arithmetic::div_mod::lemma_fundamental_div_mod(l, wi);
            vstd::arithmetic::div_mod::lemma_mod_bound(l, wi);
            assert(wi * (rows as int) == l - l % wi);
            assert(wi * (rows as int) >= 1);
            assert(rows as int * wi == wi * (rows as int)) by (nonlinear_arith);
            assert(rows >= 1) by (nonlinear_arith)
                requires
                    wi * (rows as int) >= 1,
                    wi >= 1,
                    rows as int >= 0,
            ;
            assert(rows * w <= inp@.len());
        }
        let mut ret: Vec<Vec<u32>> = Vec::new();
        let mut r: usize = 0;
        while r < rows
            invariant
                r <= rows,
                w >= 1,
                rows == inp@.len() as int / w as int,
                rows * w <= inp@.len(),
                ret@.len() == r,
                forall|a: int|
                    0 <= a < r ==> #[trigger] ret@[a]@ == grid_chunks(inp@, w as int)[a],
            decreases rows - r,
        {
            proof {
                assert((r + 1) * w == r * w + w && (r + 1) * w <= rows * w) by (nonlinear_arith)
                    requires
                        r < rows,
                        w >= 1,
                ;
                assert(r * w + w <= rows * w);
                vstd::std_specs::vec::axiom_spec_len(&inp);
                assert(inp@.len() <= usize::MAX);
            }
            let base: usize = r * w;
            let mut row: Vec<u32> = Vec::new();
            let mut c: usize = 0;
            while c < w
                invariant
                    c <= w,
                    base == r * w,
                    base + w <= inp@.len(),
                    inp@.len() <= usize::MAX,
                    row@.len() == c,
                    forall|b: int| 0 <= b < c ==> #[trigger] row@[b] == inp@[base + b],
                decreases w - c,
            {
                row.push(inp[base + c]);
                c += 1;
            }
            proof {
                assert(r < inp@.len() as int / w as int);
                assert(row@ =~= grid_chunks(inp@, w as int)[r as int]);
            }
            ret.push(row);
            r += 1;
        }
        proof {
            assert(grid_of(ret@) =~= grid_chunks(inp@, w as int));
        }
        Rect(ret)
    }

    /// The computed outline of a rectangle: opaque black border, transparent
    /// white interior.
    pub fn new_outline(&self) -> (r: Rect)
        requires
            self.wf(),
        ensures
            r.grid() == outline_seq(grid_width(self.grid()), grid_height(self.grid()),
                RECT_HIGHLIGHT),
            r.wf(),
    {
        let w = self.width();
        let h = self.height();
        let g = outline_grid(w, h, RECT_HIGHLIGHT);
        proof {
            lemma_outline_form(w as nat, h as nat, RECT_HIGHLIGHT);
        }
        Rect(g)
    }
}

impl Clone for Rect {
    /// The clone holds an equal pixel grid.
    fn clone(&self) -> (r: Rect)
        ensures
            r.grid() == self.grid(),
    {
        Rect(copy_grid(&self.0))
    }
}

impl Tile {
    /// Wraps a rectangle, with an optional custom selection outline.
    pub fn new(rect: Rect, select: Option<Rect>) -> (t: Tile)
        ensures
            t.rect == rect,
            t.select == select,
    {
        Tile { rect, select }
    }

    /// Builds a tile from a flat pixel vector, `w` pixels to a row, with no
    /// custom outline.
    pub fn new_w(inp: Vec<u32>, w: usize) -> (t: Tile)
        requires
            w >= 1,
            inp@.len() >= w,
        ensures
            t.grid() == grid_chunks(inp@, w as int),
            t.select is None,
            t.wf(),
    {
        Tile { rect: Rect::new_w(inp, w), select: None }
    }

    /// Builds a tile from decoded image pixels, given in row-major order as
    /// (red, green, blue) triples, `w` pixels to a row. Every pixel becomes
    /// opaque.
    pub fn from_pixels(pix: Vec<(u8, u8, u8)>, w: usize) -> (t: Tile)
        requires
            w >= 1,
            pix@.len() >= w,
        ensures
            t.grid() == grid_chunks(
                Seq::new(pix@.len(), |i: int| rgb_color(pix@[i].0, pix@[i].1, pix@[i].2)),
                w as int,
            ),
            t.select is None,
            t.wf(),
    {
        let mut flat: Vec<u32> = Vec::new();
        let mut i: usize = 0;
        while i < pix.len()
            invariant
                i <= pix@.len(),
                flat@.len() == i,
                forall|a: int|
                    0 <= a < i ==> #[trigger] flat@[a] == rgb_color(pix@[a].0, pix@[a].1, pix@[a].2),
            decreases pix@.len() - i,
        {
            let p = pix[i];
            flat.push(0xFF000000u32 + (p.0 as u32) * 0x10000 + (p.1 as u32) * 0x100 + (p.2 as u32));
            i += 1;
        }
        proof {
            assert(flat@ =~= Seq::new(pix@.len(), |a: int| rgb_color(pix@[a].0, pix@[a].1, pix@[a].2)));
        }
        Tile { rect: Rect::new_w(flat, w), select: None }
    }

    /// The tile's outline: the custom one when it was supplied, else a border
    /// around an interior filled with the tile's centre colour.
    pub fn new_outline(&self) -> (r: Rect)
        requires
            self.wf(),
        ensures
            r.grid() == self.outline_view(),
            r.wf(),
    {
        match &self.select {
            Some(a) => a.clone(),
            None => {
                let h = self.rect.height();
                let w = self.rect.width();
                proof {
                    assert(self.rect.grid()[(h / 2) as int].len() == grid_width(self.rect.grid()));
                }
                let col = self.rect.0[h / 2][w / 2];
                let g = outline_grid(w, h, col);
                proof {
                    lemma_outline_form(w as nat, h as nat, col);
                }
                Rect(g)
            },
        }
    }
}

impl Clone for Tile {
    /// The clone holds an equal grid and an equal stored outline.
    fn clone(&self) -> (t: Tile)
        ensures
            t.grid() == self.grid(),
            t.outline_view() == self.outline_view(),
            t.wf() == self.wf(),
    {
        let select: Option<Rect> = match &self.select {
            Some(a) => Some(a.clone()),
            None => None,
        };
        Tile { rect: self.rect.clone(), select }
    }
}

/// The opaque 32-bit colour of a decoded (red, green, blue) pixel.
pub open spec fn rgb_color(r: u8, g: u8, b: u8) -> u32 {
    (0xFF000000u32 + r * 0x10000 + g * 0x100 + b) as u32
}

/// Writes one grid pixel (row `i`, column `j` of a grid placed at offset
/// (`x`, `y`)) into the buffer, skipping it when it is transparent or its
/// destination index lies outside the buffer.
fn blit_one(img: &mut Vec<u32>, width: usize, x: usize, y: usize, i: usize, j: usize, c: u32)
    ensures
        final(img)@ == blit_px(old(img)@, (y as int + i as int) * width as int + x as int
            + j as int, c),
        final(img)@.len() == old(img)@.len(),
{
    let ghost k_spec: int = (y as int + i as int) * width as int + x as int + j as int;
    let cap: usize = img.len();
    if is_opaque(c) {
        if width == 0 {
            if let Some(k) = x.checked_add(j) {
                if k < cap {
                    img.set(k, c);
                } else {
                    proof {
                        assert(k_spec == x as int + j as int);
                    }
                }
            } else {
                proof {
                    assert(k_spec == x as int + j as int);
                    assert(k_spec > usize::MAX);
                }
            }
        } else {
            if let Some(t1) = y.checked_add(i) {
                if let Some(t2) = t1.checked_mul(width) {
                    if let Some(t3) = t2.checked_add(x) {
                        if let Some(k) = t3.checked_add(j) {
                            if k < cap {
                                img.set(k, c);
                            }
                        } else {
                            proof {
                                assert(k_spec > usize::MAX);
                            }
                        }
                    } else {
                        proof {
                            assert(k_spec >= t2 as int + x as int);
                            assert(k_spec > usize::MAX);
                        }
                    }
                } else {
                    proof {
                        assert(t1 as int * width as int > usize::MAX);
                        assert(k_spec == t1 as int * width as int + x as int + j as int);
                        assert(k_spec > usize::MAX);
                    }
                }
            } else {
                proof {
                    assert(y as int + i as int > usize::MAX);
                    assert((y as int + i as int) * width as int >= y as int + i as int)
                        by (nonlinear_arith)
                        requires
                            width as int >= 1,
                            y as int + i as int >= 0,
                    ;
                    assert(k_spec > usize::MAX);
                }
            }
        }
    }
}

impl Draw for Rect {
    open spec fn grid(&self) -> Seq<Seq<u32>> {
        grid_of(self.0@)
    }

    open spec fn outline_view(&self) -> Seq<Seq<u32>> {
        outline_seq(grid_width(self.grid()), grid_height(self.grid()), RECT_HIGHLIGHT)
    }

    open spec fn wf(&self) -> bool {
        grid_wf(self.grid())
    }

    fn width(&self) -> (w: usize) {
        self.0[0].len()
    }

    fn height(&self) -> (h: usize) {
        self.0.len()
    }

    fn draw(&self, img: &mut Vec<u32>, width: usize, pos: (usize, usize)) {
        let x: usize = pos.0;
        let y: usize = pos.1;
        let h = self.0.len();
        let w = self.0[0].len();
        let ghost b0 = img@;
        let mut i: usize = 0;
        while i < h
            invariant
                i <= h,
                h == self.grid().len(),
                w == grid_width(self.grid()),
                self.wf(),
                img@.len() == b0.len(),
                img@ == blit_rows(b0, self.grid(), width as int, x as int, y as int, i as int),
            decreases h - i,
        {
            let ghost bi = img@;
            let mut j: usize = 0;
            while j < w
                invariant
                    j <= w,
                    i < h,
                    h == self.grid().len(),
                    w == grid_width(self.grid()),
                    self.wf(),
                    img@.len() == bi.len(),
                    img@ == blit_row(bi, self.grid()[i as int], width as int, x as int,
                        y as int + i as int, j as int),
                decreases w - j,
            {
                proof {
                    assert(self.grid()[i as int].len() == grid_width(self.grid()));
                }
                let c = self.0[i][j];
                blit_one(img, width, x, y, i, j, c);
                proof {
                    assert(self.grid()[i as int][j as int] == c);
                    assert(blit_row(bi, self.grid()[i as int], width as int, x as int,
                        y as int + i as int, j as int + 1) == blit_px(
                        blit_row(bi, self.grid()[i as int], width as int, x as int,
                            y as int + i as int, j as int),
                        (y as int + i as int) * width as int + x as int + j as int,
                        c,
                    ));
                }
                j += 1;
            }
            proof {
                assert(self.grid()[i as int].len() == w);
                assert(blit_rows(b0, self.grid(), width as int, x as int, y as int, i as int + 1)
                    == blit_row(
                    blit_rows(b0, self.grid(), width as int, x as int, y as int, i as int),
                    self.grid()[i as int],
                    width as int,
                    x as int,
                    y as int + i as int,
                    w as int,
                ));
            }
            i += 1;
        }
    }

    fn contains(&self, pos: (usize, usize)) -> (r: bool) {
        if pos.0 < self.0[0].len() && pos.1 < self.0.len() {
            proof {
                assert(self.grid()[pos.1 as int].len() == grid_width(self.grid()));
            }
            is_opaque(self.0[pos.1][pos.0])
        } else {
            false
        }
    }

    fn get_outline(&self) -> (r: Rect) {
        self.new_outline()
    }
}

impl Draw for Tile {
    open spec fn grid(&self) -> Seq<Seq<u32>> {
        self.rect.grid()
    }

    open spec fn outline_view(&self) -> Seq<Seq<u32>> {
        match self.select {
            Some(s) => s.grid(),
            None => outline_seq(
                grid_width(self.grid()),
                grid_height(self.grid()),
                self.grid()[grid_height(self.grid()) as int / 2][grid_width(self.grid()) as int
                    / 2],
            ),
        }
    }

    open spec fn wf(&self) -> bool {
        &&& self.rect.wf()
        &&& match self.select {
            Some(s) => s.wf(),
            None => true,
        }
    }

    fn width(&self) -> (w: usize) {
        self.rect.width()
    }

    fn height(&self) -> (h: usize) {
        self.rect.height()
    }

    fn draw(&self, img: &mut Vec<u32>, width: usize, pos: (usize, usize)) {
        self.rect.draw(img, width, pos);
    }

    fn contains(&self, pos: (usize, usize)) -> (r: bool) {
        self.rect.contains(pos)
    }

    fn get_outline(&self) -> (r: Rect) {
        self.new_outline()
    }
}

/// The two kinds of drawable the scene holds.
#[derive(Debug, PartialEq)]
pub enum Drawable {
    Rect(Rect),
    Tile(Tile),
}

impl Draw for Drawable {
    open spec fn grid(&self) -> Seq<Seq<u32>> {
        match self {
            Drawable::Rect(r) => r.grid(),
            Drawable::Tile(t) => t.grid(),
        }
    }

    open spec fn outline_view(&self) -> Seq<Seq<u32>> {
        match self {
            Drawable::Rect(r) => r.outline_view(),
            Drawable::Tile(t) => t.outline_view(),
        }
    }

    open spec fn wf(&self) -> bool {
        match self {
            Drawable::Rect(r) => r.wf(),
            Drawable::Tile(t) => t.wf(),
        }
    }

    fn width(&self) -> (w: usize) {
        match self {
            Drawable::Rect(r) => r.width(),
            Drawable::Tile(t) => t.width(),
        }
    }

    fn height(&self) -> (h: usize) {
        match self {
            Drawable::Rect(r) => r.height(),
            Drawable::Tile(t) => t.height(),
        }
    }

    fn draw(&self, img: &mut Vec<u32>, width: usize, pos: (usize, usize)) {
        match self {
            Drawable::Rect(r) => r.draw(img, width, pos),
            Drawable::Tile(t) => t.draw(img, width, pos),
        }
    }

    fn contains(&self, pos: (usize, usize)) -> (r: bool) {
        match self {
            Drawable::Rect(r) => r.contains(pos),
            Drawable::Tile(t) => t.contains(pos),
        }
    }

    fn get_outline(&self) -> (r: Rect) {
        match self {
            Drawable::Rect(r) => r.get_outline(),
            Drawable::Tile(t) => t.get_outline(),
        }
    }
}

impl Clone for Drawable {
    /// The clone holds an equal grid and an equal outline.
    fn clone(&self) -> (d: Drawable)
        ensures
            d.grid() == self.grid(),
            d.outline_view() == self.outline_view(),
            d.wf() == self.wf(),
    {
        match self {
            Drawable::Rect(r) => Drawable::Rect(r.clone()),
            Drawable::Tile(t) => Drawable::Tile(t.clone()),
        }
    }
}

} // verus!
