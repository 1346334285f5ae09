//! Raster images as plain pixel grids, and the drawing of search results
//! onto them: the final path, and per-iteration search snapshots. The
//! encoding of these images into files lives outside the library; here a
//! colour image is just a row-major vector of pixels.

use vstd::prelude::*;
use crate::arith::SCALE;
use crate::grid::{DIM_LIMIT, Grid};
use crate::messaging::SearchStep;

verus! {

/// One pixel: red, green and blue channels.
#[derive(Clone, Copy, Debug, PartialEq, Eq, Structural)]
pub struct Color {
    pub r: u8,
    pub g: u8,
    pub b: u8,
}

/// The colour marking path cells.
pub open spec fn path_color() -> Color {
    Color { r: 255, g: 0, b: 0 }
}

/// The colour marking the first path cell.
pub open spec fn start_color() -> Color {
    Color { r: 0, g: 255, b: 0 }
}

/// The colour marking the last path cell.
pub open spec fn goal_color() -> Color {
    Color { r: 128, g: 0, b: 128 }
}

/// The colour marking blocked cells.
pub open spec fn blocked_color() -> Color {
    Color { r: 0, g: 0, b: 0 }
}

/// The colour marking finalized cells in a snapshot.
pub open spec fn visited_color() -> Color {
    Color { r: 0, g: 0, b: 255 }
}

/// The colour marking frontier cells in a snapshot.
pub open spec fn open_color() -> Color {
    Color { r: 255, g: 255, b: 0 }
}

/// The colour marking the cell just finalized in a snapshot.
pub open spec fn current_color() -> Color {
    Color { r: 50, g: 205, b: 50 }
}

/// A dense colour image, pixels stored row-major.
pub struct ColorImage {
    pub width: usize,
    pub height: usize,
    pub pixels: Vec<Color>,
}

/// A dense eight-bit grayscale image, pixels stored row-major.
pub struct GrayImage {
    pub width: usize,
    pub height: usize,
    pub pixels: Vec<u8>,
}

impl ColorImage {
    /// Bounded sides; storage of exactly `height * width` pixels.
    pub open spec fn wf(self) -> bool {
        &&& self.height <= DIM_LIMIT
        &&& self.width <= DIM_LIMIT
        &&& self.pixels@.len() == self.height * self.width
    }

    /// The pixel at row `r`, column `c`.
    pub open spec fn at(self, r: int, c: int) -> Color {
        self.pixels@[r * self.width + c]
    }

    /// Reads the pixel at row `r`, column `c`.
    pub fn get(&self, r: usize, c: usize) -> (p: Color)
        requires
            self.wf(),
            r < self.height,
            c < self.width,
        ensures
            p == self.at(r as int, c as int),
    {
        proof {
            crate::grid::lemma_flat_index_bounds(
                r as int,
                c as int,
                self.height as int,
                self.width as int,
            );
            assert(vstd::std_specs::vec::spec_vec_len(&self.pixels) == self.pixels@.len());
        }
        self.pixels[r * self.width + c]
    }

    /// Writes the pixel at row `r`, column `c`.
    pub fn set(&mut self, r: usize, c: usize, p: Color)
        requires
            old(self).wf(),
            r < old(self).height,
            c < old(self).width,
        ensures
            final(self).wf(),
            final(self).height == old(self).height,
            final(self).width == old(self).width,
            final(self).at(r as int, c as int) == p,
            forall|r2: int, c2: int|
                0 <= r2 < old(self).height && 0 <= c2 < old(self).width && !(r2 == r && c2 == c)
                    ==> #[trigger] final(self).at(r2, c2) == old(self).at(r2, c2),
    {
        proof {
            crate::grid::lemma_flat_index_bounds(
                r as int,
                c as int,
                self.height as int,
                self.width as int,
            );
            assert(vstd::std_specs::vec::spec_vec_len(&self.pixels) == self.pixels@.len());
        }
        let idx: usize = r * self.width + c;
        self.pixels[idx] = p;
        proof {
            assert forall|r2: int, c2: int|
                0 <= r2 < old(self).height && 0 <= c2 < old(self).width && !(r2 == r && c2 == c)
                    implies #[trigger] final(self).at(r2, c2) == old(self).at(r2, c2) by {
                crate::grid::lemma_flat_index_bounds(
                    r2,
                    c2,
                    old(self).height as int,
                    old(self).width as int,
                );
                crate::grid::lemma_flat_index_injective(
                    r as int,
                    c as int,
                    r2,
                    c2,
                    old(self).width as int,
                );
            }
        }
    }

    /// A deep copy of the image.
    pub fn duplicate(&self) -> (out: ColorImage)
        requires
            self.wf(),
        ensures
            out.wf(),
            out.height == self.height,
            out.width == self.width,
            forall|r: int, c: int|
                0 <= r < self.height && 0 <= c < self.width
                    ==> #[trigger] out.at(r, c) == self.at(r, c),
    {
        let mut pixels: Vec<Color> = Vec::new();
        let mut i: usize = 0;
        proof {
            assert(vstd::std_specs::vec::spec_vec_len(&self.pixels) == self.pixels@.len());
        }
        while i < self.pixels.len()
            invariant
                i <= self.pixels@.len(),
                pixels@.len() == i,
                forall|k: int| 0 <= k < i ==> #[trigger] pixels@[k] == self.pixels@[k],
            decreases self.pixels@.len() - i,
        {
            pixels.push(self.pixels[i]);
            i = i + 1;
        }
        let out = ColorImage { width: self.width, height: self.height, pixels };
        proof {
            assert forall|r: int, c: int|
                0 <= r < self.height && 0 <= c < self.width
                    implies #[trigger] out.at(r, c) == self.at(r, c) by {
                crate::grid::lemma_flat_index_bounds(
                    r,
                    c,
                    self.height as int,
                    self.width as int,
                );
            }
        }
        out
    }
}

impl GrayImage {
    /// Bounded sides; storage of exactly `height * width` pixels.
    pub open spec fn wf(self) -> bool {
        &&& self.height <= DIM_LIMIT
        &&& self.width <= DIM_LIMIT
        &&& self.pixels@.len() == self.height * self.width
    }

    /// The pixel at row `r`, column `c`.
    pub open spec fn at(self, r: int, c: int) -> u8 {
        self.pixels@[r * self.width + c]
    }

    /// Reads the pixel at row `r`, column `c`.
    pub fn get(&self, r: usize, c: usize) -> (p: u8)
        requires
            self.wf(),
            r < self.height,
            c < self.width,
        ensures
            p == self.at(r as int, c as int),
    {
        proof {
            crate::grid::lemma_flat_index_bounds(
                r as int,
                c as int,
                self.height as int,
                self.width as int,
            );
            assert(vstd::std_specs::vec::spec_vec_len(&self.pixels) == self.pixels@.len());
        }
        self.pixels[r * self.width + c]
    }
}

/// `(row, col)` lies inside a `height x width` image.
pub fn in_bounds(row: usize, col: usize, height: usize, width: usize) -> (r: bool)
    ensures
        r == (row < height && col < width),
{
    row < height && col < width
}

/// Some cell of `cells` names the pixel `(r, c)`.
pub open spec fn in_cells(cells: Seq<(usize, usize)>, r: int, c: int) -> bool {
    exists|k: int| 0 <= k < cells.len() && (#[trigger] cells[k]).0 == r && cells[k].1 == c
}

/// Some signed cell of `cells` names the pixel `(r, c)`.
pub open spec fn in_signed_cells(cells: Seq<(isize, isize)>, r: int, c: int) -> bool {
    exists|k: int| 0 <= k < cells.len() && (#[trigger] cells[k]).0 == r && cells[k].1 == c
}

/// Paints `color` over every in-bounds cell of `cells`.
fn paint_cells(img: &mut ColorImage, cells: &Vec<(usize, usize)>, color: Color)
    requires
        old(img).wf(),
    ensures
        final(img).wf(),
        final(img).height == old(img).height,
        final(img).width == old(img).width,
        forall|r: int, c: int|
            0 <= r < old(img).height && 0 <= c < old(img).width
                ==> #[trigger] final(img).at(r, c) == (if in_cells(cells@, r, c) {
                    color
                } else {
                    old(img).at(r, c)
                }),
{
    let mut i: usize = 0;
    while i < cells.len()
        invariant
            img.wf(),
            img.height == old(img).height,
            img.width == old(img).width,
            i <= cells@.len(),
            forall|r: int, c: int|
                0 <= r < old(img).height && 0 <= c < old(img).width
                    ==> #[trigger] img.at(r, c) == (if in_cells(
                        cells@.subrange(0, i as int),
                        r,
                        c,
                    ) {
                        color
                    } else {
                        old(img).at(r, c)
                    }),
        decreases cells@.len() - i,
    {
        let (row, col) = cells[i];
        let ghost prev = *img;
        if row < img.height && col < img.width {
            img.set(row, col, color);
        }
        proof {
            let sub = cells@.subrange(0, i + 1 as int);
            assert(sub.drop_last() =~= cells@.subrange(0, i as int));
            assert(sub.last() == cells@[i as int]);
            assert forall|r: int, c: int|
                0 <= r < old(img).height && 0 <= c < old(img).width
                    implies #[trigger] img.at(r, c) == (if in_cells(sub, r, c) {
                    color
                } else {
                    old(img).at(r, c)
                }) by {
                if in_cells(sub, r, c) {
                    let k = choose|k: int|
                        0 <= k < sub.len() && (#[trigger] sub[k]).0 == r && sub[k].1 == c;
                    if k < i {
                        assert(in_cells(cells@.subrange(0, i as int), r, c)) by {
                            assert((cells@.subrange(0, i as int)[k]).0 == r);
                        }
                    }
                } else {
                    assert(!in_cells(cells@.subrange(0, i as int), r, c)) by {
                        if in_cells(cells@.subrange(0, i as int), r, c) {
                            let k = choose|k: int|
                                0 <= k < i && (#[trigger] cells@.subrange(0, i as int)[k]).0
                                    == r && cells@.subrange(0, i as int)[k].1 == c;
                            assert(sub[k].0 == r && sub[k].1 == c);
                        }
                    }
                    assert(!(row == r && col == c));
                }
            }
        }
        i = i + 1;
    }
    proof {
        assert(cells@.subrange(0, cells@.len() as int) =~= cells@);
    }
}

/// Paints `color` over every in-bounds cell of the signed `cells`.
fn paint_signed_cells(img: &mut ColorImage, cells: &Vec<(isize, isize)>, color: Color)
    requires
        old(img).wf(),
    ensures
        final(img).wf(),
        final(img).height == old(img).height,
        final(img).width == old(img).width,
        forall|r: int, c: int|
            0 <= r < old(img).height && 0 <= c < old(img).width
                ==> #[trigger] final(img).at(r, c) == (if in_signed_cells(cells@, r, c) {
                    color
                } else {
                    old(img).at(r, c)
                }),
{
    let mut i: usize = 0;
    while i < cells.len()
        invariant
            img.wf(),
            img.height == old(img).height,
            img.width == old(img).width,
            i <= cells@.len(),
            forall|r: int, c: int|
                0 <= r < old(img).height && 0 <= c < old(img).width
                    ==> #[trigger] img.at(r, c) == (if in_signed_cells(
                        cells@.subrange(0, i as int),
                        r,
                        c,
                    ) {
                        color
                    } else {
                        old(img).at(r, c)
                    }),
        decreases cells@.len() - i,
    {
        let (row, col) = cells[i];
        if row >= 0 && col >= 0 {
            let ru = row as usize;
            let cu = col as usize;
            if ru < img.height && cu < img.width {
                img.set(ru, cu, color);
            }
        }
        proof {
            let sub = cells@.subrange(0, i + 1 as int);
            assert(sub.drop_last() =~= cells@.subrange(0, i as int));
            assert(sub.last() == cells@[i as int]);
            assert forall|r: int, c: int|
                0 <= r < old(img).height && 0 <= c < old(img).width
                    implies #[trigger] img.at(r, c) == (if in_signed_cells(sub, r, c) {
                    color
                } else {
                    old(img).at(r, c)
                }) by {
                if in_signed_cells(sub, r, c) {
                    let k = choose|k: int|
                        0 <= k < sub.len() && (#[trigger] sub[k]).0 == r && sub[k].1 == c;
                    if k < i {
                        assert(in_signed_cells(cells@.subrange(0, i as int), r, c)) by {
                            assert((cells@.subrange(0, i as int)[k]).0 == r);
                        }
                    }
                } else {
                    assert(!in_signed_cells(cells@.subrange(0, i as int), r, c)) by {
                        if in_signed_cells(cells@.subrange(0, i as int), r, c) {
                            let k = choose|k: int|
                                0 <= k < i && (#[trigger] cells@.subrange(0, i as int)[k]).0
                                    == r && cells@.subrange(0, i as int)[k].1 == c;
                            assert(sub[k].0 == r && sub[k].1 == c);
                        }
                    }
                }
            }
        }
        i = i + 1;
    }
    proof {
        assert(cells@.subrange(0, cells@.len() as int) =~= cells@);
    }
}

/// The colour a pixel has after a path is drawn: the last path cell wears
/// the goal colour, the first the start colour, every other path cell the
/// path colour; blocked cells are dark; everything else keeps the base
/// image's pixel.
pub open spec fn draw_path_pixel(
    img: ColorImage,
    path: Seq<(usize, usize)>,
    blocked: Seq<(isize, isize)>,
    r: int,
    c: int,
) -> Color {
    if path.len() > 0 && path.last().0 == r && path.last().1 == c {
        goal_color()
    } else if path.len() > 0 && path[0].0 == r && path[0].1 == c {
        start_color()
    } else if in_cells(path, r, c) {
        path_color()
    } else if in_signed_cells(blocked, r, c) {
        blocked_color()
    } else {
        img.at(r, c)
    }
}

/// Draws a found path over a base image: blocked cells dark, the route
/// red, its first cell green and its last cell purple.
pub fn draw_path(
    img: &ColorImage,
    path: &Vec<(usize, usize)>,
    blocked: &Vec<(isize, isize)>,
) -> (out: ColorImage)
    requires
        img.wf(),
    ensures
        out.wf(),
        out.height == img.height,
        out.width == img.width,
        forall|r: int, c: int|
            0 <= r < img.height && 0 <= c < img.width
                ==> #[trigger] out.at(r, c) == draw_path_pixel(*img, path@, blocked@, r, c),
{
    let mut out = img.duplicate();
    paint_signed_cells(&mut out, blocked, Color { r: 0, g: 0, b: 0 });
    let ghost after_blocked = out;
    paint_cells(&mut out, path, Color { r: 255, g: 0, b: 0 });
    let ghost after_path = out;
    if path.len() > 0 {
        let (fr, fc) = path[0];
        if fr < out.height && fc < out.width {
            out.set(fr, fc, Color { r: 0, g: 255, b: 0 });
        }
        let last = path[path.len() - 1];
        proof {
            assert(path@[path@.len() - 1] == path@.last());
        }
        if last.0 < out.height && last.1 < out.width {
            out.set(last.0, last.1, Color { r: 128, g: 0, b: 128 });
        }
    }
    proof {
        assert forall|r: int, c: int|
            0 <= r < img.height && 0 <= c < img.width
                implies #[trigger] out.at(r, c) == draw_path_pixel(*img, path@, blocked@, r, c)
            by {
            if path@.len() > 0 {
                assert(in_cells(path@, path@[0].0 as int, path@[0].1 as int)) by {
                    assert(path@[0].0 as int == path@[0].0);
                }
                assert(in_cells(path@, path@.last().0 as int, path@.last().1 as int)) by {
                    assert(path@[path@.len() - 1].0 as int == path@.last().0);
                }
            }
        }
    }
    out
}

/// The colour a pixel has in one rendered search snapshot: the cell just
/// finalized is bright green, frontier cells yellow, finalized cells
/// blue, blocked cells dark, all else the base image.
pub open spec fn draw_step_pixel(img: ColorImage, step: SearchStep, r: int, c: int) -> Color {
    if step.current.0 == r && step.current.1 == c {
        current_color()
    } else if in_cells(step.open_nodes@, r, c) {
        open_color()
    } else if in_cells(step.visited@, r, c) {
        visited_color()
    } else if in_signed_cells(step.blocked@, r, c) {
        blocked_color()
    } else {
        img.at(r, c)
    }
}

/// Renders one search snapshot over a base image: blocked cells dark,
/// finalized cells blue, frontier cells yellow, and the cell just
/// finalized bright green.
pub fn draw_search_step(img: &ColorImage, step: &SearchStep) -> (out: ColorImage)
    requires
        img.wf(),
    ensures
        out.wf(),
        out.height == img.height,
        out.width == img.width,
        forall|r: int, c: int|
            0 <= r < img.height && 0 <= c < img.width
                ==> #[trigger] out.at(r, c) == draw_step_pixel(*img, *step, r, c),
{
    let mut out = img.duplicate();
    paint_signed_cells(&mut out, &step.blocked, Color { r: 0, g: 0, b: 0 });
    paint_cells(&mut out, &step.visited, Color { r: 0, g: 0, b: 255 });
    paint_cells(&mut out, &step.open_nodes, Color { r: 255, g: 255, b: 0 });
    let (row, col) = step.current;
    if row < out.height && col < out.width {
        out.set(row, col, Color { r: 50, g: 205, b: 50 });
    }
    out
}

/// Extracts the red channel of a colour image as a grayscale image.
pub fn get_red_channel(img: &ColorImage) -> (out: GrayImage)
    requires
        img.wf(),
    ensures
        out.wf(),
        out.height == img.height,
        out.width == img.width,
        forall|r: int, c: int|
            0 <= r < img.height && 0 <= c < img.width
                ==> #[trigger] out.at(r, c) == img.at(r, c).r,
{
    let mut pixels: Vec<u8> = Vec::new();
    let mut i: usize = 0;
    proof {
        assert(vstd::std_specs::vec::spec_vec_len(&img.pixels) == img.pixels@.len());
    }
    while i < img.pixels.len()
        invariant
            i <= img.pixels@.len(),
            pixels@.len() == i,
            forall|k: int| 0 <= k < i ==> #[trigger] pixels@[k] == img.pixels@[k].r,
        decreases img.pixels@.len() - i,
    {
        pixels.push(img.pixels[i].r);
        i = i + 1;
    }
    let out = GrayImage { width: img.width, height: img.height, pixels };
    proof {
        assert forall|r: int, c: int|
            0 <= r < img.height && 0 <= c < img.width
                implies #[trigger] out.at(r, c) == img.at(r, c).r by {
            crate::grid::lemma_flat_index_bounds(r, c, img.height as int, img.width as int);
        }
    }
    out
}

/// Normalizes a grayscale image into a height-field grid of fixed-point
/// values between zero and one (each byte scaled by `SCALE / 255`).
pub fn normalize_to_grid(img: &GrayImage) -> (g: Grid)
    requires
        img.wf(),
    ensures
        g.rows == img.height,
        g.cols == img.width,
        g.wf(),
        g.values_in(0, SCALE as int),
        forall|r: int, c: int|
            0 <= r < img.height && 0 <= c < img.width
                ==> #[trigger] g.at(r, c) == (img.at(r, c) as int) * SCALE / 255,
{
    let mut data: Vec<i64> = Vec::new();
    let mut i: usize = 0;
    proof {
        assert(vstd::std_specs::vec::spec_vec_len(&img.pixels) == img.pixels@.len());
    }
    while i < img.pixels.len()
        invariant
            i <= img.pixels@.len(),
            data@.len() == i,
            forall|k: int|
                0 <= k < i ==> #[trigger] data@[k] == (img.pixels@[k] as int) * SCALE / 255,
            forall|k: int| 0 <= k < i ==> 0 <= #[trigger] data@[k] <= SCALE,
        decreases img.pixels@.len() - i,
    {
        let px = img.pixels[i];
        let v: u64 = (px as u64) * SCALE / 255;
        data.push(v as i64);
        i = i + 1;
    }
    let g = Grid::from_data(img.height, img.width, data);
    proof {
        assert forall|r: int, c: int|
            0 <= r < img.height && 0 <= c < img.width
                implies #[trigger] g.at(r, c) == (img.at(r, c) as int) * SCALE / 255 by {
            crate::grid::lemma_flat_index_bounds(r, c, img.height as int, img.width as int);
        }
        assert forall|r: int, c: int|
            0 <= r < g.rows && 0 <= c < g.cols implies 0 <= #[trigger] g.at(r, c) <= SCALE
            by {
            crate::grid::lemma_flat_index_bounds(r, c, img.height as int, img.width as int);
        }
    }
    g
}

} // verus!
