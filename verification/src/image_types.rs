//! Screen-space types of the renderer: pixel coordinates, quantized pixels,
//! tile rectangles, and the iterators that walk a tile's pixels and an
//! image's tiles.

use vstd::prelude::*;
use vstd::arithmetic::div_mod::lemma_fundamental_div_mod;
use vstd::arithmetic::div_mod::lemma_fundamental_div_mod_converse;
use vstd::arithmetic::mul::lemma_mul_inequality;
use vstd::arithmetic::div_mod::lemma_mod_division_less_than_divisor;
use vstd::arithmetic::div_mod::lemma_div_pos_is_pos;

verus! {

/// An integer pixel coordinate on the output image.
#[derive(Clone, Copy, PartialEq, Eq, Structural, Debug)]
pub struct ScreenPoint {
    pub x: u32,
    pub y: u32,
}

/// A quantized output color, one byte per channel.
#[derive(Clone, Copy, PartialEq, Eq, Structural, Debug)]
pub struct Pixel {
    pub r: u8,
    pub g: u8,
    pub b: u8,
}

/// An axis-aligned rectangular region of the image.
#[derive(Clone, Copy, PartialEq, Eq, Structural, Debug)]
pub struct Rect {
    pub origin: ScreenPoint,
    pub width: u32,
    pub height: u32,
}

/// Whether the pixel coordinate `(x, y)` lies inside `r`.
pub open spec fn rect_contains(r: Rect, x: int, y: int) -> bool {
    &&& r.origin.x <= x < r.origin.x + r.width
    &&& r.origin.y <= y < r.origin.y + r.height
}

impl ScreenPoint {
    /// Componentwise sum of two pixel coordinates.
    pub fn add(&self, rhs: &ScreenPoint) -> (r: ScreenPoint)
        requires
            self.x + rhs.x <= u32::MAX,
            self.y + rhs.y <= u32::MAX,
        ensures
            r.x == self.x + rhs.x,
            r.y == self.y + rhs.y,
    {
        ScreenPoint { x: self.x + rhs.x, y: self.y + rhs.y }
    }
}

impl Rect {
    /// The pixel coordinates of this rectangle all fit in `u32`, and the
    /// rectangle is at least one pixel wide, so it can be walked pixel by
    /// pixel.
    pub open spec fn well_sized(self) -> bool {
        &&& self.width > 0
        &&& self.origin.x + self.width <= u32::MAX as int + 1
        &&& self.origin.y + self.height <= u32::MAX as int + 1
    }

    /// An iterator over the pixel coordinates inside this rectangle, row by
    /// row from the rectangle's origin.
    pub fn iter(&self) -> (it: RectIter)
        ensures
            it.rect == *self,
            it.position == (ScreenPoint { x: 0, y: 0 }),
            self.well_sized() ==> it.wf() && it.pos() == 0,
    {
        RectIter { rect: *self, position: ScreenPoint { x: 0, y: 0 } }
    }
}

/// Walks the pixel coordinates of one rectangle in row-major order
/// (x varies fastest).
#[derive(Clone, Copy, PartialEq, Eq, Structural, Debug)]
pub struct RectIter {
    pub rect: Rect,
    pub position: ScreenPoint,
}

impl RectIter {
    pub open spec fn wf(self) -> bool {
        &&& self.rect.well_sized()
        &&& self.position.x < self.rect.width
        &&& self.position.y <= self.rect.height
        &&& self.position.y == self.rect.height ==> self.position.x == 0
    }

    /// How many points have already been yielded.
    pub open spec fn pos(self) -> int {
        self.position.y * self.rect.width + self.position.x
    }

    /// How many points the rectangle holds in total.
    pub open spec fn total(self) -> int {
        self.rect.width * self.rect.height
    }

    /// The `k`-th pixel coordinate of the rectangle in row-major order.
    pub open spec fn point_at(self, k: int) -> ScreenPoint {
        ScreenPoint {
            x: (self.rect.origin.x + k % (self.rect.width as int)) as u32,
            y: (self.rect.origin.y + k / (self.rect.width as int)) as u32,
        }
    }

    /// All pixel coordinates of the rectangle in the order they are yielded.
    pub open spec fn point_seq(self) -> Seq<ScreenPoint> {
        Seq::new(self.total() as nat, |k: int| self.point_at(k))
    }

    /// Yields the next pixel coordinate of the rectangle, or `None` once all
    /// `width * height` of them have been yielded.
    pub fn next(&mut self) -> (r: Option<ScreenPoint>)
        requires
            old(self).wf(),
        ensures
            final(self).wf(),
            final(self).rect == old(self).rect,
            old(self).pos() < old(self).total() ==> {
                &&& r == Some(old(self).point_at(old(self).pos()))
                &&& final(self).pos() == old(self).pos() + 1
            },
            old(self).pos() >= old(self).total() ==> {
                &&& r is None
                &&& *final(self) == *old(self)
            },
    {
        if self.position.y >= self.rect.height {
            proof {
                lemma_pos_in_range(*self);
            }
            return None;
        }
        let value = self.position;
        proof {
            let w = self.rect.width as int;
            lemma_fundamental_div_mod_converse(
                self.pos(),
                w,
                self.position.y as int,
                self.position.x as int,
            );
            assert((self.position.y + 1) * w == self.position.y * w + w) by (nonlinear_arith);
            assert(self.position.y * w + self.position.x < self.rect.height * w) by (nonlinear_arith)
                requires
                    self.position.y < self.rect.height,
                    self.position.x < w,
                    0 <= self.position.y,
                    0 <= self.position.x,
                    w > 0,
            ;
        }
        self.position.x += 1;
        if self.position.x >= self.rect.width {
            self.position.x = 0;
            self.position.y += 1;
        }
        Some(self.rect.origin.add(&value))
    }
}

/// Partitions an image of fixed dimensions into tiles of at most
/// `tile_w * tile_h` pixels and yields them in row-major order.  Tiles on the
/// last column and row use the remainder dimensions; a remainder of zero
/// means there is no extra column or row.
#[derive(Clone, Copy, PartialEq, Eq, Structural, Debug)]
pub struct ImageIter {
    pub x: u32,
    pub y: u32,
    pub num_tiles_x: u32,
    pub num_tiles_y: u32,
    pub tile_w: u32,
    pub tile_h: u32,
    pub end_row_w: u32,
    pub end_row_h: u32,
}

impl ImageIter {
    /// Width of the image the iterator was built for.
    pub open spec fn img_w(self) -> int {
        self.num_tiles_x * self.tile_w + self.end_row_w
    }

    /// Height of the image the iterator was built for.
    pub open spec fn img_h(self) -> int {
        self.num_tiles_y * self.tile_h + self.end_row_h
    }

    /// Number of non-empty tile columns.
    pub open spec fn nx(self) -> int {
        self.num_tiles_x + if self.end_row_w > 0 { 1int } else { 0int }
    }

    /// Number of non-empty tile rows.
    pub open spec fn ny(self) -> int {
        self.num_tiles_y + if self.end_row_h > 0 { 1int } else { 0int }
    }

    /// The tile dimensions and remainders describe a consistent grid over an
    /// image whose pixel coordinates fit in `u32`, with room for the cursor
    /// to step one row past the grid.
    pub open spec fn grid_wf(self) -> bool {
        &&& self.tile_w > 0
        &&& self.tile_h > 0
        &&& self.end_row_w < self.tile_w
        &&& self.end_row_h < self.tile_h
        &&& self.img_w() <= u32::MAX
        &&& self.img_h() <= u32::MAX
        &&& self.num_tiles_y < u32::MAX
    }

    /// Both iterators partition the same image into the same grid; only the
    /// cursors may differ.
    pub open spec fn same_grid(self, other: ImageIter) -> bool {
        &&& self.num_tiles_x == other.num_tiles_x
        &&& self.num_tiles_y == other.num_tiles_y
        &&& self.tile_w == other.tile_w
        &&& self.tile_h == other.tile_h
        &&& self.end_row_w == other.end_row_w
        &&& self.end_row_h == other.end_row_h
    }

    /// Grid consistency plus the cursor invariant.
    pub open spec fn wf(self) -> bool {
        &&& self.grid_wf()
        &&& self.x <= self.num_tiles_x
        &&& self.y <= self.num_tiles_y + 1
    }

    /// The tile of the grid cell in column `i`, row `j` (including the
    /// degenerate cells of an absent remainder column or row).
    pub open spec fn grid_tile(self, i: int, j: int) -> Rect {
        Rect {
            origin: ScreenPoint {
                x: (i * self.tile_w) as u32,
                y: (j * self.tile_h) as u32,
            },
            width: if i == self.num_tiles_x { self.end_row_w } else { self.tile_w },
            height: if j == self.num_tiles_y { self.end_row_h } else { self.tile_h },
        }
    }

    /// The `k`-th tile the iterator yields, counting from a fresh iterator.
    pub open spec fn tile_at(self, k: int) -> Rect {
        self.grid_tile(k % self.nx(), k / self.nx())
    }

    /// How many non-empty tiles the image has in total.
    pub open spec fn total_tiles(self) -> int {
        self.nx() * self.ny()
    }

    /// All tiles of the image in the order they are yielded.
    pub open spec fn tile_seq(self) -> Seq<Rect> {
        Seq::new(self.total_tiles() as nat, |k: int| self.tile_at(k))
    }

    /// How many tiles have already been yielded.
    pub open spec fn pos(self) -> int {
        if self.y >= self.ny() {
            self.total_tiles()
        } else {
            self.y * self.nx() + if self.x as int <= self.nx() { self.x as int } else { self.nx() }
        }
    }

    /// Builds the tile iterator for a `w * h` image with the renderer's fixed
    /// maximum tile size of 128 by 128 pixels.
    pub fn for_image_dimensions(w: u32, h: u32) -> (it: ImageIter)
        ensures
            it.wf(),
            it.pos() == 0,
            it.img_w() == w,
            it.img_h() == h,
            it.tile_w == 128,
            it.tile_h == 128,
    {
        let tile_w: u32 = 128;
        let tile_h: u32 = 128;
        proof {
            lemma_fundamental_div_mod(w as int, 128);
            lemma_fundamental_div_mod(h as int, 128);
        }
        let it = ImageIter {
            x: 0,
            y: 0,
            num_tiles_x: w / tile_w,
            num_tiles_y: h / tile_h,
            tile_w,
            tile_h,
            end_row_w: w % tile_w,
            end_row_h: h % tile_h,
        };
        proof {
            if it.ny() > 0 {
                assert(it.pos() == 0);
            } else {
                assert(it.total_tiles() == it.nx() * 0);
            }
        }
        it
    }

    /// Reports the total number of non-empty tiles, for progress reporting.
    pub fn number_of_tiles(&self) -> (n: u32)
        requires
            self.grid_wf(),
            self.total_tiles() <= u32::MAX,
        ensures
            n == self.total_tiles(),
            n == self.tile_seq().len(),
    {
        proof {
            if self.end_row_w > 0 {
                assert(self.num_tiles_x * self.tile_w <= u32::MAX);
                assert(self.num_tiles_x * 2 <= self.num_tiles_x * self.tile_w) by (nonlinear_arith)
                    requires self.tile_w >= 2, self.num_tiles_x >= 0,
                ;
            }
            if self.end_row_h > 0 {
                assert(self.num_tiles_y * self.tile_h <= u32::MAX);
                assert(self.num_tiles_y * 2 <= self.num_tiles_y * self.tile_h) by (nonlinear_arith)
                    requires self.tile_h >= 2, self.num_tiles_y >= 0,
                ;
            }
        }
        let nx: u32 = self.num_tiles_x + if self.end_row_w > 0 { 1 } else { 0 };
        let ny: u32 = self.num_tiles_y + if self.end_row_h > 0 { 1 } else { 0 };
        nx * ny
    }

    /// Yields the next non-empty tile of the image in row-major order, or
    /// `None` once every tile has been yielded.  A degenerate tile of the
    /// grid (zero remainder width or height) is skipped, never yielded.
    pub fn next(&mut self) -> (r: Option<Rect>)
        requires
            old(self).wf(),
        ensures
            final(self).wf(),
            final(self).same_grid(*old(self)),
            old(self).pos() < old(self).total_tiles() ==> {
                &&& r == Some(old(self).tile_at(old(self).pos()))
                &&& final(self).pos() == old(self).pos() + 1
            },
            old(self).pos() >= old(self).total_tiles() ==> {
                &&& r is None
                &&& final(self).pos() == old(self).pos()
            },
    {
        loop
            invariant
                self.wf(),
                old(self).wf(),
                self.same_grid(*old(self)),
                self.pos() == old(self).pos(),
            decreases
                (self.num_tiles_y + 2) * (self.num_tiles_x + 1)
                    - (self.y * (self.num_tiles_x + 1) + self.x),
        {
            let ghost cur = *self;
            let ghost nx = self.nx();
            let ghost ny = self.ny();
            if self.y > self.num_tiles_y {
                // The cursor stands one row past the grid: everything has
                // been yielded.
                assert(self.pos() == self.total_tiles());
                return None;
            }
            let use_w = if self.x == self.num_tiles_x { self.end_row_w } else { self.tile_w };
            let use_h = if self.y == self.num_tiles_y { self.end_row_h } else { self.tile_h };
            proof {
                lemma_mul_inequality(self.x as int, self.num_tiles_x as int, self.tile_w as int);
                lemma_mul_inequality(self.y as int, self.num_tiles_y as int, self.tile_h as int);
            }
            let current = Rect {
                origin: ScreenPoint { x: self.x * self.tile_w, y: self.y * self.tile_h },
                width: use_w,
                height: use_h,
            };
            let ghost cx = self.x as int;
            let ghost cy = self.y as int;
            if self.x >= self.num_tiles_x {
                self.x = 0;
                self.y += 1;
            } else {
                self.x += 1;
            }
            proof {
                assert((cy + 1) * nx == cy * nx + nx) by (nonlinear_arith);
                assert((cy + 1) * (cur.num_tiles_x + 1) == cy * (cur.num_tiles_x + 1)
                    + cur.num_tiles_x + 1) by (nonlinear_arith);
            }
            if current.width != 0 && current.height != 0 {
                proof {
                    // The yielded cell lies inside the non-empty part of the
                    // grid, so the yield count was cy * nx + cx.
                    assert(cx < nx && cy < ny);
                    assert(cy * nx + cx < nx * ny) by (nonlinear_arith)
                        requires 0 <= cx < nx, 0 <= cy < ny,
                    ;
                    assert(cur.pos() == cy * nx + cx);
                    assert(cur.pos() < cur.total_tiles());
                    lemma_fundamental_div_mod_converse(cy * nx + cx, nx, cy, cx);
                    assert(cur.tile_at(cur.pos()) == current);
                    if cx < cur.num_tiles_x {
                        assert(self.x == cx + 1 && self.y == cy);
                        assert(self.pos() == cy * nx + cx + 1);
                    } else {
                        // The row wrapped; the yielded cell was the last
                        // non-empty one of its row.
                        assert(cur.end_row_w > 0 && cx == nx - 1);
                        assert(self.x == 0 && self.y == cy + 1);
                        if cy + 1 >= ny {
                            assert(ny == cy + 1);
                            assert(self.pos() == nx * ny);
                            assert(nx * ny == (cy + 1) * nx) by (nonlinear_arith)
                                requires ny == cy + 1,
                            ;
                        } else {
                            assert(self.pos() == (cy + 1) * nx);
                        }
                    }
                    assert(self.pos() == cur.pos() + 1);
                }
                return Some(current);
            }
            proof {
                // The cell was degenerate: stepping over it yields nothing,
                // and the yield count is unchanged.
                if current.width == 0 {
                    assert(cx == cur.num_tiles_x && cur.end_row_w == 0);
                    assert(nx == cur.num_tiles_x);
                    assert(self.x == 0 && self.y == cy + 1);
                    if cy >= ny {
                        assert(cur.pos() == cur.total_tiles());
                        assert(self.y as int >= ny);
                        assert(self.pos() == self.total_tiles());
                    } else if cy + 1 >= ny {
                        assert(ny == cy + 1);
                        assert(cur.pos() == cy * nx + nx);
                        assert(nx * ny == (cy + 1) * nx) by (nonlinear_arith)
                            requires ny == cy + 1,
                        ;
                        assert(self.pos() == nx * ny);
                    } else {
                        assert(cur.pos() == cy * nx + nx);
                        assert(self.pos() == (cy + 1) * nx);
                    }
                } else {
                    assert(cy == cur.num_tiles_y && cur.end_row_h == 0);
                    assert(cy >= ny);
                    assert(cur.pos() == cur.total_tiles());
                    assert(self.y as int >= ny);
                    assert(self.pos() == self.total_tiles());
                }
                assert(self.pos() == cur.pos());
                // The cursor advanced one grid cell, so the loop makes
                // progress and its measure stays non-negative.
                assert(self.y * (cur.num_tiles_x + 1) + self.x
                    == cy * (cur.num_tiles_x + 1) + cx + 1);
                assert(self.y * (cur.num_tiles_x + 1)
                    <= (cur.num_tiles_y + 1) * (cur.num_tiles_x + 1)) by (nonlinear_arith)
                    requires
                        0 <= self.y as int <= cur.num_tiles_y + 1,
                        cur.num_tiles_x >= 0,
                ;
                assert((cur.num_tiles_y + 2) * (cur.num_tiles_x + 1)
                    == (cur.num_tiles_y + 1) * (cur.num_tiles_x + 1)
                        + (cur.num_tiles_x + 1)) by (nonlinear_arith);
            }
        }
    }
}

/// Ceiling division for a positive divisor.
pub open spec fn ceil_div(a: int, b: int) -> int {
    (a + b - 1) / b
}

/// The number of non-empty tile columns is the width divided by the tile
/// width, rounded up; likewise for rows.
pub proof fn lemma_grid_counts(it: ImageIter)
    requires
        it.grid_wf(),
    ensures
        it.nx() == ceil_div(it.img_w(), it.tile_w as int),
        it.ny() == ceil_div(it.img_h(), it.tile_h as int),
{
    let tw = it.tile_w as int;
    let ntx = it.num_tiles_x as int;
    let erw = it.end_row_w as int;
    if erw == 0 {
        lemma_fundamental_div_mod_converse(it.img_w() + tw - 1, tw, ntx, tw - 1);
    } else {
        assert((ntx + 1) * tw == ntx * tw + tw) by (nonlinear_arith);
        lemma_fundamental_div_mod_converse(it.img_w() + tw - 1, tw, ntx + 1, erw - 1);
    }
    let th = it.tile_h as int;
    let nty = it.num_tiles_y as int;
    let erh = it.end_row_h as int;
    if erh == 0 {
        lemma_fundamental_div_mod_converse(it.img_h() + th - 1, th, nty, th - 1);
    } else {
        assert((nty + 1) * th == nty * th + th) by (nonlinear_arith);
        lemma_fundamental_div_mod_converse(it.img_h() + th - 1, th, nty + 1, erh - 1);
    }
}

/// Tiling completeness, part one: the scheduler yields exactly
/// `ceil(W / tile_w) * ceil(H / tile_h)` tiles — the degenerate cells of an
/// exactly-dividing boundary are skipped, never yielded.
pub proof fn lemma_tile_count(it: ImageIter)
    requires
        it.grid_wf(),
    ensures
        it.tile_seq().len()
            == ceil_div(it.img_w(), it.tile_w as int) * ceil_div(it.img_h(), it.tile_h as int),
{
    lemma_grid_counts(it);
    assert(it.nx() * it.ny() >= 0) by (nonlinear_arith)
        requires it.nx() >= 0, it.ny() >= 0,
    ;
}

/// The grid cell holding position `k` of the schedule lies in the non-empty
/// part of the grid.
proof fn lemma_cell_of_index(it: ImageIter, k: int)
    requires
        it.grid_wf(),
        0 <= k < it.total_tiles(),
    ensures
        0 <= k % it.nx() < it.nx(),
        0 <= k / it.nx() < it.ny(),
        it.tile_at(k) == it.grid_tile(k % it.nx(), k / it.nx()),
{
    let nx = it.nx();
    let ny = it.ny();
    assert(nx > 0 && ny > 0) by (nonlinear_arith)
        requires nx * ny > 0, nx >= 0, ny >= 0,
    ;
    lemma_fundamental_div_mod(k, nx);
    lemma_mod_division_less_than_divisor(k, nx);
    lemma_div_pos_is_pos(k, nx);
    let j = k / nx;
    assert(j < ny) by (nonlinear_arith)
        requires
            k == nx * j + k % nx,
            0 <= k % nx < nx,
            k < nx * ny,
            0 <= j,
            nx > 0,
    ;
}

/// Every non-empty grid cell is itself non-empty as a tile, its origin and
/// extent fit in the image, and a full-size cell ends where the next cell of
/// its row or column starts.
proof fn lemma_cell_bounds(it: ImageIter, i: int, j: int)
    requires
        it.grid_wf(),
        0 <= i < it.nx(),
        0 <= j < it.ny(),
    ensures
        ({
            let t = it.grid_tile(i, j);
            &&& t.origin.x == i * it.tile_w
            &&& t.origin.y == j * it.tile_h
            &&& 0 < t.width <= it.tile_w
            &&& 0 < t.height <= it.tile_h
            &&& t.origin.x + t.width <= it.img_w()
            &&& t.origin.y + t.height <= it.img_h()
        }),
{
    let tw = it.tile_w as int;
    let th = it.tile_h as int;
    let ntx = it.num_tiles_x as int;
    let nty = it.num_tiles_y as int;
    assert(0 <= i * tw <= ntx * tw) by (nonlinear_arith)
        requires 0 <= i <= ntx, tw > 0,
    ;
    assert(0 <= j * th <= nty * th) by (nonlinear_arith)
        requires 0 <= j <= nty, th > 0,
    ;
    if i < ntx {
        assert(i * tw + tw <= ntx * tw) by (nonlinear_arith)
            requires i + 1 <= ntx, tw > 0,
        ;
    }
    if j < nty {
        assert(j * th + th <= nty * th) by (nonlinear_arith)
            requires j + 1 <= nty, th > 0,
        ;
    }
}

/// Tiling completeness, part two: every scheduled tile is non-empty, no
/// wider or taller than the tile size, and lies inside the image, so the
/// union of the tiles reaches no pixel outside `[0, W) x [0, H)`.
pub proof fn lemma_tile_in_bounds(it: ImageIter, k: int)
    requires
        it.grid_wf(),
        0 <= k < it.tile_seq().len(),
    ensures
        ({
            let t = it.tile_seq()[k];
            &&& 0 < t.width <= it.tile_w
            &&& 0 < t.height <= it.tile_h
            &&& t.origin.x + t.width <= it.img_w()
            &&& t.origin.y + t.height <= it.img_h()
        }),
{
    lemma_cell_of_index(it, k);
    lemma_cell_bounds(it, k % it.nx(), k / it.nx());
}

/// Tiling completeness, part three: tiles at two different positions of the
/// schedule are pairwise disjoint — no pixel lies in both.
pub proof fn lemma_tiles_disjoint(it: ImageIter, k1: int, k2: int)
    requires
        it.grid_wf(),
        0 <= k1 < it.tile_seq().len(),
        0 <= k2 < it.tile_seq().len(),
        k1 != k2,
    ensures
        forall|x: int, y: int|
            !(rect_contains(it.tile_seq()[k1], x, y) && rect_contains(it.tile_seq()[k2], x, y)),
{
    let nx = it.nx();
    lemma_cell_of_index(it, k1);
    lemma_cell_of_index(it, k2);
    let i1 = k1 % nx;
    let j1 = k1 / nx;
    let i2 = k2 % nx;
    let j2 = k2 / nx;
    lemma_cell_bounds(it, i1, j1);
    lemma_cell_bounds(it, i2, j2);
    assert(!(i1 == i2 && j1 == j2)) by {
        lemma_fundamental_div_mod(k1, nx);
        lemma_fundamental_div_mod(k2, nx);
    };
    let t1 = it.grid_tile(i1, j1);
    let t2 = it.grid_tile(i2, j2);
    if i1 < i2 {
        assert(t1.origin.x + t1.width <= t2.origin.x) by (nonlinear_arith)
            requires
                t1.origin.x == i1 * it.tile_w,
                t2.origin.x == i2 * it.tile_w,
                t1.width <= it.tile_w,
                i1 + 1 <= i2,
                it.tile_w > 0,
        ;
    } else if i2 < i1 {
        assert(t2.origin.x + t2.width <= t1.origin.x) by (nonlinear_arith)
            requires
                t1.origin.x == i1 * it.tile_w,
                t2.origin.x == i2 * it.tile_w,
                t2.width <= it.tile_w,
                i2 + 1 <= i1,
                it.tile_w > 0,
        ;
    } else if j1 < j2 {
        assert(t1.origin.y + t1.height <= t2.origin.y) by (nonlinear_arith)
            requires
                t1.origin.y == j1 * it.tile_h,
                t2.origin.y == j2 * it.tile_h,
                t1.height <= it.tile_h,
                j1 + 1 <= j2,
                it.tile_h > 0,
        ;
    } else {
        assert(t2.origin.y + t2.height <= t1.origin.y) by (nonlinear_arith)
            requires
                t1.origin.y == j1 * it.tile_h,
                t2.origin.y == j2 * it.tile_h,
                t2.height <= it.tile_h,
                j2 + 1 <= j1,
                it.tile_h > 0,
        ;
    }
}

/// Tiling completeness, part four: every pixel of the image lies in a
/// scheduled tile, namely the one of the grid cell that the pixel's
/// coordinates fall into.
pub proof fn lemma_tiles_cover(it: ImageIter, x: int, y: int)
    requires
        it.grid_wf(),
        0 <= x < it.img_w(),
        0 <= y < it.img_h(),
    ensures
        ({
            let k = (y / (it.tile_h as int)) * it.nx() + x / (it.tile_w as int);
            &&& 0 <= k < it.tile_seq().len()
            &&& rect_contains(it.tile_seq()[k], x, y)
        }),
{
    let tw = it.tile_w as int;
    let th = it.tile_h as int;
    let ntx = it.num_tiles_x as int;
    let nty = it.num_tiles_y as int;
    let nx = it.nx();
    let ny = it.ny();
    let i = x / tw;
    let j = y / th;
    lemma_fundamental_div_mod(x, tw);
    lemma_mod_division_less_than_divisor(x, tw);
    lemma_div_pos_is_pos(x, tw);
    lemma_fundamental_div_mod(y, th);
    lemma_mod_division_less_than_divisor(y, th);
    lemma_div_pos_is_pos(y, th);
    assert(i * tw <= x < i * tw + tw) by (nonlinear_arith)
        requires x == tw * i + x % tw, 0 <= x % tw < tw,
    ;
    assert(j * th <= y < j * th + th) by (nonlinear_arith)
        requires y == th * j + y % th, 0 <= y % th < th,
    ;
    assert(i < nx) by (nonlinear_arith)
        requires
            i * tw <= x,
            x < it.img_w(),
            it.img_w() == ntx * tw + it.end_row_w,
            it.end_row_w < tw,
            nx == ntx + if it.end_row_w > 0 { 1int } else { 0int },
            tw > 0,
            0 <= i,
    ;
    assert(j < ny) by (nonlinear_arith)
        requires
            j * th <= y,
            y < it.img_h(),
            it.img_h() == nty * th + it.end_row_h,
            it.end_row_h < th,
            ny == nty + if it.end_row_h > 0 { 1int } else { 0int },
            th > 0,
            0 <= j,
    ;
    lemma_cell_bounds(it, i, j);
    let k = j * nx + i;
    lemma_fundamental_div_mod_converse(k, nx, j, i);
    assert(0 <= k < nx * ny) by (nonlinear_arith)
        requires k == j * nx + i, 0 <= i < nx, 0 <= j < ny,
    ;
    let t = it.grid_tile(i, j);
    assert(rect_contains(t, x, y)) by {
        if i == ntx {
            assert(x < it.img_w());
        }
        if j == nty {
            assert(y < it.img_h());
        }
    };
}

/// No tile appears twice in the schedule, so a scheduler that hands out each
/// position once hands out each tile exactly once.
pub proof fn lemma_tile_seq_distinct(it: ImageIter, k1: int, k2: int)
    requires
        it.grid_wf(),
        0 <= k1 < it.tile_seq().len(),
        0 <= k2 < it.tile_seq().len(),
        k1 != k2,
    ensures
        it.tile_seq()[k1] != it.tile_seq()[k2],
{
    let nx = it.nx();
    lemma_cell_of_index(it, k1);
    lemma_cell_bounds(it, k1 % nx, k1 / nx);
    lemma_tiles_disjoint(it, k1, k2);
    let t1 = it.tile_seq()[k1];
    assert(rect_contains(t1, t1.origin.x as int, t1.origin.y as int));
}

/// Under the iterator invariant, the yield count never passes the total, and
/// it reaches the total exactly when the row index has left the rectangle.
proof fn lemma_pos_in_range(it: RectIter)
    requires
        it.wf(),
    ensures
        it.pos() <= it.total(),
        it.position.y >= it.rect.height ==> it.pos() >= it.total(),
        it.position.y < it.rect.height ==> it.pos() < it.total(),
{
    let w = it.rect.width as int;
    let h = it.rect.height as int;
    let x = it.position.x as int;
    let y = it.position.y as int;
    if y < h {
        assert(y * w + x < h * w) by (nonlinear_arith)
            requires 0 <= x < w, 0 <= y, y < h,
        ;
    }
}

} // verus!
