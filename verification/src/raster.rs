//! Assembly of finished tiles into the output framebuffer: a packed,
//! row-major buffer of RGB byte triples, written top to bottom.

use vstd::prelude::*;
use vstd::arithmetic::div_mod::lemma_fundamental_div_mod;
use vstd::arithmetic::div_mod::lemma_fundamental_div_mod_converse;
use vstd::arithmetic::div_mod::lemma_mod_division_less_than_divisor;
use vstd::arithmetic::div_mod::lemma_div_pos_is_pos;
use crate::image_types::Pixel;
use crate::image_types::Rect;
use crate::image_types::RectIter;
use crate::image_types::rect_contains;

verus! {

/// Byte offset of channel `c == 0, 1, 2` of the pixel `(x, y)` in a packed
/// row-major RGB framebuffer of width `w` (add `c` to the result).
pub open spec fn byte_index(w: int, x: int, y: int) -> int {
    3 * (x + y * w)
}

/// The three bytes of pixel `(x, y)` in `data` hold the quantized color `p`.
pub open spec fn pixel_bytes(data: Seq<u8>, w: int, x: int, y: int, p: Pixel) -> bool {
    &&& data[byte_index(w, x, y) + 0] == p.r
    &&& data[byte_index(w, x, y) + 1] == p.g
    &&& data[byte_index(w, x, y) + 2] == p.b
}

/// Index into a tile's own row-major pixel buffer of the image pixel
/// `(x, y)`.
pub open spec fn tile_index(rect: Rect, x: int, y: int) -> int {
    (x - rect.origin.x) + (y - rect.origin.y) * rect.width
}

/// The three bytes of pixel `(x, y)` are the same in both framebuffers.
pub open spec fn pixel_unchanged(d1: Seq<u8>, d2: Seq<u8>, w: int, x: int, y: int) -> bool {
    &&& d1[byte_index(w, x, y) + 0] == d2[byte_index(w, x, y) + 0]
    &&& d1[byte_index(w, x, y) + 1] == d2[byte_index(w, x, y) + 1]
    &&& d1[byte_index(w, x, y) + 2] == d2[byte_index(w, x, y) + 2]
}

/// A worker walks its tile with the rectangle's iterator and pushes one
/// pixel per yielded point; the assembler indexes that buffer through
/// `tile_index`.  The two agree: the `k`-th point yielded lies in the tile,
/// and its buffer slot is exactly `k`.
pub proof fn lemma_point_order_matches_buffer(it: RectIter, k: int)
    requires
        it.rect.well_sized(),
        0 <= k < it.total(),
    ensures
        rect_contains(it.rect, it.point_at(k).x as int, it.point_at(k).y as int),
        tile_index(it.rect, it.point_at(k).x as int, it.point_at(k).y as int) == k,
{
    let w = it.rect.width as int;
    lemma_fundamental_div_mod(k, w);
    lemma_mod_division_less_than_divisor(k, w);
    lemma_div_pos_is_pos(k, w);
    assert(k / w < it.rect.height) by (nonlinear_arith)
        requires
            k == w * (k / w) + k % w,
            0 <= k % w < w,
            k < w * it.rect.height,
            0 <= k / w,
            w > 0,
    ;
    assert(it.rect.origin.x + k % w <= u32::MAX);
    assert(it.rect.origin.y + k / w <= u32::MAX);
    assert(it.point_at(k).x as int == it.rect.origin.x + k % w);
    assert(it.point_at(k).y as int == it.rect.origin.y + k / w);
    assert((k / w) * w == w * (k / w));
    assert(k % w + (k / w) * w == k);
    assert(tile_index(it.rect, it.rect.origin.x + k % w, it.rect.origin.y + k / w) == k);
}

/// A pixel inside a tile maps into the tile's pixel buffer.
proof fn lemma_tile_index_range(rect: Rect, x: int, y: int)
    requires
        rect_contains(rect, x, y),
    ensures
        0 <= tile_index(rect, x, y) < rect.width * rect.height,
{
    let dx = x - rect.origin.x;
    let dy = y - rect.origin.y;
    assert(0 <= dx + dy * rect.width < rect.width * rect.height) by (nonlinear_arith)
        requires
            0 <= dx < rect.width,
            0 <= dy < rect.height,
    ;
}

/// A pixel's bytes stay inside a `w * h` framebuffer.
proof fn lemma_byte_index_bounds(w: int, h: int, x: int, y: int)
    requires
        0 <= x < w,
        0 <= y < h,
    ensures
        0 <= byte_index(w, x, y),
        byte_index(w, x, y) + 2 < 3 * w * h,
{
    assert(0 <= x + y * w && 3 * (x + y * w) + 2 < 3 * w * h) by (nonlinear_arith)
        requires 0 <= x < w, 0 <= y < h,
    ;
}

/// Distinct pixels, or distinct channels of one pixel, live at distinct
/// bytes of the framebuffer.
proof fn lemma_byte_index_injective(w: int, x1: int, y1: int, c1: int, x2: int, y2: int, c2: int)
    requires
        0 <= x1 < w,
        0 <= x2 < w,
        0 <= y1,
        0 <= y2,
        0 <= c1 < 3,
        0 <= c2 < 3,
        !(x1 == x2 && y1 == y2 && c1 == c2),
    ensures
        byte_index(w, x1, y1) + c1 != byte_index(w, x2, y2) + c2,
{
    if byte_index(w, x1, y1) + c1 == byte_index(w, x2, y2) + c2 {
        let p1 = x1 + y1 * w;
        let p2 = x2 + y2 * w;
        lemma_fundamental_div_mod_converse(3 * p1 + c1, 3, p1, c1);
        lemma_fundamental_div_mod_converse(3 * p2 + c2, 3, p2, c2);
        assert(c1 == c2 && p1 == p2);
        lemma_fundamental_div_mod_converse(p1, w, y1, x1);
        lemma_fundamental_div_mod_converse(p2, w, y2, x2);
        assert(false);
    }
}

/// A fresh, all-black framebuffer for a `w * h` image.
pub fn blank_framebuffer(w: u32, h: u32) -> (data: Vec<u8>)
    requires
        3 * (w as int) * (h as int) <= usize::MAX,
    ensures
        data.len() == 3 * (w as int) * (h as int),
        forall|i: int| 0 <= i < data.len() ==> data[i] == 0u8,
{
    proof {
        assert((w as int) * (h as int) * 3 == 3 * (w as int) * (h as int)) by (nonlinear_arith);
        assert((w as int) * (h as int) <= 3 * (w as int) * (h as int)) by (nonlinear_arith)
            requires (w as int) * (h as int) >= 0,
        ;
    }
    let total: usize = (w as usize) * (h as usize) * 3;
    let mut data: Vec<u8> = Vec::new();
    while data.len() < total
        invariant
            data.len() <= total,
            forall|i: int| 0 <= i < data.len() ==> data[i] == 0u8,
        decreases total - data.len(),
    {
        data.push(0);
    }
    data
}

/// Copies a finished tile's pixel buffer into the framebuffer at the tile's
/// offset.  The buffer holds the tile's pixels in the row-major order its
/// rectangle is walked in; every byte outside the tile keeps its value.
pub fn write_tile(data: &mut Vec<u8>, w: u32, h: u32, rect: &Rect, pixels: &Vec<Pixel>)
    requires
        old(data).len() == 3 * (w as int) * (h as int),
        rect.origin.x + rect.width <= w,
        rect.origin.y + rect.height <= h,
        rect.width > 0,
        pixels.len() == rect.width * rect.height,
    ensures
        final(data).len() == old(data).len(),
        forall|x: int, y: int|
            0 <= x < w && 0 <= y < h && rect_contains(*rect, x, y)
                ==> #[trigger] pixel_bytes(
                    final(data)@,
                    w as int,
                    x,
                    y,
                    pixels[tile_index(*rect, x, y)],
                ),
        forall|x: int, y: int|
            0 <= x < w && 0 <= y < h && !rect_contains(*rect, x, y)
                ==> #[trigger] pixel_unchanged(final(data)@, old(data)@, w as int, x, y),
{
    let n = pixels.len();
    let tw = rect.width;
    let total = data.len();
    let mut k: usize = 0;
    while k < n
        invariant
            rect.width > 0,
            rect.origin.x + rect.width <= w,
            rect.origin.y + rect.height <= h,
            pixels.len() == rect.width * rect.height,
            n == pixels.len(),
            tw == rect.width,
            total == data.len(),
            data.len() == old(data).len(),
            old(data).len() == 3 * (w as int) * (h as int),
            k <= n,
            forall|x: int, y: int|
                0 <= x < w && 0 <= y < h && rect_contains(*rect, x, y)
                    && tile_index(*rect, x, y) < k
                    ==> #[trigger] pixel_bytes(
                        data@,
                        w as int,
                        x,
                        y,
                        pixels[tile_index(*rect, x, y)],
                    ),
            forall|x: int, y: int|
                0 <= x < w && 0 <= y < h && (!rect_contains(*rect, x, y)
                    || tile_index(*rect, x, y) >= k)
                    ==> #[trigger] pixel_unchanged(data@, old(data)@, w as int, x, y),
        decreases n - k,
    {
        let ghost pre = data@;
        let dx = k % (tw as usize);
        let dy = k / (tw as usize);
        proof {
            lemma_fundamental_div_mod(k as int, tw as int);
            lemma_mod_division_less_than_divisor(k as int, tw as int);
            lemma_div_pos_is_pos(k as int, tw as int);
            assert(dy < rect.height) by (nonlinear_arith)
                requires
                    k as int == (tw as int) * (dy as int) + (dx as int),
                    0 <= (dx as int) < (tw as int),
                    (k as int) < (tw as int) * (rect.height as int),
                    0 <= dy as int,
                    tw as int > 0,
            ;
        }
        let px = rect.origin.x as usize + dx;
        let py = rect.origin.y as usize + dy;
        proof {
            lemma_byte_index_bounds(w as int, h as int, px as int, py as int);
            assert((py as int) * (w as int) <= (h as int) * (w as int)) by (nonlinear_arith)
                requires 0 <= (py as int) <= (h as int), w as int >= 0,
            ;
            assert(3 * ((w as int) * (h as int)) == 3 * (w as int) * (h as int))
                by (nonlinear_arith);
        }
        let idx = (px + py * (w as usize)) * 3;
        let p = pixels[k];
        data[idx] = p.r;
        data[idx + 1] = p.g;
        data[idx + 2] = p.b;
        proof {
            let wi = w as int;
            let xi = px as int;
            let yi = py as int;
            assert(idx == byte_index(wi, xi, yi));
            assert(dx as int == (k as int) % (tw as int));
            assert(dy as int == (k as int) / (tw as int));
            assert(xi - rect.origin.x == dx as int);
            assert(yi - rect.origin.y == dy as int);
            assert(tile_index(*rect, xi, yi) == k as int);
            assert(rect_contains(*rect, xi, yi));
            assert(pixel_bytes(data@, wi, xi, yi, p));
            // Bytes of every other pixel are untouched by the three writes.
            assert forall|x: int, y: int|
                0 <= x < w && 0 <= y < h && !(x == xi && y == yi) implies #[trigger]
                pixel_unchanged(data@, pre, wi, x, y) by {
                lemma_byte_index_bounds(wi, h as int, x, y);
                lemma_byte_index_injective(wi, x, y, 0, xi, yi, 0);
                lemma_byte_index_injective(wi, x, y, 0, xi, yi, 1);
                lemma_byte_index_injective(wi, x, y, 0, xi, yi, 2);
                lemma_byte_index_injective(wi, x, y, 1, xi, yi, 0);
                lemma_byte_index_injective(wi, x, y, 1, xi, yi, 1);
                lemma_byte_index_injective(wi, x, y, 1, xi, yi, 2);
                lemma_byte_index_injective(wi, x, y, 2, xi, yi, 0);
                lemma_byte_index_injective(wi, x, y, 2, xi, yi, 1);
                lemma_byte_index_injective(wi, x, y, 2, xi, yi, 2);
            };
            // A tile position below the new cursor is either an
            // already-written pixel, untouched by this step, or the pixel
            // just written.
            assert forall|x: int, y: int|
                0 <= x < w && 0 <= y < h && rect_contains(*rect, x, y)
                    && tile_index(*rect, x, y) < k + 1 implies #[trigger] pixel_bytes(
                data@,
                wi,
                x,
                y,
                pixels[tile_index(*rect, x, y)],
            ) by {
                if tile_index(*rect, x, y) == k as int {
                    lemma_fundamental_div_mod_converse(
                        k as int,
                        tw as int,
                        y - rect.origin.y,
                        x - rect.origin.x,
                    );
                    assert(x == xi && y == yi);
                } else {
                    assert(pixel_bytes(pre, wi, x, y, pixels[tile_index(*rect, x, y)]));
                    assert(pixel_unchanged(data@, pre, wi, x, y));
                }
            };
            // Every byte that is outside the tile, or belongs to a pixel not
            // yet written, is still as it was on entry.
            assert forall|x: int, y: int|
                0 <= x < w && 0 <= y < h && (!rect_contains(*rect, x, y)
                    || tile_index(*rect, x, y) >= k + 1) implies #[trigger] pixel_unchanged(
                data@,
                old(data)@,
                wi,
                x,
                y,
            ) by {
                assert(!(x == xi && y == yi));
                assert(pixel_unchanged(data@, pre, wi, x, y));
                assert(pixel_unchanged(pre, old(data)@, wi, x, y));
            };
        }
        k += 1;
    }
    proof {
        // Every pixel of the tile has an index below the buffer length, so
        // the loop has written all of them.
        assert forall|x: int, y: int|
            0 <= x < w && 0 <= y < h && rect_contains(*rect, x, y) implies #[trigger] pixel_bytes(
            data@,
            w as int,
            x,
            y,
            pixels[tile_index(*rect, x, y)],
        ) by {
            lemma_tile_index_range(*rect, x, y);
        };
    }
}

} // verus!
