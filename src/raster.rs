//! RGB rasters, row-major with three bytes per pixel, and tile overlay.
use vstd::prelude::*;

verus! {

/// Position of channel `c` of pixel `(x, y)` in the data of a raster of
/// the given width.
pub open spec fn offset(width: int, x: int, y: int, c: int) -> int {
    (y * width + x) * 3 + c
}

/// Whether a `tw` x `th` image placed with its top-left corner at `(x, y)`
/// covers pixel `(px, py)`.
pub open spec fn covers(x: int, y: int, tw: int, th: int, px: int, py: int) -> bool {
    x <= px < x + tw && y <= py < y + th
}

/// An RGB image: `width * height` pixels, rows from the top, each pixel
/// three bytes (red, green, blue).
#[derive(Debug)]
pub struct Raster {
    pub width: u32,
    pub height: u32,
    pub data: Vec<u8>,
}

impl Raster {
    /// The data holds exactly three bytes per pixel.
    pub open spec fn wf(&self) -> bool {
        self.data@.len() == self.width * self.height * 3
    }

    /// Channel `c` of pixel `(x, y)`.
    pub open spec fn at(&self, x: int, y: int, c: int) -> u8 {
        self.data@[offset(self.width as int, x, y, c)]
    }

    pub open spec fn in_bounds(&self, x: int, y: int, c: int) -> bool {
        0 <= x < self.width && 0 <= y < self.height && 0 <= c < 3
    }

    /// A black raster of the given size.
    pub fn new(width: u32, height: u32) -> (r: Raster)
        requires
            width * height * 3 <= usize::MAX,
        ensures
            r.width == width,
            r.height == height,
            r.wf(),
            forall|i: int| 0 <= i < r.data@.len() ==> r.data@[i] == 0,
    {
        let n: usize = (width as usize) * (height as usize) * 3;
        let mut data: Vec<u8> = Vec::new();
        let mut i: usize = 0;
        while i < n
            invariant
                i <= n,
                data@.len() == i,
                forall|j: int| 0 <= j < i ==> data@[j] == 0,
            decreases n - i,
        {
            data.push(0u8);
            i = i + 1;
        }
        Raster { width, height, data }
    }
}

pub(crate) proof fn lemma_offset_in_range(w: int, h: int, x: int, y: int, c: int)
    requires
        0 <= x < w,
        0 <= y < h,
        0 <= c < 3,
    ensures
        0 <= y * w + x < w * h,
        0 <= offset(w, x, y, c) < w * h * 3,
{
    assert(0 <= y * w) by (nonlinear_arith)
        requires 0 <= y, 0 <= w;
    assert(y * w + x < w * h) by (nonlinear_arith)
        requires 0 <= x < w, 0 <= y < h;
}

proof fn lemma_offset_injective(w: int, x1: int, y1: int, c1: int, x2: int, y2: int, c2: int)
    requires
        0 <= x1 < w,
        0 <= x2 < w,
        0 <= y1,
        0 <= y2,
        0 <= c1 < 3,
        0 <= c2 < 3,
        offset(w, x1, y1, c1) == offset(w, x2, y2, c2),
    ensures
        x1 == x2 && y1 == y2 && c1 == c2,
{
    let p1 = y1 * w + x1;
    let p2 = y2 * w + x2;
    assert(p1 == p2 && c1 == c2);
    if y1 < y2 {
        assert(y1 * w + w <= y2 * w) by (nonlinear_arith)
            requires y1 < y2, 0 <= w;
    } else if y2 < y1 {
        assert(y2 * w + w <= y1 * w) by (nonlinear_arith)
            requires y2 < y1, 0 <= w;
    }
}

/// Two rasters of one size that agree on every pixel hold the same data.
pub proof fn lemma_same_pixels(a: Raster, b: Raster)
    requires
        a.wf(),
        b.wf(),
        a.width == b.width,
        a.height == b.height,
        forall|px: int, py: int, c: int| #[trigger] a.in_bounds(px, py, c) ==> a.at(px, py, c) == b.at(px, py, c),
    ensures
        a.data@ == b.data@,
{
    let w = a.width as int;
    let h = a.height as int;
    assert forall|i: int| 0 <= i < a.data@.len() implies a.data@[i] == b.data@[i] by {
        let q = i / 3;
        let c = i % 3;
        vstd::arithmetic::div_mod::lemma_fundamental_div_mod(i, 3);
        assert(0 <= q && q * 3 + c == i && 0 <= c < 3);
        assert(q < w * h) by (nonlinear_arith)
            requires i == 3 * q + c, 0 <= c, i < w * h * 3;
        assert(w > 0) by (nonlinear_arith)
            requires 0 <= q < w * h, 0 <= h, 0 <= w;
        let px = q % w;
        let py = q / w;
        vstd::arithmetic::div_mod::lemma_fundamental_div_mod(q, w);
        assert(0 <= px < w) by {
            vstd::arithmetic::div_mod::lemma_mod_bound(q, w);
        }
        assert(0 <= py < h) by (nonlinear_arith)
            requires q == w * py + px, 0 <= px < w, 0 <= q < w * h, w > 0;
        assert(offset(w, px, py, c) == i) by (nonlinear_arith)
            requires q == w * py + px, i == q * 3 + c;
        assert(a.in_bounds(px, py, c));
    }
    assert(a.data@ =~= b.data@);
}

/// Draws `top` onto `bottom` with its top-left corner at `(x, y)`: every
/// pixel of `bottom` under `top` takes the pixel of `top`, the rest stay;
/// the part of `top` that falls outside `bottom` is clipped.
pub fn overlay(bottom: &mut Raster, top: &Raster, x: u32, y: u32)
    requires
        old(bottom).wf(),
        top.wf(),
    ensures
        final(bottom).width == old(bottom).width,
        final(bottom).height == old(bottom).height,
        final(bottom).wf(),
        forall|px: int, py: int, c: int| #[trigger] final(bottom).in_bounds(px, py, c) ==>
            final(bottom).at(px, py, c) == if covers(x as int, y as int, top.width as int, top.height as int, px, py) {
                top.at(px - x, py - y, c)
            } else {
                old(bottom).at(px, py, c)
            },
{
    let bw = bottom.width;
    let bh = bottom.height;
    let tw = top.width;
    let th = top.height;
    let rw: u32 = if x >= bw { 0 } else if tw < bw - x { tw } else { bw - x };
    let rh: u32 = if y >= bh { 0 } else if th < bh - y { th } else { bh - y };
    let ghost before = *bottom;
    let mut ty: u32 = 0;
    while ty < rh
        invariant
            ty <= rh,
            rh <= th,
            rw <= tw,
            rh == 0 || y + rh <= bh,
            rw == 0 || x + rw <= bw,
            rh == 0 <==> (y >= bh || th == 0),
            rw == 0 <==> (x >= bw || tw == 0),
            rh > 0 ==> (y + rh == bh || rh == th),
            rw > 0 ==> (x + rw == bw || rw == tw),
            bw == before.width,
            bh == before.height,
            tw == top.width,
            th == top.height,
            top.wf(),
            before.wf(),
            bottom.width == bw,
            bottom.height == bh,
            bottom.wf(),
            forall|px: int, py: int, c: int| #[trigger] bottom.in_bounds(px, py, c) ==>
                bottom.at(px, py, c) == if covers(x as int, y as int, rw as int, ty as int, px, py) {
                    top.at(px - x, py - y, c)
                } else {
                    before.at(px, py, c)
                },
        decreases rh - ty,
    {
        let mut tx: u32 = 0;
        while tx < rw
            invariant
                ty < rh,
                tx <= rw,
                rh <= th,
                rw <= tw,
                y + rh <= bh,
                rw == 0 || x + rw <= bw,
                bw == before.width,
                bh == before.height,
                tw == top.width,
                th == top.height,
                top.wf(),
                before.wf(),
                bottom.width == bw,
                bottom.height == bh,
                bottom.wf(),
                forall|px: int, py: int, c: int| #[trigger] bottom.in_bounds(px, py, c) ==>
                    bottom.at(px, py, c) == if covers(x as int, y as int, rw as int, ty as int, px, py)
                        || (py == y + ty && x <= px < x + tx) {
                        top.at(px - x, py - y, c)
                    } else {
                        before.at(px, py, c)
                    },
            decreases rw - tx,
        {
            let px: u32 = x + tx;
            let py: u32 = y + ty;
            let blen = bottom.data.len();
            let tlen = top.data.len();
            proof {
                lemma_offset_in_range(bw as int, bh as int, px as int, py as int, 2);
                lemma_offset_in_range(tw as int, th as int, tx as int, ty as int, 2);
            }
            let base: usize = ((py as usize) * (bw as usize) + (px as usize)) * 3;
            let src: usize = ((ty as usize) * (tw as usize) + (tx as usize)) * 3;
            let ghost prev = *bottom;
            bottom.data.set(base, top.data[src]);
            bottom.data.set(base + 1, top.data[src + 1]);
            bottom.data.set(base + 2, top.data[src + 2]);
            proof {
                assert forall|qx: int, qy: int, c: int| #[trigger] bottom.in_bounds(qx, qy, c) implies
                    bottom.at(qx, qy, c) == if covers(x as int, y as int, rw as int, ty as int, qx, qy)
                        || (qy == y + ty && x <= qx < x + tx + 1) {
                        top.at(qx - x, qy - y, c)
                    } else {
                        before.at(qx, qy, c)
                    } by {
                    lemma_offset_in_range(bw as int, bh as int, qx, qy, c);
                    assert(prev.in_bounds(qx, qy, c));
                    if qx == px && qy == py {
                        assert(offset(bw as int, qx, qy, c) == base + c);
                        assert(offset(tw as int, qx - x, qy - y, c) == src + c);
                    } else {
                        if offset(bw as int, qx, qy, c) == base + 0 {
                            lemma_offset_injective(bw as int, qx, qy, c, px as int, py as int, 0);
                        }
                        if offset(bw as int, qx, qy, c) == base + 1 {
                            lemma_offset_injective(bw as int, qx, qy, c, px as int, py as int, 1);
                        }
                        if offset(bw as int, qx, qy, c) == base + 2 {
                            lemma_offset_injective(bw as int, qx, qy, c, px as int, py as int, 2);
                        }
                    }
                }
            }
            tx = tx + 1;
        }
        proof {
            assert forall|qx: int, qy: int, c: int| #[trigger] bottom.in_bounds(qx, qy, c) implies
                bottom.at(qx, qy, c) == if covers(x as int, y as int, rw as int, ty + 1, qx, qy) {
                    top.at(qx - x, qy - y, c)
                } else {
                    before.at(qx, qy, c)
                } by {
            }
        }
        ty = ty + 1;
    }
    proof {
        assert forall|px: int, py: int, c: int| #[trigger] bottom.in_bounds(px, py, c) implies
            bottom.at(px, py, c) == if covers(x as int, y as int, tw as int, th as int, px, py) {
                top.at(px - x, py - y, c)
            } else {
                before.at(px, py, c)
            } by {
            if covers(x as int, y as int, tw as int, th as int, px, py) {
                assert(covers(x as int, y as int, rw as int, rh as int, px, py));
            }
        }
    }
}

} // verus!
