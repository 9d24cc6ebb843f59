//! Grid compositing: a canvas painted cell by cell with the tile that each
//! cell's noise sample selects.
use vstd::prelude::*;
use vstd::arithmetic::div_mod::{lemma_fundamental_div_mod, lemma_fundamental_div_mod_converse};
use crate::assets::{model_of, TileModel};
use crate::classify::{classify, is_low, variant_of, Category};
use crate::raster::{covers, offset, overlay, Raster};

verus! {

/// Number of grid cells needed to cover `len` pixels with cells of size `t`.
pub open spec fn cells_along(len: int, t: int) -> int {
    if len % t == 0 { len / t } else { len / t + 1 }
}

/// Number of cells of the grid over a `w` x `h` canvas.
pub open spec fn grid_len(w: int, h: int, t: int) -> int {
    cells_along(w, t) * cells_along(h, t)
}

/// Top-left corner of the `k`-th cell: cells are taken column by column,
/// each column from the top, `rows` cells to a column.
pub open spec fn cell_origin(k: int, rows: int, t: int) -> (int, int) {
    ((k / rows) * t, (k % rows) * t)
}

/// Channel `c` of pixel `(x, y)` of a tile.
pub open spec fn tile_at(tile: TileModel, x: int, y: int, c: int) -> u8 {
    tile.2[offset(tile.0 as int, x, y, c)]
}

/// Channel `c` of pixel `(px, py)` after drawing each tile of `draws`
/// (origin x, origin y, tile) in order onto a black canvas.
pub open spec fn painted(draws: Seq<(int, int, TileModel)>, px: int, py: int, c: int) -> u8
    decreases draws.len(),
{
    if draws.len() == 0 {
        0
    } else {
        let d = draws.last();
        if covers(d.0, d.1, d.2.0 as int, d.2.1 as int, px, py) {
            tile_at(d.2, px - d.0, py - d.1, c)
        } else {
            painted(draws.drop_last(), px, py, c)
        }
    }
}

/// The tile that a sample selects: the low set below zero, the high set
/// otherwise, at the sample's variant index.
pub open spec fn chosen(low: Seq<TileModel>, high: Seq<TileModel>, bits: u64) -> TileModel {
    if is_low(bits) {
        low[variant_of(bits, low.len()) as int]
    } else {
        high[variant_of(bits, high.len()) as int]
    }
}

/// The draws that paint a `w` x `h` canvas: one per cell, in cell order,
/// with the tile that the cell's sample selects.
pub open spec fn scene(w: int, h: int, t: int, samples: Seq<u64>, low: Seq<TileModel>, high: Seq<TileModel>) -> Seq<(int, int, TileModel)> {
    Seq::new(samples.len(), |k: int| {
        let o = cell_origin(k, cells_along(h, t), t);
        (o.0, o.1, chosen(low, high, samples[k]))
    })
}

/// `r` is the `w` x `h` canvas that `draws` paint.
pub open spec fn shows(r: Raster, w: int, h: int, draws: Seq<(int, int, TileModel)>) -> bool {
    &&& r.width == w
    &&& r.height == h
    &&& r.wf()
    &&& forall|px: int, py: int, c: int| #[trigger] r.in_bounds(px, py, c) ==> r.at(px, py, c) == painted(draws, px, py, c)
}

pub open spec fn models(tiles: Seq<&Raster>) -> Seq<TileModel> {
    tiles.map_values(|r: &Raster| model_of(*r))
}

proof fn lemma_cells(len: int, t: int, i: int)
    requires
        0 <= len,
        0 < t,
        0 <= i,
    ensures
        i < cells_along(len, t) <==> i * t < len,
        0 <= cells_along(len, t) <= len,
{
    lemma_fundamental_div_mod(len, t);
    let q = len / t;
    let r = len % t;
    assert(0 <= q) by (nonlinear_arith)
        requires len == t * q + r, 0 <= r < t, 0 <= len, 0 < t;
    assert(q <= len) by (nonlinear_arith)
        requires len == t * q + r, 0 <= r < t, 0 <= q, 0 < t;
    if i <= q - 1 {
        assert(i * t <= (q - 1) * t) by (nonlinear_arith)
            requires i <= q - 1, 0 < t;
        assert((q - 1) * t == t * q - t) by (nonlinear_arith);
    }
    if i >= q + 1 {
        assert(i * t >= (q + 1) * t) by (nonlinear_arith)
            requires i >= q + 1, 0 < t;
        assert((q + 1) * t == t * q + t) by (nonlinear_arith);
    }
    if i == q {
        assert(i * t == t * q) by (nonlinear_arith)
            requires i == q;
    }
    if r != 0 {
        assert(q + 1 <= len) by (nonlinear_arith)
            requires len == t * q + r, 0 < r < t, 0 <= q, 0 < t;
    }
}

/// A pixel under some draw takes its value from the last draw over it.
proof fn lemma_painted_by_draw(draws: Seq<(int, int, TileModel)>, px: int, py: int, c: int, k: int)
    requires
        0 <= k < draws.len(),
        covers(draws[k].0, draws[k].1, draws[k].2.0 as int, draws[k].2.1 as int, px, py),
    ensures
        exists|j: int| 0 <= j < draws.len()
            && #[trigger] covers(draws[j].0, draws[j].1, draws[j].2.0 as int, draws[j].2.1 as int, px, py)
            && painted(draws, px, py, c) == tile_at(draws[j].2, px - draws[j].0, py - draws[j].1, c),
    decreases draws.len(),
{
    let n = draws.len() - 1;
    let d = draws.last();
    if covers(d.0, d.1, d.2.0 as int, d.2.1 as int, px, py) {
        assert(covers(draws[n].0, draws[n].1, draws[n].2.0 as int, draws[n].2.1 as int, px, py));
    } else {
        let rest = draws.drop_last();
        assert(k < n);
        assert(rest[k] == draws[k]);
        lemma_painted_by_draw(rest, px, py, c, k);
        let j = choose|j: int| 0 <= j < rest.len()
            && #[trigger] covers(rest[j].0, rest[j].1, rest[j].2.0 as int, rest[j].2.1 as int, px, py)
            && painted(rest, px, py, c) == tile_at(rest[j].2, px - rest[j].0, py - rest[j].1, c);
        assert(rest[j] == draws[j]);
    }
}

/// Every pixel of the canvas lies under some draw of the scene, and takes
/// its value from such a draw, provided that each tile spans at least one
/// cell in each direction: no pixel keeps the black background.
pub proof fn lemma_scene_covers(
    w: int,
    h: int,
    t: int,
    samples: Seq<u64>,
    low: Seq<TileModel>,
    high: Seq<TileModel>,
    px: int,
    py: int,
    c: int,
)
    requires
        t > 0,
        samples.len() == grid_len(w, h, t),
        low.len() > 0,
        high.len() > 0,
        forall|i: int| 0 <= i < low.len() ==> (#[trigger] low[i]).0 >= t && low[i].1 >= t,
        forall|i: int| 0 <= i < high.len() ==> (#[trigger] high[i]).0 >= t && high[i].1 >= t,
        0 <= px < w,
        0 <= py < h,
    ensures
        exists|k: int| 0 <= k < samples.len() && #[trigger] covers(
            scene(w, h, t, samples, low, high)[k].0,
            scene(w, h, t, samples, low, high)[k].1,
            scene(w, h, t, samples, low, high)[k].2.0 as int,
            scene(w, h, t, samples, low, high)[k].2.1 as int,
            px,
            py,
        ) && painted(scene(w, h, t, samples, low, high), px, py, c) == tile_at(
            scene(w, h, t, samples, low, high)[k].2,
            px - scene(w, h, t, samples, low, high)[k].0,
            py - scene(w, h, t, samples, low, high)[k].1,
            c,
        ),
{
    let sc = scene(w, h, t, samples, low, high);
    let cols = cells_along(w, t);
    let rows = cells_along(h, t);
    let ix = px / t;
    let iy = py / t;
    lemma_fundamental_div_mod(px, t);
    lemma_fundamental_div_mod(py, t);
    vstd::arithmetic::div_mod::lemma_mod_bound(px, t);
    vstd::arithmetic::div_mod::lemma_mod_bound(py, t);
    assert(0 <= ix) by (nonlinear_arith)
        requires px == t * ix + px % t, 0 <= px % t < t, 0 <= px, t > 0;
    assert(0 <= iy) by (nonlinear_arith)
        requires py == t * iy + py % t, 0 <= py % t < t, 0 <= py, t > 0;
    assert(ix * t <= px) by (nonlinear_arith)
        requires px == t * ix + px % t, 0 <= px % t;
    assert(iy * t <= py) by (nonlinear_arith)
        requires py == t * iy + py % t, 0 <= py % t;
    lemma_cells(w, t, ix);
    lemma_cells(h, t, iy);
    let k = ix * rows + iy;
    assert(0 <= k < cols * rows) by (nonlinear_arith)
        requires 0 <= ix < cols, 0 <= iy < rows, k == ix * rows + iy;
    lemma_fundamental_div_mod_converse(k, rows, ix, iy);
    let tile = chosen(low, high, samples[k]);
    crate::classify::lemma_variant_in_range(samples[k], low.len());
    crate::classify::lemma_variant_in_range(samples[k], high.len());
    assert(tile.0 >= t && tile.1 >= t);
    assert(sc[k].0 == ix * t && sc[k].1 == iy * t);
    assert(px < ix * t + t && py < iy * t + t) by (nonlinear_arith)
        requires px == t * ix + px % t, px % t < t, py == t * iy + py % t, py % t < t;
    assert(covers(sc[k].0, sc[k].1, sc[k].2.0 as int, sc[k].2.1 as int, px, py));
    lemma_painted_by_draw(sc, px, py, c, k);
}

/// On a composed canvas every pixel holds the pixel of a tile drawn over
/// it, provided that each tile spans at least one cell in each direction:
/// none keeps the black of the fresh canvas.
pub proof fn lemma_canvas_fully_painted(
    canvas: Raster,
    w: int,
    h: int,
    t: int,
    samples: Seq<u64>,
    low: Seq<TileModel>,
    high: Seq<TileModel>,
    px: int,
    py: int,
    c: int,
)
    requires
        shows(canvas, w, h, scene(w, h, t, samples, low, high)),
        t > 0,
        samples.len() == grid_len(w, h, t),
        low.len() > 0,
        high.len() > 0,
        forall|i: int| 0 <= i < low.len() ==> (#[trigger] low[i]).0 >= t && low[i].1 >= t,
        forall|i: int| 0 <= i < high.len() ==> (#[trigger] high[i]).0 >= t && high[i].1 >= t,
        0 <= px < w,
        0 <= py < h,
        0 <= c < 3,
    ensures
        exists|k: int| 0 <= k < samples.len() && #[trigger] covers(
            scene(w, h, t, samples, low, high)[k].0,
            scene(w, h, t, samples, low, high)[k].1,
            scene(w, h, t, samples, low, high)[k].2.0 as int,
            scene(w, h, t, samples, low, high)[k].2.1 as int,
            px,
            py,
        ) && canvas.at(px, py, c) == tile_at(
            scene(w, h, t, samples, low, high)[k].2,
            px - scene(w, h, t, samples, low, high)[k].0,
            py - scene(w, h, t, samples, low, high)[k].1,
            c,
        ),
{
    lemma_scene_covers(w, h, t, samples, low, high, px, py, c);
    assert(canvas.in_bounds(px, py, c));
}

/// Number of cells needed along a side of `len` pixels.
fn cell_count(len: u32, t: u32) -> (r: usize)
    requires
        t > 0,
    ensures
        r == cells_along(len as int, t as int),
{
    proof {
        lemma_cells(len as int, t as int, 0);
    }
    if len % t == 0 {
        (len / t) as usize
    } else {
        (len / t) as usize + 1
    }
}

/// Top-left corners of the grid cells over a `width` x `height` canvas,
/// in the order in which they are painted.
pub fn grid_origins(width: u32, height: u32, tile_size: u32) -> (r: Vec<(u32, u32)>)
    requires
        tile_size > 0,
        grid_len(width as int, height as int, tile_size as int) <= usize::MAX,
    ensures
        r@.len() == grid_len(width as int, height as int, tile_size as int),
        forall|k: int| 0 <= k < r@.len() ==> (#[trigger] r@[k]).0 as int == cell_origin(k, cells_along(height as int, tile_size as int), tile_size as int).0
            && r@[k].1 as int == cell_origin(k, cells_along(height as int, tile_size as int), tile_size as int).1,
{
    let cols = cell_count(width, tile_size);
    let rows = cell_count(height, tile_size);
    let ghost t = tile_size as int;
    let mut r: Vec<(u32, u32)> = Vec::new();
    let mut ix: usize = 0;
    while ix < cols
        invariant
            cols == cells_along(width as int, t),
            rows == cells_along(height as int, t),
            t == tile_size,
            t > 0,
            cols * rows <= usize::MAX,
            ix <= cols,
            r@.len() == ix * rows,
            forall|k: int| 0 <= k < r@.len() ==> (#[trigger] r@[k]).0 as int == cell_origin(k, rows as int, t).0
                && r@[k].1 as int == cell_origin(k, rows as int, t).1,
        decreases cols - ix,
    {
        proof {
            lemma_cells(width as int, t, ix as int);
        }
        let x: u32 = (ix as u32) * tile_size;
        let mut iy: usize = 0;
        while iy < rows
            invariant
                cols == cells_along(width as int, t),
                rows == cells_along(height as int, t),
                t == tile_size,
                t > 0,
                cols * rows <= usize::MAX,
                ix < cols,
                iy <= rows,
                x == ix * t,
                r@.len() == ix * rows + iy,
                forall|k: int| 0 <= k < r@.len() ==> (#[trigger] r@[k]).0 as int == cell_origin(k, rows as int, t).0
                    && r@[k].1 as int == cell_origin(k, rows as int, t).1,
            decreases rows - iy,
        {
            proof {
                lemma_cells(height as int, t, iy as int);
                lemma_fundamental_div_mod_converse(ix * rows + iy, rows as int, ix as int, iy as int);
            }
            let y: u32 = (iy as u32) * tile_size;
            r.push((x, y));
            iy = iy + 1;
        }
        proof {
            assert((ix + 1) * rows == ix * rows + rows) by (nonlinear_arith);
        }
        ix = ix + 1;
    }
    r
}

/// Paints a `width` x `height` canvas: for each grid cell in order, the
/// cell's sample picks a tile of `low` or `high`, drawn at the cell's
/// top-left corner and clipped to the canvas.
pub fn compose(
    width: u32,
    height: u32,
    tile_size: u32,
    samples: &Vec<u64>,
    low: &Vec<&Raster>,
    high: &Vec<&Raster>,
) -> (r: Raster)
    requires
        tile_size > 0,
        width * height * 3 <= usize::MAX,
        samples@.len() == grid_len(width as int, height as int, tile_size as int),
        low@.len() > 0,
        high@.len() > 0,
        forall|i: int| 0 <= i < low@.len() ==> (#[trigger] low@[i]).wf(),
        forall|i: int| 0 <= i < high@.len() ==> (#[trigger] high@[i]).wf(),
    ensures
        shows(r, width as int, height as int,
            scene(width as int, height as int, tile_size as int, samples@, models(low@), models(high@))),
{
    let ghost t = tile_size as int;
    let ghost sc = scene(width as int, height as int, t, samples@, models(low@), models(high@));
    let cols = cell_count(width, tile_size);
    let rows = cell_count(height, tile_size);
    let n_samples = samples.len();
    let mut canvas = Raster::new(width, height);
    proof {
        assert forall|px: int, py: int, c: int| #[trigger] canvas.in_bounds(px, py, c) implies
            canvas.at(px, py, c) == painted(sc.take(0), px, py, c) by {
            crate::raster::lemma_offset_in_range(width as int, height as int, px, py, c);
        }
    }
    let mut ix: usize = 0;
    while ix < cols
        invariant
            cols == cells_along(width as int, t),
            rows == cells_along(height as int, t),
            t == tile_size,
            t > 0,
            samples@.len() == cols * rows,
            cols * rows <= usize::MAX,
            sc == scene(width as int, height as int, t, samples@, models(low@), models(high@)),
            low@.len() > 0,
            high@.len() > 0,
            forall|i: int| 0 <= i < low@.len() ==> (#[trigger] low@[i]).wf(),
            forall|i: int| 0 <= i < high@.len() ==> (#[trigger] high@[i]).wf(),
            ix <= cols,
            canvas.width == width,
            canvas.height == height,
            canvas.wf(),
            forall|px: int, py: int, c: int| #[trigger] canvas.in_bounds(px, py, c) ==>
                canvas.at(px, py, c) == painted(sc.take(ix * rows), px, py, c),
        decreases cols - ix,
    {
        proof {
            lemma_cells(width as int, t, ix as int);
        }
        let x: u32 = (ix as u32) * tile_size;
        let mut iy: usize = 0;
        while iy < rows
            invariant
                cols == cells_along(width as int, t),
                rows == cells_along(height as int, t),
                t == tile_size,
                t > 0,
                samples@.len() == cols * rows,
                cols * rows <= usize::MAX,
                sc == scene(width as int, height as int, t, samples@, models(low@), models(high@)),
                low@.len() > 0,
                high@.len() > 0,
                forall|i: int| 0 <= i < low@.len() ==> (#[trigger] low@[i]).wf(),
                forall|i: int| 0 <= i < high@.len() ==> (#[trigger] high@[i]).wf(),
                ix < cols,
                iy <= rows,
                x == ix * t,
                canvas.width == width,
                canvas.height == height,
                canvas.wf(),
                forall|px: int, py: int, c: int| #[trigger] canvas.in_bounds(px, py, c) ==>
                    canvas.at(px, py, c) == painted(sc.take(ix * rows + iy), px, py, c),
            decreases rows - iy,
        {
            proof {
                lemma_cells(height as int, t, iy as int);
                lemma_fundamental_div_mod_converse(ix * rows + iy, rows as int, ix as int, iy as int);
                assert(ix * rows + iy < cols * rows) by (nonlinear_arith)
                    requires ix < cols, iy < rows;
            }
            let y: u32 = (iy as u32) * tile_size;
            let k: usize = ix * rows + iy;
            let (category, variant) = classify(samples[k], low.len(), high.len());
            let tile: &Raster = match category {
                Category::Low => low[variant],
                Category::High => high[variant],
            };
            let ghost before = canvas;
            proof {
                assert(sc[k as int].2 == model_of(*tile));
                assert(sc[k as int].0 == x && sc[k as int].1 == y);
            }
            overlay(&mut canvas, tile, x, y);
            proof {
                let s1 = sc.take(k as int + 1);
                assert(s1.drop_last() =~= sc.take(k as int));
                assert(s1.last() == sc[k as int]);
                assert forall|px: int, py: int, c: int| #[trigger] canvas.in_bounds(px, py, c) implies
                    canvas.at(px, py, c) == painted(s1, px, py, c) by {
                    assert(before.in_bounds(px, py, c));
                }
            }
            iy = iy + 1;
        }
        proof {
            assert((ix + 1) * rows == ix * rows + rows) by (nonlinear_arith);
        }
        ix = ix + 1;
    }
    proof {
        assert(sc.take(cols * rows) =~= sc);
    }
    canvas
}

} // verus!
