//! The map view: which tiles of which level are drawn, what stands in for those
//! that are missing, and when the view counts as still.
use vstd::prelude::*;
use vstd::std_specs::hash::*;

use crate::number::Single;
use crate::tiles::cache;
use crate::tiles::cache::{CacheState, TileCache};
use crate::tiles::source::{Dataset, RasterLayer, TileDesc};

verus! {

broadcast use vstd::std_specs::hash::group_hash_axioms;

/// How many parent levels are looked through for a tile that is missing.
pub const MAX_PARENT_LEVELS: u8 = 5;

/// Most tiles of a layer. Past it a coarser level is drawn.
pub const MAX_TILES_PER_LAYER: i128 = 400;

/// Tile requests on the wire: enough to keep a connection busy, few enough to
/// bound what a fast pan leaves behind.
pub const MAX_TILE_REQUESTS: usize = 16;

/// The finest level that any layer has.
pub const DEEPEST: u8 = 19;

/// Tiles kept.
pub const TILE_CAPACITY: usize = 512;

/// Tiles decoded in a frame.
pub const RASTER_DECODE_BUDGET: usize = 4;

/// Nanoseconds that the wheel has to be still before a new level is drawn.
pub const ZOOM_SETTLE_NS: u64 = 130_000_000;

/// Nanoseconds that the previous level stays underneath after a switch.
pub const LEVEL_CROSSFADE_NS: u64 = 500_000_000;

/// Nanoseconds that the view has to be still before trails are fetched for it.
pub const VIEW_SETTLE_NS: u64 = 500_000_000;

/// One tile of a layer.
#[derive(Clone, Copy, Debug, PartialEq, Eq, Hash, Structural)]
pub struct RasterKey {
    pub layer: RasterLayer,
    pub z: u8,
    pub x: u32,
    pub y: u32,
}

/// A layer as a number.
pub open spec fn layer_index(l: RasterLayer) -> int {
    match l {
        RasterLayer::PlanIgn => 0,
        RasterLayer::Contours => 1,
        RasterLayer::Slopes => 2,
        RasterLayer::Ortho => 3,
    }
}

fn index_of_layer(l: RasterLayer) -> (i: usize)
    ensures
        i == layer_index(l),
        i < 4,
{
    match l {
        RasterLayer::PlanIgn => 0,
        RasterLayer::Contours => 1,
        RasterLayer::Slopes => 2,
        RasterLayer::Ortho => 3,
    }
}

impl RasterKey {
    /// A key as one number.
    pub open spec fn code_of(self) -> u128 {
        (layer_index(self.layer) * 0x1_00_0000_0000_0000_0000 + self.z * 0x1_0000_0000_0000_0000
            + self.x * 0x1_0000_0000 + self.y) as u128
    }

    /// A key as one number.
    pub fn code(self) -> (c: u128)
        ensures
            c == self.code_of(),
    {
        index_of_layer(self.layer) as u128 * 0x1_00_0000_0000_0000_0000 + self.z as u128
            * 0x1_0000_0000_0000_0000 + self.x as u128 * 0x1_0000_0000 + self.y as u128
    }

    /// The tile of a key.
    pub open spec fn desc_of(self) -> TileDesc {
        TileDesc { dataset: Dataset::Raster(self.layer), z: self.z, x: self.x, y: self.y }
    }

    /// The tile of a key.
    pub fn desc(self) -> (d: TileDesc)
        ensures
            d == self.desc_of(),
    {
        TileDesc { dataset: Dataset::Raster(self.layer), z: self.z, x: self.x, y: self.y }
    }
}

/// Different keys are different numbers.
pub proof fn law_codes_differ(a: RasterKey, b: RasterKey)
    ensures
        a.code_of() == b.code_of() ==> a == b,
{
}

// ---------------------------------------------------------------------------
// Stillness
// ---------------------------------------------------------------------------

/// When the view was last moved.
#[derive(Clone, Copy, Debug, PartialEq, Eq, Structural)]
pub struct Motion {
    /// Last change of zoom. Nothing means never, so that a new view counts as
    /// still and its first frame loads its tiles.
    pub zoom_changed_ns: Option<u64>,
    /// Last movement of any kind.
    pub moved_ns: Option<u64>,
}

/// A moment lies at least some time back, or never was.
pub open spec fn still_since(at: Option<u64>, now_ns: u64, wait_ns: u64) -> bool {
    match at {
        Some(t) => now_ns - t >= wait_ns,
        None => true,
    }
}

fn is_still(at: Option<u64>, now_ns: u64, wait_ns: u64) -> (b: bool)
    requires
        wait_ns > 0,
    ensures
        b == still_since(at, now_ns, wait_ns),
{
    match at {
        Some(t) => now_ns > t && now_ns - t >= wait_ns,
        None => true,
    }
}

impl Motion {
    /// A view that was never moved.
    pub fn new() -> (m: Self)
        ensures
            m.zoom_changed_ns is None,
            m.moved_ns is None,
    {
        Motion { zoom_changed_ns: None, moved_ns: None }
    }

    /// Whether the wheel was still for long enough to draw a new level.
    pub fn zoom_settled(&self, now_ns: u64) -> (b: bool)
        ensures
            b == still_since(self.zoom_changed_ns, now_ns, ZOOM_SETTLE_NS),
    {
        is_still(self.zoom_changed_ns, now_ns, ZOOM_SETTLE_NS)
    }

    /// Whether the view was still for long enough to fetch trails for it.
    pub fn view_settled(&self, now_ns: u64) -> (b: bool)
        ensures
            b == still_since(self.moved_ns, now_ns, VIEW_SETTLE_NS),
    {
        is_still(self.moved_ns, now_ns, VIEW_SETTLE_NS)
    }

    /// The view was moved.
    pub fn touch(&mut self, now_ns: u64)
        ensures
            *final(self) == (Motion { moved_ns: Some(now_ns), ..*old(self) }),
    {
        self.moved_ns = Some(now_ns);
    }

    /// The view was zoomed, which moves it too. A zoom that changes nothing, as
    /// against a stop, does not: it would hold up the loading.
    pub fn zoomed(&mut self, before: Single, after: Single, now_ns: u64)
        ensures
            *final(self) == if before.at_most(after) && after.at_most(before) {
                *old(self)
            } else {
                Motion { zoom_changed_ns: Some(now_ns), moved_ns: Some(now_ns) }
            },
    {
        if !(before.le(after) && after.le(before)) {
            self.zoom_changed_ns = Some(now_ns);
            self.moved_ns = Some(now_ns);
        }
    }
}

// ---------------------------------------------------------------------------
// Levels
// ---------------------------------------------------------------------------

/// The level drawn for a layer, and the one it replaced.
#[derive(Clone, Copy, Debug, PartialEq, Eq, Structural)]
pub struct LayerLevel {
    pub z: u8,
    pub previous: u8,
    pub switched_ns: u64,
}

/// A number kept between two others.
pub open spec fn kept_between(v: u8, low: u8, high: u8) -> u8 {
    if v < low {
        low
    } else if v > high {
        high
    } else {
        v
    }
}

/// The level to commit to once the zoom is still: the target. One that is drawn
/// already keeps the moment of its switch, so that the crossfade does not start
/// over in every frame.
pub open spec fn committed(current: Option<LayerLevel>, target: u8, now_ns: u64) -> LayerLevel {
    match current {
        Some(l) => if l.z == target {
            l
        } else {
            LayerLevel { z: target, previous: l.z, switched_ns: now_ns }
        },
        None => LayerLevel { z: target, previous: target, switched_ns: now_ns },
    }
}

/// The level to draw while the zoom is in motion: the one that is loaded, scaled,
/// but neither much coarser nor much finer than the target.
pub open spec fn carried(held: LayerLevel, target: u8, min_z: u8, max_z: u8) -> LayerLevel {
    let coarse = if target >= 3 {
        (target - 3) as u8
    } else {
        0
    };
    let low = if coarse < min_z {
        min_z
    } else {
        coarse
    };
    let high = if target < max_z {
        (target + 1) as u8
    } else {
        max_z
    };
    LayerLevel { z: kept_between(held.z, low, high), ..held }
}

/// A range of tiles of one level: columns and rows, first and last.
#[derive(Clone, Copy, Debug, PartialEq, Eq, Structural)]
pub struct Grid {
    pub z: u8,
    pub x0: i64,
    pub x1: i64,
    pub y0: i64,
    pub y1: i64,
}

/// Two to the power of a level.
pub open spec fn tiles_across(z: nat) -> int
    decreases z,
{
    if z == 0 {
        1
    } else {
        2 * tiles_across((z - 1) as nat)
    }
}

fn across(z: u8) -> (n: i64)
    requires
        z <= 30,
    ensures
        n == tiles_across(z as nat),
        1 <= n <= 0x4000_0000,
{
    let mut n: i64 = 1;
    let mut k: u8 = 0;
    proof {
        lemma_across(z as nat);
    }
    while k < z
        invariant
            k <= z <= 30,
            n == tiles_across(k as nat),
            1 <= n,
            n <= 0x4000_0000,
            tiles_across(30) == 0x4000_0000,
        decreases z - k,
    {
        proof {
            lemma_across_grows((k + 1) as nat, 30);
        }
        n = 2 * n;
        k = k + 1;
    }
    n
}

proof fn lemma_across(z: nat)
    ensures
        tiles_across(30) == 0x4000_0000,
        tiles_across(z) >= 1,
    decreases z,
{
    reveal_with_fuel(tiles_across, 31);
    if z > 0 {
        lemma_across((z - 1) as nat);
    }
}

proof fn lemma_across_grows(a: nat, b: nat)
    requires
        a <= b,
    ensures
        1 <= tiles_across(a) <= tiles_across(b),
    decreases b,
{
    if a < b {
        lemma_across_grows(a, (b - 1) as nat);
    } else if a > 0 {
        lemma_across_grows((a - 1) as nat, (a - 1) as nat);
    }
}

/// The columns and rows of a window at a level, the rows kept to the world.
pub open spec fn grid_at(z: u8, window: (i64, i64, i64, i64)) -> Grid {
    Grid {
        z,
        x0: window.0,
        x1: window.1,
        y0: if window.2 < 0 {
            0
        } else {
            window.2
        },
        y1: if window.3 > tiles_across(z as nat) - 1 {
            (tiles_across(z as nat) - 1) as i64
        } else {
            window.3
        },
    }
}

/// How many tiles a grid has.
pub open spec fn grid_count(g: Grid) -> int {
    let w = if g.x1 < g.x0 {
        0
    } else {
        g.x1 - g.x0 + 1
    };
    let h = if g.y1 < g.y0 {
        0
    } else {
        g.y1 - g.y0 + 1
    };
    w * h
}

/// The grid to draw, from a level down: the first with few enough tiles. Nothing
/// where a level has no tiles, or where even the coarsest has too many.
pub open spec fn chosen_grid(
    windows: spec_fn(u8) -> (i64, i64, i64, i64),
    z: u8,
    min_z: u8,
) -> Option<Grid>
    decreases z,
{
    let g = grid_at(z, windows(z));
    if grid_count(g) == 0 {
        None
    } else if grid_count(g) <= MAX_TILES_PER_LAYER {
        Some(g)
    } else if z <= min_z || z == 0 {
        None
    } else {
        chosen_grid(windows, (z - 1) as u8, min_z)
    }
}

/// The answers of a window function, from a level up to another.
pub open spec fn answers<F: Fn(u8) -> (i64, i64, i64, i64)>(
    window: F,
    windows: spec_fn(u8) -> (i64, i64, i64, i64),
    from: u8,
    to: u8,
) -> bool {
    forall|l: u8| from <= l <= to ==> call_ensures(window, (l,), #[trigger] windows(l))
}

/// Chooses the grid to draw, from a level down. A very wide window gets a coarser
/// level rather than nothing. `window` gives the columns and rows of the window
/// at a level.
pub fn choose_grid<F: Fn(u8) -> (i64, i64, i64, i64)>(z: u8, min_z: u8, window: &F) -> (r: Option<
    Grid,
>)
    requires
        z <= 30,
        forall|l: u8| call_requires(*window, (l,)),
    ensures
        exists|windows: spec_fn(u8) -> (i64, i64, i64, i64)|
            answers(*window, windows, last_tried(windows, z, min_z), z) && r
                == #[trigger] chosen_grid(windows, z, min_z),
{
    let ghost mut windows: spec_fn(u8) -> (i64, i64, i64, i64) = |l: u8| (0i64, 0i64, 0i64, 0i64);
    let mut level: u8 = z;
    loop
        invariant
            level <= z <= 30,
            forall|l: u8| call_requires(*window, (l,)),
            forall|l: u8| level < l <= z ==> call_ensures(*window, (l,), #[trigger] windows(l)),
            forall|l: u8|
                level < l <= z ==> ({
                    let g = grid_at(l, #[trigger] windows(l));
                    &&& grid_count(g) > MAX_TILES_PER_LAYER
                    &&& l > min_z
                    &&& l > 0
                }),
        decreases level,
    {
        let w: (i64, i64, i64, i64) = window(level);
        let ghost before = windows;
        proof {
            windows = |l: u8|
                if l == level {
                    w
                } else {
                    before(l)
                };
            assert forall|l: u8| level <= l <= z implies call_ensures(
                *window,
                (l,),
                #[trigger] windows(l),
            ) by {
                if l != level {
                    assert(windows(l) == before(l));
                }
            }
            assert forall|l: u8| level < l <= z implies ({
                let g = grid_at(l, #[trigger] windows(l));
                &&& grid_count(g) > MAX_TILES_PER_LAYER
                &&& l > min_z
                &&& l > 0
            }) by {
                assert(windows(l) == before(l));
            }
            lemma_chosen(windows, z, level, min_z);
            assert(windows(level) == w);
        }
        let n: i64 = across(level);
        let y0: i64 = if w.2 < 0 {
            0
        } else {
            w.2
        };
        let y1: i64 = if w.3 > n - 1 {
            n - 1
        } else {
            w.3
        };
        let wide: i128 = if w.1 < w.0 {
            0
        } else {
            w.1 as i128 - w.0 as i128 + 1
        };
        let high: i128 = if y1 < y0 {
            0
        } else {
            y1 as i128 - y0 as i128 + 1
        };
        let g = Grid { z: level, x0: w.0, x1: w.1, y0, y1 };
        assert(g == grid_at(level, w));
        proof {
            assert(0 <= wide * high <= 0x1_0000_0000_0000_0000 * 0x4000_0000) by (nonlinear_arith)
                requires
                    0 <= wide <= 0x1_0000_0000_0000_0000,
                    0 <= high <= 0x4000_0000,
            ;
        }
        let count: i128 = wide * high;
        assert(count == grid_count(g));
        if count == 0 {
            return None;
        }
        if count <= MAX_TILES_PER_LAYER {
            return Some(g);
        }
        if level <= min_z || level == 0 {
            return None;
        }
        level = level - 1;
    }
}

/// The level at which the choice of a grid ends.
pub open spec fn last_tried(
    windows: spec_fn(u8) -> (i64, i64, i64, i64),
    z: u8,
    min_z: u8,
) -> u8
    decreases z,
{
    let g = grid_at(z, windows(z));
    if grid_count(g) <= MAX_TILES_PER_LAYER || z <= min_z || z == 0 {
        z
    } else {
        last_tried(windows, (z - 1) as u8, min_z)
    }
}

proof fn lemma_chosen(
    windows: spec_fn(u8) -> (i64, i64, i64, i64),
    z: u8,
    level: u8,
    min_z: u8,
)
    requires
        level <= z,
        forall|l: u8|
            level < l <= z ==> ({
                let g = grid_at(l, #[trigger] windows(l));
                &&& grid_count(g) > MAX_TILES_PER_LAYER
                &&& l > min_z
                &&& l > 0
            }),
    ensures
        chosen_grid(windows, z, min_z) == chosen_grid(windows, level, min_z),
        last_tried(windows, z, min_z) == last_tried(windows, level, min_z),
    decreases z,
{
    if level < z {
        assert(grid_count(grid_at(z, windows(z))) > MAX_TILES_PER_LAYER);
        lemma_chosen(windows, (z - 1) as u8, level, min_z);
    }
}

proof fn lemma_chosen_is_sound(
    windows: spec_fn(u8) -> (i64, i64, i64, i64),
    z: u8,
    min_z: u8,
)
    ensures
        chosen_grid(windows, z, min_z) matches Some(g) ==> {
            &&& g.z <= z
            &&& 0 <= g.y0 <= g.y1 < tiles_across(g.z as nat)
            &&& g.x0 <= g.x1
            &&& g.x1 - g.x0 < MAX_TILES_PER_LAYER
        },
    decreases z,
{
    let g = grid_at(z, windows(z));
    lemma_across(z as nat);
    if grid_count(g) != 0 && grid_count(g) <= MAX_TILES_PER_LAYER {
        let w = g.x1 - g.x0 + 1;
        let h = g.y1 - g.y0 + 1;
        assert(w > 0 && h > 0) by {
            if w <= 0 {
                assert(grid_count(g) == 0) by (nonlinear_arith)
                    requires
                        w <= 0,
                        w == g.x1 - g.x0 + 1,
                ;
            } else if h <= 0 {
                assert(grid_count(g) == 0) by (nonlinear_arith)
                    requires
                        h <= 0,
                        h == g.y1 - g.y0 + 1,
                ;
            }
        }
        assert(w <= w * h) by (nonlinear_arith)
            requires
                w > 0,
                h > 0,
        ;
    } else if grid_count(g) > MAX_TILES_PER_LAYER && z > min_z && z > 0 {
        lemma_chosen_is_sound(windows, (z - 1) as u8, min_z);
    }
}

/// The grid that is drawn has some tiles and not too many, and none outside the
/// world's rows.
pub proof fn law_grids_are_bounded(
    windows: spec_fn(u8) -> (i64, i64, i64, i64),
    z: u8,
    min_z: u8,
)
    ensures
        chosen_grid(windows, z, min_z) matches Some(g) ==> {
            &&& 0 < grid_count(g) <= MAX_TILES_PER_LAYER
            &&& 0 <= g.y0 <= g.y1 < tiles_across(g.z as nat)
            &&& g.z <= z
        },
    decreases z,
{
    lemma_chosen_is_sound(windows, z, min_z);
    let g = grid_at(z, windows(z));
    lemma_count_is_positive(g);
    if grid_count(g) > MAX_TILES_PER_LAYER && z > min_z && z > 0 {
        law_grids_are_bounded(windows, (z - 1) as u8, min_z);
    }
}

proof fn lemma_count_is_positive(g: Grid)
    ensures
        grid_count(g) >= 0,
{
    let w = if g.x1 < g.x0 {
        0
    } else {
        g.x1 - g.x0 + 1
    };
    let h = if g.y1 < g.y0 {
        0
    } else {
        g.y1 - g.y0 + 1
    };
    assert(w * h >= 0) by (nonlinear_arith)
        requires
            w >= 0,
            h >= 0,
    ;
}

// ---------------------------------------------------------------------------
// Tiles
// ---------------------------------------------------------------------------

/// What is drawn for a tile: itself, a part of an ancestor, or nothing.
#[derive(Clone, Copy, Debug, PartialEq, Eq, Structural)]
pub enum Draw {
    Own(RasterKey),
    /// The ancestor so many levels up, and which of its parts, by column and row.
    Part { ancestor: RasterKey, levels: u8, column: u32, row: u32 },
    Nothing,
}

/// The ancestor of a tile so many levels up.
pub open spec fn ancestor_of(key: RasterKey, k: u8) -> RasterKey {
    RasterKey {
        layer: key.layer,
        z: (key.z - k) as u8,
        x: (key.x as int / tiles_across(k as nat)) as u32,
        y: (key.y as int / tiles_across(k as nat)) as u32,
    }
}

/// The part of an ancestor that a tile is.
pub open spec fn part_of(key: RasterKey, k: u8) -> Draw {
    Draw::Part {
        ancestor: ancestor_of(key, k),
        levels: k,
        column: (key.x as int % tiles_across(k as nat)) as u32,
        row: (key.y as int % tiles_across(k as nat)) as u32,
    }
}

/// How far up ancestors are looked for.
pub open spec fn levels_up(z: u8) -> u8 {
    if z < MAX_PARENT_LEVELS {
        z
    } else {
        MAX_PARENT_LEVELS
    }
}

/// The nearest ancestor at hand, from `k` levels up on.
pub open spec fn nearest_ancestor<V>(s: CacheState<u128, V>, key: RasterKey, k: u8) -> Option<u8>
    decreases MAX_PARENT_LEVELS + 1 - k,
{
    if k > levels_up(key.z) {
        None
    } else if s.ready.contains_key(ancestor_of(key, k).code_of()) {
        Some(k)
    } else {
        nearest_ancestor(s, key, (k + 1) as u8)
    }
}

/// What is drawn for a tile, with what that does to the cache. With `fetch`
/// missing tiles are asked for, and their parents where no ancestor stands in:
/// one coarse tile covers four fine ones and arrives sooner.
pub open spec fn planned<V>(
    s: CacheState<u128, V>,
    key: RasterKey,
    min_z: u8,
    fetch: bool,
) -> (CacheState<u128, V>, Draw) {
    let code = key.code_of();
    if s.ready.contains_key(code) {
        (s.touched(code), Draw::Own(key))
    } else if !fetch {
        (s, Draw::Nothing)
    } else {
        let t = s.wanted(code, key.desc_of());
        match nearest_ancestor(t, key, 1) {
            Some(k) => (t.touched(ancestor_of(key, k).code_of()), part_of(key, k)),
            None => if key.z > min_z && key.z > 0 {
                let parent = ancestor_of(key, 1);
                (t.wanted(parent.code_of(), parent.desc_of()), Draw::Nothing)
            } else {
                (t, Draw::Nothing)
            },
        }
    }
}

/// The key of a tile of a grid. Columns fold back onto the world.
pub open spec fn key_in(layer: RasterLayer, z: u8, tx: int, ty: int) -> RasterKey {
    RasterKey { layer, z, x: (tx % tiles_across(z as nat)) as u32, y: ty as u32 }
}

/// One tile of a grid, with what is drawn for it.
#[derive(Clone, Copy, Debug, PartialEq, Eq, Structural)]
pub struct Placed {
    pub tx: i64,
    pub ty: i64,
    pub draw: Draw,
}

/// The first `n` tiles of a row, with what that does to the cache.
pub open spec fn row_planned<V>(
    s: CacheState<u128, V>,
    layer: RasterLayer,
    g: Grid,
    min_z: u8,
    fetch: bool,
    ty: int,
    n: nat,
) -> (CacheState<u128, V>, Seq<Placed>)
    decreases n,
{
    if n == 0 {
        (s, seq![])
    } else {
        let (t, done) = row_planned(s, layer, g, min_z, fetch, ty, (n - 1) as nat);
        let tx = g.x0 + n - 1;
        let (u, draw) = planned(t, key_in(layer, g.z, tx, ty), min_z, fetch);
        (u, done.push(Placed { tx: tx as i64, ty: ty as i64, draw }))
    }
}

/// The first `m` rows of a grid, with what that does to the cache.
pub open spec fn rows_planned<V>(
    s: CacheState<u128, V>,
    layer: RasterLayer,
    g: Grid,
    min_z: u8,
    fetch: bool,
    m: nat,
) -> (CacheState<u128, V>, Seq<Placed>)
    decreases m,
{
    if m == 0 {
        (s, seq![])
    } else {
        let (t, done) = rows_planned(s, layer, g, min_z, fetch, (m - 1) as nat);
        let (u, row) = row_planned(
            t,
            layer,
            g,
            min_z,
            fetch,
            g.y0 + m - 1,
            (g.x1 - g.x0 + 1) as nat,
        );
        (u, done + row)
    }
}

/// How many tiles are drawn by themselves.
pub open spec fn own_count(placed: Seq<Placed>) -> nat
    decreases placed.len(),
{
    if placed.len() == 0 {
        0
    } else {
        own_count(placed.drop_last()) + if placed.last().draw is Own {
            1nat
        } else {
            0nat
        }
    }
}

/// How many tiles are drawn by a part of an ancestor.
pub open spec fn part_count(placed: Seq<Placed>) -> nat
    decreases placed.len(),
{
    if placed.len() == 0 {
        0
    } else {
        part_count(placed.drop_last()) + if placed.last().draw is Part {
            1nat
        } else {
            0nat
        }
    }
}

/// What is painted of a layer, from a level down: the grid that was chosen and
/// its tiles, with what that does to the cache.
pub open spec fn grid_painted<V>(
    s: CacheState<u128, V>,
    windows: spec_fn(u8) -> (i64, i64, i64, i64),
    layer: RasterLayer,
    z: u8,
    fetch: bool,
) -> (CacheState<u128, V>, Option<(Grid, Seq<Placed>)>) {
    let min_z = zoom_range_of(layer).0;
    match chosen_grid(windows, z, min_z) {
        Some(g) => {
            let (t, tiles) = rows_planned(s, layer, g, min_z, fetch, (g.y1 - g.y0 + 1) as nat);
            (t, Some((g, tiles)))
        },
        None => (s, None),
    }
}

/// The level that was left is still drawn underneath.
pub open spec fn previous_shows(level: LayerLevel, now_ns: u64) -> bool {
    level.previous != level.z && now_ns - level.switched_ns < LEVEL_CROSSFADE_NS
}

/// What is painted of a layer: underneath, the level that was left, and on top
/// the one that is drawn, with what that does to the cache.
pub open spec fn layer_painted<V>(
    s: CacheState<u128, V>,
    below: spec_fn(u8) -> (i64, i64, i64, i64),
    above: spec_fn(u8) -> (i64, i64, i64, i64),
    layer: RasterLayer,
    level: LayerLevel,
    now_ns: u64,
) -> (CacheState<u128, V>, (Option<(Grid, Seq<Placed>)>, Option<(Grid, Seq<Placed>)>)) {
    let (t, under) = if previous_shows(level, now_ns) {
        grid_painted(s, below, layer, level.previous, false)
    } else {
        (s, None)
    };
    let (u, over) = grid_painted(t, above, layer, level.z, true);
    (u, (under, over))
}

/// The level to draw for a layer.
pub open spec fn level_chosen(
    current: Option<LayerLevel>,
    layer: RasterLayer,
    tile_zoom: u8,
    settled: bool,
    now_ns: u64,
) -> LayerLevel {
    let (min_z, max_z) = zoom_range_of(layer);
    let target = kept_between(tile_zoom, min_z, max_z);
    if settled || current is None {
        committed(current, target, now_ns)
    } else {
        carried(current->0, target, min_z, max_z)
    }
}

/// A layer is painted in the windows that a window function gives.
pub open spec fn paints_layer<V, F: Fn(u8) -> (i64, i64, i64, i64)>(
    window: F,
    before: CacheState<u128, V>,
    after: CacheState<u128, V>,
    p: (Option<(Grid, Seq<Placed>)>, Option<(Grid, Seq<Placed>)>),
    layer: RasterLayer,
    level: LayerLevel,
    now_ns: u64,
) -> bool {
    let min_z = zoom_range_of(layer).0;
    exists|
        below: spec_fn(u8) -> (i64, i64, i64, i64),
        above: spec_fn(u8) -> (i64, i64, i64, i64),
    |
        (previous_shows(level, now_ns) ==> answers(
            window,
            below,
            last_tried(below, level.previous, min_z),
            level.previous,
        )) && answers(window, above, last_tried(above, level.z, min_z), level.z) && (after, p)
            == #[trigger] layer_painted(before, below, above, layer, level, now_ns)
}

/// The tiles of a painting.
pub open spec fn tiles_of(p: Option<(Grid, Seq<Placed>)>) -> Seq<Placed> {
    match p {
        Some((_, tiles)) => tiles,
        None => seq![],
    }
}

/// A grid and what is drawn for each of its tiles.
#[derive(Clone, Debug)]
pub struct Painting {
    pub grid: Grid,
    pub tiles: Vec<Placed>,
}

/// A painting as plain values.
pub open spec fn painting(p: Option<Painting>) -> Option<(Grid, Seq<Placed>)> {
    match p {
        Some(p) => Some((p.grid, p.tiles@)),
        None => None,
    }
}

/// What is drawn: the tiles at hand, and the level of each layer.
#[verifier::reject_recursive_types(V)]
pub struct TileRenderer<V> {
    pub cache: TileCache<u128, V>,
    /// The committed level of each layer. It changes only once the zoom is still,
    /// so that a turn of the wheel does not ask for every level it crosses.
    pub levels: Vec<Option<LayerLevel>>,
    /// Tiles drawn by themselves in this frame.
    pub painted: usize,
    /// Tiles drawn by a part of an ancestor in this frame.
    pub fallbacks: usize,
}

impl<V> TileRenderer<V> {
    pub open spec fn wf(&self) -> bool {
        &&& self.cache.wf()
        &&& self.levels@.len() == 4
        &&& forall|i: int|
            0 <= i < 4 ==> (#[trigger] self.levels@[i] matches Some(l) ==> l.z <= DEEPEST
                && l.previous <= DEEPEST)
    }

    pub fn new() -> (r: Self)
        ensures
            r.wf(),
            r.painted == 0,
            r.fallbacks == 0,
            forall|i: int| 0 <= i < 4 ==> #[trigger] r.levels@[i] is None,
            r.cache@ == cache::empty_cache::<u128, V>(
                TILE_CAPACITY as nat,
                MAX_TILE_REQUESTS as nat,
            ),
    {
        let mut levels: Vec<Option<LayerLevel>> = Vec::new();
        levels.push(None);
        levels.push(None);
        levels.push(None);
        levels.push(None);
        TileRenderer {
            cache: TileCache::new(TILE_CAPACITY, MAX_TILE_REQUESTS),
            levels,
            painted: 0,
            fallbacks: 0,
        }
    }

    /// Begins a frame and decodes some of the replies. Tells whether any are
    /// left.
    pub fn begin_frame<F: Fn(&u128, &[u8]) -> Result<V, String>>(&mut self, decode: F) -> (
        more: bool)
        requires
            old(self).wf(),
            old(self).cache@.clock < u64::MAX,
            forall|k: &u128, b: &[u8]| call_requires(decode, (k, b)),
        ensures
            final(self).wf(),
            final(self).levels == old(self).levels,
            final(self).painted == 0,
            final(self).fallbacks == 0,
            cache::pumped(
                CacheState {
                    clock: (old(self).cache@.clock + 1) as u64,
                    asked: Set::<u128>::empty(),
                    ..old(self).cache@
                },
                final(self).cache@,
                vstd::math::min(
                    RASTER_DECODE_BUDGET as int,
                    old(self).cache@.landed.len() as int,
                ) as nat,
                decode,
            ),
            more == (old(self).cache@.landed.len() > RASTER_DECODE_BUDGET),
    {
        self.cache.tick();
        self.painted = 0;
        self.fallbacks = 0;
        self.cache.pump(RASTER_DECODE_BUDGET, decode)
    }

    /// Ends a frame: drops the tiles that were not used for longest.
    pub fn end_frame(&mut self)
        requires
            old(self).wf(),
        ensures
            final(self).wf(),
            cache::evicted(old(self).cache@, final(self).cache@),
            final(self).levels == old(self).levels,
            final(self).painted == old(self).painted,
            final(self).fallbacks == old(self).fallbacks,
    {
        self.cache.evict();
    }

    /// The level to draw for a layer. A new one is committed to only once the
    /// zoom is still.
    fn level_for(&mut self, layer: RasterLayer, target: u8, settled: bool, now_ns: u64) -> (
        l: LayerLevel)
        requires
            old(self).wf(),
            target <= DEEPEST,
        ensures
            final(self).wf(),
            l.z <= DEEPEST,
            l.previous <= DEEPEST,
            ({
                let i = layer_index(layer);
                let current = old(self).levels@[i];
                let (min_z, max_z) = zoom_range_of(layer);
                if settled || current is None {
                    &&& l == committed(current, target, now_ns)
                    &&& final(self).levels@ == old(self).levels@.update(i, Some(l))
                } else {
                    &&& l == carried(current->0, target, min_z, max_z)
                    &&& final(self).levels@ == old(self).levels@
                }
            }),
            final(self).cache == old(self).cache,
            final(self).painted == old(self).painted,
            final(self).fallbacks == old(self).fallbacks,
    {
        let i: usize = index_of_layer(layer);
        let (min_z, max_z) = layer.zoom_range();
        let current: Option<LayerLevel> = self.levels[i];
        match current {
            Some(held) => {
                if !settled {
                    let coarse: u8 = if target >= 3 {
                        target - 3
                    } else {
                        0
                    };
                    let low: u8 = if coarse < min_z {
                        min_z
                    } else {
                        coarse
                    };
                    let high: u8 = if target < max_z {
                        target + 1
                    } else {
                        max_z
                    };
                    let z: u8 = if held.z < low {
                        low
                    } else if held.z > high {
                        high
                    } else {
                        held.z
                    };
                    return LayerLevel {
                        z,
                        previous: held.previous,
                        switched_ns: held.switched_ns,
                    };
                }
                let level: LayerLevel = if held.z == target {
                    held
                } else {
                    LayerLevel { z: target, previous: held.z, switched_ns: now_ns }
                };
                self.levels[i] = Some(level);
                level
            },
            None => {
                let level = LayerLevel { z: target, previous: target, switched_ns: now_ns };
                self.levels[i] = Some(level);
                level
            },
        }
    }

    /// Decides what is drawn for one tile.
    fn plan_tile(&mut self, key: RasterKey, min_z: u8, fetch: bool) -> (d: Draw)
        requires
            old(self).wf(),
            key.z <= 30,
        ensures
            final(self).wf(),
            (final(self).cache@, d) == planned(old(self).cache@, key, min_z, fetch),
            final(self).levels == old(self).levels,
            final(self).painted == old(self).painted,
            final(self).fallbacks == old(self).fallbacks,
    {
        let ghost s = self.cache@;
        let code: u128 = key.code();
        if self.cache.is_ready(&code) {
            self.cache.peek(&code);
            return Draw::Own(key);
        }
        if !fetch {
            return Draw::Nothing;
        }
        self.cache.ensure(&code, key.desc());
        let ghost t = self.cache@;
        let top: u8 = if key.z < MAX_PARENT_LEVELS {
            key.z
        } else {
            MAX_PARENT_LEVELS
        };
        let mut k: u8 = 1;
        while k <= top
            invariant
                self.wf(),
                self.levels == old(self).levels,
                self.painted == old(self).painted,
                self.fallbacks == old(self).fallbacks,
                s == old(self).cache@,
                !s.ready.contains_key(key.code_of()),
                t == s.wanted(key.code_of(), key.desc_of()),
                self.cache@ == t,
                fetch,
                key.z <= 30,
                top == levels_up(key.z),
                1 <= k <= top + 1,
                nearest_ancestor(t, key, 1) == nearest_ancestor(t, key, k),
            decreases top + 1 - k,
        {
            let f: i64 = across(k);
            let up = RasterKey {
                layer: key.layer,
                z: key.z - k,
                x: (key.x as i64 / f) as u32,
                y: (key.y as i64 / f) as u32,
            };
            proof {
                lemma_quotient(key.x as int, f as int);
                lemma_quotient(key.y as int, f as int);
            }
            assert(up == ancestor_of(key, k));
            let up_code: u128 = up.code();
            if self.cache.is_ready(&up_code) {
                self.cache.peek(&up_code);
                return Draw::Part {
                    ancestor: up,
                    levels: k,
                    column: (key.x as i64 % f) as u32,
                    row: (key.y as i64 % f) as u32,
                };
            }
            k = k + 1;
        }
        if key.z > min_z && key.z > 0 {
            let parent = RasterKey {
                layer: key.layer,
                z: key.z - 1,
                x: key.x / 2,
                y: key.y / 2,
            };
            proof {
                assert(tiles_across(1) == 2) by {
                    reveal_with_fuel(tiles_across, 2);
                }
            }
            assert(parent == ancestor_of(key, 1));
            let parent_code: u128 = parent.code();
            self.cache.ensure(&parent_code, parent.desc());
        }
        Draw::Nothing
    }

    /// Decides what is drawn for each tile of a grid, row by row. Without `fetch`
    /// only what is at hand is drawn: the level underneath must not ask for tiles
    /// of a level that is about to be left.
    pub fn plan_grid(&mut self, layer: RasterLayer, g: Grid, fetch: bool) -> (v: Vec<Placed>)
        requires
            old(self).wf(),
            g.z <= 30,
            0 <= g.y0,
            g.y1 < tiles_across(g.z as nat),
            g.x0 <= g.x1,
            g.y0 <= g.y1,
            g.x1 - g.x0 < i64::MAX,
        ensures
            final(self).wf(),
            (final(self).cache@, v@) == rows_planned(
                old(self).cache@,
                layer,
                g,
                zoom_range_of(layer).0,
                fetch,
                (g.y1 - g.y0 + 1) as nat,
            ),
            final(self).levels == old(self).levels,
            final(self).painted == sum_capped(old(self).painted, own_count(v@)),
            final(self).fallbacks == sum_capped(old(self).fallbacks, part_count(v@)),
    {
        let (min_z, max_z) = layer.zoom_range();
        let n: i64 = across(g.z);
        let ghost s = self.cache@;
        let ghost painted = self.painted;
        let ghost fallbacks = self.fallbacks;
        let wide: i64 = g.x1 - g.x0 + 1;
        let mut out: Vec<Placed> = Vec::new();
        let mut ty: i64 = g.y0;
        while ty <= g.y1
            invariant
                self.wf(),
                self.levels == old(self).levels,
                s == old(self).cache@,
                painted == old(self).painted,
                fallbacks == old(self).fallbacks,
                min_z == zoom_range_of(layer).0,
                g.z <= 30,
                0 <= g.y0,
                g.y1 < n,
                n == tiles_across(g.z as nat),
                n <= 0x4000_0000,
                g.x0 <= g.x1,
                wide == g.x1 - g.x0 + 1,
                g.y0 <= ty <= g.y1 + 1,
                (self.cache@, out@) == rows_planned(s, layer, g, min_z, fetch, (ty - g.y0) as nat),
                self.painted == sum_capped(painted, own_count(out@)),
                self.fallbacks == sum_capped(fallbacks, part_count(out@)),
            decreases g.y1 + 1 - ty,
        {
            let ghost t = self.cache@;
            let ghost held = out@;
            let mut k: i64 = 0;
            assert(out@ =~= held + row_planned(t, layer, g, min_z, fetch, ty as int, 0).1);
            while k < wide
                invariant
                    self.wf(),
                    self.levels == old(self).levels,
                    s == old(self).cache@,
                    painted == old(self).painted,
                    fallbacks == old(self).fallbacks,
                    min_z == zoom_range_of(layer).0,
                    g.z <= 30,
                    0 <= g.y0 <= ty <= g.y1,
                    g.y1 < n,
                    n == tiles_across(g.z as nat),
                    1 <= n <= 0x4000_0000,
                    g.x0 <= g.x1,
                    wide == g.x1 - g.x0 + 1,
                    0 <= k <= wide,
                    self.cache@ == row_planned(
                        t,
                        layer,
                        g,
                        min_z,
                        fetch,
                        ty as int,
                        k as nat,
                    ).0,
                    out@ == held + row_planned(t, layer, g, min_z, fetch, ty as int, k as nat).1,
                    self.painted == sum_capped(painted, own_count(out@)),
                    self.fallbacks == sum_capped(fallbacks, part_count(out@)),
                decreases wide - k,
            {
                let tx: i64 = g.x0 + k;
                let x: i64 = fold(tx, n);
                let key = RasterKey { layer, z: g.z, x: x as u32, y: ty as u32 };
                assert(key == key_in(layer, g.z, tx as int, ty as int));
                let draw: Draw = self.plan_tile(key, min_z, fetch);
                match draw {
                    Draw::Own(_) => {
                        self.painted = self.painted.saturating_add(1);
                    },
                    Draw::Part { .. } => {
                        self.fallbacks = self.fallbacks.saturating_add(1);
                    },
                    Draw::Nothing => {},
                }
                let ghost had = out@;
                out.push(Placed { tx, ty, draw });
                assert(out@.drop_last() =~= had);
                assert(out@ =~= held + row_planned(
                    t,
                    layer,
                    g,
                    min_z,
                    fetch,
                    ty as int,
                    (k + 1) as nat,
                ).1);
                k = k + 1;
            }
            ty = ty + 1;
        }
        out
    }

    /// Paints the visible grid of one layer from a level down.
    fn paint_grid<F: Fn(u8) -> (i64, i64, i64, i64)>(
        &mut self,
        layer: RasterLayer,
        z: u8,
        fetch: bool,
        window: &F,
    ) -> (p: Option<Painting>)
        requires
            old(self).wf(),
            z <= 30,
            forall|l: u8| call_requires(*window, (l,)),
        ensures
            final(self).wf(),
            exists|windows: spec_fn(u8) -> (i64, i64, i64, i64)|
                answers(*window, windows, last_tried(windows, z, zoom_range_of(layer).0), z) && (
                final(self).cache@, painting(p)) == #[trigger] grid_painted(
                    old(self).cache@,
                    windows,
                    layer,
                    z,
                    fetch,
                ),
            final(self).levels == old(self).levels,
            final(self).painted == sum_capped(old(self).painted, own_count(tiles_of(painting(p)))),
            final(self).fallbacks == sum_capped(
                old(self).fallbacks,
                part_count(tiles_of(painting(p))),
            ),
    {
        let (min_z, max_z) = layer.zoom_range();
        let ghost s = self.cache@;
        let chosen: Option<Grid> = choose_grid(z, min_z, window);
        let ghost windows = choose|windows: spec_fn(u8) -> (i64, i64, i64, i64)|
            answers(*window, windows, last_tried(windows, z, min_z), z) && chosen
                == #[trigger] chosen_grid(windows, z, min_z);
        match chosen {
            Some(grid) => {
                proof {
                    lemma_chosen_is_sound(windows, z, min_z);
                }
                let tiles: Vec<Placed> = self.plan_grid(layer, grid, fetch);
                assert((self.cache@, Some((grid, tiles@))) == grid_painted(
                    s,
                    windows,
                    layer,
                    z,
                    fetch,
                ));
                Some(Painting { grid, tiles })
            },
            None => {
                assert((self.cache@, None::<(Grid, Seq<Placed>)>) == grid_painted(
                    s,
                    windows,
                    layer,
                    z,
                    fetch,
                ));
                None
            },
        }
    }

    /// Paints one layer: the level that was left, as far as it is at hand and
    /// while the new one comes in, and the new one on top.
    pub fn paint_layer<F: Fn(u8) -> (i64, i64, i64, i64)>(
        &mut self,
        layer: RasterLayer,
        tile_zoom: u8,
        settled: bool,
        now_ns: u64,
        window: F,
    ) -> (p: (Option<Painting>, Option<Painting>))
        requires
            old(self).wf(),
            forall|l: u8| call_requires(window, (l,)),
        ensures
            final(self).wf(),
            ({
                let current = old(self).levels@[layer_index(layer)];
                let level = level_chosen(current, layer, tile_zoom, settled, now_ns);
                &&& final(self).levels@ == if settled || current is None {
                    old(self).levels@.update(layer_index(layer), Some(level))
                } else {
                    old(self).levels@
                }
                &&& paints_layer(
                    window,
                    old(self).cache@,
                    final(self).cache@,
                    (painting(p.0), painting(p.1)),
                    layer,
                    level,
                    now_ns,
                )
            }),
            final(self).painted == sum_capped(
                old(self).painted,
                own_count(tiles_of(painting(p.0))) + own_count(tiles_of(painting(p.1))),
            ),
            final(self).fallbacks == sum_capped(
                old(self).fallbacks,
                part_count(tiles_of(painting(p.0))) + part_count(tiles_of(painting(p.1))),
            ),
    {
        let target: u8 = target_level(layer, tile_zoom);
        let (min_z, max_z) = layer.zoom_range();
        let level: LayerLevel = self.level_for(layer, target, settled, now_ns);
        let ghost s = self.cache@;
        let mut below: Option<Painting> = None;
        if shows_previous(level, now_ns) {
            below = self.paint_grid(layer, level.previous, false, &window);
        }
        let ghost t = self.cache@;
        let ghost bw = choose|windows: spec_fn(u8) -> (i64, i64, i64, i64)|
            answers(
                window,
                windows,
                last_tried(windows, level.previous, min_z),
                level.previous,
            ) && (t, painting(below)) == #[trigger] grid_painted(
                s,
                windows,
                layer,
                level.previous,
                false,
            );
        let above: Option<Painting> = self.paint_grid(layer, level.z, true, &window);
        let ghost aw = choose|windows: spec_fn(u8) -> (i64, i64, i64, i64)|
            answers(window, windows, last_tried(windows, level.z, min_z), level.z) && (
            self.cache@, painting(above)) == #[trigger] grid_painted(
                t,
                windows,
                layer,
                level.z,
                true,
            );
        assert((self.cache@, (painting(below), painting(above))) == layer_painted(
            s,
            bw,
            aw,
            layer,
            level,
            now_ns,
        ));
        assert(paints_layer(
            window,
            s,
            self.cache@,
            (painting(below), painting(above)),
            layer,
            level,
            now_ns,
        ));
        (below, above)
    }

    /// Tiles at hand, pending, and given up.
    pub fn stats(&self) -> (r: (usize, usize, usize))
        requires
            self.wf(),
        ensures
            r.0 == self.cache@.ready.dom().len(),
            r.1 == self.cache@.on_wire.len() + self.cache@.landed.len(),
            r.2 == self.cache@.failed.dom().len(),
    {
        self.cache.stats()
    }

    /// Requests on the wire.
    pub fn in_flight(&self) -> (n: usize)
        requires
            self.wf(),
        ensures
            n == self.cache@.on_wire.len(),
    {
        self.cache.in_flight()
    }
}

/// A count with another one on top, as far as a machine word holds it.
pub open spec fn sum_capped(a: usize, b: nat) -> int {
    if a + b > usize::MAX {
        usize::MAX as int
    } else {
        a + b
    }
}

/// First and last zoom of a layer.
pub open spec fn zoom_range_of(l: RasterLayer) -> (u8, u8) {
    match l {
        RasterLayer::PlanIgn => (0u8, 19u8),
        RasterLayer::Contours => (6u8, 18u8),
        RasterLayer::Slopes => (0u8, 17u8),
        RasterLayer::Ortho => (0u8, 19u8),
    }
}

/// The level to draw for a zoom: the nearest one of the layer.
pub fn target_level(layer: RasterLayer, tile_zoom: u8) -> (z: u8)
    ensures
        z == kept_between(tile_zoom, zoom_range_of(layer).0, zoom_range_of(layer).1),
{
    let (min_z, max_z) = layer.zoom_range();
    if tile_zoom < min_z {
        min_z
    } else if tile_zoom > max_z {
        max_z
    } else {
        tile_zoom
    }
}

/// Whether the previous level is still drawn underneath, so that the map does
/// not flash empty while the new tiles land.
pub fn shows_previous(level: LayerLevel, now_ns: u64) -> (b: bool)
    ensures
        b == previous_shows(level, now_ns),
{
    level.previous != level.z && (now_ns <= level.switched_ns || now_ns - level.switched_ns
        < LEVEL_CROSSFADE_NS)
}

/// A column folded back onto the world.
fn fold(tx: i64, n: i64) -> (x: i64)
    requires
        1 <= n <= 0x4000_0000,
    ensures
        x == tx as int % n as int,
        0 <= x < n,
{
    if tx >= 0 {
        tx % n
    } else {
        let u: i64 = -(tx + 1);
        let r: i64 = u % n;
        proof {
            let q = u as int / n as int;
            vstd::arithmetic::div_mod::lemma_fundamental_div_mod(u as int, n as int);
            assert(u == n * q + r);
            assert(tx == n * (-q - 1) + (n - 1 - r)) by (nonlinear_arith)
                requires
                    u == n * q + r,
                    tx == -u - 1,
            ;
            vstd::arithmetic::div_mod::lemma_fundamental_div_mod_converse(
                tx as int,
                n as int,
                -q - 1,
                n - 1 - r,
            );
        }
        n - 1 - r
    }
}

proof fn lemma_quotient(x: int, f: int)
    requires
        0 <= x <= u32::MAX,
        1 <= f,
    ensures
        0 <= x / f <= x,
        0 <= x % f <= x,
{
    vstd::arithmetic::div_mod::lemma_fundamental_div_mod(x, f);
    vstd::arithmetic::div_mod::lemma_div_pos_is_pos(x, f);
    vstd::arithmetic::div_mod::lemma_mod_bound(x, f);
    assert(x / f <= x) by (nonlinear_arith)
        requires
            x == f * (x / f) + x % f,
            0 <= x % f,
            1 <= f,
            0 <= x / f,
    ;
    assert(x % f <= x) by (nonlinear_arith)
        requires
            x == f * (x / f) + x % f,
            1 <= f,
            0 <= x / f,
    ;
}

/// Without fetching no request is made, whatever is drawn: the level that is
/// left makes no traffic.
pub proof fn law_the_underlay_makes_no_requests<V>(
    s: CacheState<u128, V>,
    layer: RasterLayer,
    g: Grid,
    min_z: u8,
    rows: nat,
)
    ensures
        ({
            let after = rows_planned(s, layer, g, min_z, false, rows).0;
            after.outbox == s.outbox && after.on_wire == s.on_wire
        }),
    decreases rows,
{
    if rows > 0 {
        law_the_underlay_makes_no_requests(s, layer, g, min_z, (rows - 1) as nat);
        let t = rows_planned(s, layer, g, min_z, false, (rows - 1) as nat).0;
        lemma_quiet_row(t, layer, g, min_z, g.y0 + rows - 1, (g.x1 - g.x0 + 1) as nat);
    }
}

proof fn lemma_quiet_row<V>(
    s: CacheState<u128, V>,
    layer: RasterLayer,
    g: Grid,
    min_z: u8,
    ty: int,
    n: nat,
)
    ensures
        ({
            let after = row_planned(s, layer, g, min_z, false, ty, n).0;
            after.outbox == s.outbox && after.on_wire == s.on_wire
        }),
    decreases n,
{
    if n > 0 {
        lemma_quiet_row(s, layer, g, min_z, ty, (n - 1) as nat);
    }
}

/// While the zoom is in motion no level is committed to that is not near the
/// target, and the target itself is always drawn once the zoom is still.
pub proof fn law_levels_stay_near_the_target(
    held: LayerLevel,
    target: u8,
    min_z: u8,
    max_z: u8,
    now_ns: u64,
)
    requires
        min_z <= target <= max_z,
    ensures
        committed(Some(held), target, now_ns).z == target,
        ({
            let z = carried(held, target, min_z, max_z).z;
            &&& min_z <= z <= max_z
            &&& target - 3 <= z <= target + 1
        }),
        committed(Some(committed(Some(held), target, now_ns)), target, now_ns) == committed(
            Some(held),
            target,
            now_ns,
        ),
{
}

// ---------------------------------------------------------------------------
// Images
// ---------------------------------------------------------------------------

/// An image: its size, and four bytes per pixel.
#[derive(Clone, Debug)]
pub struct Pixels {
    pub width: u32,
    pub height: u32,
    pub rgba: Vec<u8>,
}

/// Every pixel has its four bytes.
pub open spec fn has_all_pixels(p: Pixels) -> bool {
    p.rgba@.len() >= 4 * p.width * p.height
}

/// `image::load_from_memory` and `DynamicImage::to_rgba8`, with the text of the
/// error. Claimed is only that every pixel has its bytes, which is checked where
/// an image is made. What they are is left unsaid, and so is which bytes are an
/// image: decoders choose their arithmetic by the machine they run on, and a
/// process may register decoders of its own, which are asked first.
#[verifier::external_body]
fn load_rgba(bytes: &[u8]) -> (r: Result<Pixels, String>)
    ensures
        r matches Ok(p) ==> has_all_pixels(p),
{
    let rgba = image::load_from_memory(bytes).map_err(|e| e.to_string())?.to_rgba8();
    Ok(Pixels { width: rgba.width(), height: rgba.height(), rgba: rgba.into_raw() })
}

/// A result that loading these bytes as an image may have.
pub closed spec fn loaded(bytes: &[u8], r: Result<Pixels, String>) -> bool {
    call_ensures(load_rgba, (bytes,), r)
}

/// What an image that was decoded, or not, is worth: the image as it is, or an
/// error that says where it comes from.
pub open spec fn image_from(r: Result<Pixels, String>, out: Result<Pixels, String>) -> bool {
    match r {
        Ok(p) => out == Ok::<Pixels, String>(p),
        Err(e) => out is Err && out->Err_0@ == "image decode: "@ + e@,
    }
}

/// What an image that was decoded, or not, is worth.
pub fn read_image(r: Result<Pixels, String>) -> (out: Result<Pixels, String>)
    ensures
        image_from(r, out),
{
    match r {
        Ok(p) => Ok(p),
        Err(e) => {
            let mut s = "image decode: ".to_owned();
            s.append(e.as_str());
            Err(s)
        },
    }
}

/// Decodes an image: these very bytes are loaded, and what comes of it is handed
/// on.
pub fn decode_image(bytes: &[u8]) -> (out: Result<Pixels, String>)
    ensures
        exists|r: Result<Pixels, String>| #[trigger] loaded(bytes, r) && image_from(r, out),
        out matches Ok(p) ==> has_all_pixels(p),
{
    let r: Result<Pixels, String> = load_rgba(bytes);
    assert(loaded(bytes, r));
    read_image(r)
}

/// A level has twice as many tiles across as the one above it, starting from one.
pub proof fn law_levels_double(z: nat)
    ensures
        tiles_across(z) == vstd::arithmetic::power2::pow2(z),
    decreases z,
{
    vstd::arithmetic::power2::lemma2_to64();
    if z > 0 {
        law_levels_double((z - 1) as nat);
        vstd::arithmetic::power2::lemma_pow2_unfold(z);
    }
}

/// A tile is a part of its ancestor: the ancestor's parts so many levels down start
/// at as many times its column and row, and the tile is the part as far behind that
/// as it says.
pub proof fn law_a_part_lies_in_its_ancestor(key: RasterKey, k: u8)
    requires
        k <= key.z,
    ensures
        part_of(key, k) matches Draw::Part { ancestor, levels, column, row } && {
            let f = tiles_across(k as nat);
            &&& levels == k
            &&& ancestor.layer == key.layer
            &&& ancestor.z + k == key.z
            &&& key.x == ancestor.x * f + column
            &&& key.y == ancestor.y * f + row
            &&& 0 <= column < f
            &&& 0 <= row < f
        },
{
    let f = tiles_across(k as nat);
    lemma_across_grows(0, k as nat);
    let x = key.x as int;
    let y = key.y as int;
    vstd::arithmetic::div_mod::lemma_fundamental_div_mod(x, f);
    vstd::arithmetic::div_mod::lemma_fundamental_div_mod(y, f);
    vstd::arithmetic::div_mod::lemma_mod_bound(x, f);
    vstd::arithmetic::div_mod::lemma_mod_bound(y, f);
    vstd::arithmetic::div_mod::lemma_div_pos_is_pos(x, f);
    vstd::arithmetic::div_mod::lemma_div_pos_is_pos(y, f);
    vstd::arithmetic::div_mod::lemma_div_is_ordered_by_denominator(x, 1, f);
    vstd::arithmetic::div_mod::lemma_div_is_ordered_by_denominator(y, 1, f);
    vstd::arithmetic::div_mod::lemma_mod_decreases(x as nat, f as nat);
    vstd::arithmetic::div_mod::lemma_mod_decreases(y as nat, f as nat);
    assert((x / f) * f == f * (x / f)) by (nonlinear_arith);
    assert((y / f) * f == f * (y / f)) by (nonlinear_arith);
}

/// The ancestor that stands in for a tile is the nearest one at hand, at most five
/// levels up and within the pyramid; there is none just where none of those is at
/// hand.
pub proof fn law_the_nearest_ancestor_stands_in<V>(s: CacheState<u128, V>, key: RasterKey, from: u8)
    requires
        1 <= from <= 6,
    ensures
        match nearest_ancestor(s, key, from) {
            Some(k) => {
                &&& from <= k <= 5
                &&& k <= key.z
                &&& s.ready.contains_key(ancestor_of(key, k).code_of())
                &&& forall|j: u8|
                    from <= j < k ==> !s.ready.contains_key(
                        (#[trigger] ancestor_of(key, j)).code_of(),
                    )
            },
            None => forall|j: u8|
                from <= j <= 5 && j <= key.z ==> !s.ready.contains_key(
                    (#[trigger] ancestor_of(key, j)).code_of(),
                ),
        },
    decreases 6 - from,
{
    if from <= levels_up(key.z) && !s.ready.contains_key(ancestor_of(key, from).code_of()) {
        law_the_nearest_ancestor_stands_in(s, key, (from + 1) as u8);
    }
}

/// A tile at hand is drawn itself. One that is missing is asked for when tiles are
/// fetched; its nearest ancestor at hand is drawn meanwhile, and where there is none
/// its parent is asked for too, unless the layer ends there.
pub proof fn law_what_is_drawn_for_a_tile<V>(
    s: CacheState<u128, V>,
    key: RasterKey,
    min_z: u8,
    fetch: bool,
)
    ensures
        ({
            let code = key.code_of();
            let (after, draw) = planned(s, key, min_z, fetch);
            let asked = s.wanted(code, key.desc_of());
            let stand_in = nearest_ancestor(s, key, 1);
            let parent = RasterKey {
                layer: key.layer,
                z: (key.z - 1) as u8,
                x: key.x / 2,
                y: key.y / 2,
            };
            &&& s.ready.contains_key(code) <==> draw is Own
            &&& draw matches Draw::Own(own) ==> own == key && after == s.touched(code)
            &&& !s.ready.contains_key(code) && !fetch ==> draw is Nothing && after == s
            &&& !s.ready.contains_key(code) && fetch ==> {
                &&& draw is Part <==> stand_in is Some
                &&& draw is Part ==> draw == part_of(key, stand_in->0) && after.outbox
                    == asked.outbox
                &&& draw is Nothing && key.z > min_z ==> after == asked.wanted(
                    parent.code_of(),
                    TileDesc {
                        dataset: Dataset::Raster(key.layer),
                        z: parent.z,
                        x: parent.x,
                        y: parent.y,
                    },
                )
                &&& draw is Nothing && key.z <= min_z ==> after == asked
            }
        }),
{
    let code = key.code_of();
    let asked = s.wanted(code, key.desc_of());
    reveal_with_fuel(tiles_across, 3);
    assert(tiles_across(1) == 2);
    if !s.ready.contains_key(code) {
        assert(asked.ready == s.ready);
        lemma_same_tiles_same_ancestor(s, asked, key, 1);
    }
}

proof fn lemma_same_tiles_same_ancestor<V>(
    s: CacheState<u128, V>,
    t: CacheState<u128, V>,
    key: RasterKey,
    from: u8,
)
    requires
        s.ready == t.ready,
        from <= 6,
    ensures
        nearest_ancestor(s, key, from) == nearest_ancestor(t, key, from),
    decreases 6 - from,
{
    if from <= levels_up(key.z) && !s.ready.contains_key(ancestor_of(key, from).code_of()) {
        lemma_same_tiles_same_ancestor(s, t, key, (from + 1) as u8);
    }
}

/// The grid that is drawn is the finest, from the level asked for down, that has
/// no more than four hundred tiles, and it is that of its level's window, cut to
/// the rows of the world.
pub proof fn law_the_finest_grid_that_fits(
    windows: spec_fn(u8) -> (i64, i64, i64, i64),
    z: u8,
    min_z: u8,
)
    ensures
        chosen_grid(windows, z, min_z) matches Some(g) ==> {
            &&& g.z <= z
            &&& (g.z >= min_z || g.z == z)
            &&& (g.x0, g.x1) == (windows(g.z).0, windows(g.z).1)
            &&& g.y0 == vstd::math::max(windows(g.z).2 as int, 0)
            &&& g.y1 == vstd::math::min(windows(g.z).3 as int, tiles_across(g.z as nat) - 1)
            &&& 0 < grid_count(g) <= 400
            &&& forall|l: u8|
                g.z < l <= z ==> grid_count(grid_at(l, #[trigger] windows(l))) > 400
        },
        chosen_grid(windows, z, min_z) is None ==> exists|l: u8|
            l <= z && (grid_count(grid_at(l, #[trigger] windows(l))) == 0 || ((l <= min_z || l == 0)
                && grid_count(grid_at(l, windows(l))) > 400)),
    decreases z,
{
    let g = grid_at(z, windows(z));
    lemma_count_is_positive(g);
    lemma_across_grows(0, z as nat);
    if grid_count(g) == 0 {
        assert(grid_count(grid_at(z, windows(z))) == 0);
    } else if grid_count(g) <= MAX_TILES_PER_LAYER {
        lemma_rows_fit(g, windows(z));
    } else if z <= min_z || z == 0 {
        assert(grid_count(grid_at(z, windows(z))) > 400);
    } else {
        law_the_finest_grid_that_fits(windows, (z - 1) as u8, min_z);
        if chosen_grid(windows, z, min_z) is None {
            let l = choose|l: u8|
                l <= z - 1 && (grid_count(grid_at(l, #[trigger] windows(l))) == 0 || ((l <= min_z
                    || l == 0) && grid_count(grid_at(l, windows(l))) > 400));
            assert(grid_count(grid_at(l, windows(l))) == 0 || grid_count(grid_at(l, windows(l)))
                > 400);
        }
    }
}

proof fn lemma_rows_fit(g: Grid, window: (i64, i64, i64, i64))
    requires
        g == grid_at(g.z, window),
        grid_count(g) > 0,
    ensures
        g.y0 <= g.y1,
        g.x0 <= g.x1,
        g.y1 == vstd::math::min(window.3 as int, tiles_across(g.z as nat) - 1),
{
    lemma_across_grows(0, g.z as nat);
    if g.y1 < g.y0 {
        assert(grid_count(g) == 0) by (nonlinear_arith)
            requires
                grid_count(g) == (if g.x1 < g.x0 {
                    0
                } else {
                    g.x1 - g.x0 + 1
                }) * 0,
        ;
    }
    if g.x1 < g.x0 {
        assert(grid_count(g) == 0) by (nonlinear_arith)
            requires
                grid_count(g) == 0 * (if g.y1 < g.y0 {
                    0
                } else {
                    g.y1 - g.y0 + 1
                }),
        ;
    }
}

/// The tiles of a grid are placed row by row from its first one, each at its own
/// column and row, as many as the grid has.
pub proof fn law_every_tile_of_a_grid_is_placed<V>(
    s: CacheState<u128, V>,
    layer: RasterLayer,
    g: Grid,
    min_z: u8,
    fetch: bool,
    c: int,
    r: int,
)
    requires
        0 <= c <= g.x1 - g.x0,
        0 <= r <= g.y1 - g.y0,
    ensures
        ({
            let w = g.x1 - g.x0 + 1;
            let placed = rows_planned(s, layer, g, min_z, fetch, (g.y1 - g.y0 + 1) as nat).1;
            &&& placed.len() == grid_count(g)
            &&& 0 <= r * w + c < placed.len()
            &&& placed[r * w + c].tx == g.x0 + c
            &&& placed[r * w + c].ty == g.y0 + r
        }),
{
    lemma_rows_placed(s, layer, g, min_z, fetch, (g.y1 - g.y0 + 1) as nat, c, r);
}

proof fn lemma_row_placed<V>(
    s: CacheState<u128, V>,
    layer: RasterLayer,
    g: Grid,
    min_z: u8,
    fetch: bool,
    ty: int,
    n: nat,
    c: int,
)
    requires
        n <= g.x1 - g.x0 + 1,
        i64::MIN <= ty <= i64::MAX,
    ensures
        row_planned(s, layer, g, min_z, fetch, ty, n).1.len() == n,
        0 <= c < n ==> row_planned(s, layer, g, min_z, fetch, ty, n).1[c].tx == g.x0 + c
            && row_planned(s, layer, g, min_z, fetch, ty, n).1[c].ty == ty,
    decreases n,
{
    if n > 0 {
        lemma_row_placed(s, layer, g, min_z, fetch, ty, (n - 1) as nat, c);
    }
}

proof fn lemma_rows_placed<V>(
    s: CacheState<u128, V>,
    layer: RasterLayer,
    g: Grid,
    min_z: u8,
    fetch: bool,
    m: nat,
    c: int,
    r: int,
)
    requires
        m <= g.y1 - g.y0 + 1,
        0 <= c <= g.x1 - g.x0,
        0 <= r,
    ensures
        ({
            let w = g.x1 - g.x0 + 1;
            let placed = rows_planned(s, layer, g, min_z, fetch, m).1;
            &&& placed.len() == m * w
            &&& r < m ==> {
                &&& 0 <= r * w + c < placed.len()
                &&& placed[r * w + c].tx == g.x0 + c
                &&& placed[r * w + c].ty == g.y0 + r
            }
        }),
    decreases m,
{
    let w = g.x1 - g.x0 + 1;
    if m > 0 {
        lemma_rows_placed(s, layer, g, min_z, fetch, (m - 1) as nat, c, r);
        let (t, done) = rows_planned(s, layer, g, min_z, fetch, (m - 1) as nat);
        let row = row_planned(t, layer, g, min_z, fetch, g.y0 + m - 1, w as nat).1;
        lemma_row_placed(t, layer, g, min_z, fetch, g.y0 + m - 1, w as nat, c);
        let placed = rows_planned(s, layer, g, min_z, fetch, m).1;
        assert(placed == done + row);
        assert(m * w == (m - 1) * w + w) by (nonlinear_arith)
            requires
                m > 0,
        ;
        if r == m - 1 {
            assert(r * w >= 0) by (nonlinear_arith)
                requires
                    r >= 0,
                    w >= 0,
            ;
            assert(placed[r * w + c] == row[c]);
        } else if r < m {
            assert(placed[r * w + c] == done[r * w + c]);
        }
    } else {
        assert(m * w == 0) by (nonlinear_arith)
            requires
                m == 0,
        ;
    }
}

/// Going once round the world leads to the same tile, and within the world a column
/// is that of its tile.
pub proof fn law_columns_go_round_the_world(layer: RasterLayer, z: u8, tx: int, ty: int)
    requires
        z <= 30,
    ensures
        key_in(layer, z, tx + tiles_across(z as nat), ty) == key_in(layer, z, tx, ty),
        0 <= tx < tiles_across(z as nat) ==> key_in(layer, z, tx, ty).x == tx,
        0 <= ty <= u32::MAX ==> key_in(layer, z, tx, ty).y == ty,
        key_in(layer, z, tx, ty).z == z,
        key_in(layer, z, tx, ty).layer == layer,
{
    let n = tiles_across(z as nat);
    lemma_across(z as nat);
    lemma_across_grows(z as nat, 30);
    vstd::arithmetic::div_mod::lemma_mod_add_multiples_vanish(tx, n);
    if 0 <= tx < n {
        vstd::arithmetic::div_mod::lemma_small_mod(tx as nat, n as nat);
    }
}

/// Tiles are counted by what is drawn for them.
pub proof fn law_tiles_are_counted_by_what_is_drawn(placed: Seq<Placed>, one: Placed)
    ensures
        own_count(placed.push(one)) == own_count(placed) + match one.draw {
            Draw::Own(_) => 1nat,
            _ => 0nat,
        },
        part_count(placed.push(one)) == part_count(placed) + match one.draw {
            Draw::Part { .. } => 1nat,
            _ => 0nat,
        },
        own_count(Seq::<Placed>::empty()) == 0,
        part_count(Seq::<Placed>::empty()) == 0,
{
    assert(placed.push(one).drop_last() =~= placed);
}

/// Once the zoom is still, the level drawn is the one asked for, as far as the layer
/// has it; the level that was drawn before is remembered just where it was another,
/// with the moment of the switch.
pub proof fn law_a_still_zoom_draws_its_level(
    current: Option<LayerLevel>,
    layer: RasterLayer,
    tile_zoom: u8,
    now_ns: u64,
)
    ensures
        ({
            let (min_z, max_z) = zoom_range_of(layer);
            let l = level_chosen(current, layer, tile_zoom, true, now_ns);
            &&& min_z <= l.z <= max_z
            &&& min_z <= tile_zoom <= max_z ==> l.z == tile_zoom
            &&& tile_zoom < min_z ==> l.z == min_z
            &&& tile_zoom > max_z ==> l.z == max_z
            &&& current matches Some(held) ==> if held.z == l.z {
                l == held
            } else {
                l.previous == held.z && l.switched_ns == now_ns
            }
            &&& current is None ==> l.previous == l.z && l.switched_ns == now_ns
        }),
{
}

/// While the wheel turns the level that is loaded stays, scaled, as long as it is
/// no more than three levels coarser and one finer than the one asked for.
pub proof fn law_a_turning_wheel_keeps_its_level(
    held: LayerLevel,
    layer: RasterLayer,
    tile_zoom: u8,
    now_ns: u64,
)
    requires
        zoom_range_of(layer).0 <= tile_zoom <= zoom_range_of(layer).1,
        zoom_range_of(layer).0 <= held.z <= zoom_range_of(layer).1,
    ensures
        ({
            let l = level_chosen(Some(held), layer, tile_zoom, false, now_ns);
            &&& tile_zoom - 3 <= held.z <= tile_zoom + 1 ==> l == held
            &&& held.z < tile_zoom - 3 ==> l.z == tile_zoom - 3
            &&& held.z > tile_zoom + 1 ==> l.z == tile_zoom + 1
            &&& l.previous == held.previous
            &&& l.switched_ns == held.switched_ns
        }),
{
}

/// The level that was left shows for half a second, and only where it was another.
pub proof fn law_the_level_that_was_left_shows_for_half_a_second(level: LayerLevel, now_ns: u64)
    ensures
        previous_shows(level, now_ns) <==> level.z != level.previous && now_ns
            < level.switched_ns + 500_000_000,
{
}

/// A view counts as still from the end of its wait on, and always where it was
/// never moved.
pub proof fn law_a_view_comes_to_rest(at: Option<u64>, now_ns: u64, wait_ns: u64)
    ensures
        at is None ==> still_since(at, now_ns, wait_ns),
        at matches Some(t) ==> (still_since(at, now_ns, wait_ns) <==> now_ns >= t + wait_ns),
{
}

/// A layer is painted in two: the level that was left underneath, as long as it shows
/// and without asking for anything, and on top the one that is drawn, for which tiles
/// are asked. Neither is finer than its level.
pub proof fn law_a_layer_is_painted_over_the_level_it_left<V>(
    s: CacheState<u128, V>,
    below: spec_fn(u8) -> (i64, i64, i64, i64),
    above: spec_fn(u8) -> (i64, i64, i64, i64),
    layer: RasterLayer,
    level: LayerLevel,
    now_ns: u64,
)
    ensures
        ({
            let (after, (under, over)) = layer_painted(s, below, above, layer, level, now_ns);
            let min_z = zoom_range_of(layer).0;
            &&& !(level.previous != level.z && now_ns < level.switched_ns + 500_000_000) ==> under is None
            &&& under matches Some((g, tiles)) ==> chosen_grid(below, level.previous, min_z) == Some(
                g,
            ) && g.z <= level.previous
            &&& over matches Some((g, tiles)) ==> chosen_grid(above, level.z, min_z) == Some(g)
                && g.z <= level.z
            &&& over is None ==> chosen_grid(above, level.z, min_z) is None && after.outbox
                == s.outbox
            &&& chosen_grid(above, level.z, min_z) is Some ==> over is Some
        }),
{
    let min_z = zoom_range_of(layer).0;
    law_the_finest_grid_that_fits(below, level.previous, min_z);
    law_the_finest_grid_that_fits(above, level.z, min_z);
    if previous_shows(level, now_ns) {
        if let Some(g) = chosen_grid(below, level.previous, min_z) {
            law_the_underlay_makes_no_requests(s, layer, g, min_z, (g.y1 - g.y0 + 1) as nat);
        }
    }
}

} // verus!
