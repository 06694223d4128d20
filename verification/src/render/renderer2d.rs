use vstd::prelude::*;

verus! {

/// Texture id of the plain white texture: a sprite with it is a coloured quad.
pub const WHITE_TEX: u64 = 0;
/// The backmost draw layer.
pub const LAYER_MIN: u8 = 0;
/// The frontmost draw layer.
pub const LAYER_MAX: u8 = 255;
/// The grid value that marks an empty cell of a `Tilemap`.
pub const EMPTY_TILE: u32 = 0xFFFF_FFFF;

// ─── Colour ───────────────────────────────────────────────────────────────────

/// The red, green and blue bytes of a colour written as `0xRRGGBB`
/// (bits above the lowest 24 are ignored).
pub fn hex_channels(h: u32) -> (rgb: (u8, u8, u8))
    ensures
        rgb.0 == (h / 0x10000) % 0x100,
        rgb.1 == (h / 0x100) % 0x100,
        rgb.2 == h % 0x100,
{
    let r = ((h >> 16) & 0xFF) as u8;
    let g = ((h >> 8) & 0xFF) as u8;
    let b = (h & 0xFF) as u8;
    assert(((h >> 16) & 0xFF) == (h / 0x10000) % 0x100) by (bit_vector);
    assert(((h >> 8) & 0xFF) == (h / 0x100) % 0x100) by (bit_vector);
    assert((h & 0xFF) == h % 0x100) by (bit_vector);
    (r, g, b)
}

// ─── Sprite sheet ─────────────────────────────────────────────────────────────

/// A texture cut into `cols`×`rows` equal frames, numbered row by row from the top left.
pub struct SpriteSheet {
    pub texture_id: u64,
    pub cols: u32,
    pub rows: u32,
}

impl SpriteSheet {
    pub fn new(texture_id: u64, cols: u32, rows: u32) -> (s: Self)
        ensures
            s.texture_id == texture_id,
            s.cols == cols,
            s.rows == rows,
    {
        SpriteSheet { texture_id, cols, rows }
    }

    /// Column and row of frame `frame`.
    pub fn frame_cell(&self, frame: u32) -> (cr: (u32, u32))
        requires
            self.cols > 0,
        ensures
            cr.0 == frame % self.cols,
            cr.1 == frame / self.cols,
    {
        (frame % self.cols, frame / self.cols)
    }
}

// ─── Frame animation ──────────────────────────────────────────────────────────

/// A list of frames of one sprite sheet, played in order.
pub struct Animation {
    pub sheet: SpriteSheet,
    /// Frame numbers in the sheet, in playing order.
    pub frames: Vec<u32>,
    pub looping: bool,
    current_frame: usize,
    /// Set when a one-shot animation has reached its last frame.
    pub finished: bool,
}

impl Animation {
    /// Position in `frames` of the frame shown.
    pub closed spec fn current_spec(&self) -> usize {
        self.current_frame
    }

    /// The sheet.
    pub closed spec fn sheet_spec(&self) -> SpriteSheet {
        self.sheet
    }

    /// The frame numbers.
    pub closed spec fn frames_spec(&self) -> Seq<u32> {
        self.frames@
    }

    /// Whether the animation loops.
    pub closed spec fn looping_spec(&self) -> bool {
        self.looping
    }

    /// Whether a one-shot animation has ended.
    pub closed spec fn finished_spec(&self) -> bool {
        self.finished
    }

    /// Starts at the first frame.
    pub fn new(sheet: SpriteSheet, frames: Vec<u32>, looping: bool) -> (a: Self)
        ensures
            a.sheet_spec() == sheet,
            a.frames_spec() == frames@,
            a.looping_spec() == looping,
            a.current_spec() == 0,
            !a.finished_spec(),
    {
        Animation { sheet, frames, looping, current_frame: 0, finished: false }
    }

    /// One frame time has passed: moves to the next frame. A looping animation wraps to its
    /// first frame; a one-shot one stays on its last frame and is then finished. A finished
    /// animation does not move. Returns whether the animation is finished.
    pub fn advance(&mut self) -> (done: bool)
        requires
            old(self).current_spec() < old(self).frames_spec().len(),
        ensures
            final(self).sheet_spec() == old(self).sheet_spec(),
            final(self).frames_spec() == old(self).frames_spec(),
            final(self).looping_spec() == old(self).looping_spec(),
            final(self).current_spec() < final(self).frames_spec().len(),
            done == final(self).finished_spec(),
            ({
                let next = old(self).current_spec() + 1;
                if old(self).finished_spec() {
                    &&& final(self).current_spec() == old(self).current_spec()
                    &&& final(self).finished_spec()
                } else if next < old(self).frames_spec().len() {
                    &&& final(self).current_spec() == next
                    &&& !final(self).finished_spec()
                } else if old(self).looping_spec() {
                    &&& final(self).current_spec() == 0
                    &&& !final(self).finished_spec()
                } else {
                    &&& final(self).current_spec() == old(self).frames_spec().len() - 1
                    &&& final(self).finished_spec()
                }
            }),
    {
        let n = self.frames.len();
        if self.finished {
            return true;
        }
        self.current_frame = self.current_frame + 1;
        if self.current_frame >= self.frames.len() {
            if self.looping {
                self.current_frame = 0;
            } else {
                self.current_frame = self.frames.len() - 1;
                self.finished = true;
                return true;
            }
        }
        false
    }

    /// Back to the first frame, not finished.
    pub fn reset(&mut self)
        ensures
            final(self).sheet_spec() == old(self).sheet_spec(),
            final(self).frames_spec() == old(self).frames_spec(),
            final(self).looping_spec() == old(self).looping_spec(),
            final(self).current_spec() == 0,
            !final(self).finished_spec(),
    {
        self.current_frame = 0;
        self.finished = false;
    }

    /// The sheet frame number shown now.
    pub fn current_frame(&self) -> (f: u32)
        requires
            self.current_spec() < self.frames_spec().len(),
        ensures
            f == self.frames_spec()[self.current_spec() as int],
    {
        self.frames[self.current_frame]
    }

    pub fn texture_id(&self) -> (id: u64)
        ensures
            id == self.sheet_spec().texture_id,
    {
        self.sheet.texture_id
    }

    /// The sprite sheet.
    pub fn sheet(&self) -> (s: &SpriteSheet)
        ensures
            *s == self.sheet_spec(),
    {
        &self.sheet
    }

    /// The frame numbers, in playing order.
    pub fn frames(&self) -> (f: &Vec<u32>)
        ensures
            f@ == self.frames_spec(),
    {
        &self.frames
    }

    /// Whether the animation loops.
    pub fn is_looping(&self) -> (b: bool)
        ensures
            b == self.looping_spec(),
    {
        self.looping
    }

    /// Whether a one-shot animation has ended.
    pub fn is_finished(&self) -> (b: bool)
        ensures
            b == self.finished_spec(),
    {
        self.finished
    }
}

// ─── Tile grid ────────────────────────────────────────────────────────────────

/// A grid of atlas frame numbers drawn as a tile map; `EMPTY_TILE` marks an empty cell.
pub struct Tilemap {
    pub texture_id: u64,
    /// Number of frame columns in the atlas.
    pub cols: u32,
    pub map_width: u32,
    pub map_height: u32,
    /// Frame numbers, row by row.
    pub tiles: Vec<u32>,
    /// Draw layer.
    pub layer: u8,
}

impl Tilemap {
    /// One entry per cell, and every position fits a `u32`.
    pub open spec fn wf(&self) -> bool {
        &&& self.tiles@.len() == self.map_width * self.map_height
        &&& self.map_width * self.map_height <= u32::MAX
    }

    /// (`x`, `y`) lies inside the map.
    pub open spec fn in_bounds(&self, x: int, y: int) -> bool {
        0 <= x < self.map_width && 0 <= y < self.map_height
    }

    /// A cell inside the map can be read without running off `tiles`.
    pub open spec fn addressable(&self, x: int, y: int) -> bool {
        self.in_bounds(x, y) ==> y * self.map_width + x < self.tiles@.len() && y * self.map_width + x <= u32::MAX
    }

    /// An empty `map_width`×`map_height` map on draw layer 64.
    pub fn new(texture_id: u64, atlas_cols: u32, map_width: u32, map_height: u32) -> (t: Self)
        requires
            map_width * map_height <= u32::MAX,
        ensures
            t.wf(),
            t.texture_id == texture_id,
            t.cols == atlas_cols,
            t.map_width == map_width,
            t.map_height == map_height,
            t.layer == 64,
            forall|i: int| 0 <= i < t.tiles@.len() ==> #[trigger] t.tiles@[i] == EMPTY_TILE,
    {
        let count = (map_width * map_height) as usize;
        let mut tiles: Vec<u32> = Vec::new();
        let mut i: usize = 0;
        while i < count
            invariant
                0 <= i <= count,
                tiles@.len() == i,
                forall|j: int| 0 <= j < i ==> #[trigger] tiles@[j] == EMPTY_TILE,
            decreases count - i,
        {
            tiles.push(EMPTY_TILE);
            i = i + 1;
        }
        Tilemap { texture_id, cols: atlas_cols, map_width, map_height, tiles, layer: 64 }
    }

    /// Puts frame `tile` into cell (`x`, `y`); cells outside the map are ignored.
    pub fn set(&mut self, x: u32, y: u32, tile: u32)
        requires
            old(self).addressable(x as int, y as int),
        ensures
            final(self).texture_id == old(self).texture_id,
            final(self).cols == old(self).cols,
            final(self).map_width == old(self).map_width,
            final(self).map_height == old(self).map_height,
            final(self).layer == old(self).layer,
            final(self).tiles@ == if old(self).in_bounds(x as int, y as int) {
                old(self).tiles@.update(y * old(self).map_width + x, tile)
            } else {
                old(self).tiles@
            },
    {
        if x < self.map_width && y < self.map_height {
            self.tiles[(y * self.map_width + x) as usize] = tile;
        }
    }

    /// The frame in cell (`x`, `y`); `None` when the cell is empty or outside the map.
    pub fn get(&self, x: u32, y: u32) -> (t: Option<u32>)
        requires
            self.addressable(x as int, y as int),
        ensures
            t == if self.in_bounds(x as int, y as int) && self.tiles@[y * self.map_width + x] != EMPTY_TILE {
                Some(self.tiles@[y * self.map_width + x])
            } else {
                None::<u32>
            },
    {
        if x < self.map_width && y < self.map_height {
            let t = self.tiles[(y * self.map_width + x) as usize];
            if t == EMPTY_TILE { None } else { Some(t) }
        } else {
            None
        }
    }

    /// Column and row of frame `tile` in the atlas.
    pub fn tile_cell(&self, tile: u32) -> (cr: (u32, u32))
        requires
            self.cols > 0,
        ensures
            cr.0 == tile % self.cols,
            cr.1 == tile / self.cols,
    {
        (tile % self.cols, tile / self.cols)
    }
}

// ─── Draw order ───────────────────────────────────────────────────────────────

/// Command `a` is drawn before command `b`: a lower layer, or the same layer and queued earlier.
pub open spec fn draws_before(layers: Seq<u8>, a: int, b: int) -> bool {
    layers[a] < layers[b] || (layers[a] == layers[b] && a < b)
}

/// The order in which to draw commands whose layers are `layers`: every index once,
/// by ascending layer, commands on one layer in the order in which they were queued.
pub fn layer_order(layers: &Vec<u8>) -> (order: Vec<usize>)
    ensures
        order@.len() == layers@.len(),
        forall|i: int| 0 <= i < order@.len() ==> (#[trigger] order@[i]) < layers@.len(),
        forall|i: int, j: int| 0 <= i < j < order@.len() ==> draws_before(layers@, #[trigger] order@[i] as int, #[trigger] order@[j] as int),
        forall|k: int| 0 <= k < layers@.len() ==> #[trigger] order@.contains(k as usize),
{
    let n = layers.len();
    let mut order: Vec<usize> = Vec::new();
    let mut l: u16 = 0;
    proof {
        lemma_count_none(layers@, n as int);
    }
    while l < 256
        invariant
            0 <= l <= 256,
            n == layers@.len(),
            forall|i: int| 0 <= i < order@.len() ==> (#[trigger] order@[i]) < n && layers@[order@[i] as int] < l,
            forall|i: int, j: int| 0 <= i < j < order@.len() ==> draws_before(layers@, #[trigger] order@[i] as int, #[trigger] order@[j] as int),
            forall|k: int| 0 <= k < n && layers@[k] < l ==> #[trigger] order@.contains(k as usize),
            order@.len() == count_below(layers@, l as int, n as int),
        decreases 256 - l,
    {
        let mut k: usize = 0;
        while k < n
            invariant
                0 <= k <= n,
                0 <= l < 256,
                n == layers@.len(),
                forall|i: int| 0 <= i < order@.len() ==> (#[trigger] order@[i]) < n
                    && (layers@[order@[i] as int] < l || (layers@[order@[i] as int] == l && order@[i] < k)),
                forall|i: int, j: int| 0 <= i < j < order@.len() ==> draws_before(layers@, #[trigger] order@[i] as int, #[trigger] order@[j] as int),
                forall|m: int| 0 <= m < n && (layers@[m] < l || (layers@[m] == l && m < k)) ==> #[trigger] order@.contains(m as usize),
                order@.len() == count_below(layers@, l as int, n as int) + count_eq(layers@, l as int, k as int),
            decreases n - k,
        {
            if layers[k] as u16 == l {
                let ghost before = order@;
                order.push(k);
                proof {
                    assert forall|i: int, j: int| 0 <= i < j < order@.len() implies draws_before(layers@, #[trigger] order@[i] as int, #[trigger] order@[j] as int) by {
                        if j == before.len() {
                            assert(order@[i] == before[i]);
                        } else {
                            assert(order@[i] == before[i] && order@[j] == before[j]);
                        }
                    }
                    assert forall|m: int| 0 <= m < n && (layers@[m] < l || (layers@[m] == l && m < k + 1)) implies #[trigger] order@.contains(m as usize) by {
                        if m == k {
                            assert(order@[before.len() as int] == k);
                        } else {
                            assert(before.contains(m as usize));
                            let p = choose|p: int| 0 <= p < before.len() && before[p] == m as usize;
                            assert(order@[p] == m as usize);
                        }
                    }
                }
            }
            k = k + 1;
        }
        proof {
            lemma_count_split(layers@, l as int, n as int);
        }
        l = l + 1;
    }
    proof {
        lemma_count_all(layers@, n as int);
    }
    order
}

/// The draw order goes up the layers, commands on one layer in the order in which they
/// were queued, and draws every command exactly once.
pub proof fn law_draw_order(layers: Seq<u8>, order: Seq<usize>)
    requires
        order.len() == layers.len(),
        forall|i: int| 0 <= i < order.len() ==> (#[trigger] order[i]) < layers.len(),
        forall|i: int, j: int| 0 <= i < j < order.len() ==> draws_before(layers, #[trigger] order[i] as int, #[trigger] order[j] as int),
    ensures
        forall|i: int, j: int| 0 <= i < j < order.len() ==> layers[#[trigger] order[i] as int] <= layers[#[trigger] order[j] as int]
            && (layers[order[i] as int] == layers[order[j] as int] ==> order[i] < order[j]),
        order.no_duplicates(),
{
    assert forall|i: int, j: int| 0 <= i < order.len() && 0 <= j < order.len() && i != j implies order[i] != order[j] by {
        if i < j {
            assert(draws_before(layers, order[i] as int, order[j] as int));
        } else {
            assert(draws_before(layers, order[j] as int, order[i] as int));
        }
    }
}

/// How many of the first `k` layers are below `l`.
pub open spec fn count_below(layers: Seq<u8>, l: int, k: int) -> nat
    decreases k,
{
    if k <= 0 {
        0
    } else {
        count_below(layers, l, k - 1) + if layers[k - 1] < l { 1nat } else { 0nat }
    }
}

/// How many of the first `k` layers equal `l`.
pub open spec fn count_eq(layers: Seq<u8>, l: int, k: int) -> nat
    decreases k,
{
    if k <= 0 {
        0
    } else {
        count_eq(layers, l, k - 1) + if layers[k - 1] == l { 1nat } else { 0nat }
    }
}

proof fn lemma_count_split(layers: Seq<u8>, l: int, k: int)
    ensures
        count_below(layers, l + 1, k) == count_below(layers, l, k) + count_eq(layers, l, k),
    decreases k,
{
    if k > 0 {
        lemma_count_split(layers, l, k - 1);
    }
}

proof fn lemma_count_none(layers: Seq<u8>, k: int)
    ensures
        count_below(layers, 0, k) == 0,
    decreases k,
{
    if k > 0 {
        lemma_count_none(layers, k - 1);
    }
}

proof fn lemma_count_all(layers: Seq<u8>, k: int)
    requires
        0 <= k <= layers.len(),
    ensures
        count_below(layers, 256, k) == k,
    decreases k,
{
    if k > 0 {
        lemma_count_all(layers, k - 1);
    }
}

} // verus!
