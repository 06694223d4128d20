use vstd::prelude::*;
use vstd::string::StringSliceAdditionalSpecFns;

verus! {

broadcast use vstd::string::group_string_axioms;

// ─── TileSet ──────────────────────────────────────────────────────────────────

/// Properties of one tile kind, looked up by tile id.
pub struct TileMeta {
    /// Whether the tile blocks movement (collision, path finding).
    pub solid: bool,
    /// Optional label such as "water", "lava" or "grass".
    pub tag: Option<String>,
}

impl Clone for TileMeta {
    fn clone(&self) -> (m: Self)
        ensures
            m == *self,
    {
        let tag = match &self.tag {
            Some(s) => Some(s.clone()),
            None => None,
        };
        TileMeta { solid: self.solid, tag }
    }
}

impl Default for TileMeta {
    fn default() -> (m: Self)
        ensures
            m == default_meta(),
    {
        TileMeta { solid: false, tag: None }
    }
}

/// The properties of a tile that nobody described: not solid, no tag.
pub open spec fn default_meta() -> TileMeta {
    TileMeta { solid: false, tag: None }
}

/// A sprite sheet cut into tiles of one size.
pub struct TileSet {
    /// Texture id of the sheet.
    pub texture_id: u64,
    /// Size of the whole sheet in pixels.
    pub sheet_w: u32,
    pub sheet_h: u32,
    /// Size of one tile in pixels.
    pub tile_w: u32,
    pub tile_h: u32,
    /// Number of tile columns and rows in the sheet.
    pub cols: u32,
    pub rows: u32,
    /// Per-tile properties, indexed by tile id.
    pub meta: Vec<TileMeta>,
}

impl TileSet {
    /// Whether tile `tile_id` is described and marked solid.
    pub open spec fn meta_solid(&self, tile_id: int) -> bool {
        0 <= tile_id < self.meta@.len() && self.meta@[tile_id].solid
    }

    /// Cuts a `sheet_w`×`sheet_h` sheet into `tile_w`×`tile_h` tiles, all with default properties.
    pub fn new(texture_id: u64, sheet_w: u32, sheet_h: u32, tile_w: u32, tile_h: u32) -> (ts: Self)
        requires
            tile_w > 0,
            tile_h > 0,
            (sheet_w / tile_w) * (sheet_h / tile_h) <= u32::MAX,
        ensures
            ts.texture_id == texture_id,
            ts.sheet_w == sheet_w,
            ts.sheet_h == sheet_h,
            ts.tile_w == tile_w,
            ts.tile_h == tile_h,
            ts.cols == sheet_w / tile_w,
            ts.rows == sheet_h / tile_h,
            ts.meta@.len() == ts.cols * ts.rows,
            forall|i: int| 0 <= i < ts.meta@.len() ==> #[trigger] ts.meta@[i] == default_meta(),
    {
        let cols = sheet_w / tile_w;
        let rows = sheet_h / tile_h;
        let count = (cols * rows) as usize;
        let mut meta: Vec<TileMeta> = Vec::new();
        let mut i: usize = 0;
        while i < count
            invariant
                0 <= i <= count,
                meta@.len() == i,
                forall|j: int| 0 <= j < i ==> #[trigger] meta@[j] == default_meta(),
            decreases count - i,
        {
            meta.push(TileMeta { solid: false, tag: None });
            i = i + 1;
        }
        TileSet { texture_id, sheet_w, sheet_h, tile_w, tile_h, cols, rows, meta }
    }

    /// Column and row of tile `tile_id` in the sheet (row-major, from the top left).
    pub fn tile_cell(&self, tile_id: u32) -> (cr: (u32, u32))
        requires
            self.cols > 0,
        ensures
            cr.0 == tile_id % self.cols,
            cr.1 == tile_id / self.cols,
    {
        (tile_id % self.cols, tile_id / self.cols)
    }

    /// Tile id of the tile at (`col`, `row`): `row * cols + col`.
    pub fn tile_id(&self, col: u32, row: u32) -> (id: u32)
        requires
            row * self.cols + col <= u32::MAX,
        ensures
            id == row * self.cols + col,
    {
        row * self.cols + col
    }

    /// Replaces the properties of tile `tile_id`; ids outside the sheet are ignored.
    pub fn set_meta(&mut self, tile_id: u32, meta: TileMeta)
        ensures
            final(self).meta@ == if tile_id < old(self).meta@.len() {
                old(self).meta@.update(tile_id as int, meta)
            } else {
                old(self).meta@
            },
            final(self).texture_id == old(self).texture_id,
            final(self).sheet_w == old(self).sheet_w,
            final(self).sheet_h == old(self).sheet_h,
            final(self).tile_w == old(self).tile_w,
            final(self).tile_h == old(self).tile_h,
            final(self).cols == old(self).cols,
            final(self).rows == old(self).rows,
    {
        if (tile_id as usize) < self.meta.len() {
            self.meta[tile_id as usize] = meta;
        }
    }

    /// The properties of tile `tile_id`; defaults for ids outside the sheet.
    pub fn meta(&self, tile_id: u32) -> (m: TileMeta)
        ensures
            m == if tile_id < self.meta@.len() { self.meta@[tile_id as int] } else { default_meta() },
    {
        if (tile_id as usize) < self.meta.len() {
            self.meta[tile_id as usize].clone()
        } else {
            TileMeta { solid: false, tag: None }
        }
    }

    /// Marks every listed tile as solid; ids outside the sheet are ignored.
    pub fn set_solid(&mut self, tile_ids: &[u32])
        ensures
            final(self).meta@.len() == old(self).meta@.len(),
            forall|i: int| 0 <= i < old(self).meta@.len() ==> #[trigger] final(self).meta@[i] == if lists(tile_ids@, i) {
                TileMeta { solid: true, tag: old(self).meta@[i].tag }
            } else {
                old(self).meta@[i]
            },
            final(self).texture_id == old(self).texture_id,
            final(self).sheet_w == old(self).sheet_w,
            final(self).sheet_h == old(self).sheet_h,
            final(self).tile_w == old(self).tile_w,
            final(self).tile_h == old(self).tile_h,
            final(self).cols == old(self).cols,
            final(self).rows == old(self).rows,
    {
        let n = tile_ids.len();
        let mut k: usize = 0;
        while k < n
            invariant
                n == tile_ids@.len(),
                0 <= k <= n,
                self.meta@.len() == old(self).meta@.len(),
                self.texture_id == old(self).texture_id,
                self.sheet_w == old(self).sheet_w,
                self.sheet_h == old(self).sheet_h,
                self.tile_w == old(self).tile_w,
                self.tile_h == old(self).tile_h,
                self.cols == old(self).cols,
                self.rows == old(self).rows,
                forall|i: int| 0 <= i < old(self).meta@.len() ==> #[trigger] self.meta@[i] == if lists(tile_ids@.take(k as int), i) {
                    TileMeta { solid: true, tag: old(self).meta@[i].tag }
                } else {
                    old(self).meta@[i]
                },
            decreases n - k,
        {
            let id = tile_ids[k];
            proof {
                assert(tile_ids@.take(k + 1) =~= tile_ids@.take(k as int).push(id));
                assert forall|i: int| lists(tile_ids@.take(k + 1), i) <==> lists(tile_ids@.take(k as int), i) || i == id by {
                    lemma_lists_push(tile_ids@.take(k as int), id, i);
                }
            }
            if (id as usize) < self.meta.len() {
                let ghost before = self.meta@;
                self.meta[id as usize].solid = true;
                proof {
                    assert forall|i: int| 0 <= i < old(self).meta@.len() implies #[trigger] self.meta@[i] == if lists(tile_ids@.take(k + 1), i) {
                        TileMeta { solid: true, tag: old(self).meta@[i].tag }
                    } else {
                        old(self).meta@[i]
                    } by {
                        if i != id as int {
                            assert(self.meta@[i] == before[i]);
                        }
                    }
                }
            }
            k = k + 1;
        }
        proof {
            assert(tile_ids@.take(n as int) =~= tile_ids@);
        }
    }
}

// ─── TileLayer ────────────────────────────────────────────────────────────────

/// One layer of a tile map: a `width`×`height` grid of optional tile ids,
/// stored row by row (`tiles[row * width + col]`, `None` = empty cell).
pub struct TileLayer {
    pub name: String,
    pub tiles: Vec<Option<u32>>,
    pub width: u32,
    pub height: u32,
    /// Whether the layer is drawn.
    pub visible: bool,
}

impl TileLayer {
    /// The grid holds exactly one entry per cell, and every position fits a `u32`.
    pub open spec fn wf(&self) -> bool {
        &&& self.tiles@.len() == self.width * self.height
        &&& self.width * self.height <= u32::MAX
    }

    /// (`col`, `row`) lies inside the layer.
    pub open spec fn in_bounds(&self, col: int, row: int) -> bool {
        0 <= col < self.width && 0 <= row < self.height
    }

    /// Position of cell (`col`, `row`) in `tiles`.
    pub open spec fn index_of(&self, col: int, row: int) -> int {
        row * self.width + col
    }

    /// A cell inside the layer can be read without running off `tiles`.
    pub open spec fn addressable(&self, col: int, row: int) -> bool {
        self.in_bounds(col, row) ==> self.index_of(col, row) < self.tiles@.len()
            && self.index_of(col, row) <= u32::MAX
    }

    /// The content of cell (`col`, `row`); `None` outside the layer.
    pub open spec fn cell(&self, col: int, row: int) -> Option<u32> {
        if self.in_bounds(col, row) {
            self.tiles@[self.index_of(col, row)]
        } else {
            None
        }
    }

    /// Everything but the cells is the same in `self` and `other`.
    pub open spec fn same_frame(&self, other: &Self) -> bool {
        &&& self.name == other.name
        &&& self.width == other.width
        &&& self.height == other.height
        &&& self.visible == other.visible
        &&& self.tiles@.len() == other.tiles@.len()
    }

    /// An empty, visible `width`×`height` layer.
    pub fn new(name: &str, width: u32, height: u32) -> (l: Self)
        requires
            width * height <= u32::MAX,
        ensures
            l.name@ == name@,
            l.width == width,
            l.height == height,
            l.visible,
            l.wf(),
            forall|i: int| 0 <= i < l.tiles@.len() ==> #[trigger] l.tiles@[i] is None,
    {
        let count = (width * height) as usize;
        let mut tiles: Vec<Option<u32>> = Vec::new();
        let mut i: usize = 0;
        while i < count
            invariant
                0 <= i <= count,
                tiles@.len() == i,
                forall|j: int| 0 <= j < i ==> #[trigger] tiles@[j] is None,
            decreases count - i,
        {
            tiles.push(None);
            i = i + 1;
        }
        TileLayer { name: name.to_string(), tiles, width, height, visible: true }
    }

    /// Puts `tile_id` into cell (`col`, `row`); cells outside the layer are ignored.
    pub fn set(&mut self, col: u32, row: u32, tile_id: Option<u32>)
        requires
            old(self).addressable(col as int, row as int),
        ensures
            final(self).same_frame(old(self)),
            final(self).tiles@ == if old(self).in_bounds(col as int, row as int) {
                old(self).tiles@.update(old(self).index_of(col as int, row as int), tile_id)
            } else {
                old(self).tiles@
            },
    {
        if col < self.width && row < self.height {
            let i = (row * self.width + col) as usize;
            self.tiles[i] = tile_id;
        }
    }

    /// The tile id in cell (`col`, `row`); `None` when empty or outside the layer.
    pub fn get(&self, col: u32, row: u32) -> (t: Option<u32>)
        requires
            self.addressable(col as int, row as int),
        ensures
            t == self.cell(col as int, row as int),
    {
        if col < self.width && row < self.height {
            let i = (row * self.width + col) as usize;
            self.tiles[i]
        } else {
            None
        }
    }

    /// Fills the `w`×`h` rectangle whose top left cell is (`col`, `row`) with `tile_id`;
    /// the part of it outside the layer is ignored.
    pub fn fill_rect(&mut self, col: u32, row: u32, w: u32, h: u32, tile_id: u32)
        requires
            old(self).wf(),
            col + w <= u32::MAX,
            row + h <= u32::MAX,
        ensures
            final(self).same_frame(old(self)),
            final(self).wf(),
            forall|c: int, r: int| #[trigger] final(self).cell(c, r) == if col <= c < col + w && row <= r < row + h
                && old(self).in_bounds(c, r) {
                Some(tile_id)
            } else {
                old(self).cell(c, r)
            },
    {
        let ghost start = *self;
        let mut r: u32 = row;
        while r < row + h
            invariant
                row <= r <= row + h,
                row + h <= u32::MAX,
                col + w <= u32::MAX,
                self.same_frame(&start),
                self.wf(),
                start.wf(),
                forall|c: int, rr: int| #[trigger] self.cell(c, rr) == if col <= c < col + w && row <= rr < r
                    && start.in_bounds(c, rr) {
                    Some(tile_id)
                } else {
                    start.cell(c, rr)
                },
            decreases row + h - r,
        {
            let mut c: u32 = col;
            while c < col + w
                invariant
                    row <= r < row + h,
                    col <= c <= col + w,
                    col + w <= u32::MAX,
                    self.same_frame(&start),
                    self.wf(),
                    start.wf(),
                    forall|cc: int, rr: int| #[trigger] self.cell(cc, rr) == if col <= cc < col + w && (row <= rr < r
                        || (rr == r && cc < c)) && start.in_bounds(cc, rr) {
                        Some(tile_id)
                    } else {
                        start.cell(cc, rr)
                    },
                decreases col + w - c,
            {
                proof {
                    lemma_cell_index_bound(self.width as int, self.height as int, c as int, r as int);
                }
                let ghost before = *self;
                self.set(c, r, Some(tile_id));
                proof {
                    assert forall|cc: int, rr: int| #[trigger] self.cell(cc, rr) == if col <= cc < col + w
                        && (row <= rr < r || (rr == r && cc < c + 1)) && start.in_bounds(cc, rr) {
                        Some(tile_id)
                    } else {
                        start.cell(cc, rr)
                    } by {
                        if before.in_bounds(cc, rr) && before.in_bounds(c as int, r as int) && (cc != c || rr != r) {
                            if before.index_of(cc, rr) == before.index_of(c as int, r as int) {
                                lemma_cell_index_unique(self.width as int, cc, rr, c as int, r as int);
                            }
                            lemma_cell_index_bound(self.width as int, self.height as int, cc, rr);
                            assert(self.cell(cc, rr) == before.cell(cc, rr));
                        }
                        if before.in_bounds(cc, rr) {
                            lemma_cell_index_bound(self.width as int, self.height as int, cc, rr);
                        }
                    }
                }
                c = c + 1;
            }
            r = r + 1;
        }
    }

    /// Puts `tile_id` into every cell.
    pub fn fill_all(&mut self, tile_id: u32)
        ensures
            final(self).same_frame(old(self)),
            forall|i: int| 0 <= i < final(self).tiles@.len() ==> #[trigger] final(self).tiles@[i] == Some(tile_id),
    {
        let n = self.tiles.len();
        let mut i: usize = 0;
        while i < n
            invariant
                0 <= i <= n,
                self.same_frame(old(self)),
                n == self.tiles@.len(),
                forall|j: int| 0 <= j < i ==> #[trigger] self.tiles@[j] == Some(tile_id),
            decreases n - i,
        {
            self.tiles[i] = Some(tile_id);
            i = i + 1;
        }
    }

    /// Empties every cell.
    pub fn clear(&mut self)
        ensures
            final(self).same_frame(old(self)),
            forall|i: int| 0 <= i < final(self).tiles@.len() ==> #[trigger] final(self).tiles@[i] is None,
    {
        let n = self.tiles.len();
        let mut i: usize = 0;
        while i < n
            invariant
                0 <= i <= n,
                self.same_frame(old(self)),
                n == self.tiles@.len(),
                forall|j: int| 0 <= j < i ==> #[trigger] self.tiles@[j] is None,
            decreases n - i,
        {
            self.tiles[i] = None;
            i = i + 1;
        }
    }

    /// The non-empty cells as `(col, row, tile_id)`, in storage order.
    pub fn iter_tiles(&self) -> (v: Vec<(u32, u32, u32)>)
        requires
            self.width > 0 || forall|i: int| 0 <= i < self.tiles@.len() ==> #[trigger] self.tiles@[i] is None,
        ensures
            v@ == occupied_cells(self.tiles@, self.width, self.tiles@.len() as int),
    {
        let mut v: Vec<(u32, u32, u32)> = Vec::new();
        let n = self.tiles.len();
        let mut i: usize = 0;
        while i < n
            invariant
                0 <= i <= n,
                n == self.tiles@.len(),
                self.width > 0 || forall|j: int| 0 <= j < self.tiles@.len() ==> #[trigger] self.tiles@[j] is None,
                v@ == occupied_cells(self.tiles@, self.width, i as int),
            decreases n - i,
        {
            match self.tiles[i] {
                Some(id) => {
                    let k = i as u32;
                    v.push((k % self.width, k / self.width, id));
                }
                None => {}
            }
            i = i + 1;
        }
        v
    }
}

// ─── TileMap ──────────────────────────────────────────────────────────────────

/// A tile map: a tile set plus layers of tile ids, drawn in order of their depth.
pub struct TileMap {
    pub tileset: TileSet,
    layers: Vec<TileLayer>,
}

impl TileMap {
    /// The layers, in the order in which they were added.
    pub closed spec fn layers_seq(&self) -> Seq<TileLayer> {
        self.layers@
    }

    /// The tile set.
    pub closed spec fn tileset_spec(&self) -> TileSet {
        self.tileset
    }

    /// Whether layer `layer` holds, at (`col`, `row`), a tile that the tile set marks solid.
    pub open spec fn solid_in(&self, layer: TileLayer, col: int, row: int) -> bool {
        match layer.cell(col, row) {
            Some(id) => self.tileset_spec().meta_solid(id as int),
            None => false,
        }
    }

    /// Every layer can be read at (`col`, `row`).
    pub open spec fn addressable(&self, col: int, row: int) -> bool {
        forall|i: int| 0 <= i < self.layers_seq().len() ==> (#[trigger] self.layers_seq()[i]).addressable(col, row)
    }

    pub fn new(tileset: TileSet) -> (m: Self)
        ensures
            m.tileset_spec() == tileset,
            m.layers_seq() == Seq::<TileLayer>::empty(),
    {
        TileMap { tileset, layers: Vec::new() }
    }

    /// Appends an empty `width`×`height` layer and returns its index.
    pub fn add_layer(&mut self, name: &str, width: u32, height: u32) -> (idx: usize)
        requires
            width * height <= u32::MAX,
        ensures
            idx == old(self).layers_seq().len(),
            final(self).layers_seq().len() == old(self).layers_seq().len() + 1,
            final(self).layers_seq().take(idx as int) == old(self).layers_seq(),
            final(self).layers_seq()[idx as int].name@ == name@,
            final(self).layers_seq()[idx as int].width == width,
            final(self).layers_seq()[idx as int].height == height,
            final(self).layers_seq()[idx as int].visible,
            final(self).layers_seq()[idx as int].wf(),
            forall|i: int| 0 <= i < final(self).layers_seq()[idx as int].tiles@.len()
                ==> #[trigger] final(self).layers_seq()[idx as int].tiles@[i] is None,
            final(self).tileset_spec() == old(self).tileset_spec(),
    {
        let l = TileLayer::new(name, width, height);
        self.layers.push(l);
        proof {
            assert(self.layers@.take(old(self).layers@.len() as int) =~= old(self).layers@);
        }
        self.layers.len() - 1
    }

    /// Layer number `idx`.
    pub fn layer(&self, idx: usize) -> (l: &TileLayer)
        requires
            idx < self.layers_seq().len(),
        ensures
            *l == self.layers_seq()[idx as int],
    {
        &self.layers[idx]
    }

    /// Mutable access to layer number `idx`.
    pub fn layer_mut(&mut self, idx: usize) -> (l: &mut TileLayer)
        requires
            idx < old(self).layers_seq().len(),
        ensures
            *l == old(self).layers_seq()[idx as int],
            final(self).layers_seq() == old(self).layers_seq().update(idx as int, *final(l)),
            final(self).tileset_spec() == old(self).tileset_spec(),
    {
        &mut self.layers[idx]
    }

    pub fn layer_count(&self) -> (n: usize)
        ensures
            n == self.layers_seq().len(),
    {
        self.layers.len()
    }

    /// The cell (`col`, `row`) when it lies inside the first layer; `None` otherwise
    /// (also when there is no layer).
    pub fn locate_tile(&self, col: u32, row: u32) -> (cr: Option<(u32, u32)>)
        ensures
            cr == if self.layers_seq().len() > 0 && self.layers_seq()[0].in_bounds(col as int, row as int) {
                Some((col, row))
            } else {
                None::<(u32, u32)>
            },
    {
        if self.layers.len() > 0 {
            let first = &self.layers[0];
            if col < first.width && row < first.height {
                return Some((col, row));
            }
        }
        None
    }

    /// Whether some layer holds a solid tile at (`col`, `row`).
    pub fn is_solid(&self, col: u32, row: u32) -> (b: bool)
        requires
            self.addressable(col as int, row as int),
        ensures
            b == exists|i: int| 0 <= i < self.layers_seq().len() && self.solid_in(#[trigger] self.layers_seq()[i], col as int, row as int),
    {
        let n = self.layers.len();
        let mut i: usize = 0;
        while i < n
            invariant
                0 <= i <= n,
                n == self.layers@.len(),
                self.addressable(col as int, row as int),
                forall|j: int| 0 <= j < i ==> !self.solid_in(#[trigger] self.layers_seq()[j], col as int, row as int),
            decreases n - i,
        {
            let layer = &self.layers[i];
            assert(self.layers_seq()[i as int].addressable(col as int, row as int));
            match layer.get(col, row) {
                Some(tile_id) => {
                    if (tile_id as usize) < self.tileset.meta.len() && self.tileset.meta[tile_id as usize].solid {
                        return true;
                    }
                }
                None => {}
            }
            i = i + 1;
        }
        false
    }
}

// ─── TileMapBuilder ───────────────────────────────────────────────────────────

/// Builds a tile map from text: in a row, '0'–'9' is tile id 0–9 and any other
/// character an empty cell. `layer_raw` takes the ids directly.
pub struct TileMapBuilder {
    map: TileMap,
}

/// The tile id that a character of a text layer stands for.
pub open spec fn digit_tile(ch: char) -> Option<u32> {
    if '0' <= ch && ch <= '9' {
        Some((ch as u32 - '0' as u32) as u32)
    } else {
        None
    }
}

/// The longest byte length among the first `n` rows.
pub open spec fn max_row_len(rows: Seq<&str>, n: int) -> int
    decreases n,
{
    if n <= 0 {
        0
    } else {
        let m = max_row_len(rows, n - 1);
        let l = rows[n - 1].spec_bytes().len() as int;
        if l > m { l } else { m }
    }
}

proof fn lemma_max_row_len(rows: Seq<&str>, n: int)
    requires
        0 <= n <= rows.len(),
    ensures
        forall|r: int| 0 <= r < n ==> (#[trigger] rows[r]).spec_bytes().len() <= max_row_len(rows, n),
        n > 0 ==> exists|r: int| 0 <= r < n && (#[trigger] rows[r]).spec_bytes().len() == max_row_len(rows, n),
        n == 0 ==> max_row_len(rows, n) == 0,
    decreases n,
{
    if n > 0 {
        lemma_max_row_len(rows, n - 1);
        if n - 1 > 0 {
            let r = choose|r: int| 0 <= r < n - 1 && (#[trigger] rows[r]).spec_bytes().len() == max_row_len(rows, n - 1);
            assert(rows[r].spec_bytes().len() == max_row_len(rows, n - 1));
        }
        assert(rows[n - 1].spec_bytes().len() <= max_row_len(rows, n));
    }
}

/// A layer built from text rows is as wide as its longest row in bytes: every row fits,
/// so every character of every row lands in a cell, and some row is exactly that long.
pub proof fn law_text_layer_width(rows: Seq<&str>)
    ensures
        forall|r: int| 0 <= r < rows.len() ==> (#[trigger] rows[r]).spec_bytes().len() <= max_row_len(rows, rows.len() as int),
        rows.len() > 0 ==> exists|r: int| 0 <= r < rows.len()
            && (#[trigger] rows[r]).spec_bytes().len() == max_row_len(rows, rows.len() as int),
        rows.len() == 0 ==> max_row_len(rows, rows.len() as int) == 0,
{
    lemma_max_row_len(rows, rows.len() as int);
}

impl TileMapBuilder {
    /// The map built so far.
    pub closed spec fn map_spec(&self) -> TileMap {
        self.map
    }

    pub fn new(tileset: TileSet) -> (b: Self)
        ensures
            b.map_spec().tileset_spec() == tileset,
            b.map_spec().layers_seq() == Seq::<TileLayer>::empty(),
    {
        TileMapBuilder { map: TileMap::new(tileset) }
    }

    /// Adds a layer read from text rows (top row first). The layer is as wide as the
    /// longest row in bytes and has one row per string.
    pub fn layer(self, name: &str, rows: Vec<&str>) -> (b: Self)
        requires
            rows@.len() <= u32::MAX,
            forall|r: int| 0 <= r < rows@.len() ==> (#[trigger] rows@[r]).spec_bytes().len() <= u32::MAX
                && rows@[r]@.len() <= u32::MAX,
            max_row_len(rows@, rows@.len() as int) * rows@.len() <= u32::MAX,
        ensures
            b.map_spec().tileset_spec() == self.map_spec().tileset_spec(),
            b.map_spec().layers_seq().len() == self.map_spec().layers_seq().len() + 1,
            b.map_spec().layers_seq().take(self.map_spec().layers_seq().len() as int) == self.map_spec().layers_seq(),
            ({
                let l = b.map_spec().layers_seq().last();
                &&& l.name@ == name@
                &&& l.width == max_row_len(rows@, rows@.len() as int)
                &&& l.height == rows@.len()
                &&& l.visible
                &&& l.wf()
                &&& forall|c: int, r: int| #[trigger] l.cell(c, r) == if l.in_bounds(c, r) && c < rows@[r]@.len() {
                    digit_tile(rows@[r]@[c])
                } else {
                    None
                }
            }),
    {
        let mut me = self;
        let height = rows.len() as u32;
        let mut width: usize = 0;
        let mut k: usize = 0;
        while k < rows.len()
            invariant
                0 <= k <= rows@.len(),
                width == max_row_len(rows@, k as int),
                width <= u32::MAX,
                forall|r: int| 0 <= r < rows@.len() ==> (#[trigger] rows@[r]).spec_bytes().len() <= u32::MAX,
            decreases rows@.len() - k,
        {
            let l = rows[k].len();
            if l > width {
                width = l;
            }
            k = k + 1;
        }
        let width = width as u32;
        let idx = me.map.add_layer(name, width, height);
        let ghost before = me.map.layers@;
        let ghost start = me.map.layers@[idx as int];
        proof {
            assert forall|c: int, rr: int| #[trigger] start.cell(c, rr) == None::<u32> by {
                lemma_cell_index_bound(start.width as int, start.height as int, c, rr);
            }
        }
        let nrows = rows.len();
        let mut r: usize = 0;
        while r < nrows
            invariant
                0 <= r <= nrows,
                nrows == rows@.len(),
                idx == before.len() - 1,
                me.map.layers@.len() == before.len(),
                me.map.layers@.take(idx as int) == before.take(idx as int),
                me.map.tileset == self.map.tileset,
                start.width == width,
                start.height == height,
                height == nrows,
                forall|rr: int| 0 <= rr < rows@.len() ==> (#[trigger] rows@[rr])@.len() <= u32::MAX,
                ({
                    let l = me.map.layers@[idx as int];
                    &&& l.same_frame(&start)
                    &&& l.wf()
                    &&& forall|c: int, rr: int| #[trigger] l.cell(c, rr) == if l.in_bounds(c, rr) && rr < r && c < rows@[rr]@.len() {
                        digit_tile(rows@[rr]@[c])
                    } else {
                        None
                    }
                }),
            decreases nrows - r,
        {
            let row_str = rows[r];
            let layer = me.map.layer_mut(idx);
            let mut c: usize = 0;
            for ch in it: row_str.chars()
                invariant
                    c == it.index(),
                    it.seq() == row_str@,
                    row_str@.len() <= u32::MAX,
                    r < nrows,
                    nrows == height,
                    layer.same_frame(&start),
                    layer.wf(),
                    start.width == width,
                    start.height == height,
                    forall|cc: int, rr: int| #[trigger] layer.cell(cc, rr) == if layer.in_bounds(cc, rr) && (rr < r || (rr == r && cc < c)) && cc < rows@[rr]@.len() {
                        digit_tile(rows@[rr]@[cc])
                    } else {
                        None
                    },
                    row_str == rows@[r as int],
            {
                let tile = if '0' <= ch && ch <= '9' {
                    Some((ch as u32) - ('0' as u32))
                } else {
                    None
                };
                proof {
                    lemma_cell_index_bound(layer.width as int, layer.height as int, c as int, r as int);
                }
                let ghost pre = *layer;
                assert(c < rows@[r as int]@.len());
                assert(ch == rows@[r as int]@[c as int]);
                assert(tile == digit_tile(ch));
                layer.set(c as u32, r as u32, tile);
                proof {
                    assert forall|cc: int, rr: int| #[trigger] layer.cell(cc, rr) == if layer.in_bounds(cc, rr) && (rr < r || (rr == r && cc < c + 1)) && cc < rows@[rr]@.len() {
                        digit_tile(rows@[rr]@[cc])
                    } else {
                        None
                    } by {
                        if pre.in_bounds(cc, rr) {
                            lemma_cell_index_bound(pre.width as int, pre.height as int, cc, rr);
                            if cc == c && rr == r {
                                assert(layer.tiles@[pre.index_of(cc, rr)] == tile);
                            } else if pre.in_bounds(c as int, r as int) {
                                if pre.index_of(cc, rr) == pre.index_of(c as int, r as int) {
                                    lemma_cell_index_unique(pre.width as int, cc, rr, c as int, r as int);
                                }
                                assert(layer.cell(cc, rr) == pre.cell(cc, rr));
                            } else {
                                assert(layer.cell(cc, rr) == pre.cell(cc, rr));
                            }
                        }
                    }
                }
                c = c + 1;
            }
            r = r + 1;
        }
        proof {
            assert(me.map.layers@ =~= before.take(idx as int).push(me.map.layers@[idx as int]));
        }
        me
    }

    /// Adds a `width`×`height` layer whose cells are `tiles`, taken as they are.
    pub fn layer_raw(self, name: &str, width: u32, height: u32, tiles: Vec<Option<u32>>) -> (b: Self)
        requires
            width * height <= u32::MAX,
        ensures
            b.map_spec().tileset_spec() == self.map_spec().tileset_spec(),
            b.map_spec().layers_seq().len() == self.map_spec().layers_seq().len() + 1,
            b.map_spec().layers_seq().take(self.map_spec().layers_seq().len() as int) == self.map_spec().layers_seq(),
            b.map_spec().layers_seq().last() == (TileLayer {
                name: b.map_spec().layers_seq().last().name,
                tiles,
                width,
                height,
                visible: true,
            }),
            b.map_spec().layers_seq().last().name@ == name@,
    {
        let mut me = self;
        let idx = me.map.add_layer(name, width, height);
        let layer = me.map.layer_mut(idx);
        layer.tiles = tiles;
        proof {
            assert(me.map.layers@.take(idx as int) =~= self.map.layers@);
        }
        me
    }

    pub fn build(self) -> (m: TileMap)
        ensures
            m == self.map_spec(),
    {
        self.map
    }
}

// ─── Laws ─────────────────────────────────────────────────────────────────────

/// `tile_id` and `tile_cell` undo each other: the tile at (`col`, `row`) of a sheet with
/// `cols` columns lies at column `col` and row `row`.
pub proof fn law_tile_id_cell_roundtrip(cols: u32, col: u32, row: u32)
    requires
        0 < cols,
        col < cols,
    ensures
        (row * cols + col) % (cols as int) == col,
        (row * cols + col) / (cols as int) == row,
{
    vstd::arithmetic::div_mod::lemma_fundamental_div_mod_converse(
        row * cols + col,
        cols as int,
        row as int,
        col as int,
    );
}

/// What is put into a cell is read back from it, and no other cell changes.
pub proof fn law_set_then_get(l0: TileLayer, l1: TileLayer, col: int, row: int, t: Option<u32>)
    requires
        l0.wf(),
        l0.in_bounds(col, row),
        l1.same_frame(&l0),
        l1.tiles@ == l0.tiles@.update(l0.index_of(col, row), t),
    ensures
        l1.cell(col, row) == t,
        forall|c: int, r: int| (c != col || r != row) ==> #[trigger] l1.cell(c, r) == l0.cell(c, r),
{
    lemma_cell_index_bound(l0.width as int, l0.height as int, col, row);
    assert forall|c: int, r: int| (c != col || r != row) implies #[trigger] l1.cell(c, r) == l0.cell(c, r) by {
        if l0.in_bounds(c, r) {
            lemma_cell_index_bound(l0.width as int, l0.height as int, c, r);
            if l0.index_of(c, r) == l0.index_of(col, row) {
                lemma_cell_index_unique(l0.width as int, c, r, col, row);
            }
        }
    }
}

/// In a text layer, a digit stands for the tile id of its value and anything else for
/// an empty cell.
pub proof fn law_text_tiles(ch: char)
    ensures
        digit_tile(ch) is Some <==> '0' <= ch <= '9',
        digit_tile(ch) is Some ==> digit_tile(ch).unwrap() <= 9,
        digit_tile('0') == Some(0u32),
        digit_tile('9') == Some(9u32),
        digit_tile(' ') == None::<u32>,
{
}

/// The non-empty cells among the first `n` entries of `tiles` as `(col, row, tile_id)`,
/// where entry `i` is cell (`i % width`, `i / width`) with `i` taken as a `u32`.
pub open spec fn occupied_cells(tiles: Seq<Option<u32>>, width: u32, n: int) -> Seq<(u32, u32, u32)>
    decreases n,
{
    if n <= 0 {
        Seq::empty()
    } else {
        let rest = occupied_cells(tiles, width, n - 1);
        match tiles[n - 1] {
            Some(id) => rest.push((((n - 1) as u32) % width, ((n - 1) as u32) / width, id)),
            None => rest,
        }
    }
}

proof fn lemma_occupied(tiles: Seq<Option<u32>>, width: u32, n: int)
    requires
        width > 0,
        0 <= n <= tiles.len(),
        tiles.len() <= u32::MAX,
    ensures
        forall|k: int| 0 <= k < occupied_cells(tiles, width, n).len() ==> {
            let (c, r, id) = #[trigger] occupied_cells(tiles, width, n)[k];
            &&& c < width
            &&& r * width + c < n
            &&& tiles[r * width + c] == Some(id)
        },
        forall|i: int| 0 <= i < n && #[trigger] tiles[i] is Some ==>
            occupied_cells(tiles, width, n).contains(((i % width as int) as u32, (i / width as int) as u32, tiles[i].unwrap())),
    decreases n,
{
    if n > 0 {
        lemma_occupied(tiles, width, n - 1);
        let rest = occupied_cells(tiles, width, n - 1);
        let i = n - 1;
        assert(((i as u32) as int) == i);
        let c = (i as u32) % width;
        let r = (i as u32) / width;
        assert(c as int == i % width as int && r as int == i / width as int);
        vstd::arithmetic::div_mod::lemma_fundamental_div_mod(i, width as int);
        assert(r * width + c == i) by (nonlinear_arith)
            requires i == width * (i / width as int) + i % (width as int), r as int == i / width as int, c as int == i % width as int;
        match tiles[i] {
            Some(id) => {
                let v = rest.push((c, r, id));
                assert(occupied_cells(tiles, width, n) == v);
                assert(v[rest.len() as int] == (c, r, id));
                assert forall|j: int| 0 <= j < n && #[trigger] tiles[j] is Some implies
                    v.contains(((j % width as int) as u32, (j / width as int) as u32, tiles[j].unwrap())) by {
                    if j < n - 1 {
                        let x = ((j % width as int) as u32, (j / width as int) as u32, tiles[j].unwrap());
                        assert(rest.contains(x));
                        let k = choose|k: int| 0 <= k < rest.len() && rest[k] == x;
                        assert(v[k] == x);
                    }
                }
                assert forall|k: int| 0 <= k < v.len() implies {
                    let (c2, r2, id2) = #[trigger] v[k];
                    &&& c2 < width
                    &&& r2 * width + c2 < n
                    &&& tiles[r2 * width + c2] == Some(id2)
                } by {
                    if k < rest.len() {
                        assert(v[k] == rest[k]);
                    }
                }
            },
            None => {
                assert(occupied_cells(tiles, width, n) == rest);
            },
        }
    }
}

/// Listing the non-empty cells of a layer gives, for each, its column (below the width),
/// its row and the tile id that the grid holds there; and every non-empty entry of the
/// grid is listed, at column `i % width` and row `i / width`.
pub proof fn law_iter_tiles_cells(tiles: Seq<Option<u32>>, width: u32)
    requires
        width > 0,
        tiles.len() <= u32::MAX,
    ensures
        forall|k: int| 0 <= k < occupied_cells(tiles, width, tiles.len() as int).len() ==> {
            let (c, r, id) = #[trigger] occupied_cells(tiles, width, tiles.len() as int)[k];
            &&& c < width
            &&& r * width + c < tiles.len()
            &&& tiles[r * width + c] == Some(id)
        },
        forall|i: int| 0 <= i < tiles.len() && #[trigger] tiles[i] is Some ==>
            occupied_cells(tiles, width, tiles.len() as int).contains(((i % width as int) as u32, (i / width as int) as u32, tiles[i].unwrap())),
{
    lemma_occupied(tiles, width, tiles.len() as int);
}

/// Distinct cells of a row-major grid sit at distinct positions.
proof fn lemma_cell_index_unique(w: int, c1: int, r1: int, c2: int, r2: int)
    requires
        0 <= c1 < w,
        0 <= c2 < w,
        0 <= r1,
        0 <= r2,
        r1 * w + c1 == r2 * w + c2,
    ensures
        c1 == c2,
        r1 == r2,
{
    if r1 < r2 {
        assert(r1 * w + w <= r2 * w) by (nonlinear_arith)
            requires r1 < r2, 0 <= w;
    }
    if r2 < r1 {
        assert(r2 * w + w <= r1 * w) by (nonlinear_arith)
            requires r2 < r1, 0 <= w;
    }
}

/// A cell inside a `w`×`h` grid sits before position `w * h`.
proof fn lemma_cell_index_bound(w: int, h: int, c: int, r: int)
    ensures
        0 <= c < w && 0 <= r < h ==> 0 <= r * w + c < w * h,
{
    if 0 <= c < w && 0 <= r < h {
        assert(0 <= r * w + c < w * h) by (nonlinear_arith)
            requires 0 <= c < w, 0 <= r < h;
    }
}

/// `ids` names position `i`.
pub open spec fn lists(ids: Seq<u32>, i: int) -> bool {
    exists|j: int| 0 <= j < ids.len() && #[trigger] ids[j] as int == i
}

/// Marking tiles solid marks exactly the listed ids: every id in the list, and no other.
pub proof fn law_listed_ids(ids: Seq<u32>, i: int)
    ensures
        (exists|j: int| 0 <= j < ids.len() && ids[j] == i) <==> lists(ids, i),
        forall|j: int| 0 <= j < ids.len() ==> lists(ids, #[trigger] ids[j] as int),
{
    assert forall|j: int| 0 <= j < ids.len() implies lists(ids, #[trigger] ids[j] as int) by {
        assert(ids[j] as int == ids[j] as int);
    }
    if exists|j: int| 0 <= j < ids.len() && ids[j] == i {
        let j = choose|j: int| 0 <= j < ids.len() && ids[j] == i;
        assert(ids[j] as int == i);
    }
}

/// A layer stores its cells row by row: cell (`col`, `row`) inside the layer is entry
/// `row * width + col`, and outside the layer every cell is empty.
pub proof fn law_cell_layout(l: TileLayer, col: int, row: int)
    ensures
        l.in_bounds(col, row) <==> (0 <= col < l.width && 0 <= row < l.height),
        l.in_bounds(col, row) ==> l.cell(col, row) == l.tiles@[row * l.width + col],
        !l.in_bounds(col, row) ==> l.cell(col, row) is None,
{
}

proof fn lemma_lists_push(u: Seq<u32>, a: u32, i: int)
    ensures
        lists(u.push(a), i) <==> lists(u, i) || i == a,
{
    let t = u.push(a);
    if lists(t, i) {
        let j = choose|j: int| 0 <= j < t.len() && #[trigger] t[j] as int == i;
        if j < u.len() {
            assert(u[j] as int == i);
        }
    }
    if lists(u, i) {
        let j = choose|j: int| 0 <= j < u.len() && #[trigger] u[j] as int == i;
        assert(t[j] as int == i);
    }
    if i == a {
        assert(t[u.len() as int] as int == i);
    }
}

} // verus!
