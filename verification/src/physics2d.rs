use vstd::prelude::*;
use std::collections::HashMap;
use std::collections::hash_map::Entry as MapEntry;

verus! {

broadcast use vstd::std_specs::hash::group_hash_axioms;

// ─── Tile map collider ────────────────────────────────────────────────────────

/// A dense grid of solid/empty tiles used for collision, stored row by row.
pub struct TilemapCollider {
    /// Number of tiles across.
    pub width: u32,
    /// Number of tiles down.
    pub height: u32,
    tiles: Vec<bool>,
}

impl TilemapCollider {
    /// The solid flags, row by row.
    pub closed spec fn tiles_seq(&self) -> Seq<bool> {
        self.tiles@
    }

    /// Number of tiles across.
    pub closed spec fn width_spec(&self) -> u32 {
        self.width
    }

    /// Number of tiles down.
    pub closed spec fn height_spec(&self) -> u32 {
        self.height
    }

    /// One flag per tile, and every position fits a `u32`.
    pub closed spec fn wf(&self) -> bool {
        &&& self.tiles_seq().len() == self.width_spec() * self.height_spec()
        &&& self.width_spec() * self.height_spec() <= u32::MAX
    }

    /// Tile (`x`, `y`) lies inside the map.
    pub open spec fn in_bounds(&self, x: int, y: int) -> bool {
        0 <= x < self.width_spec() && 0 <= y < self.height_spec()
    }

    /// Whether tile (`x`, `y`) is solid; outside the map nothing is.
    pub closed spec fn solid(&self, x: int, y: int) -> bool {
        self.in_bounds(x, y) && self.tiles_seq()[y * self.width_spec() + x]
    }

    /// A `width`×`height` map with no solid tile.
    pub fn new(width: u32, height: u32) -> (m: Self)
        requires
            width * height <= u32::MAX,
        ensures
            m.wf(),
            m.width_spec() == width,
            m.height_spec() == height,
            forall|x: int, y: int| !#[trigger] m.solid(x, y),
    {
        let count = (width * height) as usize;
        let mut tiles: Vec<bool> = Vec::new();
        let mut i: usize = 0;
        while i < count
            invariant
                0 <= i <= count,
                tiles@.len() == i,
                forall|j: int| 0 <= j < i ==> !#[trigger] tiles@[j],
            decreases count - i,
        {
            tiles.push(false);
            i = i + 1;
        }
        let m = TilemapCollider { width, height, tiles };
        proof {
            assert forall|x: int, y: int| !#[trigger] m.solid(x, y) by {
                lemma_grid_index(width as int, height as int, x, y);
            }
        }
        m
    }

    /// Number of tiles across.
    pub fn width(&self) -> (w: u32)
        ensures
            w == self.width_spec(),
    {
        self.width
    }

    /// Number of tiles down.
    pub fn height(&self) -> (h: u32)
        ensures
            h == self.height_spec(),
    {
        self.height
    }

    /// Marks tile (`x`, `y`); tiles outside the map are ignored.
    pub fn set_tile(&mut self, x: u32, y: u32, solid: bool)
        requires
            old(self).wf(),
        ensures
            final(self).wf(),
            final(self).width_spec() == old(self).width_spec(),
            final(self).height_spec() == old(self).height_spec(),
            forall|xx: int, yy: int| #[trigger] final(self).solid(xx, yy) == if xx == x && yy == y && old(self).in_bounds(xx, yy) {
                solid
            } else {
                old(self).solid(xx, yy)
            },
    {
        let ghost before = *self;
        if x < self.width && y < self.height {
            proof {
                lemma_grid_index(self.width as int, self.height as int, x as int, y as int);
            }
            self.tiles.set((y * self.width + x) as usize, solid);
        }
        proof {
            assert forall|xx: int, yy: int| #[trigger] self.solid(xx, yy) == if xx == x && yy == y && before.in_bounds(xx, yy) {
                solid
            } else {
                before.solid(xx, yy)
            } by {
                if before.in_bounds(xx, yy) {
                    lemma_grid_index(self.width as int, self.height as int, xx, yy);
                    if before.in_bounds(x as int, y as int) && yy * self.width + xx == y * self.width + x {
                        lemma_grid_unique(self.width as int, xx, yy, x as int, y as int);
                    }
                }
            }
        }
    }

    /// Whether tile (`x`, `y`) is solid; tiles outside the map are not.
    pub fn get_tile(&self, x: u32, y: u32) -> (b: bool)
        requires
            self.wf(),
        ensures
            b == self.solid(x as int, y as int),
    {
        if x < self.width && y < self.height {
            proof {
                lemma_grid_index(self.width as int, self.height as int, x as int, y as int);
            }
            self.tiles[(y * self.width + x) as usize]
        } else {
            false
        }
    }

    /// The solid tiles in the rectangle of tiles from (`min_x`, `min_y`) to (`max_x`, `max_y`)
    /// inclusive, after clamping it to the map, in row-major order.
    pub fn tiles_in_region(&self, min_x: i32, min_y: i32, max_x: i32, max_y: i32) -> (v: Vec<(u32, u32)>)
        requires
            self.wf(),
            self.width_spec() != 0x8000_0000,
            self.height_spec() != 0x8000_0000,
        ensures
            forall|i: int| 0 <= i < v@.len() ==> {
                let (x, y) = #[trigger] v@[i];
                &&& self.solid(x as int, y as int)
                &&& clamp_low(min_x) <= x <= clamp_high(max_x, self.width_spec())
                &&& clamp_low(min_y) <= y <= clamp_high(max_y, self.height_spec())
            },
            forall|x: int, y: int| clamp_low(min_x) <= x <= clamp_high(max_x, self.width_spec())
                && clamp_low(min_y) <= y <= clamp_high(max_y, self.height_spec())
                && #[trigger] self.solid(x, y) ==> v@.contains((x as u32, y as u32)),
            forall|i: int, j: int| 0 <= i < j < v@.len() ==> row_major_before(#[trigger] v@[i], #[trigger] v@[j]),
    {
        let x0: u32 = clamp_low_exec(min_x);
        let y0: u32 = clamp_low_exec(min_y);
        let x1: u32 = clamp_high_exec(max_x, self.width);
        let y1: u32 = clamp_high_exec(max_y, self.height);
        let mut v: Vec<(u32, u32)> = Vec::new();
        let mut ty: u32 = y0;
        while ty <= y1
            invariant
                self.wf(),
                y0 <= ty,
                y1 < i32::MAX,
                x1 < i32::MAX,
                x0 == clamp_low(min_x),
                y0 == clamp_low(min_y),
                x1 == clamp_high(max_x, self.width_spec()),
                y1 == clamp_high(max_y, self.height_spec()),
                forall|i: int| 0 <= i < v@.len() ==> {
                    let (x, y) = #[trigger] v@[i];
                    &&& self.solid(x as int, y as int)
                    &&& x0 <= x <= x1
                    &&& y0 <= y < ty
                    &&& y <= y1
                },
                forall|x: int, y: int| x0 <= x <= x1 && y0 <= y < ty && #[trigger] self.solid(x, y)
                    ==> v@.contains((x as u32, y as u32)),
                forall|i: int, j: int| 0 <= i < j < v@.len() ==> row_major_before(#[trigger] v@[i], #[trigger] v@[j]),
            decreases y1 + 1 - ty,
        {
            let mut tx: u32 = x0;
            while tx <= x1
                invariant
                    self.wf(),
                    y0 <= ty <= y1,
                    x0 <= tx,
                    y1 < i32::MAX,
                    x1 < i32::MAX,
                    forall|i: int| 0 <= i < v@.len() ==> {
                        let (x, y) = #[trigger] v@[i];
                        &&& self.solid(x as int, y as int)
                        &&& x0 <= x <= x1
                        &&& (y0 <= y < ty || (y == ty && x < tx))
                        &&& y <= y1
                    },
                    forall|x: int, y: int| x0 <= x <= x1 && (y0 <= y < ty || (y == ty && x < tx)) && #[trigger] self.solid(x, y)
                        ==> v@.contains((x as u32, y as u32)),
                    forall|i: int, j: int| 0 <= i < j < v@.len() ==> row_major_before(#[trigger] v@[i], #[trigger] v@[j]),
                decreases x1 + 1 - tx,
            {
                if self.get_tile(tx, ty) {
                    let ghost before = v@;
                    v.push((tx, ty));
                    proof {
                        assert forall|x: int, y: int| x0 <= x <= x1 && (y0 <= y < ty || (y == ty && x < tx + 1)) && #[trigger] self.solid(x, y)
                            implies v@.contains((x as u32, y as u32)) by {
                            if x == tx && y == ty {
                                assert(v@[before.len() as int] == (tx, ty));
                            } else {
                                let k = choose|k: int| 0 <= k < before.len() && before[k] == (x as u32, y as u32);
                                assert(v@[k] == (x as u32, y as u32));
                            }
                        }
                        assert forall|i: int, j: int| 0 <= i < j < v@.len() implies row_major_before(#[trigger] v@[i], #[trigger] v@[j]) by {
                            if j == before.len() {
                                assert(before.contains(before[i]));
                            } else {
                                assert(v@[i] == before[i] && v@[j] == before[j]);
                            }
                        }
                    }
                }
                tx = tx + 1;
            }
            ty = ty + 1;
        }
        v
    }

    /// Builds a map from rows of flags (top row first). The width is that of the first
    /// row; cells of longer rows beyond it are ignored.
    pub fn from_grid(grid: &[&[bool]]) -> (m: Self)
        requires
            grid@.len() <= u32::MAX,
            grid@.len() > 0 ==> grid@[0]@.len() <= u32::MAX,
            (if grid@.len() > 0 { grid@[0]@.len() as int } else { 0int }) * grid@.len() <= u32::MAX,
            forall|r: int| 0 <= r < grid@.len() ==> (#[trigger] grid@[r])@.len() <= u32::MAX,
        ensures
            m.wf(),
            m.height_spec() == grid@.len(),
            m.width_spec() == (if grid@.len() > 0 { grid@[0]@.len() as int } else { 0int }),
            forall|x: int, y: int| #[trigger] m.solid(x, y) == (m.in_bounds(x, y) && x < grid@[y]@.len() && grid@[y]@[x]),
    {
        let height = grid.len() as u32;
        let width: u32 = if grid.len() > 0 { grid[0].len() as u32 } else { 0 };
        let mut map = TilemapCollider::new(width, height);
        let n = grid.len();
        let mut y: usize = 0;
        while y < n
            invariant
                0 <= y <= n,
                n == grid@.len(),
                map.wf(),
                map.width_spec() == width,
                map.height_spec() == height,
                height == n,
                forall|r: int| 0 <= r < grid@.len() ==> (#[trigger] grid@[r])@.len() <= u32::MAX,
                forall|xx: int, yy: int| #[trigger] map.solid(xx, yy) == (map.in_bounds(xx, yy) && yy < y && xx < grid@[yy]@.len() && grid@[yy]@[xx]),
            decreases n - y,
        {
            let row = grid[y];
            let rn = row.len();
            let mut x: usize = 0;
            while x < rn
                invariant
                    0 <= x <= rn,
                    rn == row@.len(),
                    rn <= u32::MAX,
                    y < n,
                    n <= u32::MAX,
                    row == grid@[y as int],
                    map.wf(),
                    map.width_spec() == width,
                    map.height_spec() == height,
                    forall|xx: int, yy: int| #[trigger] map.solid(xx, yy) == (map.in_bounds(xx, yy)
                        && (yy < y || (yy == y && xx < x)) && xx < grid@[yy]@.len() && grid@[yy]@[xx]),
                decreases rn - x,
            {
                map.set_tile(x as u32, y as u32, row[x]);
                x = x + 1;
            }
            y = y + 1;
        }
        map
    }

    /// Builds a map from text: one row per line ('\n' or "\r\n" ends a line; a final line
    /// ending is optional), '#' is a solid tile and any other character an empty one.
    /// The map is as wide as the longest line in UTF-8 bytes.
    pub fn from_str(map_str: &str) -> (m: Self)
        requires
            text_lines(map_str@).len() <= u32::MAX,
            forall|y: int| 0 <= y < text_lines(map_str@).len() ==> (#[trigger] text_lines(map_str@)[y]).len() <= u32::MAX,
            max_line_bytes(text_lines(map_str@), text_lines(map_str@).len() as int) * text_lines(map_str@).len() <= u32::MAX,
        ensures
            m.wf(),
            m.height_spec() == text_lines(map_str@).len(),
            m.width_spec() == max_line_bytes(text_lines(map_str@), text_lines(map_str@).len() as int),
            forall|x: int, y: int| #[trigger] m.solid(x, y) == (m.in_bounds(x, y)
                && x < text_lines(map_str@)[y].len() && text_lines(map_str@)[y][x] == '#'),
    {
        let rows = split_lines(map_str);
        let ghost lines = text_lines(map_str@);
        let n = rows.len();
        proof {
            let mx = max_line_bytes(lines, lines.len() as int);
            lemma_max_line_bytes_mono(lines, lines.len() as int, lines.len() as int);
            if lines.len() > 0 {
                assert(mx <= mx * lines.len()) by (nonlinear_arith)
                    requires mx >= 0, lines.len() >= 1;
            } else {
                assert(mx == 0);
            }
        }
        let mut width: u32 = 0;
        let mut k: usize = 0;
        while k < n
            invariant
                0 <= k <= n,
                n == rows@.len(),
                n == lines.len(),
                forall|i: int| 0 <= i < n ==> (#[trigger] rows@[i])@ == lines[i],
                forall|y: int| 0 <= y < lines.len() ==> (#[trigger] lines[y]).len() <= u32::MAX,
                width == max_line_bytes(lines, k as int),
                max_line_bytes(lines, n as int) <= u32::MAX,
            decreases n - k,
        {
            proof {
                lemma_max_line_bytes_mono(lines, k as int + 1, n as int);
            }
            let l = utf8_len_of(&rows[k]);
            if l > width {
                width = l;
            }
            k = k + 1;
        }
        let height = n as u32;
        proof {
            assert(width * height <= u32::MAX) by (nonlinear_arith)
                requires width as int * height as int <= u32::MAX;
        }
        let mut map = TilemapCollider::new(width, height);
        let mut y: usize = 0;
        while y < n
            invariant
                0 <= y <= n,
                n == rows@.len(),
                n == lines.len(),
                n <= u32::MAX,
                forall|i: int| 0 <= i < n ==> (#[trigger] rows@[i])@ == lines[i],
                forall|yy: int| 0 <= yy < lines.len() ==> (#[trigger] lines[yy]).len() <= u32::MAX,
                map.wf(),
                map.width_spec() == width,
                map.height_spec() == height,
                height == n,
                forall|xx: int, yy: int| #[trigger] map.solid(xx, yy) == (map.in_bounds(xx, yy) && yy < y
                    && xx < lines[yy].len() && lines[yy][xx] == '#'),
            decreases n - y,
        {
            let row = &rows[y];
            let rn = row.len();
            let mut x: usize = 0;
            while x < rn
                invariant
                    0 <= x <= rn,
                    rn == row@.len(),
                    rn <= u32::MAX,
                    y < n,
                    n <= u32::MAX,
                    row@ == lines[y as int],
                    map.wf(),
                    map.width_spec() == width,
                    map.height_spec() == height,
                    forall|xx: int, yy: int| #[trigger] map.solid(xx, yy) == (map.in_bounds(xx, yy)
                        && (yy < y || (yy == y && xx < x)) && xx < lines[yy].len() && lines[yy][xx] == '#'),
                decreases rn - x,
            {
                map.set_tile(x as u32, y as u32, row[x] == '#');
                x = x + 1;
            }
            y = y + 1;
        }
        map
    }
}

// ─── Physics world ────────────────────────────────────────────────────────────

/// Id of a body registered in a `PhysicsWorld`.
#[derive(Clone, Copy, Debug, PartialEq, Eq, Structural, Hash)]
pub struct PhysicsId(pub u64);

/// The registry of physics bodies, each under an id handed out once.
pub struct PhysicsWorld<B> {
    bodies: HashMap<u64, B>,
    next_id: u64,
}

impl<B> PhysicsWorld<B> {
    /// Bodies by id.
    pub closed spec fn bodies_map(&self) -> Map<u64, B> {
        self.bodies@
    }

    /// The id that the next `add` hands out.
    pub closed spec fn next_id_spec(&self) -> u64 {
        self.next_id
    }

    /// Every registered id is below the next one to hand out.
    pub closed spec fn wf(&self) -> bool {
        &&& self.next_id >= 1
        &&& forall|k: u64| #[trigger] self.bodies@.contains_key(k) ==> k < self.next_id
    }

    pub fn new() -> (w: Self)
        ensures
            w.wf(),
            w.bodies_map() == Map::<u64, B>::empty(),
            w.next_id_spec() == 1,
    {
        PhysicsWorld { bodies: HashMap::new(), next_id: 1 }
    }

    /// Registers a body under a fresh id.
    pub fn add(&mut self, body: B) -> (id: PhysicsId)
        requires
            old(self).wf(),
            old(self).next_id_spec() < u64::MAX,
        ensures
            final(self).wf(),
            id == PhysicsId(old(self).next_id_spec()),
            !old(self).bodies_map().contains_key(id.0),
            final(self).bodies_map() == old(self).bodies_map().insert(id.0, body),
            final(self).next_id_spec() == old(self).next_id_spec() + 1,
    {
        let id = PhysicsId(self.next_id);
        self.next_id = self.next_id + 1;
        self.bodies.insert(id.0, body);
        id
    }

    /// Unregisters a body; unknown ids are ignored.
    pub fn remove(&mut self, id: PhysicsId)
        requires
            old(self).wf(),
        ensures
            final(self).wf(),
            final(self).bodies_map() == old(self).bodies_map().remove(id.0),
            final(self).next_id_spec() == old(self).next_id_spec(),
    {
        self.bodies.remove(&id.0);
    }

    /// The body registered under `id`.
    pub fn get(&self, id: PhysicsId) -> (b: Option<&B>)
        ensures
            b == (if self.bodies_map().contains_key(id.0) { Some(&self.bodies_map()[id.0]) } else { None }),
    {
        self.bodies.get(&id.0)
    }

    /// Mutable access to the body registered under `id`.
    pub fn get_mut(&mut self, id: PhysicsId) -> (b: Option<&mut B>)
        requires
            old(self).wf(),
        ensures
            final(self).wf(),
            final(self).next_id_spec() == old(self).next_id_spec(),
            match b {
                Some(v) => old(self).bodies_map().contains_key(id.0)
                    && *v == old(self).bodies_map()[id.0]
                    && final(self).bodies_map() == old(self).bodies_map().insert(id.0, *final(v)),
                None => !old(self).bodies_map().contains_key(id.0)
                    && final(self).bodies_map() == old(self).bodies_map(),
            },
    {
        match self.bodies.entry(id.0) {
            MapEntry::Occupied(o) => Some(o.into_mut()),
            MapEntry::Vacant(_) => None,
        }
    }

    /// The registered ids, each once, in the map's iteration order.
    pub fn ids(&self) -> (v: Vec<PhysicsId>)
        ensures
            v@.no_duplicates(),
            forall|i: int| 0 <= i < v@.len() ==> self.bodies_map().contains_key((#[trigger] v@[i]).0),
            forall|k: u64| #[trigger] self.bodies_map().contains_key(k) ==> v@.contains(PhysicsId(k)),
    {
        let mut v: Vec<PhysicsId> = Vec::new();
        for (k, body) in it: self.bodies.iter()
            invariant
                it.seq().no_duplicates(),
                forall|j: int| 0 <= j < it.seq().len() ==> self.bodies@.contains_key(*(#[trigger] it.seq()[j]).0)
                    && self.bodies@[*it.seq()[j].0] == *it.seq()[j].1,
                forall|i: int| 0 <= i < v@.len() ==> self.bodies@.contains_key((#[trigger] v@[i]).0),
                forall|j: int| 0 <= j < it.index() ==> v@.contains(PhysicsId(*(#[trigger] it.seq()[j]).0)),
                forall|j: int| it.index() <= j < it.seq().len() ==> !v@.contains(PhysicsId(*(#[trigger] it.seq()[j]).0)),
                v@.no_duplicates(),
        {
            let ghost here = it.index();
            let ghost before = v@;
            assert(it.seq()[here] == (k, body));
            proof {
                lemma_distinct_keys(self.bodies@, it.seq());
            }
            v.push(PhysicsId(*k));
            proof {
                assert(v@[before.len() as int] == PhysicsId(*k));
                assert forall|x: PhysicsId| v@.contains(x) <==> before.contains(x) || x == PhysicsId(*k) by {
                    if v@.contains(x) {
                        let j = choose|j: int| 0 <= j < v@.len() && v@[j] == x;
                        if j < before.len() {
                            assert(before[j] == x);
                        }
                    }
                    if before.contains(x) {
                        let j = choose|j: int| 0 <= j < before.len() && before[j] == x;
                        assert(v@[j] == x);
                    }
                }
                assert forall|a: int, b: int| 0 <= a < b < v@.len() implies v@[a] != v@[b] by {
                    if b == before.len() {
                        assert(before.contains(before[a]));
                    } else {
                        assert(v@[a] == before[a] && v@[b] == before[b]);
                    }
                }
                assert forall|j: int| here + 1 <= j < it.seq().len() implies !v@.contains(PhysicsId(*(#[trigger] it.seq()[j]).0)) by {
                    assert(it.seq()[j].0 != it.seq()[here].0);
                }
            }
        }
        v
    }
}

/// In the pairs that iterating a map yields, no key occurs twice.
proof fn lemma_distinct_keys<'a, V>(m: Map<u64, V>, s: Seq<(&'a u64, &'a V)>)
    requires
        s.no_duplicates(),
        forall|j: int| 0 <= j < s.len() ==> m.contains_key(*(#[trigger] s[j]).0) && m[*s[j].0] == *s[j].1,
    ensures
        forall|a: int, b: int| 0 <= a < s.len() && 0 <= b < s.len() && a != b ==> (#[trigger] s[a]).0 != (#[trigger] s[b]).0,
{
    assert forall|a: int, b: int| 0 <= a < s.len() && 0 <= b < s.len() && a != b implies (#[trigger] s[a]).0 != (#[trigger] s[b]).0 by {
        if s[a].0 == s[b].0 {
            assert(*s[a].1 == m[*s[a].0]);
            assert(*s[b].1 == m[*s[b].0]);
            assert(s[a] == s[b]);
        }
    }
}

/// How an overlapping pair of bodies is separated.
#[derive(Clone, Copy, Debug, PartialEq, Eq, Structural)]
pub enum PairResponse {
    /// Both move: each is pushed half the way, and they exchange momentum.
    Split,
    /// Only the second body moves.
    PushSecond,
    /// Only the first body moves.
    PushFirst,
    /// Neither moves.
    Ignore,
}

/// The response to an overlapping pair, by which of the two bodies are static.
pub open spec fn response_for(a_static: bool, b_static: bool) -> PairResponse {
    if !a_static && !b_static {
        PairResponse::Split
    } else if a_static && !b_static {
        PairResponse::PushSecond
    } else if !a_static && b_static {
        PairResponse::PushFirst
    } else {
        PairResponse::Ignore
    }
}

/// Whether a response moves the first body of the pair.
pub open spec fn moves_first(r: PairResponse) -> bool {
    r == PairResponse::Split || r == PairResponse::PushFirst
}

/// Whether a response moves the second body of the pair.
pub open spec fn moves_second(r: PairResponse) -> bool {
    r == PairResponse::Split || r == PairResponse::PushSecond
}

/// The response for an overlapping pair: static bodies never move.
pub fn pair_response(a_static: bool, b_static: bool) -> (r: PairResponse)
    ensures
        r == response_for(a_static, b_static),
{
    match (a_static, b_static) {
        (false, false) => PairResponse::Split,
        (true, false) => PairResponse::PushSecond,
        (false, true) => PairResponse::PushFirst,
        (true, true) => PairResponse::Ignore,
    }
}

/// Collision response moves exactly the dynamic bodies of a pair: a static body is never
/// moved, and a dynamic one always is.
pub proof fn law_static_bodies_stay(a_static: bool, b_static: bool)
    ensures
        moves_first(response_for(a_static, b_static)) == !a_static,
        moves_second(response_for(a_static, b_static)) == !b_static,
{
}

/// The grid is stored row by row: tile (`x`, `y`) inside the map is solid exactly when
/// flag `y * width + x` is set.
pub proof fn law_solid_layout(m: TilemapCollider, x: int, y: int)
    ensures
        m.in_bounds(x, y) <==> (0 <= x < m.width_spec() && 0 <= y < m.height_spec()),
        m.in_bounds(x, y) ==> (m.solid(x, y) <==> m.tiles_seq()[y * m.width_spec() + x]),
{
}

/// Nothing outside the map is solid.
pub proof fn law_outside_not_solid(m: TilemapCollider, x: int, y: int)
    requires
        !m.in_bounds(x, y),
    ensures
        !m.solid(x, y),
{
}

/// The lower clamp keeps a coordinate that is not negative and moves a negative one to 0.
pub proof fn law_clamp_low(v: i32)
    ensures
        v >= 0 ==> clamp_low(v) == v,
        v < 0 ==> clamp_low(v) == 0,
{
}

/// The region asked for is covered: a solid tile of a map no larger than `i32::MAX` each
/// way, lying between (`min_x`, `min_y`) and (`max_x`, `max_y`), lies inside the clamped
/// region that `tiles_in_region` lists in full.
pub proof fn law_region_covers_request(m: TilemapCollider, min_x: i32, min_y: i32, max_x: i32, max_y: i32, x: int, y: int)
    requires
        m.width_spec() <= i32::MAX,
        m.height_spec() <= i32::MAX,
        min_x <= x <= max_x,
        min_y <= y <= max_y,
        m.solid(x, y),
    ensures
        clamp_low(min_x) <= x <= clamp_high(max_x, m.width_spec()),
        clamp_low(min_y) <= y <= clamp_high(max_y, m.height_spec()),
{
    lemma_clamp_high_in_range(max_x, m.width_spec());
    lemma_clamp_high_in_range(max_y, m.height_spec());
}

/// Every tile that the region lists lies at or after the requested top left corner.
pub proof fn law_region_starts_at_request(v: i32, x: int)
    requires
        clamp_low(v) <= x,
    ensures
        v <= x,
        0 <= x,
{
}

/// What is marked is read back, and no other tile changes.
pub proof fn law_mark_then_read(m0: TilemapCollider, m1: TilemapCollider, x: u32, y: u32, solid: bool)
    requires
        m0.in_bounds(x as int, y as int),
        forall|xx: int, yy: int| #[trigger] m1.solid(xx, yy) == if xx == x && yy == y && m0.in_bounds(xx, yy) {
            solid
        } else {
            m0.solid(xx, yy)
        },
    ensures
        m1.solid(x as int, y as int) == solid,
        forall|xx: int, yy: int| (xx != x || yy != y) ==> #[trigger] m1.solid(xx, yy) == m0.solid(xx, yy),
{
    assert(m1.solid(x as int, y as int) == solid);
}

// ─── Text maps ────────────────────────────────────────────────────────────────

/// Drops one carriage return at the end of a line.
pub open spec fn strip_cr(line: Seq<char>) -> Seq<char> {
    if line.len() > 0 && line.last() == '\r' { line.drop_last() } else { line }
}

/// The finished lines and the line in progress after reading the first `n` characters.
pub open spec fn split_state(s: Seq<char>, n: int) -> (Seq<Seq<char>>, Seq<char>)
    decreases n,
{
    if n <= 0 {
        (Seq::empty(), Seq::empty())
    } else {
        let (done, cur) = split_state(s, n - 1);
        if s[n - 1] == '\n' {
            (done.push(strip_cr(cur)), Seq::empty())
        } else {
            (done, cur.push(s[n - 1]))
        }
    }
}

/// The lines of a text: split at '\n', without the line endings ('\n' or "\r\n");
/// an unterminated last line counts when it is not empty.
pub open spec fn text_lines(s: Seq<char>) -> Seq<Seq<char>> {
    let (done, cur) = split_state(s, s.len() as int);
    if cur.len() > 0 { done.push(cur) } else { done }
}

/// Reading characters none of which is '\n' finishes no line and keeps them all.
proof fn lemma_split_plain(s: Seq<char>, k: int)
    requires
        0 <= k <= s.len(),
        forall|i: int| 0 <= i < k ==> s[i] != '\n',
    ensures
        split_state(s, k) == (Seq::<Seq<char>>::empty(), s.take(k)),
    decreases k,
{
    if k > 0 {
        lemma_split_plain(s, k - 1);
        assert(s.take(k) =~= s.take(k - 1).push(s[k - 1]));
    } else {
        assert(s.take(0) =~= Seq::<char>::empty());
    }
}

/// The state after `n` characters depends on those characters only.
proof fn lemma_split_prefix(a: Seq<char>, b: Seq<char>, n: int)
    requires
        0 <= n <= a.len(),
        n <= b.len(),
        forall|i: int| 0 <= i < n ==> a[i] == b[i],
    ensures
        split_state(a, n) == split_state(b, n),
    decreases n,
{
    if n > 0 {
        lemma_split_prefix(a, b, n - 1);
    }
}

/// Reading on after a finished line adds the lines of what follows.
proof fn lemma_split_shift(x: Seq<char>, rest: Seq<char>, d: Seq<Seq<char>>, k: int)
    requires
        split_state(x, x.len() as int) == (d, Seq::<char>::empty()),
        0 <= k <= rest.len(),
    ensures
        split_state(x + rest, x.len() + k) == (d + split_state(rest, k).0, split_state(rest, k).1),
    decreases k,
{
    if k == 0 {
        lemma_split_prefix(x + rest, x, x.len() as int);
        assert(d + Seq::<Seq<char>>::empty() =~= d);
    } else {
        lemma_split_shift(x, rest, d, k - 1);
        assert((x + rest)[x.len() + k - 1] == rest[k - 1]);
        let (d1, c1) = split_state(rest, k - 1);
        assert((d + d1).push(strip_cr(c1)) =~= d + d1.push(strip_cr(c1)));
    }
}

/// A text made of one line and its '\n', followed by more text, has that line (without a
/// '\r' before the '\n') and then the lines of the rest.
pub proof fn law_text_lines_split(line: Seq<char>, rest: Seq<char>)
    requires
        forall|i: int| 0 <= i < line.len() ==> line[i] != '\n',
    ensures
        text_lines(line.push('\n') + rest) == seq![strip_cr(line)] + text_lines(rest),
{
    let x = line.push('\n');
    lemma_split_plain(x, line.len() as int);
    assert(x.take(line.len() as int) =~= line);
    assert(x[line.len() as int] == '\n');
    let d = seq![strip_cr(line)];
    assert(split_state(x, x.len() as int) == (d, Seq::<char>::empty()));
    lemma_split_shift(x, rest, d, rest.len() as int);
    assert(x.len() + rest.len() == (x + rest).len());
    let (d2, c2) = split_state(rest, rest.len() as int);
    assert((d + d2).push(c2) =~= d + d2.push(c2));
}

/// A non-empty text without '\n' is one line, kept as it is.
pub proof fn law_text_single_line(s: Seq<char>)
    requires
        s.len() > 0,
        forall|i: int| 0 <= i < s.len() ==> s[i] != '\n',
    ensures
        text_lines(s) == seq![s],
{
    lemma_split_plain(s, s.len() as int);
    assert(s.take(s.len() as int) =~= s);
    assert(Seq::<Seq<char>>::empty().push(s) =~= seq![s]);
}

/// Number of bytes in the UTF-8 encoding of `c`.
pub open spec fn utf8_len(c: char) -> int {
    if (c as u32) < 0x80 {
        1
    } else if (c as u32) < 0x800 {
        2
    } else if (c as u32) < 0x10000 {
        3
    } else {
        4
    }
}

/// Number of bytes in the UTF-8 encoding of the first `n` characters of `line`.
pub open spec fn utf8_bytes(line: Seq<char>, n: int) -> int
    decreases n,
{
    if n <= 0 { 0 } else { utf8_bytes(line, n - 1) + utf8_len(line[n - 1]) }
}

/// The largest UTF-8 byte length among the first `n` lines.
pub open spec fn max_line_bytes(lines: Seq<Seq<char>>, n: int) -> int
    decreases n,
{
    if n <= 0 {
        0
    } else {
        let m = max_line_bytes(lines, n - 1);
        let l = utf8_bytes(lines[n - 1], lines[n - 1].len() as int);
        if l > m { l } else { m }
    }
}

proof fn lemma_max_line_bytes(lines: Seq<Seq<char>>, n: int)
    requires
        0 <= n <= lines.len(),
    ensures
        forall|r: int| 0 <= r < n ==> utf8_bytes(#[trigger] lines[r], lines[r].len() as int) <= max_line_bytes(lines, n),
        n > 0 ==> exists|r: int| 0 <= r < n && utf8_bytes(#[trigger] lines[r], lines[r].len() as int) == max_line_bytes(lines, n),
    decreases n,
{
    if n > 0 {
        lemma_max_line_bytes(lines, n - 1);
        let l = utf8_bytes(lines[n - 1], lines[n - 1].len() as int);
        if l > max_line_bytes(lines, n - 1) || n - 1 == 0 {
            lemma_utf8_bytes_at_least_chars(lines[n - 1], lines[n - 1].len() as int);
            assert(utf8_bytes(lines[n - 1], lines[n - 1].len() as int) == max_line_bytes(lines, n));
        } else {
            let r = choose|r: int| 0 <= r < n - 1 && utf8_bytes(#[trigger] lines[r], lines[r].len() as int) == max_line_bytes(lines, n - 1);
            assert(utf8_bytes(lines[r], lines[r].len() as int) == max_line_bytes(lines, n));
        }
    }
}

proof fn lemma_utf8_bytes_at_least_chars(line: Seq<char>, n: int)
    requires
        0 <= n,
    ensures
        n <= utf8_bytes(line, n) <= 4 * n,
    decreases n,
{
    if n > 0 {
        lemma_utf8_bytes_at_least_chars(line, n - 1);
    }
}

/// A collider read from text is as wide as its longest line in bytes: every character
/// of every line lands in a column (a character takes one to four bytes, an ASCII one
/// exactly one), and some line is exactly that long.
pub proof fn law_text_map_width(lines: Seq<Seq<char>>)
    ensures
        forall|r: int| 0 <= r < lines.len() ==> (#[trigger] lines[r]).len() <= utf8_bytes(lines[r], lines[r].len() as int)
            <= max_line_bytes(lines, lines.len() as int),
        lines.len() > 0 ==> exists|r: int| 0 <= r < lines.len()
            && utf8_bytes(#[trigger] lines[r], lines[r].len() as int) == max_line_bytes(lines, lines.len() as int),
        forall|c: char| (c as u32) < 0x80 ==> #[trigger] utf8_len(c) == 1,
        forall|c: char| 1 <= #[trigger] utf8_len(c) <= 4,
{
    lemma_max_line_bytes(lines, lines.len() as int);
    assert forall|r: int| 0 <= r < lines.len() implies (#[trigger] lines[r]).len() <= utf8_bytes(lines[r], lines[r].len() as int) by {
        lemma_utf8_bytes_at_least_chars(lines[r], lines[r].len() as int);
    }
}

proof fn lemma_max_line_bytes_mono(lines: Seq<Seq<char>>, k: int, n: int)
    requires
        0 <= k <= n,
    ensures
        max_line_bytes(lines, k) <= max_line_bytes(lines, n),
        0 <= max_line_bytes(lines, k),
    decreases n,
{
    if k < n {
        lemma_max_line_bytes_mono(lines, k, n - 1);
    } else if k > 0 {
        lemma_max_line_bytes_mono(lines, k - 1, n - 1);
    }
}

proof fn lemma_utf8_bytes_lower(line: Seq<char>, k: int)
    requires
        0 <= k,
    ensures
        k <= utf8_bytes(line, k),
    decreases k,
{
    if k > 0 {
        lemma_utf8_bytes_lower(line, k - 1);
    }
}

proof fn lemma_utf8_bytes_mono(line: Seq<char>, k: int, n: int)
    requires
        0 <= k <= n,
    ensures
        utf8_bytes(line, k) <= utf8_bytes(line, n),
        k <= utf8_bytes(line, k),
    decreases n,
{
    lemma_utf8_bytes_lower(line, k);
    if k < n {
        lemma_utf8_bytes_mono(line, k, n - 1);
    }
}

/// UTF-8 byte length of a line.
fn utf8_len_of(line: &Vec<char>) -> (l: u32)
    requires
        utf8_bytes(line@, line@.len() as int) <= u32::MAX,
    ensures
        l == utf8_bytes(line@, line@.len() as int),
{
    let n = line.len();
    let mut total: u32 = 0;
    let mut i: usize = 0;
    while i < n
        invariant
            0 <= i <= n,
            n == line@.len(),
            total == utf8_bytes(line@, i as int),
            utf8_bytes(line@, n as int) <= u32::MAX,
        decreases n - i,
    {
        proof {
            lemma_utf8_bytes_mono(line@, i as int + 1, n as int);
        }
        let c = line[i] as u32;
        let w: u32 = if c < 0x80 {
            1
        } else if c < 0x800 {
            2
        } else if c < 0x10000 {
            3
        } else {
            4
        };
        total = total + w;
        i = i + 1;
    }
    total
}

/// The lines of `s`, as character vectors.
fn split_lines(s: &str) -> (rows: Vec<Vec<char>>)
    ensures
        rows@.len() == text_lines(s@).len(),
        forall|i: int| 0 <= i < rows@.len() ==> (#[trigger] rows@[i])@ == text_lines(s@)[i],
{
    let mut rows: Vec<Vec<char>> = Vec::new();
    let mut cur: Vec<char> = Vec::new();
    for ch in it: s.chars()
        invariant
            it.seq() == s@,
            ({
                let (done, c) = split_state(s@, it.index());
                &&& rows@.len() == done.len()
                &&& forall|i: int| 0 <= i < rows@.len() ==> (#[trigger] rows@[i])@ == done[i]
                &&& cur@ == c
            }),
    {
        let ghost k = it.index();
        proof {
            assert(s@[k] == ch);
        }
        if ch == '\n' {
            let n = cur.len();
            if n > 0 && cur[n - 1] == '\r' {
                cur.pop();
            }
            let ghost before = rows@;
            rows.push(cur);
            cur = Vec::new();
            proof {
                let (done, c) = split_state(s@, k);
                assert forall|i: int| 0 <= i < rows@.len() implies (#[trigger] rows@[i])@ == done.push(strip_cr(c))[i] by {
                    if i < before.len() {
                        assert(rows@[i] == before[i]);
                    }
                }
            }
        } else {
            cur.push(ch);
        }
    }
    if cur.len() > 0 {
        let ghost before = rows@;
        rows.push(cur);
        proof {
            let (done, c) = split_state(s@, s@.len() as int);
            assert forall|i: int| 0 <= i < rows@.len() implies (#[trigger] rows@[i])@ == done.push(c)[i] by {
                if i < before.len() {
                    assert(rows@[i] == before[i]);
                }
            }
        }
    }
    rows
}

/// Lower clamp of a tile coordinate: never below 0.
pub open spec fn clamp_low(v: i32) -> u32 {
    if v < 0 { 0 } else { v as u32 }
}

/// Upper clamp of a tile coordinate: never past the last tile, never below 0. The last
/// tile is `size - 1` computed on `size` converted to an `i32` (which wraps for sizes
/// above `i32::MAX`, so that such a map is clamped to its first tile).
pub open spec fn clamp_high(v: i32, size: u32) -> u32 {
    let last = (size as i32) as int - 1;
    let m = if v < last { v as int } else { last };
    if m < 0 { 0 } else { m as u32 }
}

/// For a map no wider than `i32::MAX` the upper clamp is the last tile or `v`, whichever
/// is smaller, and never below 0.
pub proof fn lemma_clamp_high_in_range(v: i32, size: u32)
    requires
        size <= i32::MAX,
    ensures
        clamp_high(v, size) == (if v < size - 1 { if v < 0 { 0 } else { v as int } } else if size == 0 { 0 } else { size - 1 }),
{
    assert((size as i32) as int == size as int) by (bit_vector)
        requires size <= 0x7fff_ffffu32;
}

fn clamp_low_exec(v: i32) -> (r: u32)
    ensures
        r == clamp_low(v),
{
    if v < 0 { 0 } else { v as u32 }
}

fn clamp_high_exec(v: i32, size: u32) -> (r: u32)
    requires
        size != 0x8000_0000,
    ensures
        r == clamp_high(v, size),
        r < i32::MAX,
{
    assert(size != 0x8000_0000u32 ==> (size as i32) != i32::MIN) by (bit_vector);
    let last: i32 = (size as i32) - 1;
    let m: i32 = if v < last { v } else { last };
    if m < 0 { 0 } else { m as u32 }
}

/// Tile `a` comes strictly before tile `b` in row-major order.
pub open spec fn row_major_before(a: (u32, u32), b: (u32, u32)) -> bool {
    a.1 < b.1 || (a.1 == b.1 && a.0 < b.0)
}

/// A list in row-major order goes down the rows, and left to right within a row, with
/// no tile twice.
pub proof fn law_row_major_order(v: Seq<(u32, u32)>)
    requires
        forall|i: int, j: int| 0 <= i < j < v.len() ==> row_major_before(#[trigger] v[i], #[trigger] v[j]),
    ensures
        forall|i: int, j: int| 0 <= i < j < v.len() ==> (#[trigger] v[i]).1 <= (#[trigger] v[j]).1
            && (v[i].1 == v[j].1 ==> v[i].0 < v[j].0),
        v.no_duplicates(),
{
    assert forall|i: int, j: int| 0 <= i < v.len() && 0 <= j < v.len() && i != j implies v[i] != v[j] by {
        if i < j {
            assert(row_major_before(v[i], v[j]));
        } else {
            assert(row_major_before(v[j], v[i]));
        }
    }
}

/// A tile inside a `w`×`h` grid sits before position `w * h`.
proof fn lemma_grid_index(w: int, h: int, x: int, y: int)
    ensures
        0 <= x < w && 0 <= y < h ==> 0 <= y * w + x < w * h,
{
    if 0 <= x < w && 0 <= y < h {
        assert(0 <= y * w + x < w * h) by (nonlinear_arith)
            requires 0 <= x < w, 0 <= y < h;
    }
}

/// Distinct tiles of a row-major grid sit at distinct positions.
proof fn lemma_grid_unique(w: int, x1: int, y1: int, x2: int, y2: int)
    requires
        0 <= x1 < w,
        0 <= x2 < w,
        0 <= y1,
        0 <= y2,
        y1 * w + x1 == y2 * w + x2,
    ensures
        x1 == x2,
        y1 == y2,
{
    if y1 < y2 {
        assert(y1 * w + w <= y2 * w) by (nonlinear_arith)
            requires y1 < y2, 0 <= w;
    }
    if y2 < y1 {
        assert(y2 * w + w <= y1 * w) by (nonlinear_arith)
            requires y2 < y1, 0 <= w;
    }
}

} // verus!
