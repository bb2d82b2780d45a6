//! The 64x64 tile map: terrain passability, ore fields, the two HQ sites, map
//! generation (point-symmetric, so both sides start on equal terms) and
//! breadth-first path finding.
use vstd::prelude::*;
use vstd::set_lib::{lemma_int_range, lemma_len_subset, set_int_range};

use crate::rng::{nth_draw, state_after, Rng};

verus! {

/// Tiles per map side.
pub const MAP_SIZE: usize = 64;

/// Tiles on the map.
pub const MAP_TILES: usize = 4096;

/// Largest amount of ore a single tile may hold.
pub const ORE_CAP: i32 = 100000;

/// Ore per tile of a home field.
pub const HOME_FIELD_ORE: i32 = 500;

/// Ore per tile of the contested central field.
pub const CENTER_FIELD_ORE: i32 = 800;

/// Half-width of the square kept free of rock and ore around each HQ.
pub const HQ_CLEAR_RADIUS: i32 = 3;

pub open spec fn spec_tile_index(x: int, y: int) -> int {
    y * 64 + x
}

/// The tile coordinates of a tile index.
pub open spec fn coords(i: int) -> (u8, u8) {
    ((i % 64) as u8, (i / 64) as u8)
}

pub open spec fn in_map(t: (u8, u8)) -> bool {
    t.0 < 64 && t.1 < 64
}

/// The tile point-symmetric to `t` through the map center.
pub open spec fn mirror_tile(t: (u8, u8)) -> (u8, u8) {
    ((63 - t.0) as u8, (63 - t.1) as u8)
}

/// Two distinct tiles touch at an edge or a corner.
pub open spec fn adjacent(a: (u8, u8), b: (u8, u8)) -> bool {
    &&& a != b
    &&& -1 <= a.0 - b.0 <= 1
    &&& -1 <= a.1 - b.1 <= 1
}

/// Tile `(x, y)` lies within the HQ clearing around `h`.
pub open spec fn near_hq(x: int, y: int, h: (u8, u8)) -> bool {
    -3 <= x - h.0 <= 3 && -3 <= y - h.1 <= 3
}

/// Tile `i` lies within the clearing of either HQ.
pub open spec fn clear_zone(i: int, hq0: (u8, u8), hq1: (u8, u8)) -> bool {
    near_hq(i % 64, i / 64, hq0) || near_hq(i % 64, i / 64, hq1)
}

pub proof fn lemma_coords(i: int)
    requires
        0 <= i < 4096,
    ensures
        in_map(coords(i)),
        spec_tile_index(coords(i).0 as int, coords(i).1 as int) == i,
        (4095 - i) % 64 == 63 - i % 64,
        (4095 - i) / 64 == 63 - i / 64,
{
}

pub proof fn lemma_index_coords(x: int, y: int)
    requires
        0 <= x < 64,
        0 <= y < 64,
    ensures
        0 <= spec_tile_index(x, y) < 4096,
        coords(spec_tile_index(x, y)) == (x as u8, y as u8),
{
}

/// The clearing is itself point-symmetric when the HQs mirror each other.
pub proof fn lemma_clear_zone_symmetric(i: int, hq0: (u8, u8), hq1: (u8, u8))
    requires
        0 <= i < 4096,
        in_map(hq0),
        hq1 == mirror_tile(hq0),
    ensures
        clear_zone(i, hq0, hq1) == clear_zone(4095 - i, hq0, hq1),
{
    lemma_coords(i);
}

/// The flat index of tile `(x, y)`.
pub fn tile_index(x: u8, y: u8) -> (r: usize)
    ensures
        r == spec_tile_index(x as int, y as int),
        x < 64 && y < 64 ==> r < 4096 && coords(r as int) == (x, y),
{
    (y as usize) * MAP_SIZE + (x as usize)
}

/// The tile coordinates of a flat index.
pub fn tile_coords(idx: usize) -> (t: (u8, u8))
    requires
        idx < 4096,
    ensures
        t == coords(idx as int),
        in_map(t),
        spec_tile_index(t.0 as int, t.1 as int) == idx,
{
    proof {
        lemma_coords(idx as int);
    }
    ((idx % MAP_SIZE) as u8, (idx / MAP_SIZE) as u8)
}

/// The map: terrain, ore and the two HQ sites.
#[derive(Clone, Debug)]
pub struct GameMap {
    /// Per-tile terrain passability (row-major, `y * 64 + x`).
    pub passable: Vec<bool>,
    /// Ore remaining per tile.
    pub ore: Vec<i32>,
    /// HQ tile of each player.
    pub hq_tiles: [(u8, u8); 2],
}

impl GameMap {
    /// Grid sizes, ore bounds and HQ sites inside the map.
    pub open spec fn wf(self) -> bool {
        &&& self.passable@.len() == 4096
        &&& self.ore@.len() == 4096
        &&& forall|i: int| 0 <= i < 4096 ==> 0 <= #[trigger] self.ore@[i] <= ORE_CAP
        &&& in_map(self.hq_tiles[0])
        &&& in_map(self.hq_tiles[1])
    }

    /// Point symmetry through the map center: terrain, ore and HQ sites.
    pub open spec fn symmetric(self) -> bool {
        &&& forall|i: int| 0 <= i < 4096 ==> #[trigger] self.passable@[i] == self.passable@[4095 - i]
        &&& forall|i: int| 0 <= i < 4096 ==> #[trigger] self.ore@[i] == self.ore@[4095 - i]
        &&& self.hq_tiles[0] == mirror_tile(self.hq_tiles[1])
    }

    pub open spec fn passable_at(self, x: int, y: int) -> bool {
        0 <= x < 64 && 0 <= y < 64 && self.passable@[spec_tile_index(x, y)]
    }

    pub open spec fn ore_amount(self, x: int, y: int) -> int {
        if 0 <= x < 64 && 0 <= y < 64 {
            self.ore@[spec_tile_index(x, y)] as int
        } else {
            0
        }
    }

    /// A tile a walking unit may path through: passable terrain, not occupied
    /// by a building.
    pub open spec fn open_tile(self, blocked: Seq<bool>, t: (u8, u8)) -> bool {
        &&& self.passable_at(t.0 as int, t.1 as int)
        &&& !(spec_tile_index(t.0 as int, t.1 as int) < blocked.len() && blocked[spec_tile_index(
            t.0 as int,
            t.1 as int,
        )])
    }

    /// `path` leads from `from` to `goal` in steps between neighboring tiles
    /// (sharing an edge or a corner) through open tiles, ending on passable
    /// terrain.
    pub open spec fn is_route(
        self,
        blocked: Seq<bool>,
        from: (u8, u8),
        path: Seq<(u8, u8)>,
        goal: (u8, u8),
    ) -> bool {
        &&& path.len() == 0 ==> from == goal
        &&& path.len() > 0 ==> {
            &&& adjacent(from, path[0])
            &&& path[path.len() - 1] == goal
            &&& self.passable_at(goal.0 as int, goal.1 as int)
            &&& forall|i: int|
                0 <= i < path.len() - 1 ==> adjacent(path[i], #[trigger] path[i + 1])
            &&& forall|i: int| 0 <= i < path.len() - 1 ==> self.open_tile(blocked, #[trigger] path[i])
        }
    }

    pub fn is_passable(&self, x: u8, y: u8) -> (r: bool)
        requires
            self.wf(),
        ensures
            r == self.passable_at(x as int, y as int),
    {
        if x < 64 && y < 64 {
            self.passable[tile_index(x, y)]
        } else {
            false
        }
    }

    pub fn ore_at(&self, x: u8, y: u8) -> (r: i32)
        requires
            self.wf(),
        ensures
            r == self.ore_amount(x as int, y as int),
            0 <= r <= ORE_CAP,
    {
        if x < 64 && y < 64 {
            self.ore[tile_index(x, y)]
        } else {
            0
        }
    }

    /// Remove up to `amount` ore from a tile (never below zero).
    pub fn deplete_ore(&mut self, x: u8, y: u8, amount: i32)
        requires
            old(self).wf(),
            amount >= 0,
        ensures
            final(self).wf(),
            final(self).passable@ == old(self).passable@,
            final(self).hq_tiles == old(self).hq_tiles,
            x < 64 && y < 64 ==> final(self).ore@ == old(self).ore@.update(
                spec_tile_index(x as int, y as int),
                if old(self).ore@[spec_tile_index(x as int, y as int)] > amount {
                    old(self).ore@[spec_tile_index(x as int, y as int)] - amount
                } else {
                    0
                } as i32,
            ),
            !(x < 64 && y < 64) ==> final(self).ore@ == old(self).ore@,
    {
        if x < 64 && y < 64 {
            let i = tile_index(x, y);
            let cur = self.ore[i];
            let next = if cur > amount {
                cur - amount
            } else {
                0
            };
            self.ore[i] = next;
        }
    }

    /// `self` is the map of `seed`: its HQ sites, and on every tile the
    /// terrain and ore the seed's draft layers give after symmetrizing.
    pub open spec fn generated_from(self, seed: u64) -> bool {
        &&& self.hq_tiles[0] == gen_hq(seed)
        &&& self.hq_tiles[1] == mirror_tile(gen_hq(seed))
        &&& self.passable@.len() == 4096
        &&& self.ore@.len() == 4096
        &&& forall|i: int|
            0 <= i < 4096 ==> #[trigger] self.passable@[i] == final_passable(
                gen_rocks(seed),
                i,
                gen_hq(seed),
            )
        &&& forall|i: int|
            0 <= i < 4096 ==> #[trigger] self.ore@[i] == final_ore(gen_ores(seed), i, gen_hq(seed))
    }

    /// Generate a point-symmetric map from a seed: the HQs sit sixteen tiles
    /// in from opposite corners (one of four layouts), scattered rock
    /// outcrops, a home ore pocket beside each HQ, an expansion field further
    /// toward the center on each side and a contested field near the center.
    /// The ground around each HQ is always clear.
    pub fn generate(seed: u64) -> (m: GameMap)
        ensures
            m.wf(),
            m.symmetric(),
            m.passable_at(m.hq_tiles[0].0 as int, m.hq_tiles[0].1 as int),
            m.passable_at(m.hq_tiles[1].0 as int, m.hq_tiles[1].1 as int),
            16 <= m.hq_tiles[0].0 <= 47 && 16 <= m.hq_tiles[0].1 <= 47,
            forall|i: int|
                0 <= i < 4096 && clear_zone(i, m.hq_tiles[0], m.hq_tiles[1]) ==> m.passable@[i]
                    && m.ore@[i] == 0,
            m.generated_from(seed),
    {
        let mut rng = Rng::from_seed(seed);
        let corner = rng.below(4);
        let hq0: (u8, u8) = if corner == 0 {
            (16, 16)
        } else if corner == 1 {
            (47, 16)
        } else if corner == 2 {
            (16, 47)
        } else {
            (47, 47)
        };
        proof {
            assert(state_after(seed, 0) == seed);
            assert(state_after(seed, 1) == state_after(seed, 0).wrapping_add(crate::rng::GAMMA));
            assert(corner == nth_draw(seed, 0) % 4);
        }
        assert(hq0 == gen_hq(seed));
        let rock = draft_rocks(&mut rng, Ghost(seed));
        let mx = (24 + rng.below(16)) as u8;
        let my = (24 + rng.below(16)) as u8;
        assert((mx as int, my as int) == gen_center(seed));
        let ore = draft_ore(hq0, mx, my);
        proof {
            assert(ore@ =~= gen_ores(seed));
        }
        finalize(&rock, &ore, hq0)
    }
}

/// The eight rock outcrops of a map, from the generator's next 32 draws.
fn draft_rocks(rng: &mut Rng, seed: Ghost<u64>) -> (rock: Vec<bool>)
    requires
        old(rng).spec_state() == state_after(seed@, 1),
    ensures
        rock@ == gen_rocks(seed@),
        final(rng).spec_state() == state_after(seed@, 33),
{
    let mut rock: Vec<bool> = vec![false; MAP_TILES];
    let mut k: usize = 0;
    while k < 8
        invariant
            0 <= k <= 8,
            rock@.len() == 4096,
            rng.spec_state() == state_after(seed@, (1 + 4 * k) as nat),
            forall|i: int| 0 <= i < 4096 ==> #[trigger] rock@[i] == gen_rock(seed@, k as nat, i),
        decreases 8 - k,
    {
        let cx = rng.below(64) as u8;
        let cy = rng.below(64) as u8;
        let w = (1 + rng.below(3)) as u8;
        let h = (1 + rng.below(3)) as u8;
        assert((cx as int, cy as int, w as int, h as int) == gen_rect(seed@, k as nat));
        fill_rect(&mut rock, cx, cy, w, h);
        k += 1;
    }
    assert(rock@ =~= gen_rocks(seed@));
    rock
}

/// The ore of a map: the home pocket and the expansion field of the HQ at
/// `hq0`, then the contested field at `(mx, my)`.
fn draft_ore(hq0: (u8, u8), mx: u8, my: u8) -> (ore: Vec<i32>)
    requires
        16 <= hq0.0 <= 47,
        16 <= hq0.1 <= 47,
    ensures
        ore@.len() == 4096,
        forall|i: int| 0 <= i < 4096 ==> 0 <= #[trigger] ore@[i] <= ORE_CAP,
        forall|i: int|
            0 <= i < 4096 ==> #[trigger] ore@[i] == if in_field(i, mx as int, my as int) {
                CENTER_FIELD_ORE
            } else if in_field(i, spec_expansion(hq0).0, spec_expansion(hq0).1) || in_field(
                i,
                spec_home_pocket(hq0).0,
                spec_home_pocket(hq0).1,
            ) {
                HOME_FIELD_ORE
            } else {
                0
            },
{
    let mut ore: Vec<i32> = vec![0i32; MAP_TILES];
    let (fx, fy) = home_pocket(hq0);
    place_field(&mut ore, fx, fy, HOME_FIELD_ORE);
    let (ex, ey) = toward_center(hq0, 10);
    place_field(&mut ore, ex, ey, HOME_FIELD_ORE);
    place_field(&mut ore, mx, my, CENTER_FIELD_ORE);
    ore
}

/// A map is a function of its seed: two maps generated from one seed agree
/// on every tile and on the HQ sites.
pub proof fn lemma_same_seed_same_map(a: GameMap, b: GameMap, seed: u64)
    requires
        a.generated_from(seed),
        b.generated_from(seed),
    ensures
        a.passable@ == b.passable@,
        a.ore@ == b.ore@,
        a.hq_tiles == b.hq_tiles,
{
    assert(a.passable@ =~= b.passable@);
    assert(a.ore@ =~= b.ore@);
    assert(a.hq_tiles =~= b.hq_tiles);
}

/// The spec value of a finalized tile: rock (from either mirror half) makes it
/// impassable unless it lies in an HQ clearing.
pub open spec fn final_passable(rock: Seq<bool>, i: int, hq0: (u8, u8)) -> bool {
    clear_zone(i, hq0, mirror_tile(hq0)) || !(rock[i] || rock[4095 - i])
}

/// The spec value of a finalized tile's ore: the larger of the two mirror
/// halves, none in an HQ clearing.
pub open spec fn final_ore(ore: Seq<i32>, i: int, hq0: (u8, u8)) -> i32 {
    if clear_zone(i, hq0, mirror_tile(hq0)) {
        0
    } else if ore[i] >= ore[4095 - i] {
        ore[i]
    } else {
        ore[4095 - i]
    }
}

/// The center of an HQ's home ore pocket: five tiles from the HQ toward the
/// map center along `x`, so its near edge borders the HQ clearing and a
/// refinery placed two tiles from the HQ on that side docks beside the ore.
pub fn home_pocket(h: (u8, u8)) -> (t: (u8, u8))
    requires
        10 <= h.0 <= 53,
        10 <= h.1 <= 53,
    ensures
        in_map(t),
        t.0 == (if h.0 < 32 { h.0 + 5 } else { h.0 - 5 }),
        t.1 == h.1,
{
    let x = if h.0 < 32 {
        h.0 + 5
    } else {
        h.0 - 5
    };
    (x, h.1)
}

/// Player 0's HQ site on the map of `seed`: one of four corners, by the
/// first draw.
pub open spec fn gen_hq(seed: u64) -> (u8, u8) {
    let c = nth_draw(seed, 0) % 4;
    if c == 0 {
        (16, 16)
    } else if c == 1 {
        (47, 16)
    } else if c == 2 {
        (16, 47)
    } else {
        (47, 47)
    }
}

/// The `j`-th rock outcrop of the map of `seed`: corner, width and height,
/// from four draws.
pub open spec fn gen_rect(seed: u64, j: nat) -> (int, int, int, int) {
    (
        (nth_draw(seed, 1 + 4 * j) % 64) as int,
        (nth_draw(seed, 2 + 4 * j) % 64) as int,
        1 + (nth_draw(seed, 3 + 4 * j) % 3) as int,
        1 + (nth_draw(seed, 4 + 4 * j) % 3) as int,
    )
}

/// Tile `i` is covered by one of the first `k` outcrops of the map of `seed`.
pub open spec fn gen_rock(seed: u64, k: nat, i: int) -> bool
    decreases k,
{
    if k == 0 {
        false
    } else {
        let (x, y, w, h) = gen_rect(seed, (k - 1) as nat);
        gen_rock(seed, (k - 1) as nat, i) || in_rect(i, x, y, w, h)
    }
}

/// The draft rock layer of the map of `seed` (its eight outcrops).
pub open spec fn gen_rocks(seed: u64) -> Seq<bool> {
    Seq::new(4096, |i: int| gen_rock(seed, 8, i))
}

/// The center of the contested field of the map of `seed`.
pub open spec fn gen_center(seed: u64) -> (int, int) {
    (24 + (nth_draw(seed, 33) % 16) as int, 24 + (nth_draw(seed, 34) % 16) as int)
}

/// The home pocket of an HQ at `h`.
pub open spec fn spec_home_pocket(h: (u8, u8)) -> (int, int) {
    (if h.0 < 32 { h.0 + 5 } else { h.0 - 5 }, h.1 as int)
}

/// The expansion field of an HQ at `h`: ten tiles toward the center.
pub open spec fn spec_expansion(h: (u8, u8)) -> (int, int) {
    (if h.0 < 32 { h.0 + 10 } else { h.0 - 10 }, if h.1 < 32 { h.1 + 10 } else { h.1 - 10 })
}

/// The draft ore of tile `i` on the map of `seed`: the contested field's
/// amount inside it, else the home amount inside the expansion field or the
/// home pocket, else none.
pub open spec fn gen_ore_at(seed: u64, i: int) -> i32 {
    let hq = gen_hq(seed);
    let (px, py) = spec_home_pocket(hq);
    let (ex, ey) = spec_expansion(hq);
    let (cx, cy) = gen_center(seed);
    if in_field(i, cx, cy) {
        CENTER_FIELD_ORE
    } else if in_field(i, ex, ey) || in_field(i, px, py) {
        HOME_FIELD_ORE
    } else {
        0
    }
}

/// The draft ore layer of the map of `seed`.
pub open spec fn gen_ores(seed: u64) -> Seq<i32> {
    Seq::new(4096, |i: int| gen_ore_at(seed, i))
}

/// A tile `dist` tiles from `h` diagonally toward the map center.
pub fn toward_center(h: (u8, u8), dist: u8) -> (t: (u8, u8))
    requires
        in_map(h),
        dist <= 10,
    ensures
        t.0 == (if h.0 < 32 { h.0 + dist } else if h.0 >= dist { h.0 - dist } else { 0 }),
        t.1 == (if h.1 < 32 { h.1 + dist } else if h.1 >= dist { h.1 - dist } else { 0 }),
{
    let x = if h.0 < 32 {
        h.0 + dist
    } else if h.0 >= dist {
        h.0 - dist
    } else {
        0
    };
    let y = if h.1 < 32 {
        h.1 + dist
    } else if h.1 >= dist {
        h.1 - dist
    } else {
        0
    };
    (x, y)
}

/// Tile `i` lies in the `w x h` rectangle whose corner is `(x, y)`.
pub open spec fn in_rect(i: int, x: int, y: int, w: int, h: int) -> bool {
    x <= i % 64 < x + w && y <= i / 64 < y + h
}

/// Flat index `i` is tile `(tx, ty)` exactly when it has those coordinates.
proof fn lemma_index_is_tile(i: int, tx: int, ty: int)
    requires
        0 <= i < 4096,
        0 <= tx < 64,
        0 <= ty < 64,
    ensures
        (i == ty * 64 + tx) == (i % 64 == tx && i / 64 == ty),
{
    vstd::arithmetic::div_mod::lemma_fundamental_div_mod(i, 64);
    if i == ty * 64 + tx {
        lemma_index_coords(tx, ty);
    }
}

/// Mark the `w x h` rectangle at `(x, y)` (clipped to the map) as rock.
fn fill_rect(rock: &mut Vec<bool>, x: u8, y: u8, w: u8, h: u8)
    requires
        old(rock)@.len() == 4096,
    ensures
        final(rock)@.len() == 4096,
        forall|i: int|
            0 <= i < 4096 ==> #[trigger] final(rock)@[i] == (old(rock)@[i] || in_rect(
                i,
                x as int,
                y as int,
                w as int,
                h as int,
            )),
{
    let mut dy: u8 = 0;
    while dy < h
        invariant
            rock@.len() == 4096,
            dy <= h,
            forall|i: int|
                0 <= i < 4096 ==> #[trigger] rock@[i] == (old(rock)@[i] || in_rect(
                    i,
                    x as int,
                    y as int,
                    w as int,
                    dy as int,
                )),
        decreases h - dy,
    {
        let mut dx: u8 = 0;
        while dx < w
            invariant
                rock@.len() == 4096,
                dy < h,
                dx <= w,
                forall|i: int|
                    0 <= i < 4096 ==> #[trigger] rock@[i] == (old(rock)@[i] || in_rect(
                        i,
                        x as int,
                        y as int,
                        w as int,
                        dy as int,
                    ) || (i / 64 == y + dy && x <= i % 64 < x + dx)),
            decreases w - dx,
        {
            let tx = x as usize + dx as usize;
            let ty = y as usize + dy as usize;
            let ghost before = rock@;
            if tx < MAP_SIZE && ty < MAP_SIZE {
                rock[ty * MAP_SIZE + tx] = true;
                proof {
                    assert forall|i: int| 0 <= i < 4096 implies #[trigger] rock@[i] == (before[i]
                        || i == ty * 64 + tx) && (i == ty * 64 + tx) == (i % 64 == tx && i / 64
                        == ty) by {
                        lemma_index_is_tile(i, tx as int, ty as int);
                    }
                }
            }
            dx += 1;
        }
        dy += 1;
    }
}

/// Tile `i` lies in the 3x3 field centered at `(x, y)`.
pub open spec fn in_field(i: int, x: int, y: int) -> bool {
    x - 1 <= i % 64 <= x + 1 && y - 1 <= i / 64 <= y + 1
}

/// Put `amount` ore on the 3x3 tiles centered at `(x, y)` (clipped to the map).
fn place_field(ore: &mut Vec<i32>, x: u8, y: u8, amount: i32)
    requires
        old(ore)@.len() == 4096,
        forall|i: int| 0 <= i < 4096 ==> 0 <= #[trigger] old(ore)@[i] <= ORE_CAP,
        0 <= amount <= ORE_CAP,
    ensures
        final(ore)@.len() == 4096,
        forall|i: int| 0 <= i < 4096 ==> 0 <= #[trigger] final(ore)@[i] <= ORE_CAP,
        forall|i: int|
            0 <= i < 4096 ==> #[trigger] final(ore)@[i] == if in_field(i, x as int, y as int) {
                amount
            } else {
                old(ore)@[i]
            },
{
    let mut dy: usize = 0;
    while dy < 3
        invariant
            ore@.len() == 4096,
            forall|i: int| 0 <= i < 4096 ==> 0 <= #[trigger] ore@[i] <= ORE_CAP,
            0 <= amount <= ORE_CAP,
            dy <= 3,
            forall|i: int|
                0 <= i < 4096 ==> #[trigger] ore@[i] == if x - 1 <= i % 64 <= x + 1 && y - 1 <= i
                    / 64 < y - 1 + dy {
                    amount
                } else {
                    old(ore)@[i]
                },
        decreases 3 - dy,
    {
        let mut dx: usize = 0;
        while dx < 3
            invariant
                ore@.len() == 4096,
                forall|i: int| 0 <= i < 4096 ==> 0 <= #[trigger] ore@[i] <= ORE_CAP,
                0 <= amount <= ORE_CAP,
                dx <= 3,
                dy < 3,
                forall|i: int|
                    0 <= i < 4096 ==> #[trigger] ore@[i] == if (x - 1 <= i % 64 <= x + 1 && y - 1
                        <= i / 64 < y - 1 + dy) || (i / 64 == y - 1 + dy && x - 1 <= i % 64 < x
                        - 1 + dx) {
                        amount
                    } else {
                        old(ore)@[i]
                    },
            decreases 3 - dx,
        {
            let ghost before = ore@;
            if x as usize + dx >= 1 && y as usize + dy >= 1 {
                let tx = x as usize + dx - 1;
                let ty = y as usize + dy - 1;
                if tx < MAP_SIZE && ty < MAP_SIZE {
                    ore[ty * MAP_SIZE + tx] = amount;
                    proof {
                        assert forall|i: int| 0 <= i < 4096 implies #[trigger] ore@[i] == (if i
                            == ty * 64 + tx {
                            amount
                        } else {
                            before[i]
                        }) && (i == ty * 64 + tx) == (i % 64 == tx && i / 64 == ty) by {
                            lemma_index_is_tile(i, tx as int, ty as int);
                        }
                    }
                }
            }
            dx += 1;
        }
        dy += 1;
    }
}

/// Build the symmetric map from draft terrain and ore.
fn finalize(rock: &Vec<bool>, ore: &Vec<i32>, hq0: (u8, u8)) -> (m: GameMap)
    requires
        rock@.len() == 4096,
        ore@.len() == 4096,
        forall|i: int| 0 <= i < 4096 ==> 0 <= #[trigger] ore@[i] <= ORE_CAP,
        10 <= hq0.0 <= 53,
        10 <= hq0.1 <= 53,
    ensures
        m.wf(),
        m.symmetric(),
        m.hq_tiles[0] == hq0,
        m.hq_tiles[1] == mirror_tile(hq0),
        forall|i: int| 0 <= i < 4096 ==> #[trigger] m.passable@[i] == final_passable(rock@, i, hq0),
        forall|i: int| 0 <= i < 4096 ==> #[trigger] m.ore@[i] == final_ore(ore@, i, hq0),
        m.passable_at(hq0.0 as int, hq0.1 as int),
        m.passable_at(63 - hq0.0, 63 - hq0.1),
        forall|i: int|
            0 <= i < 4096 && clear_zone(i, m.hq_tiles[0], m.hq_tiles[1]) ==> m.passable@[i]
                && m.ore@[i] == 0,
{
    let hq1: (u8, u8) = (63 - hq0.0, 63 - hq0.1);
    let mut passable: Vec<bool> = Vec::new();
    let mut out_ore: Vec<i32> = Vec::new();
    let mut i: usize = 0;
    while i < MAP_TILES
        invariant
            rock@.len() == 4096,
            ore@.len() == 4096,
            forall|j: int| 0 <= j < 4096 ==> 0 <= #[trigger] ore@[j] <= ORE_CAP,
            hq1 == mirror_tile(hq0),
            0 <= i <= 4096,
            passable@.len() == i,
            out_ore@.len() == i,
            forall|j: int| 0 <= j < i ==> #[trigger] passable@[j] == final_passable(rock@, j, hq0),
            forall|j: int| 0 <= j < i ==> #[trigger] out_ore@[j] == final_ore(ore@, j, hq0),
        decreases 4096 - i,
    {
        let m = 4095 - i;
        let x = (i % MAP_SIZE) as i32;
        let y = (i / MAP_SIZE) as i32;
        let r = HQ_CLEAR_RADIUS;
        let near0 = -r <= x - hq0.0 as i32 && x - hq0.0 as i32 <= r && -r <= y - hq0.1 as i32 && y
            - hq0.1 as i32 <= r;
        let near1 = -r <= x - hq1.0 as i32 && x - hq1.0 as i32 <= r && -r <= y - hq1.1 as i32 && y
            - hq1.1 as i32 <= r;
        let clear = near0 || near1;
        passable.push(clear || !(rock[i] || rock[m]));
        let v = if clear {
            0
        } else if ore[i] >= ore[m] {
            ore[i]
        } else {
            ore[m]
        };
        out_ore.push(v);
        i += 1;
    }
    let map = GameMap { passable, ore: out_ore, hq_tiles: [hq0, hq1] };
    proof {
        assert forall|j: int| 0 <= j < 4096 implies #[trigger] map.passable@[j]
            == map.passable@[4095 - j] by {
            lemma_clear_zone_symmetric(j, hq0, hq1);
        }
        assert forall|j: int| 0 <= j < 4096 implies #[trigger] map.ore@[j] == map.ore@[4095
            - j] by {
            lemma_clear_zone_symmetric(j, hq0, hq1);
        }
        let h0 = spec_tile_index(hq0.0 as int, hq0.1 as int);
        let h1 = spec_tile_index(63 - hq0.0, 63 - hq0.1);
        lemma_index_coords(hq0.0 as int, hq0.1 as int);
        lemma_index_coords(63 - hq0.0, 63 - hq0.1);
        assert(clear_zone(h0, hq0, hq1));
        assert(clear_zone(h1, hq0, hq1));
    }
    map
}

/// A flat, rock-free map used by scenario tests: both HQs in opposite corners
/// (`seed` odd puts player 0 at (53, 53), even at (10, 10)), a home ore
/// pocket beside each and a contested field at the center.
pub fn open_test_map(seed: u64) -> (m: GameMap)
    ensures
        m.wf(),
        m.symmetric(),
        m.hq_tiles[0] == (if seed % 2 == 1 {
            (53u8, 53u8)
        } else {
            (10u8, 10u8)
        }),
        m.hq_tiles[1] == mirror_tile(m.hq_tiles[0]),
        forall|i: int|
            0 <= i < 4096 && clear_zone(i, m.hq_tiles[0], m.hq_tiles[1]) ==> m.passable@[i]
                && m.ore@[i] == 0,
        forall|i: int| 0 <= i < 4096 ==> #[trigger] m.passable@[i],
{
    let hq0: (u8, u8) = if seed % 2 == 1 {
        (53, 53)
    } else {
        (10, 10)
    };
    let rock: Vec<bool> = vec![false; MAP_TILES];
    let mut ore: Vec<i32> = vec![0i32; MAP_TILES];
    let (fx, fy) = home_pocket(hq0);
    place_field(&mut ore, fx, fy, HOME_FIELD_ORE);
    place_field(&mut ore, 32, 32, CENTER_FIELD_ORE);
    finalize(&rock, &ore, hq0)
}

/// The step in direction `d`: `0..4` are the diagonals, `4..8` the edges
/// (any larger `d` steps like `7`).
pub open spec fn neighbor_offset(d: u8) -> (int, int) {
    if d == 0 {
        (1, 1)
    } else if d == 1 {
        (1, -1)
    } else if d == 2 {
        (-1, 1)
    } else if d == 3 {
        (-1, -1)
    } else if d == 4 {
        (1, 0)
    } else if d == 5 {
        (-1, 0)
    } else if d == 6 {
        (0, 1)
    } else {
        (0, -1)
    }
}

/// The in-map neighbor of `(x, y)` in direction `d`, if any: `0..4` are the
/// diagonals (`+x+y`, `+x-y`, `-x+y`, `-x-y`), `4..8` the edges (`+x`, `-x`,
/// `+y`, `-y`).
/// Two adjacent tiles differ by one of the eight neighbor offsets.
proof fn lemma_adjacent_offset(a: (u8, u8), b: (u8, u8)) -> (d: u8)
    requires
        adjacent(a, b),
    ensures
        d < 8,
        a.0 + neighbor_offset(d).0 == b.0,
        a.1 + neighbor_offset(d).1 == b.1,
{
    let dx = b.0 - a.0;
    let dy = b.1 - a.1;
    if dx == 1 && dy == 1 {
        0
    } else if dx == 1 && dy == -1 {
        1
    } else if dx == -1 && dy == 1 {
        2
    } else if dx == -1 && dy == -1 {
        3
    } else if dx == 1 && dy == 0 {
        4
    } else if dx == -1 && dy == 0 {
        5
    } else if dx == 0 && dy == 1 {
        6
    } else {
        7
    }
}

fn neighbor(x: u8, y: u8, d: u8) -> (r: (bool, u8, u8))
    requires
        x < 64,
        y < 64,
    ensures
        r.0 == (0 <= x + neighbor_offset(d).0 < 64 && 0 <= y + neighbor_offset(d).1 < 64),
        r.0 ==> r.1 == x + neighbor_offset(d).0 && r.2 == y + neighbor_offset(d).1,
        !r.0 ==> r.1 == x && r.2 == y,
        r.0 ==> r.1 < 64 && r.2 < 64 && adjacent((x, y), (r.1, r.2)),
{
    let (dx, dy): (i32, i32) = if d == 0 {
        (1, 1)
    } else if d == 1 {
        (1, -1)
    } else if d == 2 {
        (-1, 1)
    } else if d == 3 {
        (-1, -1)
    } else if d == 4 {
        (1, 0)
    } else if d == 5 {
        (-1, 0)
    } else if d == 6 {
        (0, 1)
    } else {
        (0, -1)
    };
    let nx = x as i32 + dx;
    let ny = y as i32 + dy;
    if 0 <= nx && nx < 64 && 0 <= ny && ny < 64 {
        (true, nx as u8, ny as u8)
    } else {
        (false, x, y)
    }
}

impl GameMap {
    /// Prepending a step to a route gives a route from the step's predecessor.
    proof fn lemma_extend_route(
        self,
        blocked: Seq<bool>,
        prev: (u8, u8),
        t: (u8, u8),
        path: Seq<(u8, u8)>,
        goal: (u8, u8),
    )
        requires
            self.is_route(blocked, t, path, goal),
            adjacent(prev, t),
            path.len() > 0 ==> self.open_tile(blocked, t),
            path.len() == 0 ==> self.passable_at(goal.0 as int, goal.1 as int),
        ensures
            self.is_route(blocked, prev, seq![t] + path, goal),
    {
        let np = seq![t] + path;
        assert forall|i: int| 0 <= i < np.len() - 1 implies adjacent(np[i], #[trigger] np[i + 1]) by {
            if i > 0 {
                let j = i - 1;
                assert(np[i] == path[j]);
                assert(np[i + 1] == path[j + 1]);
                assert(adjacent(path[j], path[j + 1]));
            } else {
                assert(np[1] == path[0]);
            }
        }
        assert forall|i: int| 0 <= i < np.len() - 1 implies self.open_tile(blocked, #[trigger] np[i]) by {
            if i > 0 {
                assert(np[i] == path[i - 1]);
            }
        }
    }

    /// One neighbor of tile `u` in the breadth-first search toward tile
    /// `g`: the neighbor in direction `d`, if it is on the map, not reached
    /// yet and may be entered (it is the goal, or open), is reached one step
    /// further than `u`, records `u` as its parent and joins the queue. The
    /// state is (distances, parents, queue, queue head, goal found).
    pub open spec fn bfs_visit(
        self,
        blocked: Seq<bool>,
        g: int,
        st: (Seq<i32>, Seq<usize>, Seq<usize>, int, bool),
        u: int,
        d: u8,
    ) -> (Seq<i32>, Seq<usize>, Seq<usize>, int, bool) {
        let c = coords(u);
        let x = c.0 + neighbor_offset(d).0;
        let y = c.1 + neighbor_offset(d).1;
        let w = spec_tile_index(x, y);
        if !(0 <= x < 64 && 0 <= y < 64) || st.0[w] >= 0 || !(w == g || self.open_tile(
            blocked,
            (x as u8, y as u8),
        )) {
            st
        } else {
            (
                st.0.update(w, (st.0[u] + 1) as i32),
                st.1.update(w, u as usize),
                st.2.push(w as usize),
                st.3,
                st.4 || w == g,
            )
        }
    }

    /// The neighbors of `u` from direction `d` on, in order, until the
    /// goal is found.
    pub open spec fn bfs_neighbors(
        self,
        blocked: Seq<bool>,
        g: int,
        st: (Seq<i32>, Seq<usize>, Seq<usize>, int, bool),
        u: int,
        d: int,
    ) -> (Seq<i32>, Seq<usize>, Seq<usize>, int, bool)
        decreases 8 - d,
    {
        if d >= 8 || st.4 || d < 0 {
            st
        } else {
            self.bfs_neighbors(blocked, g, self.bfs_visit(blocked, g, st, u, d as u8), u, d + 1)
        }
    }

    /// The search from state `st` on, `pops` tiles taken from the queue so
    /// far: take the next tile and visit its neighbors, until the queue is
    /// exhausted, the goal is found or every tile was taken.
    pub open spec fn bfs_run(
        self,
        blocked: Seq<bool>,
        g: int,
        st: (Seq<i32>, Seq<usize>, Seq<usize>, int, bool),
        pops: int,
    ) -> (Seq<i32>, Seq<usize>, Seq<usize>, int, bool)
        decreases 4096 - pops,
    {
        if 0 <= st.3 < st.2.len() && !st.4 && 0 <= pops < 4096 {
            let u = st.2[st.3] as int;
            self.bfs_run(
                blocked,
                g,
                self.bfs_neighbors(blocked, g, (st.0, st.1, st.2, st.3 + 1, st.4), u, 0),
                pops + 1,
            )
        } else {
            st
        }
    }

    proof fn lemma_neighbors_done(
        self,
        blocked: Seq<bool>,
        g: int,
        st: (Seq<i32>, Seq<usize>, Seq<usize>, int, bool),
        u: int,
        d: int,
    )
        requires
            d >= 8 || st.4,
        ensures
            self.bfs_neighbors(blocked, g, st, u, d) == st,
    {
    }

    proof fn lemma_run_step(
        self,
        blocked: Seq<bool>,
        g: int,
        pre: (Seq<i32>, Seq<usize>, Seq<usize>, int, bool),
        u: int,
        pops: int,
    )
        requires
            0 <= pre.3 < pre.2.len(),
            !pre.4,
            0 <= pops < 4096,
            u == pre.2[pre.3] as int,
        ensures
            self.bfs_run(blocked, g, pre, pops) == self.bfs_run(
                blocked,
                g,
                self.bfs_neighbors(blocked, g, (pre.0, pre.1, pre.2, pre.3 + 1, pre.4), u, 0),
                pops + 1,
            ),
    {
    }

    /// The tiles from `s` (excluded) to `cur`, following parents back from
    /// `cur` at most `fuel` times.
    pub open spec fn bfs_walk(parent: Seq<usize>, s: int, cur: int, fuel: nat) -> Seq<(u8, u8)>
        decreases fuel,
    {
        if fuel == 0 || cur == s {
            Seq::empty()
        } else {
            Self::bfs_walk(parent, s, parent[cur] as int, (fuel - 1) as nat).push(coords(cur))
        }
    }

    /// The path `find_path` returns: `None` off the map or toward impassable
    /// terrain, the empty path when `start == goal`, else the breadth-first
    /// search from `start` (neighbors in the order of `neighbor_offset`,
    /// diagonals first) and the route back from `goal` along the recorded
    /// parents, if the search reached it.
    pub open spec fn spec_find_path(self, start: (u8, u8), goal: (u8, u8), blocked: Seq<bool>) -> Option<
        Seq<(u8, u8)>,
    > {
        if !in_map(start) || !in_map(goal) {
            None
        } else if start == goal {
            Some(Seq::empty())
        } else if !self.passable_at(goal.0 as int, goal.1 as int) {
            None
        } else {
            let s = spec_tile_index(start.0 as int, start.1 as int);
            let g = spec_tile_index(goal.0 as int, goal.1 as int);
            let init = (
                Seq::new(4096, |i: int| if i == s { 0i32 } else { -1i32 }),
                Seq::new(4096, |i: int| 0usize),
                seq![s as usize],
                0int,
                false,
            );
            let fin = self.bfs_run(blocked, g, init, 0);
            if fin.0[g] < 0 {
                None
            } else {
                Some(Self::bfs_walk(fin.1, s, g, fin.0[g] as nat))
            }
        }
    }

    /// The search has reached the neighbor of tile `u` in direction `d`,
    /// if that neighbor lies on the map and may be entered (it is the goal
    /// `g`, or an open tile).
    spec fn bfs_reached_nb(self, blocked: Seq<bool>, g: int, dist: Seq<i32>, u: int, d: u8) -> bool {
        let c = coords(u);
        let x = c.0 + neighbor_offset(d).0;
        let y = c.1 + neighbor_offset(d).1;
        (0 <= x < 64 && 0 <= y < 64 && (spec_tile_index(x, y) == g || self.open_tile(
            blocked,
            (x as u8, y as u8),
        ))) ==> dist[spec_tile_index(x, y)] >= 0
    }

    /// Every enterable neighbor of tile `u` has been reached.
    spec fn bfs_closed(self, blocked: Seq<bool>, g: int, dist: Seq<i32>, u: int) -> bool {
        forall|d: u8| d < 8 ==> #[trigger] self.bfs_reached_nb(blocked, g, dist, u, d)
    }

    proof fn lemma_closed_mono(self, blocked: Seq<bool>, g: int, d1: Seq<i32>, d2: Seq<i32>, u: int)
        requires
            self.bfs_closed(blocked, g, d1, u),
            d1.len() == 4096,
            d2.len() == 4096,
            forall|v: int| 0 <= v < 4096 && #[trigger] d1[v] >= 0 ==> d2[v] >= 0,
        ensures
            self.bfs_closed(blocked, g, d2, u),
    {
        assert forall|d: u8| d < 8 implies #[trigger] self.bfs_reached_nb(blocked, g, d2, u, d) by {
            assert(self.bfs_reached_nb(blocked, g, d1, u, d));
        }
    }

    /// A search that has closed every tile it reached, from `s`, has
    /// reached the end of every route out of `s`.
    proof fn lemma_route_reached(
        self,
        blocked: Seq<bool>,
        s: int,
        g: int,
        dist: Seq<i32>,
        path: Seq<(u8, u8)>,
        k: int,
    )
        requires
            dist.len() == 4096,
            0 <= s < 4096,
            0 <= g < 4096,
            dist[s] >= 0,
            forall|v: int| 0 <= v < 4096 && #[trigger] dist[v] >= 0 ==> self.bfs_closed(blocked, g, dist, v),
            self.is_route(blocked, coords(s), path, coords(g)),
            0 <= k < path.len(),
        ensures
            in_map(path[k]),
            dist[spec_tile_index(path[k].0 as int, path[k].1 as int)] >= 0,
        decreases k,
    {
        lemma_coords(s);
        lemma_coords(g);
        let prev = if k == 0 {
            coords(s)
        } else {
            path[k - 1]
        };
        let pi = if k == 0 {
            s
        } else {
            spec_tile_index(prev.0 as int, prev.1 as int)
        };
        if k > 0 {
            self.lemma_route_reached(blocked, s, g, dist, path, k - 1);
            lemma_index_coords(prev.0 as int, prev.1 as int);
            let j = k - 1;
            assert(adjacent(path[j], path[j + 1]));
        }
        let t = path[k];
        if k < path.len() - 1 {
            assert(self.open_tile(blocked, path[k]));
        } else {
            assert(t == coords(g));
        }
        assert(in_map(t));
        assert(coords(pi) == prev);
        assert(adjacent(prev, t));
        let d = lemma_adjacent_offset(prev, t);
        assert(self.bfs_closed(blocked, g, dist, pi));
        assert(self.bfs_reached_nb(blocked, g, dist, pi, d));
        lemma_index_coords(t.0 as int, t.1 as int);
    }

    /// Breadth-first path from `start` to `goal` over open tiles, stepping to
    /// any of the eight neighbors, diagonals first (`blocked` marks tiles
    /// occupied by buildings). The goal itself only has
    /// to be passable terrain. The path excludes `start` and ends at `goal`;
    /// it is empty when `start == goal`.
    #[verifier::spinoff_prover]
    #[verifier::rlimit(100)]
    pub fn find_path(&self, start: (u8, u8), goal: (u8, u8), blocked: &[bool]) -> (r: Option<
        Vec<(u8, u8)>,
    >)
        requires
            self.wf(),
        ensures
            r matches Some(p) ==> self.is_route(blocked@, start, p@, goal),
            in_map(start) && start == goal ==> (r matches Some(p) && p@.len() == 0),
            in_map(start) && (exists|p: Seq<(u8, u8)>| #[trigger] self.is_route(blocked@, start, p, goal))
                ==> r is Some,
            match r {
                Some(p) => self.spec_find_path(start, goal, blocked@) == Some(p@),
                None => self.spec_find_path(start, goal, blocked@) is None,
            },
    {
        if start.0 >= 64 || start.1 >= 64 || goal.0 >= 64 || goal.1 >= 64 {
            return None;
        }
        if start.0 == goal.0 && start.1 == goal.1 {
            let e: Vec<(u8, u8)> = Vec::new();
            assert(e@ =~= Seq::<(u8, u8)>::empty());
            return Some(e);
        }
        if !self.is_passable(goal.0, goal.1) {
            return None;
        }
        proof {
            lemma_index_coords(start.0 as int, start.1 as int);
            lemma_index_coords(goal.0 as int, goal.1 as int);
        }
        let s = tile_index(start.0, start.1);
        let g = tile_index(goal.0, goal.1);
        let mut dist: Vec<i32> = vec![-1i32; MAP_TILES];
        let mut parent: Vec<usize> = vec![0usize; MAP_TILES];
        dist[s] = 0;
        let mut queue: Vec<usize> = Vec::new();
        queue.push(s);
        let ghost init = (
            Seq::new(4096, |i: int| if i == s as int { 0i32 } else { -1i32 }),
            Seq::new(4096, |i: int| 0usize),
            seq![s as usize],
            0int,
            false,
        );
        proof {
            assert(dist@ =~= init.0);
            assert(parent@ =~= init.1);
            assert(queue@ =~= init.2);
        }
        let ghost mut disc: Set<int> = set![s as int];
        proof {
            assert(disc.len() == 1) by {
                assert(Set::<int>::empty().insert(s as int) == disc);
            }
            assert forall|v: int| 0 <= v < 4096 && #[trigger] dist@[v] >= 0 implies queue@.contains(
                v as usize,
            ) by {
                assert(v == s as int);
                assert(queue@[0] == s);
            }
        }
        let mut head: usize = 0;
        let mut pops: usize = 0;
        let mut found = false;
        while head < queue.len() && !found && pops < MAP_TILES
            invariant
                self.wf(),
                dist@.len() == 4096,
                parent@.len() == 4096,
                s < 4096,
                g < 4096,
                s != g,
                coords(s as int) == start,
                coords(g as int) == goal,
                self.passable_at(goal.0 as int, goal.1 as int),
                dist@[s as int] == 0,
                0 <= pops <= 4096,
                forall|v: int| 0 <= v < 4096 ==> -1 <= #[trigger] dist@[v] <= pops,
                forall|v: int|
                    0 <= v < 4096 && #[trigger] dist@[v] >= 0 && v != s ==> {
                        &&& parent@[v] < 4096
                        &&& dist@[parent@[v] as int] >= 0
                        &&& dist@[v] == dist@[parent@[v] as int] + 1
                        &&& adjacent(coords(parent@[v] as int), coords(v))
                        &&& (v == g || self.open_tile(blocked@, coords(v)))
                    },
                forall|i: int|
                    0 <= i < queue@.len() ==> #[trigger] queue@[i] < 4096 && dist@[queue@[i] as int]
                        >= 0,
                found ==> dist@[g as int] >= 0,
                head <= queue@.len(),
                pops == head,
                disc.finite(),
                disc.len() == queue@.len(),
                forall|v: int|
                    #![trigger disc.contains(v)]
                    #![trigger dist@[v]]
                    disc.contains(v) <==> (0 <= v < 4096 && dist@[v] >= 0),
                forall|v: int| 0 <= v < 4096 && #[trigger] dist@[v] >= 0 ==> queue@.contains(v as usize),
                !found ==> forall|i: int|
                    0 <= i < head ==> self.bfs_closed(blocked@, g as int, dist@, #[trigger] queue@[i] as int),
                dist@[g as int] >= 0 ==> found,
                self.bfs_run(blocked@, g as int, init, 0) == self.bfs_run(
                    blocked@,
                    g as int,
                    (dist@, parent@, queue@, head as int, found),
                    pops as int,
                ),
            decreases 4096 - pops,
        {
            let ghost pre = (dist@, parent@, queue@, head as int, found);
            let u = queue[head];
            head += 1;
            pops += 1;
            let ghost popped = (dist@, parent@, queue@, head as int, found);
            let (ux, uy) = tile_coords(u);
            let mut d: u8 = 0;
            while d < 8 && !found
                invariant
                    self.wf(),
                    dist@.len() == 4096,
                    parent@.len() == 4096,
                    s < 4096,
                    g < 4096,
                    s != g,
                    u < 4096,
                    coords(u as int) == (ux, uy),
                    in_map((ux, uy)),
                    dist@[u as int] >= 0,
                    dist@[u as int] <= pops - 1,
                    dist@[s as int] == 0,
                    1 <= pops <= 4096,
                    forall|v: int| 0 <= v < 4096 ==> -1 <= #[trigger] dist@[v] <= pops,
                    forall|v: int|
                        0 <= v < 4096 && #[trigger] dist@[v] >= 0 && v != s ==> {
                            &&& parent@[v] < 4096
                            &&& dist@[parent@[v] as int] >= 0
                            &&& dist@[v] == dist@[parent@[v] as int] + 1
                            &&& adjacent(coords(parent@[v] as int), coords(v))
                            &&& (v == g || self.open_tile(blocked@, coords(v)))
                        },
                    forall|i: int|
                        0 <= i < queue@.len() ==> #[trigger] queue@[i] < 4096 && dist@[queue@[i] as int]
                            >= 0,
                    found ==> dist@[g as int] >= 0,
                    d <= 8,
                    1 <= head <= queue@.len(),
                    queue@[head - 1] == u,
                    pops == head,
                    disc.finite(),
                    disc.len() == queue@.len(),
                    forall|v: int|
                        #![trigger disc.contains(v)]
                        #![trigger dist@[v]]
                        disc.contains(v) <==> (0 <= v < 4096 && dist@[v] >= 0),
                    forall|v: int| 0 <= v < 4096 && #[trigger] dist@[v] >= 0 ==> queue@.contains(v as usize),
                    !found ==> forall|i: int|
                        0 <= i < head - 1 ==> self.bfs_closed(blocked@, g as int, dist@, #[trigger] queue@[i] as int),
                    !found ==> forall|dd: u8| dd < d ==> #[trigger] self.bfs_reached_nb(blocked@, g as int, dist@, u as int, dd),
                    dist@[g as int] >= 0 ==> found,
                    self.bfs_run(blocked@, g as int, init, 0) == self.bfs_run(
                        blocked@,
                        g as int,
                        pre,
                        pops - 1,
                    ),
                    popped == (pre.0, pre.1, pre.2, pre.3 + 1, pre.4),
                    0 <= pre.3 < pre.2.len(),
                    !pre.4,
                    pops - 1 < 4096,
                    u as int == pre.2[pre.3] as int,
                    self.bfs_neighbors(blocked@, g as int, popped, u as int, 0) == self.bfs_neighbors(
                        blocked@,
                        g as int,
                        (dist@, parent@, queue@, head as int, found),
                        u as int,
                        d as int,
                    ),
                decreases 8 - d,
            {
                let ghost before = (dist@, parent@, queue@, head as int, found);
                let (ok, nx, ny) = neighbor(ux, uy, d);
                if ok {
                    let w = tile_index(nx, ny);
                    if dist[w] < 0 {
                        let enter = if w == g {
                            true
                        } else {
                            self.is_passable(nx, ny) && !(w < blocked.len() && blocked[w])
                        };
                        if enter {
                            let du = dist[u];
                            let ghost d0 = dist@;
                            let ghost q0 = queue@;
                            dist[w] = du + 1;
                            parent[w] = u;
                            queue.push(w);
                            proof {
                                assert(!disc.contains(w as int));
                                disc = disc.insert(w as int);
                                assert forall|v: int| 0 <= v < 4096 && #[trigger] d0[v] >= 0 implies dist@[v] >= 0 by {
                                    if v != w {
                                        assert(dist@[v] == d0[v]);
                                    }
                                }
                                assert forall|v: int| 0 <= v < 4096 && #[trigger] dist@[v] >= 0 implies queue@.contains(
                                    v as usize,
                                ) by {
                                    if v == w {
                                        assert(queue@[q0.len() as int] == w);
                                    } else {
                                        assert(d0[v] >= 0);
                                        assert(q0.contains(v as usize));
                                        let j = choose|j: int| 0 <= j < q0.len() && q0[j] == v as usize;
                                        assert(queue@[j] == q0[j]);
                                    }
                                }
                                if !found && w != g {
                                    assert forall|i: int| 0 <= i < head - 1 implies self.bfs_closed(
                                        blocked@,
                                        g as int,
                                        dist@,
                                        #[trigger] queue@[i] as int,
                                    ) by {
                                        assert(queue@[i] == q0[i]);
                                        self.lemma_closed_mono(blocked@, g as int, d0, dist@, q0[i] as int);
                                    }
                                    assert forall|dd: u8| dd < d implies #[trigger] self.bfs_reached_nb(
                                        blocked@,
                                        g as int,
                                        dist@,
                                        u as int,
                                        dd,
                                    ) by {
                                        assert(self.bfs_reached_nb(blocked@, g as int, d0, u as int, dd));
                                    }
                                }
                            }
                            if w == g {
                                found = true;
                            }
                        }
                    }
                }
                proof {
                    if !found {
                        assert(self.bfs_reached_nb(blocked@, g as int, dist@, u as int, d));
                    }
                    assert((dist@, parent@, queue@, head as int, found) == self.bfs_visit(
                        blocked@,
                        g as int,
                        before,
                        u as int,
                        d,
                    ));
                }
                d += 1;
            }
            proof {
                self.lemma_neighbors_done(
                    blocked@,
                    g as int,
                    (dist@, parent@, queue@, head as int, found),
                    u as int,
                    d as int,
                );
                self.lemma_run_step(blocked@, g as int, pre, u as int, pops - 1);
            }
            proof {
                if !found {
                    assert forall|dd: u8| dd < 8 implies #[trigger] self.bfs_reached_nb(
                        blocked@,
                        g as int,
                        dist@,
                        u as int,
                        dd,
                    ) by {}
                    assert(self.bfs_closed(blocked@, g as int, dist@, queue@[head - 1] as int));
                }
            }
        }
        let ghost fin = (dist@, parent@, queue@, head as int, found);
        assert(self.bfs_run(blocked@, g as int, fin, pops as int) == fin);
        if dist[g] < 0 {
            proof {
                lemma_int_range(0, 4096);
                assert(disc.subset_of(set_int_range(0, 4096)));
                lemma_len_subset(disc, set_int_range(0, 4096));
                assert(queue@.len() <= 4096);
                assert(head == queue@.len());
                assert forall|v: int| 0 <= v < 4096 && #[trigger] dist@[v] >= 0 implies self.bfs_closed(
                    blocked@,
                    g as int,
                    dist@,
                    v,
                ) by {
                    assert(queue@.contains(v as usize));
                    let j = choose|j: int| 0 <= j < queue@.len() && queue@[j] == v as usize;
                    assert(self.bfs_closed(blocked@, g as int, dist@, queue@[j] as int));
                }
                assert forall|p: Seq<(u8, u8)>| !#[trigger] self.is_route(blocked@, start, p, goal) by {
                    if self.is_route(blocked@, start, p, goal) {
                        self.lemma_route_reached(blocked@, s as int, g as int, dist@, p, p.len() - 1);
                    }
                }
            }
            return None;
        }
        let mut path: Vec<(u8, u8)> = Vec::new();
        let mut cur = g;
        while cur != s
            invariant
                self.wf(),
                dist@.len() == 4096,
                parent@.len() == 4096,
                s < 4096,
                g < 4096,
                cur < 4096,
                coords(s as int) == start,
                coords(g as int) == goal,
                self.passable_at(goal.0 as int, goal.1 as int),
                dist@[s as int] == 0,
                dist@[cur as int] >= 0,
                dist@[cur as int] + path@.len() == dist@[g as int],
                forall|v: int|
                    0 <= v < 4096 && #[trigger] dist@[v] >= 0 && v != s ==> {
                        &&& parent@[v] < 4096
                        &&& dist@[parent@[v] as int] >= 0
                        &&& dist@[v] == dist@[parent@[v] as int] + 1
                        &&& adjacent(coords(parent@[v] as int), coords(v))
                        &&& (v == g || self.open_tile(blocked@, coords(v)))
                    },
                self.is_route(blocked@, coords(cur as int), path@, goal),
                fin.1 == parent@,
                fin.0 == dist@,
                Self::bfs_walk(parent@, s as int, g as int, dist@[g as int] as nat) == Self::bfs_walk(
                    parent@,
                    s as int,
                    cur as int,
                    dist@[cur as int] as nat,
                ) + path@,
            decreases dist@[cur as int],
        {
            let t = tile_coords(cur);
            let ghost old_path = path@;
            path.insert(0, t);
            proof {
                assert(path@ =~= seq![t] + old_path);
                if old_path.len() > 0 {
                    assert(cur != g);
                }
                self.lemma_extend_route(blocked@, coords(parent@[cur as int] as int), t, old_path, goal);
            }
            proof {
                let pc = parent@[cur as int] as int;
                assert(dist@[cur as int] >= 1);
                assert(Self::bfs_walk(parent@, s as int, cur as int, dist@[cur as int] as nat)
                    == Self::bfs_walk(parent@, s as int, pc, dist@[pc] as nat).push(t));
                assert(Self::bfs_walk(parent@, s as int, pc, dist@[pc] as nat).push(t) + old_path
                    =~= Self::bfs_walk(parent@, s as int, pc, dist@[pc] as nat) + path@);
            }
            cur = parent[cur];
        }
        proof {
            assert(Self::bfs_walk(parent@, s as int, s as int, 0) =~= Seq::<(u8, u8)>::empty());
            assert(Self::bfs_walk(parent@, s as int, g as int, dist@[g as int] as nat) =~= path@);
        }
        Some(path)
    }
}

} // verus!
