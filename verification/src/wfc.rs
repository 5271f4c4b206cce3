//! Wave function collapse over road tiles: each cell keeps the set of tiles
//! (a bit mask) it may still take; collapsing a cell and propagating the
//! edge constraints to its neighbours shrinks those sets.

use std::collections::VecDeque;
use vstd::prelude::*;

verus! {

pub const N: usize = 0;
pub const E: usize = 1;
pub const S: usize = 2;
pub const W: usize = 3;

/// Bit `i` of `x` is set.
pub open spec fn has_bit(x: u64, i: u64) -> bool {
    (x >> i) & 1u64 == 1u64
}

/// The number of one bits of `x`.
pub open spec fn popcount(x: u64) -> nat
    decreases x,
{
    if x == 0 {
        0
    } else {
        popcount(x / 2) + (x % 2) as nat
    }
}

/// The number of one bits of `x`.
fn count_ones_u64(x: u64) -> (r: u32)
    ensures
        r == popcount(x),
{
    proof {
        lemma_popcount_le_64(x);
    }
    let mut rest: u64 = x;
    let mut count: u32 = 0;
    while rest != 0
        invariant
            count + popcount(rest) == popcount(x),
            popcount(x) <= 64,
        decreases rest,
    {
        count = count + (rest % 2) as u32;
        rest = rest / 2;
    }
    count
}

/// The number of one bits of `x`.
fn count_ones_u8(x: u8) -> (r: u32)
    ensures
        r == popcount(x as u64),
{
    count_ones_u64(x as u64)
}

proof fn lemma_bit_or(a: u64, b: u64, i: u64)
    requires
        i < 64,
    ensures
        has_bit(a | b, i) == (has_bit(a, i) || has_bit(b, i)),
{
    assert(((a | b) >> i) & 1u64 == 1u64 <==> ((a >> i) & 1u64 == 1u64 || (b >> i) & 1u64 == 1u64))
        by (bit_vector)
        requires
            i < 64,
    ;
}

proof fn lemma_bit_and(a: u64, b: u64, i: u64)
    requires
        i < 64,
    ensures
        has_bit(a & b, i) == (has_bit(a, i) && has_bit(b, i)),
{
    assert(((a & b) >> i) & 1u64 == 1u64 <==> ((a >> i) & 1u64 == 1u64 && (b >> i) & 1u64 == 1u64))
        by (bit_vector)
        requires
            i < 64,
    ;
}

proof fn lemma_bit_single(t: u64, i: u64)
    requires
        t < 64,
        i < 64,
    ensures
        has_bit(1u64 << t, i) == (t == i),
{
    assert((((1u64 << t) >> i) & 1u64 == 1u64) <==> (t == i)) by (bit_vector)
        requires
            t < 64,
            i < 64,
    ;
}

proof fn lemma_bit_zero(i: u64)
    requires
        i < 64,
    ensures
        !has_bit(0, i),
{
    assert((0u64 >> i) & 1u64 != 1u64) by (bit_vector);
}

proof fn lemma_no_bits_in_zero()
    ensures
        forall|u: u64| u < 64 ==> !#[trigger] has_bit(0u64, u),
{
    assert forall|u: u64| u < 64 implies !#[trigger] has_bit(0u64, u) by {
        lemma_bit_zero(u);
    }
}

/// `x & (1 << i)` tests bit `i`.
proof fn lemma_mask_test(x: u64, i: u64)
    requires
        i < 64,
    ensures
        (x & (1u64 << i) != 0) == has_bit(x, i),
{
    assert((x & (1u64 << i) != 0) == ((x >> i) & 1u64 == 1u64)) by (bit_vector)
        requires
            i < 64,
    ;
}

proof fn lemma_and_le(a: u64, b: u64)
    ensures
        a & b <= a,
        a & b <= b,
{
    assert(a & b <= a) by (bit_vector);
    assert(a & b <= b) by (bit_vector);
}

/// A value below `2^16` has no bit at or above 16.
proof fn lemma_low_bits(x: u64, i: u64)
    requires
        x <= 0xFFFF,
        16 <= i < 64,
    ensures
        !has_bit(x, i),
{
    assert((x >> i) & 1u64 != 1u64) by (bit_vector)
        requires
            x <= 0xFFFF,
            16 <= i < 64,
    ;
}

proof fn lemma_popcount_small(x: u64)
    requires
        x < 16,
    ensures
        popcount(x) <= 4,
{
    reveal_with_fuel(popcount, 5);
    assert(x / 2 < 8);
    assert(x / 2 / 2 < 4);
    assert(x / 2 / 2 / 2 < 2);
    assert(x / 2 / 2 / 2 / 2 == 0);
}

proof fn lemma_popcount_zero(x: u64)
    ensures
        popcount(x) == 0 <==> x == 0,
    decreases x,
{
    if x != 0 {
        if x % 2 == 0 {
            lemma_popcount_zero(x / 2);
        }
    }
}

/// The two directions facing each other.
pub open spec fn opposite_spec(dir: usize) -> usize {
    if dir == N {
        S
    } else if dir == E {
        W
    } else if dir == S {
        N
    } else {
        E
    }
}

pub fn opposite(dir: usize) -> (r: usize)
    ensures
        r == opposite_spec(dir),
{
    if dir == N {
        S
    } else if dir == E {
        W
    } else if dir == S {
        N
    } else {
        E
    }
}

/// Whether the tile `mask` has a road leaving through side `dir`.
pub open spec fn edge_spec(mask: u8, dir: usize) -> u8 {
    (mask >> dir) & 1u8
}

pub fn edge(mask: u8, dir: usize) -> (r: u8)
    requires
        dir < 8,
    ensures
        r == edge_spec(mask, dir),
        r <= 1,
{
    assert((mask >> dir) & 1u8 <= 1) by (bit_vector);
    (mask >> dir) & 1
}

/// Whether tile `tile_index` is among the candidates `possible`.
pub fn has_tile(possible: u64, tile_index: usize) -> (b: bool)
    requires
        tile_index < 64,
    ensures
        b == has_bit(possible, tile_index as u64),
{
    proof {
        lemma_mask_test(possible, tile_index as u64);
    }
    possible & (1u64 << tile_index) != 0
}

/// A road tile: the sides with a road (bits N, E, S, W) and how often it
/// should be chosen.
#[derive(Clone, Copy, Debug, PartialEq, Eq, Structural)]
pub struct Tile {
    pub mask: u8,
    pub weight: u32,
}

/// The weight of a road tile: plain ground is common, straight roads more
/// common than bends, dead ends and crossings rare.
pub open spec fn road_weight_spec(mask: u8) -> u32 {
    let ones = popcount(mask as u64);
    if ones == 0 {
        8
    } else if ones == 1 {
        1
    } else if ones == 2 {
        if mask == 5 || mask == 10 {
            8
        } else {
            6
        }
    } else if ones == 3 {
        3
    } else {
        1
    }
}

pub fn road_weight(mask: u8) -> (w: u32)
    requires
        popcount(mask as u64) <= 4,
    ensures
        w == road_weight_spec(mask),
{
    let ones = count_ones_u8(mask);
    if ones == 0 {
        8
    } else if ones == 1 {
        1
    } else if ones == 2 {
        if mask == 5 || mask == 10 {
            8
        } else {
            6
        }
    } else if ones == 3 {
        3
    } else {
        1
    }
}

/// The sixteen road tiles, tile `i` having the road mask `i`.
pub open spec fn is_road_tile_set(tiles: Seq<Tile>) -> bool {
    &&& tiles.len() == 16
    &&& forall|i: int|
        0 <= i < 16 ==> #[trigger] tiles[i] == (Tile {
            mask: i as u8,
            weight: road_weight_spec(i as u8),
        })
}

pub fn road_tiles() -> (tiles: Vec<Tile>)
    ensures
        is_road_tile_set(tiles@),
{
    let mut tiles: Vec<Tile> = Vec::new();
    let mut mask: u8 = 0;
    while mask < 16
        invariant
            mask <= 16,
            tiles@.len() == mask,
            forall|i: int|
                0 <= i < mask ==> #[trigger] tiles@[i] == (Tile {
                    mask: i as u8,
                    weight: road_weight_spec(i as u8),
                }),
        decreases 16 - mask,
    {
        proof {
            lemma_popcount_small(mask as u64);
        }
        tiles.push(Tile { mask, weight: road_weight(mask) });
        mask += 1;
    }
    tiles
}

/// The xorshift step of the generator state.
pub open spec fn xorshift(x: u64) -> u64 {
    let a = x ^ (x >> 12u64);
    let b = a ^ (a << 25u64);
    b ^ (b >> 27u64)
}

/// The xorshift* output multiplier.
pub const XORSHIFT_MUL: u64 = 0x2545_F491_4F6C_DD1D;

/// A small deterministic xorshift* random number generator.
#[derive(Debug)]
pub struct Rng {
    pub state: u64,
}

impl Rng {
    /// A generator seeded with `seed`, or with a fixed non-zero constant
    /// when `seed` is zero (a zero state would stay zero).
    pub fn new(seed: u64) -> (r: Rng)
        ensures
            r.state == if seed == 0 {
                0x1234_5678_9abc_def0u64
            } else {
                seed
            },
    {
        Rng { state: if seed == 0 { 0x1234_5678_9abc_def0 } else { seed } }
    }

    pub fn next_u64(&mut self) -> (r: u64)
        ensures
            final(self).state == xorshift(old(self).state),
            r == vstd::wrapping::u64_specs::wrapping_mul(xorshift(old(self).state), XORSHIFT_MUL),
    {
        let mut x = self.state;
        x ^= x >> 12;
        x ^= x << 25;
        x ^= x >> 27;
        self.state = x;
        x.wrapping_mul(XORSHIFT_MUL)
    }

    /// A number below `upper`: the next output modulo `upper`.
    pub fn gen_range(&mut self, upper: usize) -> (r: usize)
        requires
            upper > 0,
        ensures
            final(self).state == xorshift(old(self).state),
            r == (vstd::wrapping::u64_specs::wrapping_mul(xorshift(old(self).state), XORSHIFT_MUL) as usize) % upper,
            r < upper,
    {
        (self.next_u64() as usize) % upper
    }

    /// Picks a tile among the candidates `possible`, each with probability
    /// proportional to its weight: with `r` the next output modulo the total
    /// weight, the tile whose slice of the cumulative weights holds `r`.
    pub fn choose_weighted_tile(&mut self, possible: u64, tiles: &[Tile]) -> (i: usize)
        requires
            tiles@.len() <= 64,
            0 < weight_upto(possible, tiles@, tiles@.len() as int) <= u32::MAX,
        ensures
            final(self).state == xorshift(old(self).state),
            i < tiles@.len(),
            has_bit(possible, i as u64),
            ({
                let r = vstd::wrapping::u64_specs::wrapping_mul(xorshift(old(self).state), XORSHIFT_MUL)
                    % (weight_upto(possible, tiles@, tiles@.len() as int) as u64);
                weight_upto(possible, tiles@, i as int) <= r < weight_upto(possible, tiles@, i as int)
                    + tiles@[i as int].weight
            }),
    {
        let n = tiles.len();
        let mut total_weight: u32 = 0;
        let mut k: usize = 0;
        while k < n
            invariant
                n == tiles@.len(),
                n <= 64,
                k <= n,
                weight_upto(possible, tiles@, n as int) <= u32::MAX,
                total_weight == weight_upto(possible, tiles@, k as int),
            decreases n - k,
        {
            proof {
                lemma_weight_monotone(possible, tiles@, k + 1, n as int);
            }
            if has_tile(possible, k) {
                total_weight = total_weight + tiles[k].weight;
            }
            k += 1;
        }
        let out = self.next_u64();
        let r0: u32 = (out % total_weight as u64) as u32;
        let mut r: u32 = r0;
        let mut i: usize = 0;
        while i < n
            invariant
                n == tiles@.len(),
                n <= 64,
                i <= n,
                total_weight == weight_upto(possible, tiles@, n as int),
                r0 < total_weight,
                self.state == xorshift(old(self).state),
                out == vstd::wrapping::u64_specs::wrapping_mul(xorshift(old(self).state), XORSHIFT_MUL),
                r0 == out % (total_weight as u64),
                weight_upto(possible, tiles@, i as int) <= r0,
                r == r0 - weight_upto(possible, tiles@, i as int),
            decreases n - i,
        {
            if has_tile(possible, i) {
                if r < tiles[i].weight {
                    return i;
                }
                r = r - tiles[i].weight;
            }
            i += 1;
        }
        proof {
            assert(false);
        }
        0
    }
}

/// The total weight of the candidate tiles among the first `k` tiles.
pub open spec fn weight_upto(possible: u64, tiles: Seq<Tile>, k: int) -> int
    decreases k,
{
    if k <= 0 {
        0
    } else {
        weight_upto(possible, tiles, k - 1) + if has_bit(possible, (k - 1) as u64) {
            tiles[k - 1].weight as int
        } else {
            0
        }
    }
}

proof fn lemma_weight_monotone(possible: u64, tiles: Seq<Tile>, i: int, j: int)
    requires
        0 <= i <= j,
    ensures
        weight_upto(possible, tiles, i) <= weight_upto(possible, tiles, j),
    decreases j - i,
{
    if i < j {
        lemma_weight_monotone(possible, tiles, i, j - 1);
    }
}


/// Tile `b` may sit on side `dir` of tile `a`: their facing edges agree.
pub open spec fn compatible_spec(a: int, dir: usize, b: int) -> bool {
    0 <= b < 16 && edge_spec(a as u8, dir) == edge_spec(b as u8, opposite_spec(dir))
}

/// The tiles that some candidate of `possible` allows on its side `dir`.
pub open spec fn allowed_spec(compatible: Seq<[u64; 4]>, possible: u64, dir: int, u: u64) -> bool {
    exists|t: int|
        0 <= t < 16 && has_bit(possible, t as u64) && #[trigger] has_bit(compatible[t][dir], u)
}

/// The cell one step in direction `dir` from `(x, y)`, if it is on the grid.
pub open spec fn neighbor_spec(width: int, height: int, x: int, y: int, dir: usize) -> Option<(int, int)> {
    let nx = if dir == E {
        x + 1
    } else if dir == W {
        x - 1
    } else {
        x
    };
    let ny = if dir == N {
        y - 1
    } else if dir == S {
        y + 1
    } else {
        y
    };
    if 0 <= nx < width && 0 <= ny < height {
        Some((nx, ny))
    } else {
        None
    }
}

/// The cell index of `(x, y)`, row by row.
pub open spec fn cell_index(width: int, x: int, y: int) -> int {
    y * width + x
}

proof fn lemma_index_in_range(width: int, height: int, x: int, y: int)
    requires
        0 <= x < width,
        0 <= y < height,
    ensures
        0 <= cell_index(width, x, y) < width * height,
        width <= width * height,
        height <= width * height,
{
    assert(0 <= y * width + x < width * height) by (nonlinear_arith)
        requires
            0 <= x < width,
            0 <= y < height,
    ;
    assert(width <= width * height && height <= width * height) by (nonlinear_arith)
        requires
            0 <= x < width,
            0 <= y < height,
    ;
}

proof fn lemma_index_injective(width: int, x1: int, y1: int, x2: int, y2: int)
    requires
        0 <= x1 < width,
        0 <= x2 < width,
        0 <= y1,
        0 <= y2,
        cell_index(width, x1, y1) == cell_index(width, x2, y2),
    ensures
        x1 == x2,
        y1 == y2,
{
    assert(y1 == y2) by (nonlinear_arith)
        requires
            0 <= x1 < width,
            0 <= x2 < width,
            0 <= y1,
            0 <= y2,
            y1 * width + x1 == y2 * width + x2,
    ;
}

/// The state of a wave function collapse run: for each cell of a
/// `width` by `height` grid, the bit mask of road tiles it may still take.
#[derive(Debug)]
pub struct Wfc {
    pub width: usize,
    pub height: usize,
    pub tiles: Vec<Tile>,
    pub compatible: Vec<[u64; 4]>,
    pub cells: Vec<u64>,
    pub all_tiles_mask: u64,
}

/// The tiles whose side `dir` agrees with the facing side of tile `a`.
fn compat_mask(tiles: &Vec<Tile>, a: usize, dir: usize) -> (allowed: u64)
    requires
        is_road_tile_set(tiles@),
        a < 16,
        dir < 4,
    ensures
        forall|u: u64| u < 64 ==> (#[trigger] has_bit(allowed, u) <==> compatible_spec(a as int, dir, u as int)),
{
    let mut allowed: u64 = 0;
    let mut b: usize = 0;
    proof {
        lemma_no_bits_in_zero();
    }

    while b < 16
        invariant
            is_road_tile_set(tiles@),
            a < 16,
            dir < 4,
            b <= 16,
            forall|u: u64| u < 64 ==> (#[trigger] has_bit(allowed, u) <==> (u < b && compatible_spec(a as int, dir, u as int))),
        decreases 16 - b,
    {
        let a_edge = edge(tiles[a].mask, dir);
        let b_edge = edge(tiles[b].mask, opposite(dir));
        let old_allowed = allowed;
        if a_edge == b_edge {
            allowed = allowed | (1u64 << b);
        }
        proof {
            assert forall|u: u64| u < 64 implies (#[trigger] has_bit(allowed, u) <==> (u < b + 1 && compatible_spec(a as int, dir, u as int))) by {
                if a_edge == b_edge {
                    lemma_bit_or(old_allowed, 1u64 << b, u);
                    lemma_bit_single(b as u64, u);
                }
            }
        }
        b += 1;
    }
    allowed
}

impl Wfc {
    /// The invariant of a run: the sixteen road tiles, their compatibility
    /// table, and one candidate mask per cell using only the sixteen low bits.
    pub open spec fn wf(&self) -> bool {
        &&& is_road_tile_set(self.tiles@)
        &&& self.compatible@.len() == 16
        &&& forall|a: int, dir: int, u: u64|
            0 <= a < 16 && 0 <= dir < 4 && u < 64 ==> (#[trigger] has_bit(self.compatible@[a][dir], u)
                <==> compatible_spec(a, dir as usize, u as int))
        &&& self.all_tiles_mask == 0xFFFF
        &&& self.cells@.len() == self.width * self.height
        &&& self.width * self.height <= isize::MAX
        &&& forall|i: int| 0 <= i < self.cells@.len() ==> #[trigger] self.cells@[i] <= 0xFFFF
    }

    /// A grid of `width` by `height` cells, each of which may still take
    /// any of the sixteen road tiles.
    pub fn new(width: usize, height: usize) -> (w: Wfc)
        requires
            width * height <= isize::MAX,
        ensures
            w.wf(),
            w.width == width,
            w.height == height,
            forall|i: int| 0 <= i < w.cells@.len() ==> #[trigger] w.cells@[i] == 0xFFFF,
    {
        let tiles = road_tiles();
        assert(1u64 << 16u64 == 0x10000u64) by (bit_vector);
        let all_tiles_mask: u64 = (1u64 << tiles.len() as u64) - 1;
        let mut compatible: Vec<[u64; 4]> = Vec::new();
        let mut a: usize = 0;
        while a < 16
            invariant
                is_road_tile_set(tiles@),
                a <= 16,
                compatible@.len() == a,
                forall|a2: int, dir: int, u: u64|
                    0 <= a2 < a && 0 <= dir < 4 && u < 64 ==> (#[trigger] has_bit(compatible@[a2][dir], u)
                        <==> compatible_spec(a2, dir as usize, u as int)),
            decreases 16 - a,
        {
            let row = [
                compat_mask(&tiles, a, 0),
                compat_mask(&tiles, a, 1),
                compat_mask(&tiles, a, 2),
                compat_mask(&tiles, a, 3),
            ];
            let ghost old_c = compatible@;
            compatible.push(row);
            proof {
                assert forall|a2: int, dir: int, u: u64|
                    0 <= a2 < a + 1 && 0 <= dir < 4 && u < 64 implies (#[trigger] has_bit(compatible@[a2][dir], u)
                        <==> compatible_spec(a2, dir as usize, u as int)) by {
                    if a2 < a {
                        assert(compatible@[a2] == old_c[a2]);
                    } else {
                        assert(compatible@[a2] == row);
                        assert(dir == 0 || dir == 1 || dir == 2 || dir == 3);
                    }
                }
            }
            a += 1;
        }
        let n = width * height;
        let mut cells: Vec<u64> = Vec::new();
        let mut i: usize = 0;
        while i < n
            invariant
                i <= n,
                cells@.len() == i,
                all_tiles_mask == 0xFFFF,
                forall|k: int| 0 <= k < i ==> #[trigger] cells@[k] == 0xFFFF,
            decreases n - i,
        {
            cells.push(all_tiles_mask);
            i += 1;
        }
        Wfc { width, height, tiles, compatible, cells, all_tiles_mask }
    }

    /// Makes every cell undecided again.
    pub fn reset(&mut self)
        requires
            old(self).wf(),
        ensures
            final(self).wf(),
            final(self).width == old(self).width,
            final(self).height == old(self).height,
            forall|i: int| 0 <= i < final(self).cells@.len() ==> #[trigger] final(self).cells@[i] == 0xFFFF,
    {
        let n = self.cells.len();
        let mut i: usize = 0;
        while i < n
            invariant
                self.wf(),
                self.width == old(self).width,
                self.height == old(self).height,
                n == self.cells@.len(),
                i <= n,
                forall|k: int| 0 <= k < i ==> #[trigger] self.cells@[k] == 0xFFFF,
            decreases n - i,
        {
            let m = self.all_tiles_mask;
            self.cells.set(i, m);
            i += 1;
        }
    }

    pub fn index(&self, x: usize, y: usize) -> (i: usize)
        requires
            self.wf(),
            x < self.width,
            y < self.height,
        ensures
            i == cell_index(self.width as int, x as int, y as int),
            i < self.cells@.len(),
    {
        proof {
            lemma_index_in_range(self.width as int, self.height as int, x as int, y as int);
        }
        y * self.width + x
    }

    pub fn neighbor(&self, x: usize, y: usize, dir: usize) -> (r: Option<(usize, usize)>)
        requires
            self.wf(),
            x < self.width,
            y < self.height,
        ensures
            match r {
                Some((nx, ny)) => neighbor_spec(self.width as int, self.height as int, x as int, y as int, dir) == Some((nx as int, ny as int)),
                None => neighbor_spec(self.width as int, self.height as int, x as int, y as int, dir) is None,
            },
    {
        proof {
            lemma_index_in_range(self.width as int, self.height as int, x as int, y as int);
        }
        let dx: isize = if dir == E {
            1
        } else if dir == W {
            -1
        } else {
            0
        };
        let dy: isize = if dir == N {
            -1
        } else if dir == S {
            1
        } else {
            0
        };
        let nx = x as isize + dx;
        let ny = y as isize + dy;
        if nx < 0 || ny < 0 {
            return None;
        }
        let nx = nx as usize;
        let ny = ny as usize;
        if nx >= self.width || ny >= self.height {
            None
        } else {
            Some((nx, ny))
        }
    }

    /// The tiles whose side `dir` has the edge value `value`.
    pub fn tiles_with_edge(&self, dir: usize, value: u8) -> (r: u64)
        requires
            self.wf(),
            dir < 4,
        ensures
            forall|u: u64| u < 64 ==> (#[trigger] has_bit(r, u) <==> (u < 16 && edge_spec(u as u8, dir) == value)),
    {
        let mut result: u64 = 0;
        let mut i: usize = 0;
    proof {
        lemma_no_bits_in_zero();
    }

        while i < self.tiles.len()
            invariant
                self.wf(),
                dir < 4,
                i <= 16,
                forall|u: u64| u < 64 ==> (#[trigger] has_bit(result, u) <==> (u < i && edge_spec(u as u8, dir) == value)),
            decreases 16 - i,
        {
            let old_result = result;
            if edge(self.tiles[i].mask, dir) == value {
                result = result | (1u64 << i);
            }
            proof {
                assert(self.tiles@[i as int].mask == i as u8);
                assert forall|u: u64| u < 64 implies (#[trigger] has_bit(result, u) <==> (u < i + 1 && edge_spec(u as u8, dir) == value)) by {
                    lemma_bit_single(i as u64, u);
                    if edge_spec(i as u8, dir) == value {
                        lemma_bit_or(old_result, 1u64 << i, u);
                    }
                }
            }
            i += 1;
        }
        result
    }

    /// The tiles that at least one of the candidates `possible_here` allows
    /// next to it on side `dir`.
    pub fn allowed_neighbors(&self, possible_here: u64, dir: usize) -> (r: u64)
        requires
            self.wf(),
            dir < 4,
        ensures
            forall|u: u64| u < 64 ==> (#[trigger] has_bit(r, u) <==> allowed_spec(self.compatible@, possible_here, dir as int, u)),
    {
        let mut allowed: u64 = 0;
        let mut t: usize = 0;
    proof {
        lemma_no_bits_in_zero();
    }

        while t < self.tiles.len()
            invariant
                self.wf(),
                dir < 4,
                t <= 16,
                forall|u: u64| u < 64 ==> (#[trigger] has_bit(allowed, u) <==> exists|t2: int|
                    0 <= t2 < t && has_bit(possible_here, t2 as u64) && #[trigger] has_bit(self.compatible@[t2][dir as int], u)),
            decreases 16 - t,
        {
            let old_allowed = allowed;
            if has_tile(possible_here, t) {
                allowed = allowed | self.compatible[t][dir];
            }
            proof {
                assert forall|u: u64| u < 64 implies (#[trigger] has_bit(allowed, u) <==> exists|t2: int|
                    0 <= t2 < t + 1 && has_bit(possible_here, t2 as u64) && #[trigger] has_bit(self.compatible@[t2][dir as int], u)) by {
                    if has_bit(possible_here, t as u64) {
                        lemma_bit_or(old_allowed, self.compatible@[t as int][dir as int], u);
                    }
                    if has_bit(allowed, u) && !has_bit(old_allowed, u) {
                        assert(has_bit(self.compatible@[t as int][dir as int], u));
                    }
                }
            }
            t += 1;
        }
        allowed
    }

    pub fn is_collapsed(&self, idx: usize) -> (b: bool)
        requires
            idx < self.cells@.len(),
        ensures
            b == (popcount(self.cells@[idx as int]) == 1),
    {
        count_ones_u64(self.cells[idx]) == 1
    }

    /// The road mask of the tile a collapsed cell holds.
    pub fn tile_mask_at(&self, idx: usize) -> (r: Option<u8>)
        requires
            self.wf(),
            idx < self.cells@.len(),
        ensures
            popcount(self.cells@[idx as int]) != 1 ==> r is None,
            popcount(self.cells@[idx as int]) == 1 ==> r == Some(
                vstd::std_specs::bits::u64_trailing_zeros(self.cells@[idx as int]) as u8,
            ),
    {
        broadcast use vstd::std_specs::bits::group_bits_axioms;

        if !self.is_collapsed(idx) {
            return None;
        }
        let c = self.cells[idx];
        proof {
            lemma_popcount_zero(c);
        }
        let tz = c.trailing_zeros();
        proof {
            if tz >= 16 {
                lemma_low_bits(c, tz as u64);
            }
        }
        let tile_index = tz as usize;
        Some(self.tiles[tile_index].mask)
    }
}


/// Why a run of wave function collapse cannot go on.
#[derive(Clone, Copy, Debug, PartialEq, Eq, Structural)]
pub enum WfcError {
    /// Closing the border left the cell `(x, y)` without a candidate.
    Boundary { x: usize, y: usize },
    /// The cell chosen to collapse had no candidate.
    NoCandidates { cell: usize },
    /// Propagation left the cell `(x, y)` without a candidate.
    Contradiction { x: usize, y: usize },
}

/// `sol` gives every cell a road tile, and every two neighbouring tiles
/// agree on the edge between them.
pub open spec fn consistent_tiling(width: int, height: int, sol: Seq<int>) -> bool {
    &&& sol.len() == width * height
    &&& forall|i: int| 0 <= i < sol.len() ==> 0 <= #[trigger] sol[i] < 16
    &&& forall|x: int, y: int, dir: usize|
        0 <= x < width && 0 <= y < height && dir < 4 ==> #[trigger] adjacent_ok(width, height, sol, x, y, dir)
}

/// The tile of `(x, y)` and the tile of its neighbour on side `dir` agree.
pub open spec fn adjacent_ok(width: int, height: int, sol: Seq<int>, x: int, y: int, dir: usize) -> bool {
    match neighbor_spec(width, height, x, y, dir) {
        Some((nx, ny)) => compatible_spec(
            sol[cell_index(width, x, y)],
            dir,
            sol[cell_index(width, nx, ny)],
        ),
        None => true,
    }
}

/// Cell `i` still allows the tile that `sol` gives it.
pub open spec fn tile_allowed(cells: Seq<u64>, sol: Seq<int>, i: int) -> bool {
    has_bit(cells[i], sol[i] as u64)
}

/// Every cell still allows the tile that `sol` gives it.
pub open spec fn tiling_within(cells: Seq<u64>, sol: Seq<int>) -> bool {
    forall|i: int| 0 <= i < cells.len() ==> #[trigger] tile_allowed(cells, sol, i)
}

/// Each cell of `new` allows only tiles that the same cell of `old` allowed.
pub open spec fn narrowed(old: Seq<u64>, new: Seq<u64>) -> bool {
    &&& new.len() == old.len()
    &&& forall|i: int, u: u64|
        0 <= i < new.len() && u < 64 && #[trigger] has_bit(new[i], u) ==> has_bit(old[i], u)
}

/// Every consistent tiling allowed by `old` is still allowed by `new`.
pub open spec fn keeps_tilings(width: int, height: int, old: Seq<u64>, new: Seq<u64>) -> bool {
    forall|sol: Seq<int>|
        #[trigger] consistent_tiling(width, height, sol) && tiling_within(old, sol) ==> tiling_within(new, sol)
}

/// No consistent tiling is allowed by `cells`.
pub open spec fn no_tiling(width: int, height: int, cells: Seq<u64>) -> bool {
    forall|sol: Seq<int>| !(#[trigger] consistent_tiling(width, height, sol) && tiling_within(cells, sol))
}

/// Some candidate of the mask `m` allows tile `u` on its side `dir`.
pub open spec fn supports(m: u64, dir: usize, u: u64) -> bool {
    exists|t: u64| t < 16 && #[trigger] has_bit(m, t) && compatible_spec(t as int, dir, u as int)
}

/// Every candidate of the neighbour of `(x, y)` on side `dir` is allowed
/// there by some candidate of `(x, y)`.
pub open spec fn arc_ok(width: int, height: int, cells: Seq<u64>, x: int, y: int, dir: usize) -> bool {
    match neighbor_spec(width, height, x, y, dir) {
        Some((nx, ny)) => forall|u: u64|
            u < 16 && #[trigger] has_bit(cells[cell_index(width, nx, ny)], u) ==> supports(
                cells[cell_index(width, x, y)],
                dir,
                u,
            ),
        None => true,
    }
}

/// Every cell agrees with each of its neighbours.
pub open spec fn arc_consistent(width: int, height: int, cells: Seq<u64>) -> bool {
    forall|x: int, y: int, dir: usize|
        0 <= x < width && 0 <= y < height && dir < 4 ==> #[trigger] arc_ok(width, height, cells, x, y, dir)
}

/// Every cell agrees with each of its neighbours, except possibly the cells
/// listed in `queue`.
pub open spec fn pending_ok(width: int, height: int, cells: Seq<u64>, queue: Seq<(usize, usize)>) -> bool {
    forall|x: int, y: int, dir: usize|
        0 <= x < width && 0 <= y < height && dir < 4 && !queue.contains((x as usize, y as usize))
            ==> #[trigger] arc_ok(width, height, cells, x, y, dir)
}

/// As `pending_ok`, and besides the sides of `(x0, y0)` from `from` on
/// may disagree.
pub open spec fn arcs_ok_except(
    width: int,
    height: int,
    cells: Seq<u64>,
    queue: Seq<(usize, usize)>,
    x0: int,
    y0: int,
    from: int,
) -> bool {
    forall|x: int, y: int, dir: usize|
        0 <= x < width && 0 <= y < height && dir < 4 && !queue.contains((x as usize, y as usize)) && !(x == x0
            && y == y0 && from <= dir) ==> #[trigger] arc_ok(width, height, cells, x, y, dir)
}

/// No candidate of a cell has a road leaving the grid.
pub open spec fn closed_cells(width: int, height: int, cells: Seq<u64>) -> bool {
    forall|x: int, y: int, u: u64|
        0 <= x < width && 0 <= y < height && u < 16 && #[trigger] has_bit(cells[cell_index(width, x, y)], u)
            ==> boundary_ok(width, height, x, y, u as int)
}

/// The road edges of a tile, read off its mask: bit `d` of a tile below
/// sixteen is its road on side `d`.
proof fn lemma_edge_is_bit(u: u64, d: usize)
    requires
        u < 16,
        d < 4,
    ensures
        (edge_spec(u as u8, d) == 0) == !has_bit(u, d as u64),
{
    assert(((u as u8) >> d) & 1u8 == 0u8 <==> !((u >> (d as u64)) & 1u64 == 1u64)) by (bit_vector)
        requires
            u < 16,
            d < 4,
    ;
}

/// Law (a closed border keeps roads inside the grid): in closed cells no
/// candidate tile of a cell of the top row has a road up (bit 0), of the
/// right column a road right (bit 1), of the bottom row a road down
/// (bit 2), or of the left column a road left (bit 3).
pub proof fn lemma_closed_border_keeps_roads_in(w: int, h: int, cells: Seq<u64>)
    requires
        closed_cells(w, h, cells),
    ensures
        forall|x: int, y: int, u: u64|
            0 <= x < w && 0 <= y < h && u < 16 && #[trigger] has_bit(cells[cell_index(w, x, y)], u) ==> {
                &&& y == 0 ==> !has_bit(u, 0)
                &&& x == w - 1 ==> !has_bit(u, 1)
                &&& y == h - 1 ==> !has_bit(u, 2)
                &&& x == 0 ==> !has_bit(u, 3)
            },
{
    assert forall|x: int, y: int, u: u64|
        0 <= x < w && 0 <= y < h && u < 16 && #[trigger] has_bit(cells[cell_index(w, x, y)], u) implies {
            &&& y == 0 ==> !has_bit(u, 0)
            &&& x == w - 1 ==> !has_bit(u, 1)
            &&& y == h - 1 ==> !has_bit(u, 2)
            &&& x == 0 ==> !has_bit(u, 3)
        } by {
        assert(boundary_ok(w, h, x, y, u as int));
        assert((u as int) as u8 == u as u8);
        lemma_edge_is_bit(u, 0);
        lemma_edge_is_bit(u, 1);
        lemma_edge_is_bit(u, 2);
        lemma_edge_is_bit(u, 3);
    }
}

/// Every cell has a candidate left.
pub open spec fn no_empty_cell(cells: Seq<u64>) -> bool {
    forall|i: int| 0 <= i < cells.len() ==> #[trigger] cells[i] != 0
}

/// What a run keeps between its steps: every cell has a candidate, none
/// with a road leaving the grid, and every cell agrees with its neighbours.
pub open spec fn settled(width: int, height: int, cells: Seq<u64>) -> bool {
    &&& arc_consistent(width, height, cells)
    &&& closed_cells(width, height, cells)
    &&& no_empty_cell(cells)
}

/// The tile of a decided cell: its candidate.
pub open spec fn tile_of(m: u64) -> int {
    (choose|t: u64| t < 16 && #[trigger] has_bit(m, t)) as int
}

/// The tiles of a grid whose cells are all decided.
pub open spec fn decided_tiles(cells: Seq<u64>) -> Seq<int> {
    Seq::new(cells.len(), |i: int| tile_of(cells[i]))
}

proof fn lemma_pending_except(width: int, height: int, cells: Seq<u64>, queue: Seq<(usize, usize)>)
    ensures
        pending_ok(width, height, cells, queue) == arcs_ok_except(width, height, cells, queue, -1, -1, 0),
        arcs_ok_except(width, height, cells, queue, -1, -1, 0) == arcs_ok_except(width, height, cells, queue, 0, 0, 4),
        queue.len() == 0 ==> (pending_ok(width, height, cells, queue) == arc_consistent(width, height, cells)),
{
}

/// Narrowing one cell and listing it keeps every other agreement.
proof fn lemma_arcs_narrow_one(
    w: int,
    h: int,
    cells: Seq<u64>,
    q: Seq<(usize, usize)>,
    x0: int,
    y0: int,
    from: int,
    x: int,
    y: int,
    v: u64,
)
    requires
        cells.len() == w * h,
        0 <= x < w,
        0 <= y < h,
        arcs_ok_except(w, h, cells, q, x0, y0, from),
        forall|u: u64| u < 64 && #[trigger] has_bit(v, u) ==> has_bit(cells[cell_index(w, x, y)], u),
    ensures
        arcs_ok_except(w, h, cells.update(cell_index(w, x, y), v), q.push((x as usize, y as usize)), x0, y0, from),
{
    let i = cell_index(w, x, y);
    let new = cells.update(i, v);
    let q2 = q.push((x as usize, y as usize));
    lemma_index_in_range(w, h, x, y);
    assert forall|x1: int, y1: int, d: usize|
        0 <= x1 < w && 0 <= y1 < h && d < 4 && !q2.contains((x1 as usize, y1 as usize)) && !(x1 == x0 && y1 == y0
            && from <= d) implies #[trigger] arc_ok(w, h, new, x1, y1, d) by {
        if q.contains((x1 as usize, y1 as usize)) {
            let k = choose|k: int| 0 <= k < q.len() && q[k] == (x1 as usize, y1 as usize);
            assert(q2[k] == q[k]);
        }
        assert(q2[q.len() as int] == (x as usize, y as usize));
        assert(arc_ok(w, h, cells, x1, y1, d));
        lemma_index_in_range(w, h, x1, y1);
        let c = cell_index(w, x1, y1);
        if c == i {
            lemma_index_injective(w, x1, y1, x, y);
        }
        assert(new[c] == cells[c]);
        match neighbor_spec(w, h, x1, y1, d) {
            Some((nx, ny)) => {
                let n = cell_index(w, nx, ny);
                lemma_index_in_range(w, h, nx, ny);
                assert forall|u: u64| u < 16 && #[trigger] has_bit(new[n], u) implies supports(new[c], d, u) by {
                    assert(has_bit(cells[n], u));
                }
            },
            None => {},
        }
    }
}

/// Once the side `from` of `(x0, y0)` agrees, the exception moves on.
proof fn lemma_arcs_bump(
    w: int,
    h: int,
    cells: Seq<u64>,
    q: Seq<(usize, usize)>,
    x0: int,
    y0: int,
    from: usize,
)
    requires
        arcs_ok_except(w, h, cells, q, x0, y0, from as int),
        arc_ok(w, h, cells, x0, y0, from),
    ensures
        arcs_ok_except(w, h, cells, q, x0, y0, from + 1),
{
    assert forall|x1: int, y1: int, d: usize|
        0 <= x1 < w && 0 <= y1 < h && d < 4 && !q.contains((x1 as usize, y1 as usize)) && !(x1 == x0 && y1 == y0
            && from + 1 <= d) implies #[trigger] arc_ok(w, h, cells, x1, y1, d) by {
        if !(x1 == x0 && y1 == y0 && d == from) {
            assert(!(x1 == x0 && y1 == y0 && from <= d));
        }
    }
}

/// Taking the first cell off the queue leaves it as the exception.
proof fn lemma_arcs_pop(w: int, h: int, cells: Seq<u64>, q: Seq<(usize, usize)>)
    requires
        w <= usize::MAX,
        h <= usize::MAX,
        q.len() > 0,
        pending_ok(w, h, cells, q),
    ensures
        arcs_ok_except(w, h, cells, q.subrange(1, q.len() as int), q[0].0 as int, q[0].1 as int, 0),
{
    let rest = q.subrange(1, q.len() as int);
    assert forall|x1: int, y1: int, d: usize|
        0 <= x1 < w && 0 <= y1 < h && d < 4 && !rest.contains((x1 as usize, y1 as usize)) && !(x1 == q[0].0 as int
            && y1 == q[0].1 as int && 0 <= d) implies #[trigger] arc_ok(w, h, cells, x1, y1, d) by {
        if q.contains((x1 as usize, y1 as usize)) {
            let k = choose|k: int| 0 <= k < q.len() && q[k] == (x1 as usize, y1 as usize);
            if k > 0 {
                assert(rest[k - 1] == q[k]);
            }
        }
    }
}

/// A candidate of the neighbour that `allowed_neighbors` lets through is
/// supported.
proof fn lemma_allowed_supports(compatible: Seq<[u64; 4]>, possible: u64, d: usize, u: u64)
    requires
        d < 4,
        u < 64,
        forall|a: int, dir: int, v: u64|
            0 <= a < 16 && 0 <= dir < 4 && v < 64 ==> (#[trigger] has_bit(compatible[a][dir], v) <==> compatible_spec(
                a,
                dir as usize,
                v as int,
            )),
        allowed_spec(compatible, possible, d as int, u),
    ensures
        supports(possible, d, u),
{
    let t = choose|t: int| 0 <= t < 16 && has_bit(possible, t as u64) && #[trigger] has_bit(compatible[t][d as int], u);
    assert(compatible_spec(t, d, u as int));
    assert(has_bit(possible, t as u64));
}

/// Every tile has some tile that fits next to it on any side.
proof fn lemma_fresh_arc_consistent(w: int, h: int, cells: Seq<u64>)
    requires
        cells.len() == w * h,
        forall|i: int| 0 <= i < cells.len() ==> #[trigger] cells[i] == 0xFFFF,
    ensures
        arc_consistent(w, h, cells),
{
    assert forall|x: int, y: int, d: usize| 0 <= x < w && 0 <= y < h && d < 4 implies #[trigger] arc_ok(w, h, cells, x, y, d) by {
        lemma_index_in_range(w, h, x, y);
        match neighbor_spec(w, h, x, y, d) {
            Some((nx, ny)) => {
                lemma_index_in_range(w, h, nx, ny);
                assert forall|u: u64| u < 16 && #[trigger] has_bit(cells[cell_index(w, nx, ny)], u) implies supports(
                    cells[cell_index(w, x, y)],
                    d,
                    u,
                ) by {
                    let t: u64 = if edge_spec(u as u8, opposite_spec(d)) == 1 {
                        15
                    } else {
                        0
                    };
                    assert(has_bit(0xFFFFu64, t)) by (bit_vector)
                        requires
                            t < 16,
                    ;
                    let e = opposite_spec(d);
                    let um = u as u8;
                    assert(e < 4);
                    assert((15u8 >> d) & 1u8 == 1u8 && (0u8 >> d) & 1u8 == 0u8 && (um >> e) & 1u8 <= 1u8) by (bit_vector)
                        requires
                            d < 4,
                            e < 4,
                    ;
                    assert(compatible_spec(t as int, d, u as int));
                }
            },
            None => {},
        }
    }
}

/// Narrowing keeps the border closed.
proof fn lemma_closed_narrowed(w: int, h: int, a: Seq<u64>, b: Seq<u64>)
    requires
        a.len() == w * h,
        closed_cells(w, h, a),
        narrowed(a, b),
    ensures
        closed_cells(w, h, b),
{
    assert forall|x: int, y: int, u: u64|
        0 <= x < w && 0 <= y < h && u < 16 && #[trigger] has_bit(b[cell_index(w, x, y)], u) implies boundary_ok(
        w,
        h,
        x,
        y,
        u as int,
    ) by {
        lemma_index_in_range(w, h, x, y);
        assert(has_bit(a[cell_index(w, x, y)], u));
    }
}

/// Two different bits make at least two ones.
proof fn lemma_popcount_two_bits(x: u64, a: u64, b: u64)
    requires
        a < 64,
        b < 64,
        a != b,
        has_bit(x, a),
        has_bit(x, b),
    ensures
        popcount(x) >= 2,
    decreases x,
{
    lemma_bit_zero(a);
    lemma_end_bits(x);
    if a == 0 {
        lemma_half_bits(x, (b - 1) as u64);
        lemma_bit_zero((b - 1) as u64);
        lemma_popcount_zero(x / 2);
    } else if b == 0 {
        lemma_half_bits(x, (a - 1) as u64);
        lemma_bit_zero((a - 1) as u64);
        lemma_popcount_zero(x / 2);
    } else {
        lemma_half_bits(x, (a - 1) as u64);
        lemma_half_bits(x, (b - 1) as u64);
        lemma_popcount_two_bits(x / 2, (a - 1) as u64, (b - 1) as u64);
    }
}

/// Two masks with the same bits are equal.
proof fn lemma_bits_ext(x: u64, y: u64)
    requires
        forall|u: u64| u < 64 ==> #[trigger] has_bit(x, u) == has_bit(y, u),
    ensures
        x == y,
    decreases x + y,
{
    lemma_end_bits(x);
    lemma_end_bits(y);
    assert(has_bit(x, 0) == has_bit(y, 0));
    if x != 0 || y != 0 {
        assert forall|u: u64| u < 64 implies #[trigger] has_bit(x / 2, u) == has_bit(y / 2, u) by {
            if u < 63 {
                lemma_half_bits(x, u);
                lemma_half_bits(y, u);
                assert(has_bit(x, (u + 1) as u64) == has_bit(y, (u + 1) as u64));
            }
        }
        lemma_bits_ext(x / 2, y / 2);
    }
}

/// Mask `b` lacks a tile of mask `a`.
pub open spec fn lost_tile(a: u64, b: u64) -> bool {
    exists|u: u64| u < 64 && #[trigger] has_bit(a, u) && !has_bit(b, u)
}

/// Two different masks differ in some bit.
proof fn lemma_bits_differ(x: u64, y: u64) -> (u: u64)
    requires
        x != y,
    ensures
        u < 64,
        has_bit(x, u) != has_bit(y, u),
{
    if forall|u: u64| u < 64 ==> #[trigger] has_bit(x, u) == has_bit(y, u) {
        lemma_bits_ext(x, y);
    }
    choose|u: u64| u < 64 && has_bit(x, u) != has_bit(y, u)
}

/// A nonzero mask has a one bit.
proof fn lemma_some_bit64(x: u64) -> (t: u64)
    requires
        x != 0,
    ensures
        t < 64,
        has_bit(x, t),
    decreases x,
{
    lemma_end_bits(x);
    if x % 2 == 1 {
        0
    } else {
        let t0 = lemma_some_bit64(x / 2);
        assert(t0 < 63);
        lemma_half_bits(x, t0);
        (t0 + 1) as u64
    }
}

/// A supported tile passes the table of `allowed_neighbors`.
proof fn lemma_supports_allowed(compatible: Seq<[u64; 4]>, possible: u64, d: usize, u: u64)
    requires
        d < 4,
        u < 64,
        forall|a: int, dir: int, v: u64|
            0 <= a < 16 && 0 <= dir < 4 && v < 64 ==> (#[trigger] has_bit(compatible[a][dir], v) <==> compatible_spec(
                a,
                dir as usize,
                v as int,
            )),
        supports(possible, d, u),
    ensures
        allowed_spec(compatible, possible, d as int, u),
{
    let t = choose|t: u64| t < 16 && #[trigger] has_bit(possible, t) && compatible_spec(t as int, d, u as int);
    assert(has_bit(compatible[t as int][d as int], u));
    assert(has_bit(possible, (t as int) as u64));
}

/// A nonzero mask of sixteen bits has a candidate.
proof fn lemma_some_bit(x: u64) -> (t: u64)
    requires
        x != 0,
        x <= 0xFFFF,
    ensures
        t < 16,
        has_bit(x, t),
    decreases x,
{
    lemma_end_bits(x);
    if x % 2 == 1 {
        0
    } else {
        let t0 = lemma_some_bit(x / 2);
        lemma_half_bits(x, t0);
        if t0 + 1 >= 16 {
            lemma_low_bits(x, (t0 + 1) as u64);
        }
        (t0 + 1) as u64
    }
}

/// The tile of a decided cell is its only candidate.
proof fn lemma_tile_of(m: u64)
    requires
        m != 0,
        m <= 0xFFFF,
        popcount(m) <= 1,
    ensures
        0 <= tile_of(m) < 16,
        has_bit(m, tile_of(m) as u64),
        forall|u: u64| u < 64 && #[trigger] has_bit(m, u) ==> u == tile_of(m),
{
    let t0 = lemma_some_bit(m);
    let t = tile_of(m);
    assert forall|u: u64| u < 64 && #[trigger] has_bit(m, u) implies u == tile_of(m) by {
        if u != t as u64 {
            lemma_popcount_two_bits(m, u, t as u64);
        }
    }
}

/// A run that settled with every cell decided has laid a road network:
/// the tiles of its cells fit together and no road leaves the grid.
pub proof fn lemma_decided_is_road_network(width: int, height: int, cells: Seq<u64>)
    requires
        cells.len() == width * height,
        settled(width, height, cells),
        forall|i: int| 0 <= i < cells.len() ==> #[trigger] cells[i] <= 0xFFFF,
        forall|i: int| 0 <= i < cells.len() ==> popcount(#[trigger] cells[i]) <= 1,
    ensures
        consistent_tiling(width, height, decided_tiles(cells)),
        closed_tiling(width, height, decided_tiles(cells)),
        tiling_within(cells, decided_tiles(cells)),
{
    let sol = decided_tiles(cells);
    assert forall|i: int| 0 <= i < cells.len() implies 0 <= #[trigger] sol[i] < 16 && tile_allowed(cells, sol, i)
        && forall|u: u64| u < 64 && #[trigger] has_bit(cells[i], u) ==> u == sol[i] by {
        lemma_tile_of(cells[i]);
    }
    assert forall|i: int| 0 <= i < cells.len() implies #[trigger] tile_allowed(cells, sol, i) by {}
    assert forall|x: int, y: int, d: usize|
        0 <= x < width && 0 <= y < height && d < 4 implies #[trigger] adjacent_ok(width, height, sol, x, y, d) by {
        lemma_index_in_range(width, height, x, y);
        let c = cell_index(width, x, y);
        assert(arc_ok(width, height, cells, x, y, d));
        match neighbor_spec(width, height, x, y, d) {
            Some((nx, ny)) => {
                lemma_index_in_range(width, height, nx, ny);
                let n = cell_index(width, nx, ny);
                assert(0 <= sol[n] < 16 && tile_allowed(cells, sol, n));
                let u = sol[n] as u64;
                assert(has_bit(cells[n], u));
                assert(supports(cells[c], d, u));
                let t = choose|t: u64| t < 16 && #[trigger] has_bit(cells[c], t) && compatible_spec(t as int, d, u as int);
                assert(0 <= sol[c] < 16 && forall|v: u64| v < 64 && #[trigger] has_bit(cells[c], v) ==> v == sol[c]);
                assert(t == sol[c]);
            },
            None => {},
        }
    }
    assert forall|x: int, y: int| 0 <= x < width && 0 <= y < height implies #[trigger] boundary_ok(
        width,
        height,
        x,
        y,
        sol[cell_index(width, x, y)],
    ) by {
        lemma_index_in_range(width, height, x, y);
        let c = cell_index(width, x, y);
        assert(0 <= sol[c] < 16 && tile_allowed(cells, sol, c));
        assert(has_bit(cells[c], sol[c] as u64));
    }
}

/// The sum of the masks, which every narrowing strictly decreases.
pub open spec fn mask_sum(s: Seq<u64>) -> int
    decreases s.len(),
{
    if s.len() == 0 {
        0
    } else {
        mask_sum(s.drop_last()) + s.last()
    }
}

proof fn lemma_mask_sum_update(s: Seq<u64>, i: int, v: u64)
    requires
        0 <= i < s.len(),
    ensures
        mask_sum(s.update(i, v)) == mask_sum(s) - s[i] + v,
        mask_sum(s) >= 0,
    decreases s.len(),
{
    if i < s.len() - 1 {
        lemma_mask_sum_update(s.drop_last(), i, v);
        assert(s.update(i, v).drop_last() == s.drop_last().update(i, v));
    } else {
        assert(s.update(i, v).drop_last() == s.drop_last());
        lemma_mask_sum_nonneg(s.drop_last());
    }
    lemma_mask_sum_nonneg(s);
}

proof fn lemma_mask_sum_nonneg(s: Seq<u64>)
    ensures
        mask_sum(s) >= 0,
    decreases s.len(),
{
    if s.len() > 0 {
        lemma_mask_sum_nonneg(s.drop_last());
    }
}

impl Wfc {
    /// Only the cell masks differ between `self` and `other`.
    pub open spec fn same_frame(&self, other: &Wfc) -> bool {
        &&& self.width == other.width
        &&& self.height == other.height
        &&& self.tiles@ == other.tiles@
        &&& self.compatible@ == other.compatible@
        &&& self.all_tiles_mask == other.all_tiles_mask
    }

    /// Propagates the edge constraints from the cells in `pending`: every
    /// neighbour of a dequeued cell keeps only the tiles that some candidate
    /// of that cell allows next to it, and a neighbour that lost tiles is
    /// queued in turn.  Returns the cells that changed, in order; stops at
    /// the first cell left without a candidate.  The outcome, the cells
    /// included, is the one sweep from the cells and the queue
    /// (`sweep_done`, `sweep_failed`).  Only tiles that no
    /// consistent tiling can use are removed, so a contradiction means that
    /// no consistent tiling is left.  No tile is removed that some narrowing
    /// in which every cell agrees with its neighbours keeps; so when every
    /// cell off the queue agreed with its neighbours beforehand, the result
    /// is the largest such narrowing, and a contradiction means that each
    /// of them leaves some cell empty.
    pub fn propagate(&mut self, pending: VecDeque<(usize, usize)>) -> (r: Result<Vec<usize>, WfcError>)
        requires
            old(self).wf(),
            forall|k: int| 0 <= k < pending@.len() ==> (#[trigger] pending@[k]).0 < old(self).width && pending@[k].1 < old(self).height,
        ensures
            final(self).wf(),
            final(self).same_frame(old(self)),
            narrowed(old(self).cells@, final(self).cells@),
            keeps_tilings(old(self).width as int, old(self).height as int, old(self).cells@, final(self).cells@),
            r is Err ==> no_tiling(old(self).width as int, old(self).height as int, old(self).cells@),
            r matches Err(e) ==> e is Contradiction,
            forall|i: int| 0 <= i < final(self).cells@.len() && old(self).cells@[i] != 0 ==> #[trigger] final(self).cells@[i] != 0,
            r is Ok && pending_ok(old(self).width as int, old(self).height as int, old(self).cells@, pending@) ==> arc_consistent(
                old(self).width as int,
                old(self).height as int,
                final(self).cells@,
            ),
            forall|sub: Seq<u64>|
                #[trigger] arc_consistent(old(self).width as int, old(self).height as int, sub) && narrowed(old(self).cells@, sub)
                    ==> narrowed(final(self).cells@, sub),
            r is Err ==> forall|sub: Seq<u64>|
                #[trigger] arc_consistent(old(self).width as int, old(self).height as int, sub) && narrowed(old(self).cells@, sub)
                    ==> !no_empty_cell(sub),
            r matches Ok(changed) ==> {
                &&& forall|k: int| 0 <= k < changed@.len() ==> #[trigger] changed@[k] < final(self).cells@.len()
                &&& forall|i: int| 0 <= i < final(self).cells@.len() && !changed@.contains(i as usize)
                    ==> #[trigger] final(self).cells@[i] == old(self).cells@[i]
                &&& forall|k: int| 0 <= k < changed@.len() ==> final(self).cells@[#[trigger] changed@[k] as int]
                    != old(self).cells@[changed@[k] as int]
            },
            r matches Ok(changed) ==> sweep_done(
                old(self).width,
                old(self).height,
                old(self).cells@,
                pending@,
                final(self).cells@,
                changed@,
            ),
            r matches Err(WfcError::Contradiction { x, y }) ==> sweep_failed(
                old(self).width,
                old(self).height,
                old(self).cells@,
                pending@,
                final(self).cells@,
                x,
                y,
            ),
    {
        let mut queue = pending;
        let mut changed: Vec<usize> = Vec::new();
        let ghost orig = self.cells@;
        let ghost w = self.width as int;
        let ghost h = self.height as int;
        let ghost ac = pending_ok(w, h, orig, queue@);
        let ghost queue0 = queue@;
        let ghost wu = self.width;
        let ghost hu = self.height;
        proof {
            lemma_mask_sum_nonneg(self.cells@);
            lemma_sweep_reaches_start(wu, hu, orig, queue0);
        }
        while queue.len() > 0
            invariant
                self.wf(),
                wu == self.width,
                hu == self.height,
                sweep_reaches(wu, hu, orig, queue0, (self.cells@, queue@, changed@)),
                queue0 == pending@,
                self.same_frame(old(self)),
                w == self.width,
                h == self.height,
                orig == old(self).cells@,
                ac ==> pending_ok(w, h, self.cells@, queue@),
                forall|i: int| 0 <= i < self.cells@.len() && orig[i] != 0 ==> #[trigger] self.cells@[i] != 0,
                forall|sub: Seq<u64>| #[trigger] arc_consistent(w, h, sub) && narrowed(orig, sub) ==> narrowed(self.cells@, sub),
                forall|k: int| 0 <= k < queue@.len() ==> (#[trigger] queue@[k]).0 < self.width && queue@[k].1 < self.height,
                narrowed(orig, self.cells@),
                keeps_tilings(w, h, orig, self.cells@),
                forall|k: int| 0 <= k < changed@.len() ==> #[trigger] changed@[k] < self.cells@.len(),
                forall|k: int| 0 <= k < changed@.len() ==> lost_tile(orig[#[trigger] changed@[k] as int], self.cells@[changed@[k] as int]),
                forall|i: int| 0 <= i < self.cells@.len() && !changed@.contains(i as usize)
                    ==> #[trigger] self.cells@[i] == orig[i],
                mask_sum(self.cells@) >= 0,
            decreases 5 * mask_sum(self.cells@) + queue@.len(),
        {
            let ghost q_full = queue@;
            let ghost pre: Sweep = (self.cells@, queue@, changed@);
            let (x, y) = queue.pop_front().unwrap();
            let idx = self.index(x, y);
            let possible_here = self.cells[idx];
            let ghost popped: Sweep = (self.cells@, queue@, changed@);
            proof {
                reveal(sweep_pop);
                assert(q_full[0] == (x, y));
                assert(queue@ == q_full.drop_first());
                assert(sweep_pop(wu, hu, pre) == sweep_dirs(wu, hu, popped, x, y, possible_here, 4));
            }
            let ghost sum0 = mask_sum(self.cells@);
            let ghost q0 = queue@.len();
            proof {
                if ac {
                    lemma_arcs_pop(w, h, self.cells@, q_full);
                }
                assert forall|sol: Seq<int>|
                    #[trigger] consistent_tiling(w, h, sol) && tiling_within(orig, sol) implies tiling_within(self.cells@, sol)
                        && has_bit(possible_here, sol[idx as int] as u64) by {
                    assert(tile_allowed(self.cells@, sol, idx as int));
                }
            }
            let mut dir: usize = 0;
            while dir < 4
                invariant
                    self.wf(),
                    wu == self.width,
                    hu == self.height,
                    sweep_reaches(wu, hu, orig, queue0, pre),
                    queue0 == pending@,
                    pre.1.len() > 0,
                    sweep_pop(wu, hu, pre) == sweep_dirs(wu, hu, popped, x, y, possible_here, 4),
                    sweep_dirs(wu, hu, popped, x, y, possible_here, dir as int) == ((self.cells@, queue@, changed@), None::<(usize, usize)>),
                    self.same_frame(old(self)),
                    w == self.width,
                    h == self.height,
                    orig == old(self).cells@,
                    x < self.width,
                    y < self.height,
                    idx == cell_index(w, x as int, y as int),
                    idx < self.cells@.len(),
                    self.cells@[idx as int] == possible_here,
                    ac ==> arcs_ok_except(w, h, self.cells@, queue@, x as int, y as int, dir as int),
                    forall|i: int| 0 <= i < self.cells@.len() && orig[i] != 0 ==> #[trigger] self.cells@[i] != 0,
                    forall|sub: Seq<u64>| #[trigger] arc_consistent(w, h, sub) && narrowed(orig, sub) ==> narrowed(self.cells@, sub),
                    dir <= 4,
                    forall|k: int| 0 <= k < queue@.len() ==> (#[trigger] queue@[k]).0 < self.width && queue@[k].1 < self.height,
                    narrowed(orig, self.cells@),
                    forall|sol: Seq<int>|
                        #[trigger] consistent_tiling(w, h, sol) && tiling_within(orig, sol) ==> tiling_within(self.cells@, sol)
                            && has_bit(possible_here, sol[idx as int] as u64),
                    forall|k: int| 0 <= k < changed@.len() ==> #[trigger] changed@[k] < self.cells@.len(),
                    forall|k: int| 0 <= k < changed@.len() ==> lost_tile(orig[#[trigger] changed@[k] as int], self.cells@[changed@[k] as int]),
                    forall|i: int| 0 <= i < self.cells@.len() && !changed@.contains(i as usize)
                        ==> #[trigger] self.cells@[i] == orig[i],
                    mask_sum(self.cells@) >= 0,
                    5 * mask_sum(self.cells@) + queue@.len() <= 5 * sum0 + q0,
                decreases 4 - dir,
            {
                let nb = self.neighbor(x, y, dir);
                let d = dir;
                let ghost cur: Sweep = (self.cells@, queue@, changed@);
                proof {
                    assert(sweep_dirs(wu, hu, popped, x, y, possible_here, d as int + 1) == sweep_dir(wu, hu, cur, x, y, possible_here, d));
                }
                dir += 1;
                let (nx, ny) = match nb {
                    Some(p) => p,
                    None => {
                        proof {
                            if ac {
                                lemma_arcs_bump(w, h, self.cells@, queue@, x as int, y as int, d);
                            }
                        }
                        continue;
                    },
                };
                let neighbor_idx = self.index(nx, ny);
                let allowed_for_neighbor = self.allowed_neighbors(possible_here, d);
                proof {
                    lemma_support_mask(self.compatible@, possible_here, d, allowed_for_neighbor);
                }
                let current = self.cells[neighbor_idx];
                let next_possible = current & allowed_for_neighbor;
                proof {
                    assert forall|sub: Seq<u64>, u: u64|
                        #[trigger] arc_consistent(w, h, sub) && narrowed(orig, sub) && u < 64 && #[trigger] has_bit(
                            sub[neighbor_idx as int],
                            u,
                        ) implies has_bit(next_possible, u) by {
                        assert(arc_ok(w, h, sub, x as int, y as int, d));
                        assert(has_bit(self.cells@[neighbor_idx as int], u));
                        assert(has_bit(orig[neighbor_idx as int], u));
                        if u >= 16 {
                            lemma_low_bits(self.cells@[neighbor_idx as int], u);
                        }
                        assert(u < 16);
                        match neighbor_spec(w, h, x as int, y as int, d) {
                            Some((nx2, ny2)) => {
                                assert(nx2 == nx && ny2 == ny);
                                assert(has_bit(sub[cell_index(w, nx2, ny2)], u));
                            },
                            None => {},
                        }
                        assert(supports(sub[cell_index(w, x as int, y as int)], d, u));
                        let t = choose|t: u64| t < 16 && #[trigger] has_bit(sub[idx as int], t) && compatible_spec(t as int, d, u as int);
                        assert(has_bit(self.cells@[idx as int], t));
                        assert(supports(possible_here, d, u));
                        lemma_supports_allowed(self.compatible@, possible_here, d, u);
                        lemma_bit_and(current, allowed_for_neighbor, u);
                    }
                    assert(self.cells@.len() == w * h);
                    assert forall|sol: Seq<int>|
                        #[trigger] consistent_tiling(w, h, sol) && tiling_within(orig, sol) implies has_bit(
                        next_possible,
                        sol[neighbor_idx as int] as u64,
                    ) by {
                        let t = sol[idx as int];
                        let u = sol[neighbor_idx as int];
                        assert(adjacent_ok(w, h, sol, x as int, y as int, d));
                        assert(tile_allowed(self.cells@, sol, neighbor_idx as int));
                        assert(idx < sol.len());
                        assert(neighbor_idx < sol.len());
                        assert(0 <= sol[neighbor_idx as int] < 16);
                        assert(0 <= sol[idx as int] < 16);
                        assert(has_bit(self.compatible@[t][d as int], u as u64));
                        assert(has_bit(allowed_for_neighbor, u as u64));
                        lemma_bit_and(current, allowed_for_neighbor, u as u64);
                    }
                }
                if next_possible == 0 {
                    proof {
                        lemma_no_bits_in_zero();
                        assert forall|sol: Seq<int>|
                            !(#[trigger] consistent_tiling(w, h, sol) && tiling_within(orig, sol)) by {
                            if consistent_tiling(w, h, sol) && tiling_within(orig, sol) {
                                assert(0 <= sol[neighbor_idx as int] < 16);
                            }
                        }
                        assert forall|sub: Seq<u64>|
                            #[trigger] arc_consistent(w, h, sub) && narrowed(orig, sub) implies !no_empty_cell(sub) by {
                            if sub[neighbor_idx as int] != 0 {
                                let u = lemma_some_bit64(sub[neighbor_idx as int]);
                                assert(has_bit(next_possible, u));
                            }
                        }
                    }
                    proof {
                        assert(sweep_dir(wu, hu, cur, x, y, possible_here, d) == (cur, Some((nx, ny))));
                        lemma_sweep_dirs_stay_failed(wu, hu, popped, x, y, possible_here, d as int + 1, 4);
                        assert(sweep_pop(wu, hu, pre) == (cur, Some((nx, ny))));
                        assert(sweep_failed(wu, hu, orig, queue0, self.cells@, nx, ny));
                    }
                    return Err(WfcError::Contradiction { x: nx, y: ny });
                }
                proof {
                    if neighbor_idx == idx {
                        lemma_index_injective(w, nx as int, ny as int, x as int, y as int);
                    }
                    assert forall|u: u64| u < 64 && #[trigger] has_bit(next_possible, u) implies supports(possible_here, d, u)
                        && has_bit(current, u) by {
                        lemma_bit_and(current, allowed_for_neighbor, u);
                        lemma_allowed_supports(self.compatible@, possible_here, d, u);
                    }
                }
                if next_possible != current {
                    let ghost before = self.cells@;
                    let ghost q_before = queue@;
                    let ghost old_changed = changed@;
                    proof {
                        lemma_and_le(current, allowed_for_neighbor);
                        lemma_mask_sum_update(before, neighbor_idx as int, next_possible);
                    }
                    self.cells.set(neighbor_idx, next_possible);
                    changed.push(neighbor_idx);
                    queue.push_back((nx, ny));
                    proof {
                        let lu = lemma_bits_differ(current, next_possible);
                        lemma_bit_and(current, allowed_for_neighbor, lu);
                        assert(has_bit(orig[neighbor_idx as int], lu));
                        assert forall|k: int| 0 <= k < changed@.len() implies lost_tile(
                            orig[#[trigger] changed@[k] as int],
                            self.cells@[changed@[k] as int],
                        ) by {
                            if k == changed@.len() - 1 {
                                assert(changed@[k] == neighbor_idx);
                                assert(has_bit(orig[neighbor_idx as int], lu) && !has_bit(self.cells@[neighbor_idx as int], lu));
                            } else {
                                assert(changed@[k] == old_changed[k]);
                                let i = changed@[k] as int;
                                let u = choose|u: u64| u < 64 && #[trigger] has_bit(orig[i], u) && !has_bit(before[i], u);
                                if i == neighbor_idx {
                                    lemma_bit_and(current, allowed_for_neighbor, u);
                                }
                                assert(has_bit(orig[i], u) && !has_bit(self.cells@[i], u));
                            }
                        }
                        assert forall|sub: Seq<u64>| #[trigger] arc_consistent(w, h, sub) && narrowed(orig, sub) implies narrowed(
                            self.cells@,
                            sub,
                        ) by {
                            assert forall|i: int, u: u64|
                                0 <= i < sub.len() && u < 64 && #[trigger] has_bit(sub[i], u) implies has_bit(self.cells@[i], u) by {
                                assert(has_bit(before[i], u));
                            }
                        }
                        if ac {
                            lemma_arcs_narrow_one(w, h, before, q_before, x as int, y as int, d as int, nx as int, ny as int, next_possible);
                            assert(self.cells@ == before.update(cell_index(w, nx as int, ny as int), next_possible));
                            assert(arc_ok(w, h, self.cells@, x as int, y as int, d));
                            lemma_arcs_bump(w, h, self.cells@, queue@, x as int, y as int, d);
                        }
                        lemma_mask_sum_nonneg(self.cells@);
                        assert forall|i: int, u: u64|
                            0 <= i < self.cells@.len() && u < 64 && #[trigger] has_bit(self.cells@[i], u) implies has_bit(orig[i], u) by {
                            if i == neighbor_idx {
                                lemma_bit_and(current, allowed_for_neighbor, u);
                            }
                        }
                        assert forall|sol: Seq<int>|
                            #[trigger] consistent_tiling(w, h, sol) && tiling_within(orig, sol) implies tiling_within(self.cells@, sol)
                                && has_bit(possible_here, sol[idx as int] as u64) by {
                            assert forall|i: int| 0 <= i < self.cells@.len() implies #[trigger] tile_allowed(self.cells@, sol, i) by {
                                assert(tile_allowed(before, sol, i));
                            }
                        }
                        assert forall|i: int| 0 <= i < self.cells@.len() && !changed@.contains(i as usize)
                            implies #[trigger] self.cells@[i] == orig[i] by {
                            assert(changed@[changed@.len() - 1] == neighbor_idx);
                            if old_changed.contains(i as usize) {
                                let k = choose|k: int| 0 <= k < old_changed.len() && old_changed[k] == i as usize;
                                assert(changed@[k] == i as usize);
                            }
                            assert(before[i] == self.cells@[i]);
                        }
                        assert forall|i: int| 0 <= i < self.cells@.len() implies #[trigger] self.cells@[i] <= 0xFFFF by {
                            assert(before[i] <= 0xFFFF);
                        }
                    }
                } else {
                    proof {
                        if ac {
                            assert(arc_ok(w, h, self.cells@, x as int, y as int, d));
                            lemma_arcs_bump(w, h, self.cells@, queue@, x as int, y as int, d);
                        }
                    }
                }
            }
            proof {
                lemma_sweep_reaches_push(wu, hu, orig, queue0, pre, (self.cells@, queue@, changed@));
            }
        }
        proof {
            if ac {
                lemma_pending_except(w, h, self.cells@, queue@);
            }
            assert(queue@ == Seq::<(usize, usize)>::empty());
            assert(sweep_done(wu, hu, orig, queue0, self.cells@, changed@));
            assert forall|k: int| 0 <= k < changed@.len() implies self.cells@[#[trigger] changed@[k] as int] != orig[changed@[k] as int] by {
                assert(lost_tile(orig[changed@[k] as int], self.cells@[changed@[k] as int]));
            }
        }
        Ok(changed)
    }
}


proof fn lemma_popcount_bits(x: u64, k: nat)
    requires
        x < vstd::arithmetic::power2::pow2(k),
    ensures
        popcount(x) <= k,
    decreases k,
{
    if k == 0 {
        vstd::arithmetic::power2::lemma2_to64();
    } else {
        vstd::arithmetic::power2::lemma_pow2_unfold(k);
        lemma_popcount_bits(x / 2, (k - 1) as nat);
    }
}

proof fn lemma_popcount_le_64(x: u64)
    ensures
        popcount(x) <= 64,
{
    vstd::arithmetic::power2::lemma2_to64();
    vstd::arithmetic::power2::lemma2_to64_rest();
    lemma_popcount_bits(x, 64);
}

/// The least candidate count above one among the first `k` cells
/// (`u32::MAX` when there is none).
pub open spec fn best_upto(cells: Seq<u64>, k: int) -> int
    decreases k,
{
    if k <= 0 {
        u32::MAX as int
    } else {
        let b = best_upto(cells, k - 1);
        let c = popcount(cells[k - 1]) as int;
        if c <= 1 {
            b
        } else if c < b {
            c
        } else {
            b
        }
    }
}

/// The cells, in order, among the first `k` whose candidate count is above
/// one and least among those.
pub open spec fn candidates_upto(cells: Seq<u64>, k: int) -> Seq<usize>
    decreases k,
{
    if k <= 0 {
        Seq::empty()
    } else {
        let b = best_upto(cells, k - 1);
        let c = popcount(cells[k - 1]) as int;
        let prev = candidates_upto(cells, k - 1);
        if c <= 1 {
            prev
        } else if c < b {
            seq![(k - 1) as usize]
        } else if c == b {
            prev.push((k - 1) as usize)
        } else {
            prev
        }
    }
}

/// The undecided cells (more than one candidate) with the fewest candidates.
pub open spec fn lowest_entropy_cells(cells: Seq<u64>) -> Seq<usize> {
    candidates_upto(cells, cells.len() as int)
}

proof fn lemma_candidates(cells: Seq<u64>, k: int)
    requires
        0 <= k <= cells.len(),
        cells.len() <= usize::MAX,
    ensures
        best_upto(cells, k) <= u32::MAX,
        candidates_upto(cells, k).len() == 0 <==> forall|i: int| 0 <= i < k ==> popcount(#[trigger] cells[i]) <= 1,
        candidates_upto(cells, k).len() > 0 ==> best_upto(cells, k) < u32::MAX,
        candidates_upto(cells, k).len() == 0 ==> best_upto(cells, k) == u32::MAX,
        forall|j: int|
            0 <= j < candidates_upto(cells, k).len() ==> {
                let c = #[trigger] candidates_upto(cells, k)[j];
                &&& c < k
                &&& popcount(cells[c as int]) == best_upto(cells, k)
                &&& popcount(cells[c as int]) > 1
            },
        forall|i: int|
            0 <= i < k && popcount(#[trigger] cells[i]) > 1 ==> best_upto(cells, k) <= popcount(cells[i]),
    decreases k,
{
    if k > 0 {
        lemma_candidates(cells, k - 1);
        lemma_popcount_le_64(cells[k - 1]);
        let prev = candidates_upto(cells, k - 1);
        let b = best_upto(cells, k - 1);
        let c = popcount(cells[k - 1]) as int;
        assert forall|j: int| 0 <= j < candidates_upto(cells, k).len() implies {
            let cc = #[trigger] candidates_upto(cells, k)[j];
            &&& cc < k
            &&& popcount(cells[cc as int]) == best_upto(cells, k)
            &&& popcount(cells[cc as int]) > 1
        } by {
            if c <= 1 {
                assert(candidates_upto(cells, k)[j] == candidates_upto(cells, k - 1)[j]);
            } else if c < b {
                assert(candidates_upto(cells, k)[j] == (k - 1) as usize);
            } else if c == b {
                if j < prev.len() {
                    assert(candidates_upto(cells, k)[j] == candidates_upto(cells, k - 1)[j]);
                } else {
                    assert(candidates_upto(cells, k)[j] == (k - 1) as usize);
                }
            } else {
                assert(candidates_upto(cells, k)[j] == candidates_upto(cells, k - 1)[j]);
            }
        }
        if candidates_upto(cells, k).len() == 0 {
            assert(c <= 1);
            assert forall|i: int| 0 <= i < k implies popcount(#[trigger] cells[i]) <= 1 by {
                if i < k - 1 {
                    assert(prev.len() == 0);
                }
            }
        }
    }
}

impl Wfc {
    /// Picks, uniformly by the generator, one of the undecided cells with the
    /// fewest candidates; `None` when every cell is decided.
    pub fn pick_lowest_entropy_cell(&self, rng: &mut Rng) -> (r: Option<usize>)
        requires
            self.wf(),
        ensures
            lowest_entropy_cells(self.cells@).len() == 0 ==> r is None && final(rng).state == old(rng).state,
            lowest_entropy_cells(self.cells@).len() > 0 ==> {
                let cands = lowest_entropy_cells(self.cells@);
                let k = (vstd::wrapping::u64_specs::wrapping_mul(xorshift(old(rng).state), XORSHIFT_MUL) as usize)
                    % cands.len() as usize;
                &&& final(rng).state == xorshift(old(rng).state)
                &&& r == Some(cands[k as int])
            },
            r is None <==> forall|i: int| 0 <= i < self.cells@.len() ==> popcount(#[trigger] self.cells@[i]) <= 1,
            r matches Some(i) ==> {
                &&& i < self.cells@.len()
                &&& popcount(self.cells@[i as int]) > 1
                &&& forall|j: int|
                    0 <= j < self.cells@.len() && popcount(#[trigger] self.cells@[j]) > 1 ==> popcount(self.cells@[i as int])
                        <= popcount(self.cells@[j])
            },
    {
        let mut best_count: u32 = u32::MAX;
        let mut candidates: Vec<usize> = Vec::new();
        let n = self.cells.len();
        let mut i: usize = 0;
        while i < n
            invariant
                n == self.cells@.len(),
                i <= n,
                best_count == best_upto(self.cells@, i as int),
                candidates@ == candidates_upto(self.cells@, i as int),
            decreases n - i,
        {
            let count = count_ones_u64(self.cells[i]);
            if count <= 1 {
            } else if count < best_count {
                best_count = count;
                candidates.clear();
                candidates.push(i);
            } else if count == best_count {
                candidates.push(i);
            }
            proof {
                assert(candidates@ =~= candidates_upto(self.cells@, i + 1));
            }
            i += 1;
        }
        proof {
            lemma_candidates(self.cells@, n as int);
        }
        if candidates.len() == 0 {
            None
        } else {
            let k = rng.gen_range(candidates.len());
            Some(candidates[k])
        }
    }
}


/// Tile `t` at `(x, y)` has no road leaving the grid.
pub open spec fn boundary_ok(width: int, height: int, x: int, y: int, t: int) -> bool {
    &&& (y == 0 ==> edge_spec(t as u8, N) == 0)
    &&& (x + 1 == width ==> edge_spec(t as u8, E) == 0)
    &&& (y + 1 == height ==> edge_spec(t as u8, S) == 0)
    &&& (x == 0 ==> edge_spec(t as u8, W) == 0)
}

/// No road of the tiling `sol` leaves the grid.
pub open spec fn closed_tiling(width: int, height: int, sol: Seq<int>) -> bool {
    forall|x: int, y: int|
        0 <= x < width && 0 <= y < height ==> #[trigger] boundary_ok(width, height, x, y, sol[cell_index(width, x, y)])
}

/// The cells outside `changed` are as in `old`, and `changed` holds cell
/// indices.
pub open spec fn changes_listed(old: Seq<u64>, new: Seq<u64>, changed: Seq<usize>) -> bool {
    &&& forall|k: int| 0 <= k < changed.len() ==> #[trigger] changed[k] < new.len()
    &&& forall|i: int| 0 <= i < new.len() && !changed.contains(i as usize) ==> #[trigger] new[i] == old[i]
}

proof fn lemma_changes_compose(a: Seq<u64>, b: Seq<u64>, c: Seq<u64>, ch1: Seq<usize>, ch2: Seq<usize>)
    requires
        a.len() == b.len() == c.len(),
        changes_listed(a, b, ch1),
        changes_listed(b, c, ch2),
    ensures
        changes_listed(a, c, ch1 + ch2),
{
    let ch = ch1 + ch2;
    assert forall|k: int| 0 <= k < ch.len() implies #[trigger] ch[k] < c.len() by {
        if k < ch1.len() {
            assert(ch[k] == ch1[k]);
        } else {
            assert(ch[k] == ch2[k - ch1.len()]);
        }
    }
    assert forall|i: int| 0 <= i < c.len() && !ch.contains(i as usize) implies #[trigger] c[i] == a[i] by {
        if ch1.contains(i as usize) {
            let k = choose|k: int| 0 <= k < ch1.len() && ch1[k] == i as usize;
            assert(ch[k] == i as usize);
        }
        if ch2.contains(i as usize) {
            let k = choose|k: int| 0 <= k < ch2.len() && ch2[k] == i as usize;
            assert(ch[ch1.len() + k] == i as usize);
        }
    }
}

proof fn lemma_narrowed_trans(a: Seq<u64>, b: Seq<u64>, c: Seq<u64>)
    requires
        narrowed(a, b),
        narrowed(b, c),
    ensures
        narrowed(a, c),
{
    assert forall|i: int, u: u64| 0 <= i < c.len() && u < 64 && #[trigger] has_bit(c[i], u) implies has_bit(a[i], u) by {
        assert(has_bit(b[i], u));
    }
}

/// Summary of one collapse step.
#[derive(Debug)]
pub struct StepReport {
    /// The cell that was collapsed, if any was left undecided.
    pub collapsed: Option<usize>,
    /// The cells that propagation narrowed, in order.
    pub changed: Vec<usize>,
    /// The road mask of the tile the cell was collapsed to.
    pub mask: u8,
    /// Every cell was already decided.
    pub finished: bool,
}

/// A step from `a` to `b` that went through: either every cell was already
/// decided (`finished`, nothing changes), or the undecided cell
/// `collapsed` with the fewest candidates was fixed to the candidate tile
/// `mask`, keeping every consistent tiling that gives it that tile, and
/// `changed` lists the cells that propagation narrowed.
pub open spec fn step_done(a: Wfc, b: Wfc, collapsed: Option<usize>, changed: Seq<usize>, mask: u8, finished: bool) -> bool {
    if finished {
        &&& collapsed is None
        &&& b.cells@ == a.cells@
        &&& forall|i: int| 0 <= i < a.cells@.len() ==> popcount(#[trigger] a.cells@[i]) <= 1
    } else {
        match collapsed {
            Some(c) => {
                let t = mask as int;
                &&& c < a.cells@.len()
                &&& popcount(a.cells@[c as int]) > 1
                &&& forall|j: int|
                    0 <= j < a.cells@.len() && popcount(#[trigger] a.cells@[j]) > 1 ==> popcount(a.cells@[c as int])
                        <= popcount(a.cells@[j])
                &&& t < 16
                &&& has_bit(a.cells@[c as int], t as u64)
                &&& forall|u: u64| u < 64 && #[trigger] has_bit(b.cells@[c as int], u) ==> u == t
                &&& keeps_tilings_with(a.width as int, a.height as int, a.cells@, b.cells@, c as int, t)
                &&& changes_listed(a.cells@.update(c as int, 1u64 << (t as u64)), b.cells@, changed)
            },
            None => false,
        }
    }
}

/// A failed step from `a`: some undecided cell has a candidate tile that
/// no consistent tiling allowed by `a` gives it.
pub open spec fn step_failed(a: Wfc) -> bool {
    exists|c: int, t: int|
        0 <= c < a.cells@.len() && 0 <= t < 16 && #[trigger] has_bit(a.cells@[c], t as u64) && no_tiling_with(
            a.width as int,
            a.height as int,
            a.cells@,
            c,
            t,
        )
}

impl Wfc {
    /// Removes from the border cells every tile with a road leaving the
    /// grid, then propagates.  Every consistent tiling with no road leaving
    /// the grid survives, so an error means there is none.
    pub fn apply_closed_boundary(&mut self) -> (r: Result<Vec<usize>, WfcError>)
        requires
            old(self).wf(),
        ensures
            final(self).wf(),
            final(self).same_frame(old(self)),
            narrowed(old(self).cells@, final(self).cells@),
            forall|sol: Seq<int>|
                #[trigger] consistent_tiling(old(self).width as int, old(self).height as int, sol) && closed_tiling(
                    old(self).width as int,
                    old(self).height as int,
                    sol,
                ) && tiling_within(old(self).cells@, sol) ==> tiling_within(final(self).cells@, sol),
            r is Err ==> forall|sol: Seq<int>|
                !(#[trigger] consistent_tiling(old(self).width as int, old(self).height as int, sol) && closed_tiling(
                    old(self).width as int,
                    old(self).height as int,
                    sol,
                ) && tiling_within(old(self).cells@, sol)),
            r matches Ok(changed) ==> changes_listed(old(self).cells@, final(self).cells@, changed@),
            forall|i: int| 0 <= i < final(self).cells@.len() && old(self).cells@[i] != 0 ==> #[trigger] final(self).cells@[i] != 0,
            r is Ok ==> closed_cells(old(self).width as int, old(self).height as int, final(self).cells@),
            r is Ok && arc_consistent(old(self).width as int, old(self).height as int, old(self).cells@) ==> arc_consistent(
                old(self).width as int,
                old(self).height as int,
                final(self).cells@,
            ),
            r matches Ok(changed) ==> exists|mid: Seq<u64>|
                #[trigger] closes_border(old(self).width as int, old(self).height as int, old(self).cells@, mid)
                    && propagated_from(old(self).width as int, old(self).height as int, mid, final(self).cells@) && {
                    let first = changed_upto(old(self).cells@, mid, old(self).cells@.len() as int);
                    &&& first.len() <= changed@.len()
                    &&& changed@.take(first.len() as int) == first
                    &&& forall|k: int|
                        first.len() <= k < changed@.len() ==> final(self).cells@[#[trigger] changed@[k] as int]
                            != mid[changed@[k] as int]
                },
            r matches Err(WfcError::Boundary { x, y }) ==> x < old(self).width && y < old(self).height && forall|mid: Seq<u64>|
                #[trigger] closes_border(old(self).width as int, old(self).height as int, old(self).cells@, mid) ==> mid[cell_index(
                    old(self).width as int,
                    x as int,
                    y as int,
                )] == 0 && forall|i: int| 0 <= i < cell_index(old(self).width as int, x as int, y as int) ==> #[trigger] mid[i] != 0,
            r matches Err(WfcError::Contradiction { .. }) ==> exists|mid: Seq<u64>|
                #[trigger] closes_border(old(self).width as int, old(self).height as int, old(self).cells@, mid) && no_empty_cell(mid)
                    && forall|sub: Seq<u64>|
                    #[trigger] arc_consistent(old(self).width as int, old(self).height as int, sub) && narrowed(mid, sub)
                        ==> !no_empty_cell(sub),
            !(r matches Err(WfcError::NoCandidates { .. })),
            r is Ok ==> forall|mid: Seq<u64>|
                #[trigger] closes_border(old(self).width as int, old(self).height as int, old(self).cells@, mid) ==> no_empty_cell(mid)
                    && sweeps_clean(
                    old(self).width,
                    old(self).height,
                    mid,
                    cell_coords(old(self).width, changed_upto(old(self).cells@, mid, old(self).cells@.len() as int)),
                    final(self).cells@,
                ),
            r matches Err(WfcError::Boundary { x, y }) ==> forall|mid: Seq<u64>|
                #[trigger] closes_border(old(self).width as int, old(self).height as int, old(self).cells@, mid) ==> final(self).cells@
                    == closed_before(old(self).cells@, mid, cell_index(old(self).width as int, x as int, y as int)),
            r matches Err(WfcError::Contradiction { x, y }) ==> forall|mid: Seq<u64>|
                #[trigger] closes_border(old(self).width as int, old(self).height as int, old(self).cells@, mid) ==> sweep_failed(
                    old(self).width,
                    old(self).height,
                    mid,
                    cell_coords(old(self).width, changed_upto(old(self).cells@, mid, old(self).cells@.len() as int)),
                    final(self).cells@,
                    x,
                    y,
                ),
    {
        let mut queue: VecDeque<(usize, usize)> = VecDeque::new();
        let mut changed: Vec<usize> = Vec::new();
        let ghost orig = self.cells@;
        let ghost w = self.width as int;
        let ghost h = self.height as int;
        let ghost ac = arc_consistent(w, h, orig);
        proof {
            lemma_pending_except(w, h, orig, queue@);
        }
        let mut y: usize = 0;
        while y < self.height
            invariant
                self.wf(),
                self.same_frame(old(self)),
                w == self.width,
                h == self.height,
                orig == old(self).cells@,
                ac ==> pending_ok(w, h, self.cells@, queue@),
                forall|i: int| 0 <= i < self.cells@.len() && orig[i] != 0 ==> #[trigger] self.cells@[i] != 0,
                forall|x1: int, y1: int, u: u64|
                    0 <= x1 < w && 0 <= y1 < y && u < 16 && #[trigger] has_bit(self.cells@[cell_index(w, x1, y1)], u)
                        ==> boundary_ok(w, h, x1, y1, u as int),
                forall|x1: int, y1: int, u: u64|
                    0 <= x1 < w && 0 <= y1 < y && u < 64 ==> #[trigger] has_bit(self.cells@[cell_index(w, x1, y1)], u)
                        == (u < 16 && has_bit(orig[cell_index(w, x1, y1)], u) && boundary_ok(w, h, x1, y1, u as int)),
                forall|i: int| y * w <= i < self.cells@.len() ==> #[trigger] self.cells@[i] == orig[i],
                forall|i: int| 0 <= i < y * w ==> #[trigger] self.cells@[i] != 0,
                changed@ == changed_upto(orig, self.cells@, y * w),
                queue@ == cell_coords(self.width, changed@),
                y <= self.height,
                forall|k: int| 0 <= k < queue@.len() ==> (#[trigger] queue@[k]).0 < self.width && queue@[k].1 < self.height,
                narrowed(orig, self.cells@),
                forall|sol: Seq<int>|
                    #[trigger] consistent_tiling(w, h, sol) && closed_tiling(w, h, sol) && tiling_within(orig, sol)
                        ==> tiling_within(self.cells@, sol),
                changes_listed(orig, self.cells@, changed@),
            decreases self.height - y,
        {
            let mut x: usize = 0;
            while x < self.width
                invariant
                    self.wf(),
                    self.same_frame(old(self)),
                    w == self.width,
                    h == self.height,
                    orig == old(self).cells@,
                    ac ==> pending_ok(w, h, self.cells@, queue@),
                    forall|i: int| 0 <= i < self.cells@.len() && orig[i] != 0 ==> #[trigger] self.cells@[i] != 0,
                    forall|x1: int, y1: int, u: u64|
                        0 <= x1 < w && 0 <= y1 < h && (y1 < y || (y1 == y && x1 < x)) && u < 16
                            && #[trigger] has_bit(self.cells@[cell_index(w, x1, y1)], u) ==> boundary_ok(w, h, x1, y1, u as int),
                    forall|x1: int, y1: int, u: u64|
                        0 <= x1 < w && 0 <= y1 < h && (y1 < y || (y1 == y && x1 < x)) && u < 64 ==> #[trigger] has_bit(
                            self.cells@[cell_index(w, x1, y1)],
                            u,
                        ) == (u < 16 && has_bit(orig[cell_index(w, x1, y1)], u) && boundary_ok(w, h, x1, y1, u as int)),
                    forall|i: int| y * w + x <= i < self.cells@.len() ==> #[trigger] self.cells@[i] == orig[i],
                    forall|i: int| 0 <= i < y * w + x ==> #[trigger] self.cells@[i] != 0,
                    changed@ == changed_upto(orig, self.cells@, y * w + x),
                    queue@ == cell_coords(self.width, changed@),
                    y < self.height,
                    x <= self.width,
                    forall|k: int| 0 <= k < queue@.len() ==> (#[trigger] queue@[k]).0 < self.width && queue@[k].1 < self.height,
                    narrowed(orig, self.cells@),
                    forall|sol: Seq<int>|
                        #[trigger] consistent_tiling(w, h, sol) && closed_tiling(w, h, sol) && tiling_within(orig, sol)
                            ==> tiling_within(self.cells@, sol),
                    changes_listed(orig, self.cells@, changed@),
                decreases self.width - x,
            {
                let idx = self.index(x, y);
                let ghost body_start = self.cells@;
                let ghost ch_start = changed@;
                let here = self.cells[idx];
                let mut allowed = here;
                proof {
                    assert forall|sol: Seq<int>|
                        #[trigger] consistent_tiling(w, h, sol) && closed_tiling(w, h, sol) && tiling_within(orig, sol)
                            implies has_bit(allowed, sol[idx as int] as u64) && boundary_ok(w, h, x as int, y as int, sol[idx as int])
                            && 0 <= sol[idx as int] < 16 by {
                        assert(tile_allowed(self.cells@, sol, idx as int));
                        assert(boundary_ok(w, h, x as int, y as int, sol[cell_index(w, x as int, y as int)]));
                    }
                }
                if y == 0 {
                    let m = self.tiles_with_edge(N, 0);
                    let prev = allowed;
                    allowed = allowed & m;
                    proof {
                        lemma_narrow_step(w, h, orig, idx as int, x as int, y as int, prev, m, N, here);
                        assert forall|u: u64| u < 64 implies #[trigger] has_bit(allowed, u) == (has_bit(prev, u) && u < 16
                            && edge_spec(u as u8, N) == 0) by {
                            lemma_bit_and(prev, m, u);
                        }
                    }
                }
                let ghost a1 = allowed;
                proof {
                    assert forall|u: u64| u < 64 implies #[trigger] has_bit(a1, u) == (has_bit(here, u) && (y == 0 ==> u < 16
                        && edge_spec(u as u8, N) == 0)) by {}
                    assert forall|u: u64| u < 64 && #[trigger] has_bit(a1, u) implies has_bit(here, u) && (y == 0 ==> edge_spec(
                        u as u8,
                        N,
                    ) == 0) by {}
                }
                if x + 1 == self.width {
                    let m = self.tiles_with_edge(E, 0);
                    let prev = allowed;
                    allowed = allowed & m;
                    proof {
                        lemma_narrow_step(w, h, orig, idx as int, x as int, y as int, prev, m, E, here);
                        assert forall|u: u64| u < 64 implies #[trigger] has_bit(allowed, u) == (has_bit(prev, u) && u < 16
                            && edge_spec(u as u8, E) == 0) by {
                            lemma_bit_and(prev, m, u);
                        }
                    }
                }
                let ghost a2 = allowed;
                proof {
                    assert forall|u: u64| u < 64 implies #[trigger] has_bit(a2, u) == (has_bit(a1, u) && (x + 1 == w ==> u < 16
                        && edge_spec(u as u8, E) == 0)) by {}
                    assert forall|u: u64| u < 64 && #[trigger] has_bit(a2, u) implies has_bit(a1, u) && (x + 1 == w ==> edge_spec(
                        u as u8,
                        E,
                    ) == 0) by {}
                }
                if y + 1 == self.height {
                    let m = self.tiles_with_edge(S, 0);
                    let prev = allowed;
                    allowed = allowed & m;
                    proof {
                        lemma_narrow_step(w, h, orig, idx as int, x as int, y as int, prev, m, S, here);
                        assert forall|u: u64| u < 64 implies #[trigger] has_bit(allowed, u) == (has_bit(prev, u) && u < 16
                            && edge_spec(u as u8, S) == 0) by {
                            lemma_bit_and(prev, m, u);
                        }
                    }
                }
                let ghost a3 = allowed;
                proof {
                    assert forall|u: u64| u < 64 implies #[trigger] has_bit(a3, u) == (has_bit(a2, u) && (y + 1 == h ==> u < 16
                        && edge_spec(u as u8, S) == 0)) by {}
                    assert forall|u: u64| u < 64 && #[trigger] has_bit(a3, u) implies has_bit(a2, u) && (y + 1 == h ==> edge_spec(
                        u as u8,
                        S,
                    ) == 0) by {}
                }
                if x == 0 {
                    let m = self.tiles_with_edge(W, 0);
                    let prev = allowed;
                    allowed = allowed & m;
                    proof {
                        lemma_narrow_step(w, h, orig, idx as int, x as int, y as int, prev, m, W, here);
                        assert forall|u: u64| u < 64 implies #[trigger] has_bit(allowed, u) == (has_bit(prev, u) && u < 16
                            && edge_spec(u as u8, W) == 0) by {
                            lemma_bit_and(prev, m, u);
                        }
                    }
                }
                proof {
                    assert forall|u: u64| u < 64 && #[trigger] has_bit(allowed, u) implies has_bit(here, u) && boundary_ok(
                        w,
                        h,
                        x as int,
                        y as int,
                        u as int,
                    ) by {
                        assert(has_bit(a3, u));
                        assert(has_bit(a2, u));
                        assert(has_bit(a1, u));
                    }
                    assert forall|u: u64| u < 64 implies #[trigger] has_bit(allowed, u) == (u < 16 && has_bit(here, u)
                        && boundary_ok(w, h, x as int, y as int, u as int)) by {
                        assert(has_bit(a3, u) == (has_bit(a2, u) && (y + 1 == h ==> u < 16 && edge_spec(u as u8, S) == 0)));
                        assert(has_bit(a2, u) == (has_bit(a1, u) && (x + 1 == w ==> u < 16 && edge_spec(u as u8, E) == 0)));
                        assert(has_bit(a1, u) == (has_bit(here, u) && (y == 0 ==> u < 16 && edge_spec(u as u8, N) == 0)));
                        if u >= 16 {
                            lemma_low_bits(here, u);
                        }
                        assert((u as int) as u8 == u as u8);
                    }
                }
                if allowed == 0 {
                    proof {
                        lemma_no_bits_in_zero();
                        assert forall|sol: Seq<int>|
                            !(#[trigger] consistent_tiling(w, h, sol) && closed_tiling(w, h, sol) && tiling_within(orig, sol)) by {
                            if consistent_tiling(w, h, sol) && closed_tiling(w, h, sol) && tiling_within(orig, sol) {
                                assert(0 <= sol[idx as int] < 16);
                            }
                        }
                    }
                    proof {
                        assert(here == orig[idx as int]);
                        assert forall|mid: Seq<u64>| #[trigger] closes_border(w, h, orig, mid) implies mid[cell_index(
                            w,
                            x as int,
                            y as int,
                        )] == 0 && forall|i: int| 0 <= i < cell_index(w, x as int, y as int) ==> #[trigger] mid[i] != 0 by {
                            assert forall|u: u64| u < 64 implies #[trigger] has_bit(mid[idx as int], u) == has_bit(0u64, u) by {
                                lemma_bit_zero(u);
                                assert(has_bit(mid[cell_index(w, x as int, y as int)], u) == (u < 16 && has_bit(
                                    orig[cell_index(w, x as int, y as int)],
                                    u,
                                ) && boundary_ok(w, h, x as int, y as int, u as int)));
                            }
                            lemma_bits_ext(mid[idx as int], 0);
                            assert forall|i: int| 0 <= i < cell_index(w, x as int, y as int) implies #[trigger] mid[i] != 0 by {
                                lemma_cell_coords(i, w, h);
                                let x1 = i % w;
                                let y1 = i / w;
                                lemma_index_order(w, x1, y1, x as int, y as int);
                                assert forall|u: u64| u < 64 implies #[trigger] has_bit(mid[i], u) == has_bit(self.cells@[i], u) by {
                                    assert(has_bit(mid[cell_index(w, x1, y1)], u) == (u < 16 && has_bit(orig[cell_index(w, x1, y1)], u)
                                        && boundary_ok(w, h, x1, y1, u as int)));
                                    assert(has_bit(self.cells@[cell_index(w, x1, y1)], u) == (u < 16 && has_bit(
                                        orig[cell_index(w, x1, y1)],
                                        u,
                                    ) && boundary_ok(w, h, x1, y1, u as int)));
                                }
                                lemma_bits_ext(mid[i], self.cells@[i]);
                            }
                        }
                    }
                    proof {
                        assert forall|mid: Seq<u64>| #[trigger] closes_border(w, h, orig, mid) implies self.cells@ == closed_before(
                            orig,
                            mid,
                            cell_index(w, x as int, y as int),
                        ) by {
                            assert forall|i: int| 0 <= i < self.cells@.len() implies #[trigger] self.cells@[i] == closed_before(
                                orig,
                                mid,
                                cell_index(w, x as int, y as int),
                            )[i] by {
                                if i < idx {
                                    lemma_cell_coords(i, w, h);
                                    let x1 = i % w;
                                    let y1 = i / w;
                                    lemma_index_order(w, x1, y1, x as int, y as int);
                                    assert forall|u: u64| u < 64 implies #[trigger] has_bit(mid[i], u) == has_bit(self.cells@[i], u) by {
                                        assert(has_bit(mid[cell_index(w, x1, y1)], u) == (u < 16 && has_bit(orig[cell_index(w, x1, y1)], u)
                                            && boundary_ok(w, h, x1, y1, u as int)));
                                        assert(has_bit(self.cells@[cell_index(w, x1, y1)], u) == (u < 16 && has_bit(
                                            orig[cell_index(w, x1, y1)],
                                            u,
                                        ) && boundary_ok(w, h, x1, y1, u as int)));
                                    }
                                    lemma_bits_ext(mid[i], self.cells@[i]);
                                }
                            }
                            assert(self.cells@ =~= closed_before(orig, mid, cell_index(w, x as int, y as int)));
                        }
                    }
                    return Err(WfcError::Boundary { x, y });
                }
                if allowed != here {
                    let ghost before = self.cells@;
                    let ghost q_before = queue@;
                    let ghost old_changed = changed@;
                    self.cells.set(idx, allowed);
                    changed.push(idx);
                    queue.push_back((x, y));
                    proof {
                        lemma_cell_coords(idx as int, w, h);
                        lemma_index_injective(w, idx as int % w, idx as int / w, x as int, y as int);
                        assert(cell_coords(self.width, changed@) =~= cell_coords(self.width, old_changed).push((x, y)));
                        if ac {
                            lemma_pending_except(w, h, before, q_before);
                            lemma_arcs_narrow_one(w, h, before, q_before, -1, -1, 0, x as int, y as int, allowed);
                            assert(self.cells@ == before.update(cell_index(w, x as int, y as int), allowed));
                            lemma_pending_except(w, h, self.cells@, queue@);
                        }
                        assert forall|i: int| 0 <= i < self.cells@.len() && orig[i] != 0 implies #[trigger] self.cells@[i] != 0 by {
                            assert(i != idx ==> self.cells@[i] == before[i]);
                        }
                        assert forall|i: int, u: u64|
                            0 <= i < self.cells@.len() && u < 64 && #[trigger] has_bit(self.cells@[i], u) implies has_bit(orig[i], u) by {
                            assert(has_bit(before[i], u));
                        }
                        assert forall|sol: Seq<int>|
                            #[trigger] consistent_tiling(w, h, sol) && closed_tiling(w, h, sol) && tiling_within(orig, sol)
                                implies tiling_within(self.cells@, sol) by {
                            assert forall|i: int| 0 <= i < self.cells@.len() implies #[trigger] tile_allowed(self.cells@, sol, i) by {
                                assert(tile_allowed(before, sol, i));
                            }
                        }
                        assert forall|i: int| 0 <= i < self.cells@.len() && !changed@.contains(i as usize)
                            implies #[trigger] self.cells@[i] == orig[i] by {
                            assert(changed@[changed@.len() - 1] == idx);
                            if old_changed.contains(i as usize) {
                                let k = choose|k: int| 0 <= k < old_changed.len() && old_changed[k] == i as usize;
                                assert(changed@[k] == i as usize);
                            }
                            assert(before[i] == self.cells@[i]);
                        }
                        assert forall|k: int| 0 <= k < changed@.len() implies #[trigger] changed@[k] < self.cells@.len() by {
                            if k < old_changed.len() {
                                assert(changed@[k] == old_changed[k]);
                            }
                        }
                        assert forall|i: int| 0 <= i < self.cells@.len() implies #[trigger] self.cells@[i] <= 0xFFFF by {
                            assert(before[i] <= 0xFFFF);
                        }
                    }
                }
                proof {
                    assert(self.cells@ == body_start.update(idx as int, allowed));
                    assert forall|x1: int, y1: int, u: u64|
                        0 <= x1 < w && 0 <= y1 < h && (y1 < y || (y1 == y && x1 < x + 1)) && u < 16
                            && #[trigger] has_bit(self.cells@[cell_index(w, x1, y1)], u) implies boundary_ok(w, h, x1, y1, u as int) by {
                        if !(x1 == x && y1 == y) {
                            lemma_index_in_range(w, h, x1, y1);
                            if cell_index(w, x1, y1) == idx {
                                lemma_index_injective(w, x1, y1, x as int, y as int);
                            }
                            assert(self.cells@[cell_index(w, x1, y1)] == body_start[cell_index(w, x1, y1)]);
                        }
                    }
                    assert(here == orig[idx as int]);
                    assert(idx as int == y * w + x);
                    assert forall|x1: int, y1: int, u: u64|
                        0 <= x1 < w && 0 <= y1 < h && (y1 < y || (y1 == y && x1 < x + 1)) && u < 64 implies #[trigger] has_bit(
                        self.cells@[cell_index(w, x1, y1)],
                        u,
                    ) == (u < 16 && has_bit(orig[cell_index(w, x1, y1)], u) && boundary_ok(w, h, x1, y1, u as int)) by {
                        if !(x1 == x && y1 == y) {
                            lemma_index_in_range(w, h, x1, y1);
                            if cell_index(w, x1, y1) == idx {
                                lemma_index_injective(w, x1, y1, x as int, y as int);
                            }
                            assert(self.cells@[cell_index(w, x1, y1)] == body_start[cell_index(w, x1, y1)]);
                        }
                    }
                    assert forall|i: int| y * w + x + 1 <= i < self.cells@.len() implies #[trigger] self.cells@[i] == orig[i] by {
                        assert(self.cells@[i] == body_start[i]);
                    }
                    assert forall|i: int| 0 <= i < y * w + x + 1 implies #[trigger] self.cells@[i] != 0 by {
                        if i != idx {
                            assert(self.cells@[i] == body_start[i]);
                        }
                    }
                    lemma_changed_upto_prefix(orig, self.cells@, body_start, idx as int);
                    assert(changed_upto(orig, self.cells@, idx as int) == ch_start);
                    assert(changed@ == changed_upto(orig, self.cells@, idx + 1));
                }
                x += 1;
            }
            proof {
                assert forall|x1: int, y1: int, u: u64|
                    0 <= x1 < w && 0 <= y1 < y + 1 && u < 16 && #[trigger] has_bit(self.cells@[cell_index(w, x1, y1)], u)
                        implies boundary_ok(w, h, x1, y1, u as int) by {}
                assert forall|x1: int, y1: int, u: u64|
                    0 <= x1 < w && 0 <= y1 < y + 1 && u < 64 implies #[trigger] has_bit(self.cells@[cell_index(w, x1, y1)], u)
                        == (u < 16 && has_bit(orig[cell_index(w, x1, y1)], u) && boundary_ok(w, h, x1, y1, u as int)) by {}
                assert((y + 1) * w == y * w + w) by (nonlinear_arith);
            }
            y += 1;
        }
        let ghost mid = self.cells@;
        proof {
            assert(closed_cells(w, h, mid));
            assert(h * w == w * h) by (nonlinear_arith);
            assert(closes_border(w, h, orig, mid));
            assert(no_empty_cell(mid));
        }
        match self.propagate(queue) {
            Ok(propagated) => {
                let mut propagated = propagated;
                let ghost ch1 = changed@;
                let ghost ch2 = propagated@;
                changed.append(&mut propagated);
                proof {
                    lemma_changes_compose(orig, mid, self.cells@, ch1, ch2);
                    lemma_narrowed_trans(orig, mid, self.cells@);
                    lemma_closed_narrowed(w, h, mid, self.cells@);
                    assert(ch1 == changed_upto(orig, mid, orig.len() as int));
                    assert(changed@.take(ch1.len() as int) == ch1);
                    assert forall|k: int| ch1.len() <= k < changed@.len() implies self.cells@[#[trigger] changed@[k] as int]
                        != mid[changed@[k] as int] by {
                        assert(changed@[k] == ch2[k - ch1.len()]);
                    }
                    assert(propagated_from(w, h, mid, self.cells@));
                    assert(sweep_done(self.width, self.height, mid, cell_coords(self.width, ch1), self.cells@, ch2));
                    assert forall|m2: Seq<u64>| #[trigger] closes_border(w, h, orig, m2) implies no_empty_cell(m2) && sweeps_clean(
                        self.width,
                        self.height,
                        m2,
                        cell_coords(self.width, changed_upto(orig, m2, orig.len() as int)),
                        self.cells@,
                    ) by {
                        lemma_closes_border_unique(w, h, orig, mid, m2);
                    }
                }
                Ok(changed)
            },
            Err(e) => {
                proof {
                    lemma_narrowed_trans(orig, mid, self.cells@);
                    assert(changed@ == changed_upto(orig, mid, orig.len() as int));
                    assert forall|m2: Seq<u64>| #[trigger] closes_border(w, h, orig, m2) implies (e matches WfcError::Contradiction { x, y }
                        ==> sweep_failed(self.width, self.height, m2, cell_coords(self.width, changed_upto(orig, m2, orig.len() as int)), self.cells@, x, y)) by {
                        lemma_closes_border_unique(w, h, orig, mid, m2);
                    }
                }
                Err(e)
            },
        }
    }
}

proof fn lemma_narrow_step(
    w: int,
    h: int,
    orig: Seq<u64>,
    idx: int,
    x: int,
    y: int,
    prev: u64,
    m: u64,
    dir: usize,
    here: u64,
)
    requires
        dir < 4,
        (dir == N ==> y == 0),
        (dir == E ==> x + 1 == w),
        (dir == S ==> y + 1 == h),
        (dir == W ==> x == 0),
        forall|u: u64| u < 64 ==> (#[trigger] has_bit(m, u) <==> (u < 16 && edge_spec(u as u8, dir) == 0)),
        forall|u: u64| u < 64 && #[trigger] has_bit(prev, u) ==> has_bit(here, u),
        forall|sol: Seq<int>|
            #[trigger] consistent_tiling(w, h, sol) && closed_tiling(w, h, sol) && tiling_within(orig, sol)
                ==> has_bit(prev, sol[idx] as u64) && boundary_ok(w, h, x, y, sol[idx]) && 0 <= sol[idx] < 16,
    ensures
        prev & m <= prev,
        forall|u: u64| u < 64 && #[trigger] has_bit(prev & m, u) ==> has_bit(here, u) && u < 16,
        forall|u: u64| u < 64 && #[trigger] has_bit(prev & m, u) ==> has_bit(prev, u) && edge_spec(u as u8, dir) == 0,
        forall|sol: Seq<int>|
            #[trigger] consistent_tiling(w, h, sol) && closed_tiling(w, h, sol) && tiling_within(orig, sol)
                ==> has_bit(prev & m, sol[idx] as u64) && boundary_ok(w, h, x, y, sol[idx]) && 0 <= sol[idx] < 16,
{
    lemma_and_le(prev, m);
    assert forall|u: u64| u < 64 && #[trigger] has_bit(prev & m, u) implies has_bit(here, u) && u < 16 && has_bit(prev, u)
        && edge_spec(u as u8, dir) == 0 by {
        lemma_bit_and(prev, m, u);
    }
    assert forall|sol: Seq<int>|
        #[trigger] consistent_tiling(w, h, sol) && closed_tiling(w, h, sol) && tiling_within(orig, sol)
            implies has_bit(prev & m, sol[idx] as u64) by {
        lemma_bit_and(prev, m, sol[idx] as u64);
    }
}


proof fn lemma_weight_bounds(possible: u64, tiles: Seq<Tile>, k: int, t: int)
    requires
        is_road_tile_set(tiles),
        0 <= k <= 16,
    ensures
        0 <= weight_upto(possible, tiles, k) <= 8 * k,
        0 <= t < k && has_bit(possible, t as u64) ==> weight_upto(possible, tiles, k) >= 1,
    decreases k,
{
    if k > 0 {
        lemma_weight_bounds(possible, tiles, k - 1, t);
        assert(tiles[k - 1] == (Tile { mask: (k - 1) as u8, weight: road_weight_spec((k - 1) as u8) }));
    }
}

proof fn lemma_cell_coords(cell: int, width: int, height: int)
    requires
        0 <= cell < width * height,
        0 <= width,
        0 <= height,
    ensures
        width > 0,
        0 <= cell % width < width,
        0 <= cell / width < height,
        cell_index(width, cell % width, cell / width) == cell,
{
    assert(width > 0) by (nonlinear_arith)
        requires
            0 <= cell < width * height,
            0 <= width,
            0 <= height,
    ;
    vstd::arithmetic::div_mod::lemma_fundamental_div_mod(cell, width);
    vstd::arithmetic::div_mod::lemma_mod_pos_bound(cell, width);
    let q = cell / width;
    let r = cell % width;
    assert(q * width == width * q) by (nonlinear_arith);
    assert(0 <= q < height) by (nonlinear_arith)
        requires
            cell == width * q + r,
            0 <= r < width,
            0 <= cell < width * height,
            width > 0,
    ;
}

/// The next output of the generator in state `s`.
pub open spec fn rng_output(s: u64) -> u64 {
    vstd::wrapping::u64_specs::wrapping_mul(xorshift(s), XORSHIFT_MUL)
}

/// The road tiles that seeding draws from: straights, corners, tees and
/// the cross.
pub open spec fn seed_tiles() -> Seq<u8> {
    seq![5u8, 10u8, 3u8, 6u8, 9u8, 12u8, 7u8, 11u8, 13u8, 14u8, 15u8]
}

/// The generator state after `k` seeding tries of three draws each.
pub open spec fn seed_state(s: u64, k: int) -> u64
    decreases k,
{
    if k <= 0 {
        s
    } else {
        xorshift(xorshift(xorshift(seed_state(s, k - 1))))
    }
}

/// One seeding try from generator state `s` on a `width` by `height` grid:
/// an inner cell `(x, y)` and a road tile, from three draws.
pub open spec fn seed_try(width: usize, height: usize, s: u64) -> (int, int, int) {
    let s1 = xorshift(s);
    let s2 = xorshift(s1);
    (
        1 + ((rng_output(s) as usize) % ((width - 2) as usize)) as int,
        1 + ((rng_output(s1) as usize) % ((height - 2) as usize)) as int,
        seed_tiles()[((rng_output(s2) as usize) % 11usize) as int] as int,
    )
}

/// The cell of the try from state `s` still allows the try's tile.
pub open spec fn try_hits(width: usize, height: usize, cells: Seq<u64>, s: u64) -> bool {
    let (x, y, t) = seed_try(width, height, s);
    has_bit(cells[cell_index(width as int, x, y)], t as u64)
}

/// Try `k` of a round from state `s` is the first whose cell allows its
/// tile.
pub open spec fn first_hit(width: usize, height: usize, cells: Seq<u64>, s: u64, k: int) -> bool {
    &&& 0 <= k < 40
    &&& try_hits(width, height, cells, seed_state(s, k))
    &&& forall|j: int| 0 <= j < k ==> !#[trigger] try_hits(width, height, cells, seed_state(s, j))
}

/// The cells with the cell of try `k` fixed to its tile.
pub open spec fn fixed_cells(width: usize, height: usize, cells: Seq<u64>, s: u64, k: int) -> Seq<u64> {
    let (x, y, t) = seed_try(width, height, seed_state(s, k));
    cells.update(cell_index(width as int, x, y), 1u64 << (t as u64))
}

/// `b` is what propagation makes of `a`: narrower, with every consistent
/// tiling and every narrowing in which neighbours agree kept.
pub open spec fn propagated_from(width: int, height: int, a: Seq<u64>, b: Seq<u64>) -> bool {
    &&& narrowed(a, b)
    &&& keeps_tilings(width, height, a, b)
    &&& forall|sub: Seq<u64>| #[trigger] arc_consistent(width, height, sub) && narrowed(a, sub) ==> narrowed(b, sub)
}

/// One round of seeding from cells `a` and generator state `s`, ending in
/// cells `b` and state `s2`: the first of forty tries whose cell still
/// allows its tile fixes that cell to it, and propagation from that cell
/// follows; when no try hits, nothing changes and all forty tries are
/// spent.
pub open spec fn seed_round(width: usize, height: usize, a: Seq<u64>, s: u64, b: Seq<u64>, s2: u64) -> bool {
    ||| (forall|j: int| 0 <= j < 40 ==> !#[trigger] try_hits(width, height, a, seed_state(s, j))) && b == a && s2
        == seed_state(s, 40)
    ||| exists|k: int|
        #[trigger] first_hit(width, height, a, s, k) && s2 == seed_state(s, k + 1) && propagated_from(
            width as int,
            height as int,
            fixed_cells(width, height, a, s, k),
            b,
        ) && (arc_consistent(width as int, height as int, a) ==> arc_consistent(width as int, height as int, b))
            && sweeps_clean(width, height, fixed_cells(width, height, a, s, k), try_queue(width, height, s, k), b)
            && forall|i: int| 0 <= i < a.len() && a[i] != 0 ==> #[trigger] b[i] != 0
}

/// Every tile that seeding draws has at least two road edges.
proof fn lemma_seed_tiles_have_roads(m: int)
    requires
        0 <= m < 11,
    ensures
        exists|d1: usize, d2: usize|
            d1 < d2 < 4 && #[trigger] edge_spec(seed_tiles()[m], d1) == 1 && #[trigger] edge_spec(seed_tiles()[m], d2) == 1,
{
    let t = seed_tiles()[m];
    assert(edge_spec(5u8, 0) == 1 && edge_spec(5u8, 2) == 1) by (bit_vector);
    assert(edge_spec(10u8, 1) == 1 && edge_spec(10u8, 3) == 1) by (bit_vector);
    assert(edge_spec(3u8, 0) == 1 && edge_spec(3u8, 1) == 1) by (bit_vector);
    assert(edge_spec(6u8, 1) == 1 && edge_spec(6u8, 2) == 1) by (bit_vector);
    assert(edge_spec(9u8, 0) == 1 && edge_spec(9u8, 3) == 1) by (bit_vector);
    assert(edge_spec(12u8, 2) == 1 && edge_spec(12u8, 3) == 1) by (bit_vector);
    assert(edge_spec(7u8, 0) == 1 && edge_spec(7u8, 1) == 1) by (bit_vector);
    assert(edge_spec(11u8, 0) == 1 && edge_spec(11u8, 1) == 1) by (bit_vector);
    assert(edge_spec(13u8, 0) == 1 && edge_spec(13u8, 2) == 1) by (bit_vector);
    assert(edge_spec(14u8, 1) == 1 && edge_spec(14u8, 2) == 1) by (bit_vector);
    assert(edge_spec(15u8, 0) == 1 && edge_spec(15u8, 1) == 1) by (bit_vector);
    if m == 0 {
        assert(edge_spec(t, 0) == 1 && edge_spec(t, 2) == 1);
    } else if m == 1 {
        assert(edge_spec(t, 1) == 1 && edge_spec(t, 3) == 1);
    } else if m == 2 {
        assert(edge_spec(t, 0) == 1 && edge_spec(t, 1) == 1);
    } else if m == 3 {
        assert(edge_spec(t, 1) == 1 && edge_spec(t, 2) == 1);
    } else if m == 4 {
        assert(edge_spec(t, 0) == 1 && edge_spec(t, 3) == 1);
    } else if m == 5 {
        assert(edge_spec(t, 2) == 1 && edge_spec(t, 3) == 1);
    } else if m == 6 {
        assert(edge_spec(t, 0) == 1 && edge_spec(t, 1) == 1);
    } else if m == 7 {
        assert(edge_spec(t, 0) == 1 && edge_spec(t, 1) == 1);
    } else if m == 8 {
        assert(edge_spec(t, 0) == 1 && edge_spec(t, 2) == 1);
    } else if m == 9 {
        assert(edge_spec(t, 1) == 1 && edge_spec(t, 2) == 1);
    } else {
        assert(edge_spec(t, 0) == 1 && edge_spec(t, 1) == 1);
    }
}

/// Law (seeding lays roads): a seeding round either leaves the cells as
/// they were or fixes an inner cell (off the border) that allowed it to a
/// single tile with at least two road edges (a straight, corner, tee or
/// cross road).
pub proof fn lemma_seeding_lays_roads(w: usize, h: usize, a: Seq<u64>, s: u64, b: Seq<u64>, s2: u64)
    requires
        seed_round(w, h, a, s, b, s2),
        w >= 3,
        h >= 3,
        a.len() == w * h,
    ensures
        b == a || exists|i: int, t: u64|
            0 <= i < a.len() && 1 <= i % (w as int) < w - 1 && 1 <= i / (w as int) < h - 1 && t < 16 && #[trigger] has_bit(
                a[i],
                t,
            ) && b[i] == 1u64 << t && exists|d1: usize, d2: usize|
                d1 < d2 < 4 && #[trigger] edge_spec(t as u8, d1) == 1 && #[trigger] edge_spec(t as u8, d2) == 1,
{
    if exists|k: int| #[trigger] first_hit(w, h, a, s, k) {
        let k0 = choose|k: int| #[trigger] first_hit(w, h, a, s, k);
        assert(try_hits(w, h, a, seed_state(s, k0)));
        let k = choose|k: int|
            #[trigger] first_hit(w, h, a, s, k) && s2 == seed_state(s, k + 1) && propagated_from(
                w as int,
                h as int,
                fixed_cells(w, h, a, s, k),
                b,
            ) && (arc_consistent(w as int, h as int, a) ==> arc_consistent(w as int, h as int, b)) && sweeps_clean(
                w,
                h,
                fixed_cells(w, h, a, s, k),
                try_queue(w, h, s, k),
                b,
            ) && forall|i: int| 0 <= i < a.len() && a[i] != 0 ==> #[trigger] b[i] != 0;
        let st = seed_state(s, k);
        let (x, y, ti) = seed_try(w, h, st);
        let m = ((rng_output(xorshift(xorshift(st))) as usize) % 11usize) as int;
        assert(ti == seed_tiles()[m] as int);
        lemma_seed_tiles_have_roads(m);
        let t = ti as u64;
        assert(t < 16) by {
            assert(seed_tiles()[m] <= 15u8);
        }
        assert(0 <= x < w && 0 <= y < h);
        lemma_index_in_range(w as int, h as int, x, y);
        let idx = cell_index(w as int, x, y);
        lemma_cell_coords(idx, w as int, h as int);
        lemma_index_injective(w as int, idx % (w as int), idx / (w as int), x, y);
        let fixed = fixed_cells(w, h, a, s, k);
        assert(fixed[idx] == 1u64 << t);
        assert(has_bit(a[idx], t));
        if a[idx] == 0 {
            lemma_bit_zero(t);
        }
        assert(b[idx] != 0);
        let u0 = lemma_some_bit64(b[idx]);
        assert(has_bit(fixed[idx], u0));
        lemma_bit_single(t, u0);
        assert forall|u: u64| u < 64 implies #[trigger] has_bit(b[idx], u) == has_bit(1u64 << t, u) by {
            lemma_bit_single(t, u);
            if has_bit(b[idx], u) {
                assert(has_bit(fixed[idx], u));
            }
        }
        lemma_bits_ext(b[idx], 1u64 << t);
        assert(seed_tiles()[m] == t as u8);
        assert(has_bit(a[idx], t) && b[idx] == 1u64 << t);
    }
}

/// The queue that propagation starts from after try `k` of a round from
/// state `s`: the try's cell.
pub open spec fn try_queue(width: usize, height: usize, s: u64, k: int) -> Seq<(usize, usize)> {
    let (x, y, t) = seed_try(width, height, seed_state(s, k));
    seq![(x as usize, y as usize)]
}

/// A round from cells `a` and state `s`, ending in state `s2` and cells
/// `b`, whose first hit leaves, once propagated, a cell without a
/// candidate: no consistent tiling and no narrowing in which neighbours
/// agree and every cell has a tile allows the fixed cells, and the sweep
/// from the fixed cell stops at cell `(x, y)` with the cells `b`.
pub open spec fn seed_round_failed(width: usize, height: usize, a: Seq<u64>, s: u64, s2: u64, b: Seq<u64>, x: usize, y: usize) -> bool {
    exists|k: int|
        #[trigger] first_hit(width, height, a, s, k) && s2 == seed_state(s, k + 1) && no_tiling(
            width as int,
            height as int,
            fixed_cells(width, height, a, s, k),
        ) && (forall|sub: Seq<u64>|
            #[trigger] arc_consistent(width as int, height as int, sub) && narrowed(fixed_cells(width, height, a, s, k), sub)
                ==> !no_empty_cell(sub)) && sweep_failed(width, height, fixed_cells(width, height, a, s, k), try_queue(width, height, s, k), b, x, y)
}

/// `cs` and `ss` are the cells and generator states before and after each
/// of a run of seeding rounds.
pub open spec fn seed_trace(width: usize, height: usize, cs: Seq<Seq<u64>>, ss: Seq<u64>) -> bool {
    &&& cs.len() == ss.len()
    &&& cs.len() >= 1
    &&& forall|r: int| 0 <= r < cs.len() - 1 ==> #[trigger] seed_round(width, height, cs[r], ss[r], cs[r + 1], ss[r + 1])
}

proof fn lemma_trace_push(width: usize, height: usize, cs: Seq<Seq<u64>>, ss: Seq<u64>, b: Seq<u64>, s2: u64)
    requires
        seed_trace(width, height, cs, ss),
        seed_round(width, height, cs.last(), ss.last(), b, s2),
    ensures
        seed_trace(width, height, cs.push(b), ss.push(s2)),
{
    let cs2 = cs.push(b);
    let ss2 = ss.push(s2);
    assert forall|r: int| 0 <= r < cs2.len() - 1 implies #[trigger] seed_round(width, height, cs2[r], ss2[r], cs2[r + 1], ss2[r + 1]) by {
        if r < cs.len() - 1 {
            assert(seed_round(width, height, cs[r], ss[r], cs[r + 1], ss[r + 1]));
        }
    }
}

/// The cells `cells` as coordinates on a grid `width` wide.
pub open spec fn cell_coords(width: usize, cells: Seq<usize>) -> Seq<(usize, usize)> {
    cells.map_values(|i: usize| ((i % width) as usize, (i / width) as usize))
}

/// The cells `a` with those before index `k` taken from `mid`.
pub open spec fn closed_before(a: Seq<u64>, mid: Seq<u64>, k: int) -> Seq<u64> {
    Seq::new(a.len(), |i: int| if i < k { mid[i] } else { a[i] })
}

/// `b` is `a` with the border closed: each cell keeps exactly the tiles of
/// `a` with no road leaving the grid.
pub open spec fn closes_border(width: int, height: int, a: Seq<u64>, b: Seq<u64>) -> bool {
    &&& a.len() == width * height
    &&& b.len() == a.len()
    &&& forall|x: int, y: int, u: u64|
        0 <= x < width && 0 <= y < height && u < 64 ==> #[trigger] has_bit(b[cell_index(width, x, y)], u) == (u < 16
            && has_bit(a[cell_index(width, x, y)], u) && boundary_ok(width, height, x, y, u as int))
}

/// The indices, in order, of the first `k` cells where `a` and `b` differ.
pub open spec fn changed_upto(a: Seq<u64>, b: Seq<u64>, k: int) -> Seq<usize>
    decreases k,
{
    if k <= 0 {
        Seq::empty()
    } else if a[k - 1] != b[k - 1] {
        changed_upto(a, b, k - 1).push((k - 1) as usize)
    } else {
        changed_upto(a, b, k - 1)
    }
}

/// Row by row, `(x1, y1)` comes before `(x, y)` exactly when its index is
/// smaller.
proof fn lemma_index_order(w: int, x1: int, y1: int, x: int, y: int)
    requires
        0 <= x1 < w,
        0 <= x <= w,
        0 <= y1,
        0 <= y,
    ensures
        (cell_index(w, x1, y1) < cell_index(w, x, y)) == (y1 < y || (y1 == y && x1 < x)),
{
    if y1 < y {
        assert(y1 * w + w <= y * w) by (nonlinear_arith)
            requires
                y1 < y,
                0 <= w,
        ;
    } else if y1 > y {
        assert(y * w + w <= y1 * w) by (nonlinear_arith)
            requires
                y1 > y,
                0 <= w,
        ;
    }
}

proof fn lemma_changed_upto_prefix(a: Seq<u64>, b: Seq<u64>, c: Seq<u64>, k: int)
    requires
        forall|i: int| 0 <= i < k ==> #[trigger] b[i] == c[i],
    ensures
        changed_upto(a, b, k) == changed_upto(a, c, k),
    decreases k,
{
    if k > 0 {
        lemma_changed_upto_prefix(a, b, c, k - 1);
    }
}

/// Every consistent tiling allowed by `old` that gives cell `c` the tile `t`
/// is still allowed by `new`.
pub open spec fn keeps_tilings_with(width: int, height: int, old: Seq<u64>, new: Seq<u64>, c: int, t: int) -> bool {
    forall|sol: Seq<int>|
        #[trigger] consistent_tiling(width, height, sol) && tiling_within(old, sol) && sol[c] == t
            ==> tiling_within(new, sol)
}

/// No consistent tiling allowed by `cells` gives cell `c` the tile `t`.
pub open spec fn no_tiling_with(width: int, height: int, cells: Seq<u64>, c: int, t: int) -> bool {
    forall|sol: Seq<int>|
        !(#[trigger] consistent_tiling(width, height, sol) && tiling_within(cells, sol) && sol[c] == t)
}

impl Wfc {
    /// Fixes up to `count` random inner cells to random road tiles (up to
    /// forty tries each for a tile the cell still allows), propagating after
    /// each.  Grids narrower or lower than three cells are left alone.  The
    /// rounds, each drawn from the generator as `seed_round` says, are
    /// recorded by a `seed_trace` from the cells and state before to those
    /// after, or to a round whose propagation failed.
    pub fn seed_some_roads(&mut self, rng: &mut Rng, count: usize) -> (r: Result<Vec<usize>, WfcError>)
        requires
            old(self).wf(),
        ensures
            final(self).wf(),
            final(self).same_frame(old(self)),
            narrowed(old(self).cells@, final(self).cells@),
            r matches Err(e) ==> e is Contradiction,
            r matches Ok(changed) ==> changes_listed(old(self).cells@, final(self).cells@, changed@),
            (old(self).width < 3 || old(self).height < 3 || count == 0) ==> (r matches Ok(changed)
                && changed@.len() == 0 && final(self).cells@ == old(self).cells@),
            forall|i: int| 0 <= i < final(self).cells@.len() && old(self).cells@[i] != 0 ==> #[trigger] final(self).cells@[i] != 0,
            r is Ok && settled(old(self).width as int, old(self).height as int, old(self).cells@) ==> settled(
                old(self).width as int,
                old(self).height as int,
                final(self).cells@,
            ),
            (old(self).width < 3 || old(self).height < 3 || count == 0) ==> final(rng).state == old(rng).state,
            old(self).width >= 3 && old(self).height >= 3 && r is Ok ==> exists|cs: Seq<Seq<u64>>, ss: Seq<u64>|
                #[trigger] seed_trace(old(self).width, old(self).height, cs, ss) && cs.len() == count + 1 && cs[0]
                    == old(self).cells@ && ss[0] == old(rng).state && cs.last() == final(self).cells@ && ss.last()
                    == final(rng).state,
            r matches Err(WfcError::Contradiction { x, y }) ==> old(self).width >= 3 && old(self).height >= 3 ==> exists|
                cs: Seq<Seq<u64>>,
                ss: Seq<u64>,
            |
                #[trigger] seed_trace(old(self).width, old(self).height, cs, ss) && cs.len() <= count && cs[0]
                    == old(self).cells@ && ss[0] == old(rng).state && seed_round_failed(
                    old(self).width,
                    old(self).height,
                    cs.last(),
                    ss.last(),
                    final(rng).state,
                    final(self).cells@,
                    x,
                    y,
                ),
    {
        if self.width < 3 || self.height < 3 || count == 0 {
            proof {
                let cs0 = seq![self.cells@];
                let ss0 = seq![rng.state];
                assert(seed_trace(self.width, self.height, cs0, ss0));
                assert(cs0.last() == self.cells@ && ss0.last() == rng.state);
            }
            return Ok(Vec::new());
        }
        let road_masks: [u8; 11] = [5, 10, 3, 6, 9, 12, 7, 11, 13, 14, 15];
        let ghost orig = self.cells@;
        let ghost w = self.width as int;
        let ghost h = self.height as int;
        let ghost wu = self.width;
        let ghost hu = self.height;
        let ghost st = settled(w, h, orig);
        let ghost mut cs: Seq<Seq<u64>> = seq![orig];
        let ghost mut ss: Seq<u64> = seq![rng.state];
        proof {
            assert(road_masks@ =~= seed_tiles());
        }
        let mut all_changed: Vec<usize> = Vec::new();
        let mut c: usize = 0;
        while c < count
            invariant
                road_masks@ == seed_tiles(),
                wu == self.width,
                hu == self.height,
                seed_trace(wu, hu, cs, ss),
                cs.len() == c + 1,
                cs[0] == orig,
                ss[0] == old(rng).state,
                cs.last() == self.cells@,
                ss.last() == rng.state,
                self.wf(),
                self.same_frame(old(self)),
                orig == old(self).cells@,
                w == self.width,
                h == self.height,
                st ==> settled(w, h, self.cells@),
                forall|i: int| 0 <= i < self.cells@.len() && orig[i] != 0 ==> #[trigger] self.cells@[i] != 0,
                self.width >= 3,
                self.height >= 3,
                c <= count,
                narrowed(orig, self.cells@),
                changes_listed(orig, self.cells@, all_changed@),
                forall|k: int| 0 <= k < 11 ==> #[trigger] road_masks[k] < 16,
            decreases count - c,
        {
            let ghost a = self.cells@;
            let ghost s0 = rng.state;
            let mut attempt: usize = 0;
            let mut seeded = false;
            while attempt < 40 && !seeded
                invariant
                    road_masks@ == seed_tiles(),
                    wu == self.width,
                    hu == self.height,
                    cs[0] == orig,
                    ss[0] == old(rng).state,
                    seed_trace(wu, hu, cs, ss),
                    !seeded ==> {
                        &&& cs.len() == c + 1
                        &&& cs.last() == a
                        &&& ss.last() == s0
                        &&& self.cells@ == a
                        &&& rng.state == seed_state(s0, attempt as int)
                        &&& forall|j: int| 0 <= j < attempt ==> !#[trigger] try_hits(wu, hu, a, seed_state(s0, j))
                    },
                    seeded ==> cs.len() == c + 2 && cs.last() == self.cells@ && ss.last() == rng.state,
                    self.wf(),
                    self.same_frame(old(self)),
                    orig == old(self).cells@,
                    w == self.width,
                    h == self.height,
                    st ==> settled(w, h, self.cells@),
                    forall|i: int| 0 <= i < self.cells@.len() && orig[i] != 0 ==> #[trigger] self.cells@[i] != 0,
                    self.width >= 3,
                    self.height >= 3,
                    attempt <= 40,
                    c < count,
                    narrowed(orig, self.cells@),
                    changes_listed(orig, self.cells@, all_changed@),
                    forall|k: int| 0 <= k < 11 ==> #[trigger] road_masks[k] < 16,
                decreases 40 - attempt,
            {
                let ghost k = attempt as int;
                let ghost sk = rng.state;
                attempt += 1;
                let x = 1 + rng.gen_range(self.width - 2);
                let y = 1 + rng.gen_range(self.height - 2);
                let idx = self.index(x, y);
                let pick = rng.gen_range(11);
                let tile_index = road_masks[pick] as usize;
                let chosen = 1u64 << tile_index;
                proof {
                    assert(seed_state(s0, k + 1) == xorshift(xorshift(xorshift(seed_state(s0, k)))));
                    assert(rng.state == seed_state(s0, attempt as int));
                    assert(seed_try(wu, hu, sk) == (x as int, y as int, tile_index as int));
                    lemma_mask_test(a[idx as int], tile_index as u64);
                    assert(try_hits(wu, hu, a, seed_state(s0, k)) == has_bit(a[idx as int], tile_index as u64));
                }
                if self.cells[idx] & chosen == 0 {
                    proof {
                        assert forall|j: int| 0 <= j < attempt implies !#[trigger] try_hits(wu, hu, a, seed_state(s0, j)) by {
                            if j == k {
                            }
                        }
                    }
                    continue;
                }
                proof {
                    assert(first_hit(wu, hu, a, s0, k));
                    assert(fixed_cells(wu, hu, a, s0, k) == a.update(idx as int, chosen));
                }
                let ghost before = self.cells@;
                let ghost old_changed = all_changed@;
                proof {
                    lemma_mask_test(before[idx as int], tile_index as u64);
                    assert(1u64 << tile_index <= 0x8000 && 1u64 << tile_index != 0) by (bit_vector)
                        requires
                            tile_index < 16,
                    ;
                }
                self.cells.set(idx, chosen);
                let mut queue: VecDeque<(usize, usize)> = VecDeque::new();
                queue.push_back((x, y));
                all_changed.push(idx);
                proof {
                    assert forall|u: u64| u < 64 && #[trigger] has_bit(chosen, u) implies has_bit(before[idx as int], u) by {
                        lemma_bit_single(tile_index as u64, u);
                    }
                    if arc_consistent(w, h, before) {
                        lemma_pending_except(w, h, before, Seq::empty());
                        lemma_arcs_narrow_one(w, h, before, Seq::empty(), -1, -1, 0, x as int, y as int, chosen);
                        assert(queue@ == Seq::<(usize, usize)>::empty().push((x, y)));
                        assert(self.cells@ == before.update(cell_index(w, x as int, y as int), chosen));
                        lemma_pending_except(w, h, self.cells@, queue@);
                    }
                    assert forall|i: int| 0 <= i < self.cells@.len() && orig[i] != 0 implies #[trigger] self.cells@[i] != 0 by {
                        assert(i != idx ==> self.cells@[i] == before[i]);
                    }
                    assert forall|i: int, u: u64|
                        0 <= i < self.cells@.len() && u < 64 && #[trigger] has_bit(self.cells@[i], u) implies has_bit(orig[i], u) by {
                        if i == idx {
                            lemma_bit_single(tile_index as u64, u);
                        }
                        assert(has_bit(before[i], u));
                    }
                    assert forall|i: int| 0 <= i < self.cells@.len() implies #[trigger] self.cells@[i] <= 0xFFFF by {
                        assert(before[i] <= 0xFFFF);
                    }
                    assert forall|i: int| 0 <= i < self.cells@.len() && !all_changed@.contains(i as usize)
                        implies #[trigger] self.cells@[i] == orig[i] by {
                        assert(all_changed@[all_changed@.len() - 1] == idx);
                        if old_changed.contains(i as usize) {
                            let k = choose|k: int| 0 <= k < old_changed.len() && old_changed[k] == i as usize;
                            assert(all_changed@[k] == i as usize);
                        }
                        assert(before[i] == self.cells@[i]);
                    }
                    assert forall|k: int| 0 <= k < all_changed@.len() implies #[trigger] all_changed@[k] < self.cells@.len() by {
                        if k < old_changed.len() {
                            assert(all_changed@[k] == old_changed[k]);
                        }
                    }
                }
                let ghost mid = self.cells@;
                let ghost q = queue@;
                proof {
                    assert(q =~= try_queue(wu, hu, s0, k));
                }
                match self.propagate(queue) {
                    Ok(propagated) => {
                        let mut propagated = propagated;
                        let ghost ch1 = all_changed@;
                        let ghost ch2 = propagated@;
                        all_changed.append(&mut propagated);
                        proof {
                            assert(sweep_done(wu, hu, mid, q, self.cells@, ch2));
                            assert(sweeps_clean(wu, hu, fixed_cells(wu, hu, a, s0, k), try_queue(wu, hu, s0, k), self.cells@));
                            lemma_changes_compose(orig, mid, self.cells@, ch1, ch2);
                            lemma_narrowed_trans(orig, mid, self.cells@);
                            if st {
                                lemma_narrowed_trans(before, mid, self.cells@);
                                lemma_closed_narrowed(w, h, before, self.cells@);
                            }
                            assert(propagated_from(w, h, fixed_cells(wu, hu, a, s0, k), self.cells@));
                            assert(seed_round(wu, hu, a, s0, self.cells@, rng.state));
                            lemma_trace_push(wu, hu, cs, ss, self.cells@, rng.state);
                            cs = cs.push(self.cells@);
                            ss = ss.push(rng.state);
                        }
                    },
                    Err(e) => {
                        proof {
                            lemma_narrowed_trans(orig, mid, self.cells@);
                            if let WfcError::Contradiction { x: fx, y: fy } = e {
                                assert(seed_round_failed(wu, hu, a, s0, rng.state, self.cells@, fx, fy));
                                assert(seed_trace(wu, hu, cs, ss) && cs.len() <= count && cs[0] == orig && ss[0]
                                    == old(rng).state && seed_round_failed(wu, hu, cs.last(), ss.last(), rng.state, self.cells@, fx, fy));
                            }
                        }
                        return Err(e);
                    },
                }
                seeded = true;
            }
            proof {
                if !seeded {
                    assert(attempt == 40);
                    assert(seed_round(wu, hu, a, s0, a, rng.state));
                    lemma_trace_push(wu, hu, cs, ss, a, rng.state);
                    cs = cs.push(a);
                    ss = ss.push(rng.state);
                }
            }
            c += 1;
        }
        proof {
            assert(seed_trace(wu, hu, cs, ss) && cs.len() == count + 1 && cs[0] == orig && ss[0] == old(rng).state
                && cs.last() == self.cells@ && ss.last() == rng.state);
        }
        Ok(all_changed)
    }

    /// One collapse step: picks an undecided cell with the fewest candidates,
    /// gives it a tile drawn by weight among its candidates, and propagates.
    /// Every consistent tiling that agrees with that choice survives; an
    /// error means that no consistent tiling makes that choice.
    #[verifier::spinoff_prover]
    #[verifier::rlimit(40)]
    pub fn step(&mut self, rng: &mut Rng) -> (r: Result<StepReport, WfcError>)
        requires
            old(self).wf(),
        ensures
            final(self).wf(),
            final(self).same_frame(old(self)),
            narrowed(old(self).cells@, final(self).cells@),
            match r {
                Ok(rep) => step_done(*old(self), *final(self), rep.collapsed, rep.changed@, rep.mask, rep.finished),
                Err(_) => step_failed(*old(self)),
            },
            forall|i: int| 0 <= i < final(self).cells@.len() && old(self).cells@[i] != 0 ==> #[trigger] final(self).cells@[i] != 0,
            r is Ok && settled(old(self).width as int, old(self).height as int, old(self).cells@) ==> settled(
                old(self).width as int,
                old(self).height as int,
                final(self).cells@,
            ),
            lowest_entropy_cells(old(self).cells@).len() == 0 ==> final(rng).state == old(rng).state,
            lowest_entropy_cells(old(self).cells@).len() > 0 ==> {
                let cands = lowest_entropy_cells(old(self).cells@);
                let c = cands[((rng_output(old(rng).state) as usize) % (cands.len() as usize)) as int];
                let s1 = xorshift(old(rng).state);
                let possible = old(self).cells@[c as int];
                let rr = rng_output(s1) % (weight_upto(possible, old(self).tiles@, 16) as u64);
                &&& final(rng).state == xorshift(s1)
                &&& r matches Ok(rep) ==> {
                    &&& rep.collapsed == Some(c)
                    &&& has_bit(possible, rep.mask as u64)
                    &&& weight_upto(possible, old(self).tiles@, rep.mask as int) <= rr
                    &&& rr < weight_upto(possible, old(self).tiles@, rep.mask as int) + old(self).tiles@[rep.mask as int].weight
                    &&& sweep_done(
                        old(self).width,
                        old(self).height,
                        old(self).cells@.update(c as int, 1u64 << (rep.mask as u64)),
                        seq![((c % old(self).width) as usize, (c / old(self).width) as usize)],
                        final(self).cells@,
                        rep.changed@,
                    )
                }
                &&& r matches Err(e) ==> e is Contradiction
                &&& r matches Err(WfcError::Contradiction { x, y }) ==> exists|t: u64|
                    t < 16 && #[trigger] has_bit(possible, t) && weight_upto(possible, old(self).tiles@, t as int) <= rr && rr
                        < weight_upto(possible, old(self).tiles@, t as int) + old(self).tiles@[t as int].weight && sweep_failed(
                        old(self).width,
                        old(self).height,
                        old(self).cells@.update(c as int, 1u64 << t),
                        seq![((c % old(self).width) as usize, (c / old(self).width) as usize)],
                        final(self).cells@,
                        x,
                        y,
                    )
            },
            r matches Ok(rep) ==> (rep.finished ==> rep.changed@.len() == 0),
            lowest_entropy_cells(old(self).cells@).len() == 0 ==> (r matches Ok(rep) && rep.finished),
    {
        broadcast use vstd::std_specs::bits::group_bits_axioms;

        let ghost s0 = rng.state;
        let cell = match self.pick_lowest_entropy_cell(rng) {
            Some(c) => c,
            None => {
                return Ok(StepReport { collapsed: None, changed: Vec::new(), mask: 0, finished: true });
            },
        };
        let possible = self.cells[cell];
        proof {
            lemma_popcount_zero(possible);
        }
        if possible == 0 {
            return Err(WfcError::NoCandidates { cell });
        }
        proof {
            let tz = vstd::std_specs::bits::u64_trailing_zeros(possible) as u64;
            if tz >= 16 {
                lemma_low_bits(possible, tz);
            }
            lemma_weight_bounds(possible, self.tiles@, 16, tz as int);
        }
        let chosen_tile = rng.choose_weighted_tile(possible, self.tiles.as_slice());
        let ghost orig = self.cells@;
        let chosen = 1u64 << chosen_tile;
        proof {
            assert(1u64 << chosen_tile <= 0x8000 && 1u64 << chosen_tile != 0) by (bit_vector)
                requires
                    chosen_tile < 16,
            ;
        }
        self.cells.set(cell, chosen);
        let ghost mid = self.cells@;
        let ghost w = self.width as int;
        let ghost h = self.height as int;
        let ghost st = settled(w, h, orig);
        proof {
            lemma_cell_coords(cell as int, self.width as int, self.height as int);
            assert forall|i: int| 0 <= i < self.cells@.len() implies #[trigger] self.cells@[i] <= 0xFFFF by {
                assert(orig[i] <= 0xFFFF);
            }
            assert forall|i: int, u: u64|
                0 <= i < mid.len() && u < 64 && #[trigger] has_bit(mid[i], u) implies has_bit(orig[i], u) by {
                if i == cell {
                    lemma_bit_single(chosen_tile as u64, u);
                }
            }
            assert forall|sol: Seq<int>|
                #[trigger] consistent_tiling(self.width as int, self.height as int, sol) && tiling_within(orig, sol) && sol[cell as int] == chosen_tile
                    implies tiling_within(mid, sol) by {
                assert forall|i: int| 0 <= i < mid.len() implies #[trigger] tile_allowed(mid, sol, i) by {
                    if i == cell {
                        lemma_bit_single(chosen_tile as u64, chosen_tile as u64);
                    } else {
                        assert(tile_allowed(orig, sol, i));
                    }
                }
            }
        }
        let x = cell % self.width;
        let y = cell / self.width;
        let mut queue: VecDeque<(usize, usize)> = VecDeque::new();
        queue.push_back((x, y));
        proof {
            assert forall|u: u64| u < 64 && #[trigger] has_bit(chosen, u) implies has_bit(orig[cell as int], u) by {
                lemma_bit_single(chosen_tile as u64, u);
            }
            if st {
                lemma_pending_except(w, h, orig, Seq::empty());
                lemma_arcs_narrow_one(w, h, orig, Seq::empty(), -1, -1, 0, x as int, y as int, chosen);
                assert(queue@ == Seq::<(usize, usize)>::empty().push((x, y)));
                assert(mid == orig.update(cell_index(w, x as int, y as int), chosen));
                lemma_pending_except(w, h, mid, queue@);
            }
            assert forall|i: int| 0 <= i < mid.len() && orig[i] != 0 implies #[trigger] mid[i] != 0 by {
                assert(i != cell ==> mid[i] == orig[i]);
            }
        }
        let mask = self.tiles[chosen_tile].mask;
        let ghost q = queue@;
        proof {
            assert(q =~= seq![((cell % self.width) as usize, (cell / self.width) as usize)]);
            assert(mask == chosen_tile as u8);
        }
        match self.propagate(queue) {
            Ok(changed) => {
                proof {
                    lemma_narrowed_trans(orig, mid, self.cells@);
                    if st {
                        lemma_closed_narrowed(w, h, orig, self.cells@);
                    }
                    assert forall|u: u64| u < 64 && #[trigger] has_bit(self.cells@[cell as int], u) implies u == chosen_tile by {
                        assert(has_bit(mid[cell as int], u));
                        lemma_bit_single(chosen_tile as u64, u);
                    }
                    assert(mid == orig.update(cell as int, 1u64 << (chosen_tile as u64)));
                }
                Ok(StepReport { collapsed: Some(cell), changed, mask, finished: false })
            },
            Err(e) => {
                proof {
                    lemma_narrowed_trans(orig, mid, self.cells@);
                    assert forall|sol: Seq<int>|
                        !(#[trigger] consistent_tiling(self.width as int, self.height as int, sol) && tiling_within(orig, sol) && sol[cell as int] == chosen_tile) by {
                        if consistent_tiling(self.width as int, self.height as int, sol) && tiling_within(orig, sol) && sol[cell as int] == chosen_tile {
                            assert(tiling_within(mid, sol));
                        }
                    }
                    assert(no_tiling_with(self.width as int, self.height as int, orig, cell as int, chosen_tile as int));
                    assert(has_bit(orig[cell as int], chosen_tile as u64));
                    if let WfcError::Contradiction { x: ex, y: ey } = e {
                        assert(has_bit(possible, chosen_tile as u64));
                    }
                }
                Err(e)
            },
        }
    }
}


/// No consistent tiling of a `width` by `height` grid keeps its roads
/// inside the grid.
pub open spec fn no_closed_tiling(width: int, height: int) -> bool {
    forall|sol: Seq<int>| !(#[trigger] consistent_tiling(width, height, sol) && closed_tiling(width, height, sol))
}

/// Every road tile is a candidate of an undecided cell.
proof fn lemma_fresh_allows(cells: Seq<u64>, sol: Seq<int>)
    requires
        forall|i: int| 0 <= i < cells.len() ==> #[trigger] cells[i] == 0xFFFF,
        sol.len() == cells.len(),
        forall|i: int| 0 <= i < sol.len() ==> 0 <= #[trigger] sol[i] < 16,
    ensures
        tiling_within(cells, sol),
{
    assert forall|i: int| 0 <= i < cells.len() implies #[trigger] tile_allowed(cells, sol, i) by {
        let t = sol[i] as u64;
        assert(t < 16);
        assert(has_bit(0xFFFFu64, t)) by (bit_vector)
            requires
                t < 16,
        ;
    }
}

/// The generator state that `Rng::new(seed)` starts from.
pub open spec fn seed_start(seed: u64) -> u64 {
    if seed == 0 {
        0x1234_5678_9abc_def0u64
    } else {
        seed
    }
}

/// How a reset follows from the settings of session `s`: from a fresh grid,
/// the border is closed and propagated, giving cells in which neighbours
/// agree; then, with the generator restarted from the seed, the initial
/// roads are seeded in rounds (none on grids narrower or lower than three
/// cells), and the session holds the cells and generator state after the
/// last round.  A failure is the first cell left empty by closing the
/// border (the cells before it closed, the rest fresh), a propagation of
/// the closed border that empties a cell, or a seeding round whose
/// propagation does (the cells where that propagation stopped).
#[verifier::opaque]
pub open spec fn reset_from_settings(s: &WfcSession) -> bool {
    let w = s.width as int;
    let h = s.height as int;
    let fresh = Seq::new((w * h) as nat, |i: int| 0xFFFFu64);
    let s0 = seed_start(s.seed);
    let rounds = if s.width >= 3 && s.height >= 3 {
        s.initial_road_count as int
    } else {
        0
    };
    &&& s.status == Status::Reset ==> exists|mid: Seq<u64>, cs: Seq<Seq<u64>>, ss: Seq<u64>|
        #[trigger] closes_border(w, h, fresh, mid) && #[trigger] seed_trace(s.width, s.height, cs, ss)
            && border_swept(s.width, s.height, fresh, mid, cs[0]) && arc_consistent(w, h, cs[0]) && ss[0] == s0
            && cs.len() == rounds + 1 && cs.last() == s.wfc.cells@ && ss.last() == s.rng.state
    &&& s.status matches Status::Failed { error } ==> match error {
        WfcError::Boundary { x, y } => {
            &&& x < s.width && y < s.height
            &&& s.rng.state == s0
            &&& forall|mid: Seq<u64>|
                #[trigger] closes_border(w, h, fresh, mid) ==> mid[cell_index(w, x as int, y as int)] == 0 && (forall|i: int|
                    0 <= i < cell_index(w, x as int, y as int) ==> #[trigger] mid[i] != 0) && s.wfc.cells@ == closed_before(
                    fresh,
                    mid,
                    cell_index(w, x as int, y as int),
                )
        },
        WfcError::Contradiction { x, y } => {
            ||| s.rng.state == s0 && exists|mid: Seq<u64>|
                #[trigger] closes_border(w, h, fresh, mid) && no_empty_cell(mid) && (forall|sub: Seq<u64>|
                    #[trigger] arc_consistent(w, h, sub) && narrowed(mid, sub) ==> !no_empty_cell(sub)) && sweep_failed(
                    s.width,
                    s.height,
                    mid,
                    cell_coords(s.width, changed_upto(fresh, mid, fresh.len() as int)),
                    s.wfc.cells@,
                    x,
                    y,
                )
            ||| exists|mid: Seq<u64>, cs: Seq<Seq<u64>>, ss: Seq<u64>|
                #[trigger] closes_border(w, h, fresh, mid) && #[trigger] seed_trace(s.width, s.height, cs, ss)
                    && border_swept(s.width, s.height, fresh, mid, cs[0]) && arc_consistent(w, h, cs[0]) && ss[0] == s0
                    && cs.len() <= rounds && seed_round_failed(s.width, s.height, cs.last(), ss.last(), s.rng.state, s.wfc.cells@, x, y)
        },
        WfcError::NoCandidates { .. } => false,
    }
}

/// Closing the border of `fresh` gave `mid`, in which every cell keeps a
/// candidate, and propagation from the cells that closing changed, in
/// order, ended without a contradiction in `b`.
pub open spec fn border_swept(width: usize, height: usize, fresh: Seq<u64>, mid: Seq<u64>, b: Seq<u64>) -> bool {
    &&& no_empty_cell(mid)
    &&& propagated_from(width as int, height as int, mid, b)
    &&& sweeps_clean(width, height, mid, cell_coords(width, changed_upto(fresh, mid, fresh.len() as int)), b)
}

proof fn lemma_reset_done_ok(s: WfcSession, mid: Seq<u64>, cs: Seq<Seq<u64>>, ss: Seq<u64>)
    requires
        s.status == Status::Reset,
        closes_border(s.width as int, s.height as int, Seq::new((s.width * s.height) as nat, |i: int| 0xFFFFu64), mid),
        seed_trace(s.width, s.height, cs, ss),
        border_swept(s.width, s.height, Seq::new((s.width * s.height) as nat, |i: int| 0xFFFFu64), mid, cs[0]),
        arc_consistent(s.width as int, s.height as int, cs[0]),
        ss[0] == seed_start(s.seed),
        cs.len() == (if s.width >= 3 && s.height >= 3 {
            s.initial_road_count as int
        } else {
            0
        }) + 1,
        cs.last() == s.wfc.cells@,
        ss.last() == s.rng.state,
    ensures
        reset_from_settings(&s),
{
    reveal(reset_from_settings);
}

proof fn lemma_reset_done_seed_failed(s: WfcSession, mid: Seq<u64>, cs: Seq<Seq<u64>>, ss: Seq<u64>, x: usize, y: usize)
    requires
        s.status == (Status::Failed { error: WfcError::Contradiction { x, y } }),
        s.width >= 3,
        s.height >= 3,
        closes_border(s.width as int, s.height as int, Seq::new((s.width * s.height) as nat, |i: int| 0xFFFFu64), mid),
        seed_trace(s.width, s.height, cs, ss),
        border_swept(s.width, s.height, Seq::new((s.width * s.height) as nat, |i: int| 0xFFFFu64), mid, cs[0]),
        arc_consistent(s.width as int, s.height as int, cs[0]),
        ss[0] == seed_start(s.seed),
        cs.len() <= s.initial_road_count,
        seed_round_failed(s.width, s.height, cs.last(), ss.last(), s.rng.state, s.wfc.cells@, x, y),
    ensures
        reset_from_settings(&s),
{
    reveal(reset_from_settings);
}

proof fn lemma_reset_done_border_failed(s: WfcSession, mid: Seq<u64>, x: usize, y: usize)
    requires
        s.status == (Status::Failed { error: WfcError::Contradiction { x, y } }),
        s.rng.state == seed_start(s.seed),
        closes_border(s.width as int, s.height as int, Seq::new((s.width * s.height) as nat, |i: int| 0xFFFFu64), mid),
        no_empty_cell(mid),
        forall|sub: Seq<u64>|
            #[trigger] arc_consistent(s.width as int, s.height as int, sub) && narrowed(mid, sub) ==> !no_empty_cell(sub),
        sweep_failed(
            s.width,
            s.height,
            mid,
            cell_coords(s.width, changed_upto(Seq::new((s.width * s.height) as nat, |i: int| 0xFFFFu64), mid, (s.width * s.height) as int)),
            s.wfc.cells@,
            x,
            y,
        ),
    ensures
        reset_from_settings(&s),
{
    reveal(reset_from_settings);
}

proof fn lemma_reset_done_closing_failed(s: WfcSession, x: usize, y: usize, fresh: Seq<u64>)
    requires
        fresh == Seq::new((s.width * s.height) as nat, |i: int| 0xFFFFu64),
        s.status == (Status::Failed { error: WfcError::Boundary { x, y } }),
        x < s.width,
        y < s.height,
        s.rng.state == seed_start(s.seed),
        forall|mid: Seq<u64>|
            #[trigger] closes_border(s.width as int, s.height as int, fresh, mid) ==> mid[cell_index(s.width as int, x as int, y as int)] == 0 && (forall|i: int|
                0 <= i < cell_index(s.width as int, x as int, y as int) ==> #[trigger] mid[i] != 0) && s.wfc.cells@ == closed_before(
                fresh,
                mid,
                cell_index(s.width as int, x as int, y as int),
            ),
    ensures
        reset_from_settings(&s),
{
    reveal(reset_from_settings);
}

/// The border closing of a grid is a single grid.
proof fn lemma_closes_border_unique(w: int, h: int, a: Seq<u64>, m1: Seq<u64>, m2: Seq<u64>)
    requires
        closes_border(w, h, a, m1),
        closes_border(w, h, a, m2),
        0 <= w,
        0 <= h,
    ensures
        m1 == m2,
{
    assert forall|i: int| 0 <= i < m1.len() implies #[trigger] m1[i] == m2[i] by {
        lemma_cell_coords(i, w, h);
        let x = i % w;
        let y = i / w;
        assert forall|u: u64| u < 64 implies #[trigger] has_bit(m1[i], u) == has_bit(m2[i], u) by {
            assert(has_bit(m1[cell_index(w, x, y)], u) == has_bit(m2[cell_index(w, x, y)], u));
        }
        lemma_bits_ext(m1[i], m2[i]);
    }
    assert(m1 =~= m2);
}

/// A mask holding exactly the bits below `k` that `p` picks.
proof fn lemma_mask_exists(p: spec_fn(u64) -> bool, k: u64) -> (m: u64)
    requires
        k <= 64,
    ensures
        forall|u: u64| u < 64 ==> #[trigger] has_bit(m, u) == (u < k && p(u)),
    decreases k,
{
    if k == 0 {
        lemma_no_bits_in_zero();
        0
    } else {
        let m0 = lemma_mask_exists(p, (k - 1) as u64);
        if p((k - 1) as u64) {
            let t = (k - 1) as u64;
            let m = m0 | (1u64 << t);
            assert forall|u: u64| u < 64 implies #[trigger] has_bit(m, u) == (u < k && p(u)) by {
                lemma_bit_or(m0, 1u64 << t, u);
                lemma_bit_single(t, u);
            }
            m
        } else {
            m0
        }
    }
}

/// `m` holds the tiles of `c`, the mask of cell `i`, with no road leaving
/// the grid.
pub open spec fn closes_cell(w: int, h: int, c: u64, i: int, m: u64) -> bool {
    forall|u: u64| u < 64 ==> #[trigger] has_bit(m, u) == (u < 16 && has_bit(c, u) && boundary_ok(w, h, i % w, i / w, u as int))
}

/// Every grid has a border closing.
proof fn lemma_closing_exists(w: int, h: int, a: Seq<u64>) -> (mid: Seq<u64>)
    requires
        0 <= w,
        0 <= h,
        a.len() == w * h,
    ensures
        closes_border(w, h, a, mid),
{
    let mid = Seq::new(a.len(), |i: int| choose|m: u64| #[trigger] closes_cell(w, h, a[i], i, m));
    assert forall|x: int, y: int, u: u64| 0 <= x < w && 0 <= y < h && u < 64 implies #[trigger] has_bit(
        mid[cell_index(w, x, y)],
        u,
    ) == (u < 16 && has_bit(a[cell_index(w, x, y)], u) && boundary_ok(w, h, x, y, u as int)) by {
        let i = cell_index(w, x, y);
        lemma_index_in_range(w, h, x, y);
        lemma_cell_coords(i, w, h);
        lemma_index_injective(w, i % w, i / w, x, y);
        let p = |v: u64| has_bit(a[i], v) && boundary_ok(w, h, i % w, i / w, v as int);
        let m = lemma_mask_exists(p, 16);
        assert(closes_cell(w, h, a[i], i, m));
        assert(closes_cell(w, h, a[i], i, mid[i]));
    }
    mid
}

/// Try `k` and try `j` cannot both be the first hit of a round.
proof fn lemma_first_hit_unique(w: usize, h: usize, a: Seq<u64>, s: u64, k: int, j: int)
    requires
        first_hit(w, h, a, s, k),
        first_hit(w, h, a, s, j),
    ensures
        k == j,
{
    if k < j {
        assert(!try_hits(w, h, a, seed_state(s, k)));
    }
    if j < k {
        assert(!try_hits(w, h, a, seed_state(s, j)));
    }
}

/// A seeding round has one outcome.
proof fn lemma_round_same(w: usize, h: usize, a: Seq<u64>, s: u64, b1: Seq<u64>, s1: u64, b2: Seq<u64>, s2: u64)
    requires
        seed_round(w, h, a, s, b1, s1),
        seed_round(w, h, a, s, b2, s2),
    ensures
        b1 == b2,
        s1 == s2,
{
    if exists|k: int| #[trigger] first_hit(w, h, a, s, k) {
        let k0 = choose|k: int| #[trigger] first_hit(w, h, a, s, k);
        assert(try_hits(w, h, a, seed_state(s, k0)));
        let k1 = choose|k: int|
            #[trigger] first_hit(w, h, a, s, k) && s1 == seed_state(s, k + 1) && propagated_from(
                w as int,
                h as int,
                fixed_cells(w, h, a, s, k),
                b1,
            ) && (arc_consistent(w as int, h as int, a) ==> arc_consistent(w as int, h as int, b1)) && sweeps_clean(
                w,
                h,
                fixed_cells(w, h, a, s, k),
                try_queue(w, h, s, k),
                b1,
            );
        let k2 = choose|k: int|
            #[trigger] first_hit(w, h, a, s, k) && s2 == seed_state(s, k + 1) && propagated_from(
                w as int,
                h as int,
                fixed_cells(w, h, a, s, k),
                b2,
            ) && (arc_consistent(w as int, h as int, a) ==> arc_consistent(w as int, h as int, b2)) && sweeps_clean(
                w,
                h,
                fixed_cells(w, h, a, s, k),
                try_queue(w, h, s, k),
                b2,
            );
        lemma_first_hit_unique(w, h, a, s, k1, k2);
        lemma_sweeps_clean_unique(w, h, fixed_cells(w, h, a, s, k1), try_queue(w, h, s, k1), b1, b2);
    }
}

/// A seeding round that succeeds does not fail.
proof fn lemma_round_not_failed(w: usize, h: usize, a: Seq<u64>, s: u64, b: Seq<u64>, s1: u64, s2: u64, c: Seq<u64>, x: usize, y: usize)
    requires
        seed_round(w, h, a, s, b, s1),
    ensures
        !seed_round_failed(w, h, a, s, s2, c, x, y),
{
    if seed_round_failed(w, h, a, s, s2, c, x, y) {
        let k = choose|k: int|
            #[trigger] first_hit(w, h, a, s, k) && s2 == seed_state(s, k + 1) && no_tiling(
                w as int,
                h as int,
                fixed_cells(w, h, a, s, k),
            ) && (forall|sub: Seq<u64>|
                #[trigger] arc_consistent(w as int, h as int, sub) && narrowed(fixed_cells(w, h, a, s, k), sub)
                    ==> !no_empty_cell(sub)) && sweep_failed(w, h, fixed_cells(w, h, a, s, k), try_queue(w, h, s, k), c, x, y);
        assert(try_hits(w, h, a, seed_state(s, k)));
        let k1 = choose|k: int|
            #[trigger] first_hit(w, h, a, s, k) && s1 == seed_state(s, k + 1) && propagated_from(
                w as int,
                h as int,
                fixed_cells(w, h, a, s, k),
                b,
            ) && (arc_consistent(w as int, h as int, a) ==> arc_consistent(w as int, h as int, b)) && sweeps_clean(
                w,
                h,
                fixed_cells(w, h, a, s, k),
                try_queue(w, h, s, k),
                b,
            );
        lemma_first_hit_unique(w, h, a, s, k, k1);
        lemma_sweep_clean_not_failed(w, h, fixed_cells(w, h, a, s, k), try_queue(w, h, s, k), b, c, x, y);
    }
}

/// A failing seeding round fails in one way.
proof fn lemma_round_failed_unique(
    w: usize,
    h: usize,
    a: Seq<u64>,
    s: u64,
    s1: u64,
    c1: Seq<u64>,
    x1: usize,
    y1: usize,
    s2: u64,
    c2: Seq<u64>,
    x2: usize,
    y2: usize,
)
    requires
        seed_round_failed(w, h, a, s, s1, c1, x1, y1),
        seed_round_failed(w, h, a, s, s2, c2, x2, y2),
    ensures
        s1 == s2,
        c1 == c2,
        x1 == x2,
        y1 == y2,
{
    let k1 = choose|k: int|
        #[trigger] first_hit(w, h, a, s, k) && s1 == seed_state(s, k + 1) && no_tiling(
            w as int,
            h as int,
            fixed_cells(w, h, a, s, k),
        ) && (forall|sub: Seq<u64>|
            #[trigger] arc_consistent(w as int, h as int, sub) && narrowed(fixed_cells(w, h, a, s, k), sub)
                ==> !no_empty_cell(sub)) && sweep_failed(w, h, fixed_cells(w, h, a, s, k), try_queue(w, h, s, k), c1, x1, y1);
    let k2 = choose|k: int|
        #[trigger] first_hit(w, h, a, s, k) && s2 == seed_state(s, k + 1) && no_tiling(
            w as int,
            h as int,
            fixed_cells(w, h, a, s, k),
        ) && (forall|sub: Seq<u64>|
            #[trigger] arc_consistent(w as int, h as int, sub) && narrowed(fixed_cells(w, h, a, s, k), sub)
                ==> !no_empty_cell(sub)) && sweep_failed(w, h, fixed_cells(w, h, a, s, k), try_queue(w, h, s, k), c2, x2, y2);
    lemma_first_hit_unique(w, h, a, s, k1, k2);
    lemma_sweep_failed_unique(w, h, fixed_cells(w, h, a, s, k1), try_queue(w, h, s, k1), c1, x1, y1, c2, x2, y2);
}

/// Two traces of seeding rounds from one start agree as far as both go.
proof fn lemma_seed_trace_agree(
    w: usize,
    h: usize,
    cs1: Seq<Seq<u64>>,
    ss1: Seq<u64>,
    cs2: Seq<Seq<u64>>,
    ss2: Seq<u64>,
    r: int,
)
    requires
        seed_trace(w, h, cs1, ss1),
        seed_trace(w, h, cs2, ss2),
        cs1[0] == cs2[0],
        ss1[0] == ss2[0],
        0 <= r < cs1.len(),
        r < cs2.len(),
    ensures
        cs1[r] == cs2[r],
        ss1[r] == ss2[r],
    decreases r,
{
    if r > 0 {
        lemma_seed_trace_agree(w, h, cs1, ss1, cs2, ss2, r - 1);
        let q = r - 1;
        assert(seed_round(w, h, cs1[q], ss1[q], cs1[q + 1], ss1[q + 1]));
        assert(seed_round(w, h, cs2[q], ss2[q], cs2[q + 1], ss2[q + 1]));
        lemma_round_same(w, h, cs1[q], ss1[q], cs1[r], ss1[r], cs2[r], ss2[r]);
    }
}

/// A trace of seeding rounds that goes on past the last cells of another
/// from the same start succeeds there, so the other does not fail there.
proof fn lemma_trace_passes(
    w: usize,
    h: usize,
    cs1: Seq<Seq<u64>>,
    ss1: Seq<u64>,
    cs2: Seq<Seq<u64>>,
    ss2: Seq<u64>,
    s2: u64,
    c: Seq<u64>,
    x: usize,
    y: usize,
)
    requires
        seed_trace(w, h, cs1, ss1),
        seed_trace(w, h, cs2, ss2),
        cs1[0] == cs2[0],
        ss1[0] == ss2[0],
        cs2.len() < cs1.len(),
    ensures
        !seed_round_failed(w, h, cs2.last(), ss2.last(), s2, c, x, y),
{
    let j = cs2.len() - 1;
    lemma_seed_trace_agree(w, h, cs1, ss1, cs2, ss2, j);
    assert(seed_round(w, h, cs1[j], ss1[j], cs1[j + 1], ss1[j + 1]));
    lemma_round_not_failed(w, h, cs1[j], ss1[j], cs1[j + 1], ss1[j + 1], s2, c, x, y);
}

/// The reset facts of session `s`, told of the one closing `mid` of the
/// fresh grid.
proof fn lemma_reset_with(s: WfcSession, mid: Seq<u64>)
    requires
        s.reset_done(),
        closes_border(s.width as int, s.height as int, Seq::new((s.width * s.height) as nat, |i: int| 0xFFFFu64), mid),
    ensures
        ({
            let w = s.width as int;
            let h = s.height as int;
            let fresh = Seq::new((s.width * s.height) as nat, |i: int| 0xFFFFu64);
            let s0 = seed_start(s.seed);
            let rounds = if s.width >= 3 && s.height >= 3 {
                s.initial_road_count as int
            } else {
                0
            };
            &&& s.status == Status::Reset ==> exists|cs: Seq<Seq<u64>>, ss: Seq<u64>|
                #[trigger] seed_trace(s.width, s.height, cs, ss) && border_swept(s.width, s.height, fresh, mid, cs[0]) && ss[0]
                    == s0 && cs.len() == rounds + 1 && cs.last() == s.wfc.cells@ && ss.last() == s.rng.state
            &&& s.status matches Status::Failed { error } ==> match error {
                WfcError::Boundary { x, y } => {
                    &&& x < s.width && y < s.height
                    &&& s.rng.state == s0
                    &&& mid[cell_index(w, x as int, y as int)] == 0
                    &&& forall|i: int| 0 <= i < cell_index(w, x as int, y as int) ==> #[trigger] mid[i] != 0
                    &&& s.wfc.cells@ == closed_before(fresh, mid, cell_index(w, x as int, y as int))
                },
                WfcError::Contradiction { x, y } => {
                    ||| s.rng.state == s0 && no_empty_cell(mid) && sweep_failed(
                        s.width,
                        s.height,
                        mid,
                        cell_coords(s.width, changed_upto(fresh, mid, fresh.len() as int)),
                        s.wfc.cells@,
                        x,
                        y,
                    )
                    ||| exists|cs: Seq<Seq<u64>>, ss: Seq<u64>|
                        #[trigger] seed_trace(s.width, s.height, cs, ss) && border_swept(s.width, s.height, fresh, mid, cs[0])
                            && ss[0] == s0 && cs.len() <= rounds && seed_round_failed(
                            s.width,
                            s.height,
                            cs.last(),
                            ss.last(),
                            s.rng.state,
                            s.wfc.cells@,
                            x,
                            y,
                        )
                },
                WfcError::NoCandidates { .. } => false,
            }
        }),
{
    reveal(reset_from_settings);
    let w = s.width as int;
    let h = s.height as int;
    let fresh = Seq::new((s.width * s.height) as nat, |i: int| 0xFFFFu64);
    assert(fresh == Seq::new((w * h) as nat, |i: int| 0xFFFFu64));
    if s.status == Status::Reset {
        let (m, cs, ss) = choose|mid: Seq<u64>, cs: Seq<Seq<u64>>, ss: Seq<u64>|
            #[trigger] closes_border(w, h, fresh, mid) && #[trigger] seed_trace(s.width, s.height, cs, ss)
                && border_swept(s.width, s.height, fresh, mid, cs[0]) && arc_consistent(w, h, cs[0]) && ss[0] == seed_start(s.seed)
                && cs.len() == (if s.width >= 3 && s.height >= 3 {
                s.initial_road_count as int
            } else {
                0
            }) + 1 && cs.last() == s.wfc.cells@ && ss.last() == s.rng.state;
        lemma_closes_border_unique(w, h, fresh, m, mid);
    }
    if let Status::Failed { error: WfcError::Contradiction { x, y } } = s.status {
        if !(s.rng.state == seed_start(s.seed) && exists|m: Seq<u64>|
            #[trigger] closes_border(w, h, fresh, m) && no_empty_cell(m) && (forall|sub: Seq<u64>|
                #[trigger] arc_consistent(w, h, sub) && narrowed(m, sub) ==> !no_empty_cell(sub)) && sweep_failed(
                s.width,
                s.height,
                m,
                cell_coords(s.width, changed_upto(fresh, m, fresh.len() as int)),
                s.wfc.cells@,
                x,
                y,
            )) {
            let (m, cs, ss) = choose|m: Seq<u64>, cs: Seq<Seq<u64>>, ss: Seq<u64>|
                #[trigger] closes_border(w, h, fresh, m) && #[trigger] seed_trace(s.width, s.height, cs, ss)
                    && border_swept(s.width, s.height, fresh, m, cs[0]) && arc_consistent(w, h, cs[0]) && ss[0] == seed_start(s.seed)
                    && cs.len() <= (if s.width >= 3 && s.height >= 3 {
                    s.initial_road_count as int
                } else {
                    0
                }) && seed_round_failed(s.width, s.height, cs.last(), ss.last(), s.rng.state, s.wfc.cells@, x, y);
            lemma_closes_border_unique(w, h, fresh, m, mid);
        } else {
            let m = choose|m: Seq<u64>|
                #[trigger] closes_border(w, h, fresh, m) && no_empty_cell(m) && (forall|sub: Seq<u64>|
                    #[trigger] arc_consistent(w, h, sub) && narrowed(m, sub) ==> !no_empty_cell(sub)) && sweep_failed(
                    s.width,
                    s.height,
                    m,
                    cell_coords(s.width, changed_upto(fresh, m, fresh.len() as int)),
                    s.wfc.cells@,
                    x,
                    y,
                );
            lemma_closes_border_unique(w, h, fresh, m, mid);
        }
    }
}

/// One half of the reset law: when `a` reset without failure, or failed
/// at closing the border, or both failed with a contradiction, `b` holds
/// what `a` holds.
proof fn lemma_reset_pair(a: WfcSession, b: WfcSession, mid: Seq<u64>)
    requires
        a.reset_done(),
        b.reset_done(),
        a.width == b.width,
        a.height == b.height,
        a.seed == b.seed,
        a.initial_road_count == b.initial_road_count,
        closes_border(a.width as int, a.height as int, Seq::new((a.width * a.height) as nat, |i: int| 0xFFFFu64), mid),
    ensures
        (a.status == Status::Reset || a.status matches Status::Failed { error: WfcError::Boundary { .. } } || (
        a.status matches Status::Failed { error: WfcError::Contradiction { .. } }
            && b.status matches Status::Failed { error: WfcError::Contradiction { .. } })) ==> {
            &&& a.wfc.cells@ == b.wfc.cells@
            &&& a.rng.state == b.rng.state
            &&& a.status == b.status
        },
{
    let w = a.width as int;
    let h = a.height as int;
    let fresh = Seq::new((a.width * a.height) as nat, |i: int| 0xFFFFu64);
    let q0 = cell_coords(a.width, changed_upto(fresh, mid, fresh.len() as int));
    let s0 = seed_start(a.seed);
    lemma_reset_with(a, mid);
    lemma_reset_with(b, mid);
    if a.status == Status::Reset {
        let (cs1, ss1) = choose|cs: Seq<Seq<u64>>, ss: Seq<u64>|
            #[trigger] seed_trace(a.width, a.height, cs, ss) && border_swept(a.width, a.height, fresh, mid, cs[0]) && ss[0]
                == s0 && cs.len() == (if a.width >= 3 && a.height >= 3 {
                a.initial_road_count as int
            } else {
                0
            }) + 1 && cs.last() == a.wfc.cells@ && ss.last() == a.rng.state;
        if b.status == Status::Reset {
            let (cs2, ss2) = choose|cs: Seq<Seq<u64>>, ss: Seq<u64>|
                #[trigger] seed_trace(b.width, b.height, cs, ss) && border_swept(b.width, b.height, fresh, mid, cs[0]) && ss[0]
                    == s0 && cs.len() == (if b.width >= 3 && b.height >= 3 {
                    b.initial_road_count as int
                } else {
                    0
                }) + 1 && cs.last() == b.wfc.cells@ && ss.last() == b.rng.state;
            lemma_sweeps_clean_unique(a.width, a.height, mid, q0, cs1[0], cs2[0]);
            lemma_seed_trace_agree(a.width, a.height, cs1, ss1, cs2, ss2, cs1.len() - 1);
        } else if let Status::Failed { error } = b.status {
            match error {
                WfcError::Boundary { x, y } => {
                    lemma_index_in_range(w, h, x as int, y as int);
                    assert(mid[cell_index(w, x as int, y as int)] != 0);
                },
                WfcError::Contradiction { x, y } => {
                    lemma_sweep_clean_not_failed(a.width, a.height, mid, q0, cs1[0], b.wfc.cells@, x, y);
                    if !(b.rng.state == s0 && no_empty_cell(mid) && sweep_failed(a.width, a.height, mid, q0, b.wfc.cells@, x, y)) {
                        let (cs2, ss2) = choose|cs: Seq<Seq<u64>>, ss: Seq<u64>|
                            #[trigger] seed_trace(b.width, b.height, cs, ss) && border_swept(b.width, b.height, fresh, mid, cs[0])
                                && ss[0] == s0 && cs.len() <= (if b.width >= 3 && b.height >= 3 {
                                b.initial_road_count as int
                            } else {
                                0
                            }) && seed_round_failed(b.width, b.height, cs.last(), ss.last(), b.rng.state, b.wfc.cells@, x, y);
                        lemma_sweeps_clean_unique(a.width, a.height, mid, q0, cs1[0], cs2[0]);
                        lemma_trace_passes(a.width, a.height, cs1, ss1, cs2, ss2, b.rng.state, b.wfc.cells@, x, y);
                    }
                },
                WfcError::NoCandidates { .. } => {},
            }
        }
    } else if let Status::Failed { error: WfcError::Boundary { x, y } } = a.status {
        let ia = cell_index(w, x as int, y as int);
        lemma_index_in_range(w, h, x as int, y as int);
        if b.status == Status::Reset {
            let (cs2, ss2) = choose|cs: Seq<Seq<u64>>, ss: Seq<u64>|
                #[trigger] seed_trace(b.width, b.height, cs, ss) && border_swept(b.width, b.height, fresh, mid, cs[0]) && ss[0]
                    == s0 && cs.len() == (if b.width >= 3 && b.height >= 3 {
                b.initial_road_count as int
            } else {
                0
            }) + 1 && cs.last() == b.wfc.cells@ && ss.last() == b.rng.state;
            assert(mid[ia] != 0);
        } else if let Status::Failed { error } = b.status {
            match error {
                WfcError::Boundary { x: x2, y: y2 } => {
                    let ib = cell_index(w, x2 as int, y2 as int);
                    lemma_index_in_range(w, h, x2 as int, y2 as int);
                    if ia < ib {
                        assert(mid[ia] != 0);
                    }
                    if ib < ia {
                        assert(mid[ib] != 0);
                    }
                    lemma_index_injective(w, x as int, y as int, x2 as int, y2 as int);
                },
                WfcError::Contradiction { x: x2, y: y2 } => {
                    if !(b.rng.state == s0 && no_empty_cell(mid) && sweep_failed(a.width, a.height, mid, q0, b.wfc.cells@, x2, y2)) {
                        let (cs2, ss2) = choose|cs: Seq<Seq<u64>>, ss: Seq<u64>|
                            #[trigger] seed_trace(b.width, b.height, cs, ss) && border_swept(b.width, b.height, fresh, mid, cs[0])
                                && ss[0] == s0 && cs.len() <= (if b.width >= 3 && b.height >= 3 {
                                b.initial_road_count as int
                            } else {
                                0
                            }) && seed_round_failed(b.width, b.height, cs.last(), ss.last(), b.rng.state, b.wfc.cells@, x2, y2);
                    }
                    assert(mid[ia] != 0);
                },
                WfcError::NoCandidates { .. } => {},
            }
        }
    } else if let Status::Failed { error: WfcError::Contradiction { x, y } } = a.status {
        if let Status::Failed { error: WfcError::Contradiction { x: x2, y: y2 } } = b.status {
            let a_border = a.rng.state == s0 && no_empty_cell(mid) && sweep_failed(a.width, a.height, mid, q0, a.wfc.cells@, x, y);
            let b_border = b.rng.state == s0 && no_empty_cell(mid) && sweep_failed(a.width, a.height, mid, q0, b.wfc.cells@, x2, y2);
            if a_border && b_border {
                lemma_sweep_failed_unique(a.width, a.height, mid, q0, a.wfc.cells@, x, y, b.wfc.cells@, x2, y2);
            } else if a_border {
                let (cs2, ss2) = choose|cs: Seq<Seq<u64>>, ss: Seq<u64>|
                    #[trigger] seed_trace(b.width, b.height, cs, ss) && border_swept(b.width, b.height, fresh, mid, cs[0])
                        && ss[0] == s0 && cs.len() <= (if b.width >= 3 && b.height >= 3 {
                        b.initial_road_count as int
                    } else {
                        0
                    }) && seed_round_failed(b.width, b.height, cs.last(), ss.last(), b.rng.state, b.wfc.cells@, x2, y2);
                lemma_sweep_clean_not_failed(a.width, a.height, mid, q0, cs2[0], a.wfc.cells@, x, y);
            } else if b_border {
                let (cs1, ss1) = choose|cs: Seq<Seq<u64>>, ss: Seq<u64>|
                    #[trigger] seed_trace(a.width, a.height, cs, ss) && border_swept(a.width, a.height, fresh, mid, cs[0])
                        && ss[0] == s0 && cs.len() <= (if a.width >= 3 && a.height >= 3 {
                        a.initial_road_count as int
                    } else {
                        0
                    }) && seed_round_failed(a.width, a.height, cs.last(), ss.last(), a.rng.state, a.wfc.cells@, x, y);
                lemma_sweep_clean_not_failed(a.width, a.height, mid, q0, cs1[0], b.wfc.cells@, x2, y2);
            } else {
                let (cs1, ss1) = choose|cs: Seq<Seq<u64>>, ss: Seq<u64>|
                    #[trigger] seed_trace(a.width, a.height, cs, ss) && border_swept(a.width, a.height, fresh, mid, cs[0])
                        && ss[0] == s0 && cs.len() <= (if a.width >= 3 && a.height >= 3 {
                        a.initial_road_count as int
                    } else {
                        0
                    }) && seed_round_failed(a.width, a.height, cs.last(), ss.last(), a.rng.state, a.wfc.cells@, x, y);
                let (cs2, ss2) = choose|cs: Seq<Seq<u64>>, ss: Seq<u64>|
                    #[trigger] seed_trace(b.width, b.height, cs, ss) && border_swept(b.width, b.height, fresh, mid, cs[0])
                        && ss[0] == s0 && cs.len() <= (if b.width >= 3 && b.height >= 3 {
                        b.initial_road_count as int
                    } else {
                        0
                    }) && seed_round_failed(b.width, b.height, cs.last(), ss.last(), b.rng.state, b.wfc.cells@, x2, y2);
                lemma_sweeps_clean_unique(a.width, a.height, mid, q0, cs1[0], cs2[0]);
                if cs1.len() < cs2.len() {
                    lemma_trace_passes(a.width, a.height, cs2, ss2, cs1, ss1, a.rng.state, a.wfc.cells@, x, y);
                } else if cs2.len() < cs1.len() {
                    lemma_trace_passes(a.width, a.height, cs1, ss1, cs2, ss2, b.rng.state, b.wfc.cells@, x2, y2);
                } else {
                    lemma_seed_trace_agree(a.width, a.height, cs1, ss1, cs2, ss2, cs1.len() - 1);
                    lemma_round_failed_unique(
                        a.width,
                        a.height,
                        cs1.last(),
                        ss1.last(),
                        a.rng.state,
                        a.wfc.cells@,
                        x,
                        y,
                        b.rng.state,
                        b.wfc.cells@,
                        x2,
                        y2,
                    );
                }
            }
        }
    }
}

/// Law (a reset is determined by the settings): two sessions with the same
/// size, seed and number of initial roads, once reset, hold the same
/// cells, the same generator state and the same status, whether the reset
/// succeeded or failed.
pub proof fn lemma_reset_deterministic(a: WfcSession, b: WfcSession)
    requires
        a.reset_done(),
        b.reset_done(),
        a.width == b.width,
        a.height == b.height,
        a.seed == b.seed,
        a.initial_road_count == b.initial_road_count,
    ensures
        a.wfc.cells@ == b.wfc.cells@,
        a.rng.state == b.rng.state,
        a.status == b.status,
        a.contradiction == b.contradiction,
        a.finished == b.finished,
        a.last_collapsed == b.last_collapsed,
{
    let w = a.width as int;
    let h = a.height as int;
    let fresh = Seq::new((a.width * a.height) as nat, |i: int| 0xFFFFu64);
    let mid = lemma_closing_exists(w, h, fresh);
    lemma_reset_with(a, mid);
    lemma_reset_with(b, mid);
    lemma_reset_pair(a, b, mid);
    lemma_reset_pair(b, a, mid);
}

/// What the last action of a session reported.
#[derive(Clone, Copy, Debug, PartialEq, Eq, Structural)]
pub enum Status {
    /// Nothing yet.
    Idle,
    /// The board was set up anew.
    Reset,
    /// Every cell is decided.
    Finished,
    /// Cell `(x, y)` was fixed to the tile with road mask `mask`.
    Collapsed { x: usize, y: usize, mask: u8 },
    /// The run cannot go on.
    Failed { error: WfcError },
}

/// A run of wave function collapse with its settings: the grid size, the
/// seed of the random numbers, the number of roads seeded at the start,
/// whether it advances by itself, and what its last step did.
#[derive(Debug)]
pub struct WfcSession {
    pub wfc: Wfc,
    pub rng: Rng,
    pub width: usize,
    pub height: usize,
    pub seed: u64,
    pub initial_road_count: usize,
    pub auto: bool,
    pub last_collapsed: Option<usize>,
    pub last_changed: Vec<usize>,
    pub status: Status,
    pub finished: bool,
    pub contradiction: bool,
}

impl WfcSession {
    /// The run's invariant: its grid has the session's size.
    pub open spec fn wf(&self) -> bool {
        &&& self.wfc.wf()
        &&& self.wfc.width == self.width
        &&& self.wfc.height == self.height
        &&& self.width * self.height <= isize::MAX
    }

    /// What a reset leaves: a fresh grid, closed at the border and seeded
    /// with roads, or a failure.  A failure other than a contradiction met
    /// while seeding means that no tiling of the grid keeps its roads
    /// inside it.
    pub open spec fn reset_done(&self) -> bool {
        let w = self.width as int;
        let h = self.height as int;
        &&& self.wf()
        &&& self.last_collapsed is None
        &&& !self.finished
        &&& self.contradiction == self.status is Failed
        &&& (self.status == Status::Reset || self.status is Failed)
        &&& self.status is Failed ==> self.last_changed@.len() == 0
        &&& self.status matches Status::Failed { error } ==> error is Contradiction || no_closed_tiling(w, h)
        &&& self.status == Status::Reset ==> changes_listed(
            Seq::new((w * h) as nat, |i: int| 0xFFFFu64),
            self.wfc.cells@,
            self.last_changed@,
        )
        &&& self.status == Status::Reset ==> settled(w, h, self.wfc.cells@)
        &&& reset_from_settings(self)
    }

    /// A session on a `width` by `height` grid, set up with `reset_world`.
    pub fn new(width: usize, height: usize, seed: u64, initial_road_count: usize) -> (s: WfcSession)
        requires
            width * height <= isize::MAX,
        ensures
            s.reset_done(),
            s.width == width,
            s.height == height,
            s.seed == seed,
            s.initial_road_count == initial_road_count,
            !s.auto,
    {
        let mut s = WfcSession {
            wfc: Wfc::new(width, height),
            rng: Rng::new(seed),
            width,
            height,
            seed,
            initial_road_count,
            auto: false,
            last_collapsed: None,
            last_changed: Vec::new(),
            status: Status::Idle,
            finished: false,
            contradiction: false,
        };
        s.reset_world();
        s
    }

    /// Starts over with the session's settings: a fresh grid of its size,
    /// the random numbers restarted from the seed, the border closed, and
    /// the initial roads seeded.
    #[verifier::rlimit(60)]
    pub fn reset_world(&mut self)
        requires
            old(self).width * old(self).height <= isize::MAX,
        ensures
            final(self).reset_done(),
            final(self).width == old(self).width,
            final(self).height == old(self).height,
            final(self).seed == old(self).seed,
            final(self).initial_road_count == old(self).initial_road_count,
            final(self).auto == old(self).auto,
    {
        self.wfc = Wfc::new(self.width, self.height);
        self.rng = Rng::new(self.seed);
        self.last_collapsed = None;
        self.last_changed.clear();
        self.finished = false;
        self.contradiction = false;
        let ghost fresh = self.wfc.cells@;
        let ghost w = self.width as int;
        let ghost h = self.height as int;
        proof {
            assert(fresh =~= Seq::new((w * h) as nat, |i: int| 0xFFFFu64));
            lemma_fresh_arc_consistent(w, h, fresh);
        }
        let ghost s0 = self.rng.state;
        proof {
            assert(s0 == seed_start(self.seed));
        }
        match self.wfc.apply_closed_boundary() {
            Ok(changed) => {
                let ghost closed = self.wfc.cells@;
                let ghost mid = choose|mid: Seq<u64>|
                    #[trigger] closes_border(w, h, fresh, mid) && propagated_from(w, h, mid, closed);
                let mut changed = changed;
                match self.wfc.seed_some_roads(&mut self.rng, self.initial_road_count) {
                    Ok(seeded) => {
                        proof {
                            lemma_changes_compose(fresh, closed, self.wfc.cells@, changed@, seeded@);
                            assert(settled(w, h, closed));
                        }
                        let mut seeded = seeded;
                        changed.append(&mut seeded);
                        self.last_changed = changed;
                        self.status = Status::Reset;
                        proof {
                            if self.width >= 3 && self.height >= 3 {
                                let (cs, ss) = choose|cs: Seq<Seq<u64>>, ss: Seq<u64>|
                                    #[trigger] seed_trace(self.width, self.height, cs, ss) && cs.len() == self.initial_road_count + 1
                                        && cs[0] == closed && ss[0] == s0 && cs.last() == self.wfc.cells@ && ss.last()
                                        == self.rng.state;
                                lemma_reset_done_ok(*self, mid, cs, ss);
                            } else {
                                let cs = seq![closed];
                                let ss = seq![s0];
                                assert(seed_trace(self.width, self.height, cs, ss));
                                lemma_reset_done_ok(*self, mid, cs, ss);
                            }
                        }
                    },
                    Err(err) => {
                        self.status = Status::Failed { error: err };
                        self.contradiction = true;
                        proof {
                            if let WfcError::Contradiction { x, y } = err {
                                let (cs, ss) = choose|cs: Seq<Seq<u64>>, ss: Seq<u64>|
                                    #[trigger] seed_trace(self.width, self.height, cs, ss) && cs.len() <= self.initial_road_count
                                        && cs[0] == closed && ss[0] == s0 && seed_round_failed(
                                        self.width,
                                        self.height,
                                        cs.last(),
                                        ss.last(),
                                        self.rng.state,
                                        self.wfc.cells@,
                                        x,
                                        y,
                                    );
                                lemma_reset_done_seed_failed(*self, mid, cs, ss, x, y);
                            }
                        }
                    },
                }
            },
            Err(err) => {
                proof {
                    assert forall|sol: Seq<int>| !(#[trigger] consistent_tiling(w, h, sol) && closed_tiling(w, h, sol)) by {
                        if consistent_tiling(w, h, sol) && closed_tiling(w, h, sol) {
                            lemma_fresh_allows(fresh, sol);
                        }
                    }
                }
                self.status = Status::Failed { error: err };
                self.contradiction = true;
                proof {
                    match err {
                        WfcError::Boundary { x, y } => {
                            assert(fresh =~= Seq::new((self.width * self.height) as nat, |i: int| 0xFFFFu64));
                            lemma_reset_done_closing_failed(*self, x, y, fresh);
                        },
                        WfcError::Contradiction { x, y } => {
                            let mid = choose|mid: Seq<u64>|
                                #[trigger] closes_border(w, h, fresh, mid) && no_empty_cell(mid) && forall|sub: Seq<u64>|
                                    #[trigger] arc_consistent(w, h, sub) && narrowed(mid, sub) ==> !no_empty_cell(sub);
                            assert(fresh.len() == (self.width * self.height) as int);
                            lemma_reset_done_border_failed(*self, mid, x, y);
                        },
                        WfcError::NoCandidates { .. } => {},
                    }
                }
            },
        }
    }

    /// One collapse step, unless the run is over: the step's report
    /// becomes the session's last step; a failure stops the run and its
    /// automatic advance.
    pub fn step_once(&mut self)
        requires
            old(self).wf(),
        ensures
            final(self).wf(),
            session_step(*old(self), *final(self)),
            settled(old(self).width as int, old(self).height as int, old(self).wfc.cells@) && !final(self).contradiction
                ==> settled(old(self).width as int, old(self).height as int, final(self).wfc.cells@),
    {
        if self.finished || self.contradiction {
            return;
        }
        match self.wfc.step(&mut self.rng) {
            Ok(report) => {
                if report.finished {
                    self.status = Status::Finished;
                } else {
                    let cell = match report.collapsed {
                        Some(c) => c,
                        None => 0,
                    };
                    proof {
                        assert(cell < self.wfc.cells@.len());
                        assert(self.width > 0) by (nonlinear_arith)
                            requires
                                cell < self.width * self.height,
                        ;
                    }
                    self.status = Status::Collapsed { x: cell % self.width, y: cell / self.width, mask: report.mask };
                }
                self.last_collapsed = report.collapsed;
                self.last_changed = report.changed;
                self.finished = report.finished;
            },
            Err(err) => {
                self.last_collapsed = None;
                self.last_changed.clear();
                self.status = Status::Failed { error: err };
                self.contradiction = true;
                self.auto = false;
            },
        }
    }

    /// Steps until the run is over, at most twice as many steps as there
    /// are cells.  Each step that neither finishes nor fails decides one
    /// more cell, so on a grid with cells the run is then over.
    pub fn run_to_end(&mut self)
        requires
            old(self).wf(),
        ensures
            final(self).wf(),
            final(self).width == old(self).width,
            final(self).height == old(self).height,
            final(self).seed == old(self).seed,
            final(self).initial_road_count == old(self).initial_road_count,
            final(self).wfc.same_frame(&old(self).wfc),
            narrowed(old(self).wfc.cells@, final(self).wfc.cells@),
            (old(self).finished || old(self).contradiction) ==> *final(self) == *old(self),
            old(self).width * old(self).height > 0 ==> final(self).finished || final(self).contradiction,
            settled(old(self).width as int, old(self).height as int, old(self).wfc.cells@) && !final(self).contradiction
                ==> settled(old(self).width as int, old(self).height as int, final(self).wfc.cells@),
            settled(old(self).width as int, old(self).height as int, old(self).wfc.cells@) && !(old(self).finished
                || old(self).contradiction) && final(self).finished ==> {
                let w = old(self).width as int;
                let h = old(self).height as int;
                let tiles = decided_tiles(final(self).wfc.cells@);
                &&& consistent_tiling(w, h, tiles)
                &&& closed_tiling(w, h, tiles)
                &&& tiling_within(final(self).wfc.cells@, tiles)
            },
    {
        let limit = self.width * self.height * 2;
        let ghost start = self.wfc.cells@;
        let ghost n = self.width * self.height;
        let ghost w = self.width as int;
        let ghost h = self.height as int;
        let ghost st = settled(w, h, start);
        let ghost live = !(self.finished || self.contradiction);
        proof {
            lemma_undecided_bound(self.wfc.cells@);
        }
        let mut k: usize = 0;
        while k < limit
            invariant
                self.wf(),
                self.width == old(self).width,
                self.height == old(self).height,
                self.seed == old(self).seed,
                self.initial_road_count == old(self).initial_road_count,
                self.wfc.same_frame(&old(self).wfc),
                narrowed(start, self.wfc.cells@),
                start == old(self).wfc.cells@,
                (old(self).finished || old(self).contradiction) ==> *self == *old(self),
                n == self.width * self.height,
                limit == n * 2,
                k <= limit,
                !(self.finished || self.contradiction) ==> undecided(self.wfc.cells@) + k <= n,
                w == self.width,
                h == self.height,
                st == settled(w, h, start),
                live == !(old(self).finished || old(self).contradiction),
                st && !self.contradiction ==> settled(w, h, self.wfc.cells@),
                live && self.finished ==> forall|i: int| 0 <= i < self.wfc.cells@.len() ==> popcount(#[trigger] self.wfc.cells@[i]) <= 1,
                live && self.finished ==> !self.contradiction,
            ensures
                self.wf(),
                self.width == old(self).width,
                self.height == old(self).height,
                self.seed == old(self).seed,
                self.initial_road_count == old(self).initial_road_count,
                self.wfc.same_frame(&old(self).wfc),
                narrowed(start, self.wfc.cells@),
                (old(self).finished || old(self).contradiction) ==> *self == *old(self),
                self.finished || self.contradiction || undecided(self.wfc.cells@) + limit <= n,
                st && !self.contradiction ==> settled(w, h, self.wfc.cells@),
                live && self.finished ==> forall|i: int| 0 <= i < self.wfc.cells@.len() ==> popcount(#[trigger] self.wfc.cells@[i]) <= 1,
                live && self.finished ==> !self.contradiction,
            decreases limit - k,
        {
            if self.finished || self.contradiction {
                break;
            }
            let ghost before = self.wfc.cells@;
            self.step_once();
            proof {
                lemma_narrowed_trans(start, before, self.wfc.cells@);
                if !(self.finished || self.contradiction) {
                    let c = self.last_collapsed->0;
                    let t = match self.status {
                        Status::Collapsed { mask, .. } => mask,
                        _ => 0,
                    } as int;
                    assert(forall|u: u64| u < 64 && #[trigger] has_bit(self.wfc.cells@[c as int], u) ==> u == t);
                    lemma_popcount_one_bit(self.wfc.cells@[c as int], t as u64);
                    lemma_undecided_narrowed(before, self.wfc.cells@, c as int);
                }
            }
            k += 1;
        }
        proof {
            if st && live && self.finished {
                lemma_decided_is_road_network(w, h, self.wfc.cells@);
            }
        }
    }


    /// Takes up to `steps` steps, stopping once the run is over: the result
    /// is the session after `steps` calls of `step_once` (those after the
    /// run is over change nothing).  Each step that neither finishes nor
    /// fails decides one more cell, so more steps than there are undecided
    /// cells end the run.
    pub fn advance(&mut self, steps: usize)
        requires
            old(self).wf(),
        ensures
            final(self).wf(),
            final(self).width == old(self).width,
            final(self).height == old(self).height,
            final(self).seed == old(self).seed,
            final(self).initial_road_count == old(self).initial_road_count,
            final(self).wfc.same_frame(&old(self).wfc),
            narrowed(old(self).wfc.cells@, final(self).wfc.cells@),
            (old(self).finished || old(self).contradiction) ==> *final(self) == *old(self),
            session_steps(*old(self), *final(self), steps as int),
            steps > undecided(old(self).wfc.cells@) ==> final(self).finished || final(self).contradiction,
            settled(old(self).width as int, old(self).height as int, old(self).wfc.cells@) && !final(self).contradiction
                ==> settled(old(self).width as int, old(self).height as int, final(self).wfc.cells@),
            settled(old(self).width as int, old(self).height as int, old(self).wfc.cells@) && !(old(self).finished
                || old(self).contradiction) && final(self).finished ==> {
                let w = old(self).width as int;
                let h = old(self).height as int;
                let tiles = decided_tiles(final(self).wfc.cells@);
                &&& consistent_tiling(w, h, tiles)
                &&& closed_tiling(w, h, tiles)
                &&& tiling_within(final(self).wfc.cells@, tiles)
            },
    {
        let limit = steps;
        let ghost start = self.wfc.cells@;
        let ghost n = undecided(start);
        let ghost w = self.width as int;
        let ghost h = self.height as int;
        let ghost st = settled(w, h, start);
        let ghost live = !(self.finished || self.contradiction);
        let mut k: usize = 0;
        proof {
            lemma_session_steps_start(*self);
        }
        while k < limit
            invariant
                self.wf(),
                session_steps(*old(self), *self, k as int),
                self.width == old(self).width,
                self.height == old(self).height,
                self.seed == old(self).seed,
                self.initial_road_count == old(self).initial_road_count,
                self.wfc.same_frame(&old(self).wfc),
                narrowed(start, self.wfc.cells@),
                start == old(self).wfc.cells@,
                (old(self).finished || old(self).contradiction) ==> *self == *old(self),
                n == undecided(start),
                k <= limit,
                !(self.finished || self.contradiction) ==> undecided(self.wfc.cells@) + k <= n,
                w == self.width,
                h == self.height,
                st == settled(w, h, start),
                live == !(old(self).finished || old(self).contradiction),
                st && !self.contradiction ==> settled(w, h, self.wfc.cells@),
                live && self.finished ==> forall|i: int| 0 <= i < self.wfc.cells@.len() ==> popcount(#[trigger] self.wfc.cells@[i]) <= 1,
                live && self.finished ==> !self.contradiction,
            ensures
                self.wf(),
                session_steps(*old(self), *self, k as int),
                k <= limit,
                k == limit || self.finished || self.contradiction,
                self.width == old(self).width,
                self.height == old(self).height,
                self.seed == old(self).seed,
                self.initial_road_count == old(self).initial_road_count,
                self.wfc.same_frame(&old(self).wfc),
                narrowed(start, self.wfc.cells@),
                (old(self).finished || old(self).contradiction) ==> *self == *old(self),
                self.finished || self.contradiction || undecided(self.wfc.cells@) + limit <= n,
                st && !self.contradiction ==> settled(w, h, self.wfc.cells@),
                live && self.finished ==> forall|i: int| 0 <= i < self.wfc.cells@.len() ==> popcount(#[trigger] self.wfc.cells@[i]) <= 1,
                live && self.finished ==> !self.contradiction,
            decreases limit - k,
        {
            if self.finished || self.contradiction {
                break;
            }
            let ghost before = self.wfc.cells@;
            let ghost prev = *self;
            self.step_once();
            proof {
                lemma_session_steps_push(*old(self), prev, *self, k as int);
                lemma_narrowed_trans(start, before, self.wfc.cells@);
                if !(self.finished || self.contradiction) {
                    let c = self.last_collapsed->0;
                    let t = match self.status {
                        Status::Collapsed { mask, .. } => mask,
                        _ => 0,
                    } as int;
                    assert(forall|u: u64| u < 64 && #[trigger] has_bit(self.wfc.cells@[c as int], u) ==> u == t);
                    lemma_popcount_one_bit(self.wfc.cells@[c as int], t as u64);
                    lemma_undecided_narrowed(before, self.wfc.cells@, c as int);
                }
            }
            k += 1;
        }
        proof {
            if st && live && self.finished {
                lemma_decided_is_road_network(w, h, self.wfc.cells@);
            }
            lemma_session_steps_pad(*old(self), *self, k as int, steps as int);
        }
    }
}


/// `b` is the session `a` after one call of `step_once`: nothing changes
/// once the run is over; otherwise the grid takes one collapse step with the
/// session's generator (two draws when some cell is undecided, none when
/// all are): the drawn cell is fixed to the drawn tile and propagation
/// sweeps from it, and a failure stops the run.
pub open spec fn session_step(a: WfcSession, b: WfcSession) -> bool {
    &&& b.width == a.width
    &&& b.height == a.height
    &&& b.seed == a.seed
    &&& b.initial_road_count == a.initial_road_count
    &&& (a.finished || a.contradiction) ==> b == a
    &&& !(a.finished || a.contradiction) ==> {
        let cands = lowest_entropy_cells(a.wfc.cells@);
        let c = cands[((rng_output(a.rng.state) as usize) % (cands.len() as usize)) as int];
        let possible = a.wfc.cells@[c as int];
        let rr = rng_output(xorshift(a.rng.state)) % (weight_upto(possible, a.wfc.tiles@, 16) as u64);
        let start = seq![((c % a.width) as usize, (c / a.width) as usize)];
        &&& b.wfc.same_frame(&a.wfc)
        &&& narrowed(a.wfc.cells@, b.wfc.cells@)
        &&& cands.len() == 0 ==> b.rng == a.rng
        &&& cands.len() > 0 ==> b.rng.state == xorshift(xorshift(a.rng.state))
        &&& if b.contradiction {
            &&& step_failed(a.wfc)
            &&& b.status is Failed
            &&& b.last_collapsed is None
            &&& b.last_changed@.len() == 0
            &&& !b.auto
            &&& !b.finished
            &&& cands.len() > 0
            &&& b.status matches Status::Failed { error: WfcError::Contradiction { x, y } } && exists|t: u64|
                t < 16 && #[trigger] has_bit(possible, t) && weight_upto(possible, a.wfc.tiles@, t as int) <= rr && rr
                    < weight_upto(possible, a.wfc.tiles@, t as int) + a.wfc.tiles@[t as int].weight && sweep_failed(
                    a.width,
                    a.height,
                    a.wfc.cells@.update(c as int, 1u64 << t),
                    start,
                    b.wfc.cells@,
                    x,
                    y,
                )
        } else {
            &&& b.auto == a.auto
            &&& cands.len() == 0 <==> b.finished
            &&& cands.len() > 0 ==> b.last_collapsed == Some(c)
            &&& cands.len() > 0 ==> {
                let t = match b.status {
                    Status::Collapsed { mask, .. } => mask,
                    _ => 0,
                } as int;
                weight_upto(possible, a.wfc.tiles@, t) <= rr && rr < weight_upto(possible, a.wfc.tiles@, t) + a.wfc.tiles@[t].weight
            }
            &&& b.finished ==> b.last_changed@.len() == 0
            &&& cands.len() > 0 ==> sweep_done(
                a.width,
                a.height,
                a.wfc.cells@.update(
                    c as int,
                    1u64 << (match b.status {
                        Status::Collapsed { mask, .. } => mask,
                        _ => 0,
                    } as u64),
                ),
                start,
                b.wfc.cells@,
                b.last_changed@,
            )
            &&& step_done(
                a.wfc,
                b.wfc,
                b.last_collapsed,
                b.last_changed@,
                match b.status {
                    Status::Collapsed { mask, .. } => mask,
                    _ => 0,
                },
                b.finished,
            )
            &&& b.status == if b.finished {
                Status::Finished
            } else {
                Status::Collapsed {
                    x: (b.last_collapsed->0 % a.width) as usize,
                    y: (b.last_collapsed->0 / a.width) as usize,
                    mask: match b.status {
                        Status::Collapsed { mask, .. } => mask,
                        _ => 0,
                    },
                }
            }
        }
    }
}

/// At most one candidate tile's weight window holds the draw `r`.
proof fn lemma_window_unique(possible: u64, tiles: Seq<Tile>, r: int, t1: int, t2: int)
    requires
        0 <= t1,
        0 <= t2,
        has_bit(possible, t1 as u64),
        has_bit(possible, t2 as u64),
        weight_upto(possible, tiles, t1) <= r < weight_upto(possible, tiles, t1) + tiles[t1].weight,
        weight_upto(possible, tiles, t2) <= r < weight_upto(possible, tiles, t2) + tiles[t2].weight,
    ensures
        t1 == t2,
{
    if t1 < t2 {
        lemma_weight_monotone(possible, tiles, t1 + 1, t2);
    }
    if t2 < t1 {
        lemma_weight_monotone(possible, tiles, t2 + 1, t1);
    }
}

/// Law (a step is determined by the session): two results of one call of
/// `step_once` on the same session agree in everything the session shows.
pub proof fn lemma_session_step_deterministic(a: WfcSession, b1: WfcSession, b2: WfcSession)
    requires
        a.wf(),
        session_step(a, b1),
        session_step(a, b2),
    ensures
        b1.wfc.cells@ == b2.wfc.cells@,
        b1.rng.state == b2.rng.state,
        b1.status == b2.status,
        b1.last_collapsed == b2.last_collapsed,
        b1.last_changed@ == b2.last_changed@,
        b1.finished == b2.finished,
        b1.contradiction == b2.contradiction,
        b1.auto == b2.auto,
{
    if !(a.finished || a.contradiction) {
        let cands = lowest_entropy_cells(a.wfc.cells@);
        if cands.len() > 0 {
            let c = cands[((rng_output(a.rng.state) as usize) % (cands.len() as usize)) as int];
            let possible = a.wfc.cells@[c as int];
            let rr = rng_output(xorshift(a.rng.state)) % (weight_upto(possible, a.wfc.tiles@, 16) as u64);
            let start = seq![((c % a.width) as usize, (c / a.width) as usize)];
            if b1.contradiction && b2.contradiction {
                if let Status::Failed { error: WfcError::Contradiction { x: x1, y: y1 } } = b1.status {
                    if let Status::Failed { error: WfcError::Contradiction { x: x2, y: y2 } } = b2.status {
                        let t1 = choose|t: u64|
                            t < 16 && #[trigger] has_bit(possible, t) && weight_upto(possible, a.wfc.tiles@, t as int) <= rr && rr
                                < weight_upto(possible, a.wfc.tiles@, t as int) + a.wfc.tiles@[t as int].weight && sweep_failed(
                                a.width,
                                a.height,
                                a.wfc.cells@.update(c as int, 1u64 << t),
                                start,
                                b1.wfc.cells@,
                                x1,
                                y1,
                            );
                        let t2 = choose|t: u64|
                            t < 16 && #[trigger] has_bit(possible, t) && weight_upto(possible, a.wfc.tiles@, t as int) <= rr && rr
                                < weight_upto(possible, a.wfc.tiles@, t as int) + a.wfc.tiles@[t as int].weight && sweep_failed(
                                a.width,
                                a.height,
                                a.wfc.cells@.update(c as int, 1u64 << t),
                                start,
                                b2.wfc.cells@,
                                x2,
                                y2,
                            );
                        lemma_window_unique(possible, a.wfc.tiles@, rr as int, t1 as int, t2 as int);
                        lemma_sweep_failed_unique(
                            a.width,
                            a.height,
                            a.wfc.cells@.update(c as int, 1u64 << t1),
                            start,
                            b1.wfc.cells@,
                            x1,
                            y1,
                            b2.wfc.cells@,
                            x2,
                            y2,
                        );
                    }
                }
            } else if !b1.contradiction && !b2.contradiction {
                let m1 = match b1.status {
                    Status::Collapsed { mask, .. } => mask,
                    _ => 0,
                };
                let m2 = match b2.status {
                    Status::Collapsed { mask, .. } => mask,
                    _ => 0,
                };
                lemma_window_unique(possible, a.wfc.tiles@, rr as int, m1 as int, m2 as int);
                lemma_sweep_done_unique(
                    a.width,
                    a.height,
                    a.wfc.cells@.update(c as int, 1u64 << (m1 as u64)),
                    start,
                    b1.wfc.cells@,
                    b1.last_changed@,
                    b2.wfc.cells@,
                    b2.last_changed@,
                );
            } else {
                let (bf, bo) = if b1.contradiction {
                    (b1, b2)
                } else {
                    (b2, b1)
                };
                if let Status::Failed { error: WfcError::Contradiction { x, y } } = bf.status {
                    let t = choose|t: u64|
                        t < 16 && #[trigger] has_bit(possible, t) && weight_upto(possible, a.wfc.tiles@, t as int) <= rr && rr
                            < weight_upto(possible, a.wfc.tiles@, t as int) + a.wfc.tiles@[t as int].weight && sweep_failed(
                            a.width,
                            a.height,
                            a.wfc.cells@.update(c as int, 1u64 << t),
                            start,
                            bf.wfc.cells@,
                            x,
                            y,
                        );
                    let m = match bo.status {
                        Status::Collapsed { mask, .. } => mask,
                        _ => 0,
                    };
                    lemma_window_unique(possible, a.wfc.tiles@, rr as int, t as int, m as int);
                    assert(sweep_done(a.width, a.height, a.wfc.cells@.update(c as int, 1u64 << t), start, bo.wfc.cells@, bo.last_changed@));
                    lemma_sweep_clean_not_failed(a.width, a.height, a.wfc.cells@.update(c as int, 1u64 << t), start, bo.wfc.cells@, bf.wfc.cells@, x, y);
                }
            }
        }
    }
}

/// `b` is the session `a` after `k` calls of `step_once`.
pub open spec fn session_steps(a: WfcSession, b: WfcSession, k: int) -> bool {
    exists|trace: Seq<WfcSession>| #[trigger] session_trace(trace) && trace.len() == k + 1 && trace[0] == a && trace[k] == b
}

/// Each session of `trace` is one `step_once` after the one before it.
pub open spec fn session_trace(trace: Seq<WfcSession>) -> bool {
    forall|i: int| 0 <= i < trace.len() - 1 ==> session_step(#[trigger] trace[i], trace[i + 1])
}

proof fn lemma_session_steps_push(a: WfcSession, m: WfcSession, b: WfcSession, k: int)
    requires
        k >= 0,
        session_steps(a, m, k),
        session_step(m, b),
    ensures
        session_steps(a, b, k + 1),
{
    let trace = choose|trace: Seq<WfcSession>| #[trigger] session_trace(trace) && trace.len() == k + 1 && trace[0] == a
        && trace[k] == m;
    let longer = trace.push(b);
    assert forall|i: int| 0 <= i < longer.len() - 1 implies session_step(#[trigger] longer[i], longer[i + 1]) by {
        if i < k {
            assert(longer[i] == trace[i] && longer[i + 1] == trace[i + 1]);
        }
    }
    assert(session_trace(longer));
}

/// Steps after the run is over change nothing.
proof fn lemma_session_steps_pad(a: WfcSession, b: WfcSession, k: int, m: int)
    requires
        0 <= k <= m,
        session_steps(a, b, k),
        k == m || b.finished || b.contradiction,
    ensures
        session_steps(a, b, m),
    decreases m - k,
{
    if k < m {
        lemma_session_steps_push(a, b, b, k);
        lemma_session_steps_pad(a, b, k + 1, m);
    }
}

proof fn lemma_session_steps_start(a: WfcSession)
    ensures
        session_steps(a, a, 0),
{
    let start = seq![a];
    assert(session_trace(start));
    assert(start[0] == a);
}

/// The tiles that some candidate of `possible` allows on its side `d`, as
/// a mask.
pub open spec fn support_mask(possible: u64, d: usize) -> u64 {
    choose|m: u64| #[trigger] is_support_mask(m, possible, d)
}

/// The bits of `m` are the tiles that some candidate of `possible` allows
/// on its side `d`.
pub open spec fn is_support_mask(m: u64, possible: u64, d: usize) -> bool {
    forall|u: u64| u < 64 ==> (#[trigger] has_bit(m, u) <==> supports(possible, d, u))
}

proof fn lemma_support_mask(compatible: Seq<[u64; 4]>, possible: u64, d: usize, r: u64)
    requires
        d < 4,
        forall|a: int, dir: int, v: u64|
            0 <= a < 16 && 0 <= dir < 4 && v < 64 ==> (#[trigger] has_bit(compatible[a][dir], v) <==> compatible_spec(
                a,
                dir as usize,
                v as int,
            )),
        forall|u: u64| u < 64 ==> (#[trigger] has_bit(r, u) <==> allowed_spec(compatible, possible, d as int, u)),
    ensures
        r == support_mask(possible, d),
{
    assert forall|u: u64| u < 64 implies (#[trigger] has_bit(r, u) <==> supports(possible, d, u)) by {
        if has_bit(r, u) {
            lemma_allowed_supports(compatible, possible, d, u);
        }
        if supports(possible, d, u) {
            lemma_supports_allowed(compatible, possible, d, u);
        }
    }
    assert(is_support_mask(r, possible, d));
    let m = support_mask(possible, d);
    assert forall|u: u64| u < 64 implies #[trigger] has_bit(m, u) == has_bit(r, u) by {}
    lemma_bits_ext(m, r);
}

/// A moment of propagation: the cells, the queue of cells still to visit,
/// and the cells changed so far, in order.
pub type Sweep = (Seq<u64>, Seq<(usize, usize)>, Seq<usize>);

/// Propagation from cell `(x, y)`, whose candidates are `here`, to its
/// neighbour on side `d`, if there is one: the neighbour keeps the
/// candidates that `here` allows there; when that leaves none, the
/// neighbour is returned as the contradiction; when it loses some, it is
/// queued and listed as changed.
pub open spec fn sweep_dir(width: usize, height: usize, st: Sweep, x: usize, y: usize, here: u64, d: usize) -> (Sweep, Option<(usize, usize)>) {
    match neighbor_spec(width as int, height as int, x as int, y as int, d) {
        None => (st, None),
        Some((nx, ny)) => {
            let ni = cell_index(width as int, nx, ny);
            let next = st.0[ni] & support_mask(here, d);
            if next == 0 {
                (st, Some((nx as usize, ny as usize)))
            } else if next != st.0[ni] {
                ((st.0.update(ni, next), st.1.push((nx as usize, ny as usize)), st.2.push(ni as usize)), None)
            } else {
                (st, None)
            }
        },
    }
}

/// Propagation from cell `(x, y)` over its sides `0 .. k`, in order,
/// stopping at the first contradiction.
pub open spec fn sweep_dirs(width: usize, height: usize, st: Sweep, x: usize, y: usize, here: u64, k: int) -> (Sweep, Option<(usize, usize)>)
    decreases k,
{
    if k <= 0 {
        (st, None)
    } else {
        let prev = sweep_dirs(width, height, st, x, y, here, k - 1);
        if prev.1 is Some {
            prev
        } else {
            sweep_dir(width, height, prev.0, x, y, here, (k - 1) as usize)
        }
    }
}

/// One visit: the first queued cell leaves the queue and propagates to
/// its four sides with the candidates it has.
#[verifier::opaque]
pub open spec fn sweep_pop(width: usize, height: usize, st: Sweep) -> (Sweep, Option<(usize, usize)>) {
    let (x, y) = st.1[0];
    sweep_dirs(width, height, (st.0, st.1.drop_first(), st.2), x, y, st.0[cell_index(width as int, x as int, y as int)], 4)
}

/// Each moment of `trace` has a queued cell, and visiting it leads, without
/// contradiction, to the next moment.
pub open spec fn sweep_run(width: usize, height: usize, trace: Seq<Sweep>) -> bool {
    forall|i: int|
        0 <= i < trace.len() - 1 ==> trace[i].1.len() > 0 && #[trigger] sweep_pop(width, height, trace[i]) == (
            trace[i + 1],
            None::<(usize, usize)>,
        )
}

/// Propagation from `cells` with the queue `queue` reaches the moment
/// `st`.
pub open spec fn sweep_reaches(width: usize, height: usize, cells: Seq<u64>, queue: Seq<(usize, usize)>, st: Sweep) -> bool {
    exists|trace: Seq<Sweep>|
        #[trigger] sweep_run(width, height, trace) && trace.len() >= 1 && trace[0] == (cells, queue, Seq::<usize>::empty())
            && trace.last() == st
}

/// Propagation from `cells` with the queue `queue` empties the queue
/// without a contradiction, ending with the cells `end` and the changed
/// cells `changed`, in order.
pub open spec fn sweep_done(width: usize, height: usize, cells: Seq<u64>, queue: Seq<(usize, usize)>, end: Seq<u64>, changed: Seq<usize>) -> bool {
    sweep_reaches(width, height, cells, queue, (end, Seq::<(usize, usize)>::empty(), changed))
}

/// Propagation from `cells` with the queue `queue` stops at a
/// contradiction in cell `(x, y)`, with the cells `end`.
pub open spec fn sweep_failed(width: usize, height: usize, cells: Seq<u64>, queue: Seq<(usize, usize)>, end: Seq<u64>, x: usize, y: usize) -> bool {
    exists|st: Sweep|
        #[trigger] sweep_reaches(width, height, cells, queue, st) && st.1.len() > 0 && sweep_pop(width, height, st).1 == Some(
            (x, y),
        ) && sweep_pop(width, height, st).0.0 == end
}

proof fn lemma_sweep_prefix(width: usize, height: usize, t1: Seq<Sweep>, t2: Seq<Sweep>, i: int)
    requires
        sweep_run(width, height, t1),
        sweep_run(width, height, t2),
        t1.len() >= 1,
        t2.len() >= 1,
        t1[0] == t2[0],
        0 <= i < t1.len(),
        i < t2.len(),
    ensures
        t1[i] == t2[i],
    decreases i,
{
    if i > 0 {
        lemma_sweep_prefix(width, height, t1, t2, i - 1);
        assert(sweep_pop(width, height, t1[i - 1]) == (t1[i], None::<(usize, usize)>));
        assert(sweep_pop(width, height, t2[i - 1]) == (t2[i], None::<(usize, usize)>));
    }
}

/// Propagation is deterministic: from the same cells and queue it ends in
/// one way only.
pub proof fn lemma_sweep_unique(width: usize, height: usize, cells: Seq<u64>, queue: Seq<(usize, usize)>, a: Sweep, b: Sweep)
    requires
        sweep_reaches(width, height, cells, queue, a),
        sweep_reaches(width, height, cells, queue, b),
        a.1.len() == 0 || sweep_pop(width, height, a).1 is Some,
        b.1.len() == 0 || sweep_pop(width, height, b).1 is Some,
    ensures
        a == b,
{
    let start = (cells, queue, Seq::<usize>::empty());
    let t1 = choose|trace: Seq<Sweep>| #[trigger] sweep_run(width, height, trace) && trace.len() >= 1 && trace[0] == start && trace.last() == a;
    let t2 = choose|trace: Seq<Sweep>| #[trigger] sweep_run(width, height, trace) && trace.len() >= 1 && trace[0] == start && trace.last() == b;
    if t1.len() < t2.len() {
        lemma_sweep_prefix(width, height, t1, t2, t1.len() - 1);
        assert(t2[t1.len() - 1].1.len() > 0 && sweep_pop(width, height, t2[t1.len() - 1]).1 is None);
    } else if t2.len() < t1.len() {
        lemma_sweep_prefix(width, height, t1, t2, t2.len() - 1);
        assert(t1[t2.len() - 1].1.len() > 0 && sweep_pop(width, height, t1[t2.len() - 1]).1 is None);
    } else {
        lemma_sweep_prefix(width, height, t1, t2, t1.len() - 1);
    }
}

proof fn lemma_sweep_reaches_push(width: usize, height: usize, cells: Seq<u64>, queue: Seq<(usize, usize)>, st: Sweep, next: Sweep)
    requires
        sweep_reaches(width, height, cells, queue, st),
        st.1.len() > 0,
        sweep_pop(width, height, st) == (next, None::<(usize, usize)>),
    ensures
        sweep_reaches(width, height, cells, queue, next),
{
    let start = (cells, queue, Seq::<usize>::empty());
    let t = choose|trace: Seq<Sweep>| #[trigger] sweep_run(width, height, trace) && trace.len() >= 1 && trace[0] == start && trace.last() == st;
    let t2 = t.push(next);
    assert forall|i: int| 0 <= i < t2.len() - 1 implies t2[i].1.len() > 0 && #[trigger] sweep_pop(width, height, t2[i]) == (
        t2[i + 1],
        None::<(usize, usize)>,
    ) by {
        if i < t.len() - 1 {
            assert(t2[i] == t[i] && t2[i + 1] == t[i + 1]);
            assert(sweep_pop(width, height, t[i]) == (t[i + 1], None::<(usize, usize)>));
        } else {
            assert(t2[i] == st && t2[i + 1] == next);
        }
    }
    assert forall|i: int| 0 <= i < t2.len() - 1 implies (#[trigger] t2[i]).1.len() > 0 by {
        assert(sweep_pop(width, height, t2[i]) == (t2[i + 1], None::<(usize, usize)>));
    }
    assert(sweep_run(width, height, t2));
    assert(t2[0] == start);
}

proof fn lemma_sweep_reaches_start(width: usize, height: usize, cells: Seq<u64>, queue: Seq<(usize, usize)>)
    ensures
        sweep_reaches(width, height, cells, queue, (cells, queue, Seq::<usize>::empty())),
{
    let t = seq![(cells, queue, Seq::<usize>::empty())];
    assert(sweep_run(width, height, t));
    assert(t[0] == (cells, queue, Seq::<usize>::empty()));
}

/// Propagation from `cells` with the queue `queue` empties the queue
/// without a contradiction and ends with the cells `end`.
pub open spec fn sweeps_clean(width: usize, height: usize, cells: Seq<u64>, queue: Seq<(usize, usize)>, end: Seq<u64>) -> bool {
    exists|changed: Seq<usize>| #[trigger] sweep_done(width, height, cells, queue, end, changed)
}

proof fn lemma_sweep_done_unique(
    width: usize,
    height: usize,
    cells: Seq<u64>,
    queue: Seq<(usize, usize)>,
    e1: Seq<u64>,
    c1: Seq<usize>,
    e2: Seq<u64>,
    c2: Seq<usize>,
)
    requires
        sweep_done(width, height, cells, queue, e1, c1),
        sweep_done(width, height, cells, queue, e2, c2),
    ensures
        e1 == e2,
        c1 == c2,
{
    let a: Sweep = (e1, Seq::<(usize, usize)>::empty(), c1);
    let b: Sweep = (e2, Seq::<(usize, usize)>::empty(), c2);
    lemma_sweep_unique(width, height, cells, queue, a, b);
}

proof fn lemma_sweeps_clean_unique(width: usize, height: usize, cells: Seq<u64>, queue: Seq<(usize, usize)>, e1: Seq<u64>, e2: Seq<u64>)
    requires
        sweeps_clean(width, height, cells, queue, e1),
        sweeps_clean(width, height, cells, queue, e2),
    ensures
        e1 == e2,
{
    let c1 = choose|changed: Seq<usize>| #[trigger] sweep_done(width, height, cells, queue, e1, changed);
    let c2 = choose|changed: Seq<usize>| #[trigger] sweep_done(width, height, cells, queue, e2, changed);
    lemma_sweep_done_unique(width, height, cells, queue, e1, c1, e2, c2);
}

proof fn lemma_sweep_failed_unique(
    width: usize,
    height: usize,
    cells: Seq<u64>,
    queue: Seq<(usize, usize)>,
    e1: Seq<u64>,
    x1: usize,
    y1: usize,
    e2: Seq<u64>,
    x2: usize,
    y2: usize,
)
    requires
        sweep_failed(width, height, cells, queue, e1, x1, y1),
        sweep_failed(width, height, cells, queue, e2, x2, y2),
    ensures
        e1 == e2,
        x1 == x2,
        y1 == y2,
{
    let a = choose|st: Sweep|
        #[trigger] sweep_reaches(width, height, cells, queue, st) && st.1.len() > 0 && sweep_pop(width, height, st).1 == Some(
            (x1, y1),
        ) && sweep_pop(width, height, st).0.0 == e1;
    let b = choose|st: Sweep|
        #[trigger] sweep_reaches(width, height, cells, queue, st) && st.1.len() > 0 && sweep_pop(width, height, st).1 == Some(
            (x2, y2),
        ) && sweep_pop(width, height, st).0.0 == e2;
    lemma_sweep_unique(width, height, cells, queue, a, b);
}

proof fn lemma_sweep_clean_not_failed(
    width: usize,
    height: usize,
    cells: Seq<u64>,
    queue: Seq<(usize, usize)>,
    e1: Seq<u64>,
    e2: Seq<u64>,
    x: usize,
    y: usize,
)
    requires
        sweeps_clean(width, height, cells, queue, e1),
    ensures
        !sweep_failed(width, height, cells, queue, e2, x, y),
{
    if sweep_failed(width, height, cells, queue, e2, x, y) {
        let c1 = choose|changed: Seq<usize>| #[trigger] sweep_done(width, height, cells, queue, e1, changed);
        let a: Sweep = (e1, Seq::<(usize, usize)>::empty(), c1);
        let b = choose|st: Sweep|
            #[trigger] sweep_reaches(width, height, cells, queue, st) && st.1.len() > 0 && sweep_pop(width, height, st).1 == Some(
                (x, y),
            ) && sweep_pop(width, height, st).0.0 == e2;
        lemma_sweep_unique(width, height, cells, queue, a, b);
    }
}

proof fn lemma_sweep_dirs_stay_failed(width: usize, height: usize, st: Sweep, x: usize, y: usize, here: u64, k: int, m: int)
    requires
        0 <= k <= m,
        sweep_dirs(width, height, st, x, y, here, k).1 is Some,
    ensures
        sweep_dirs(width, height, st, x, y, here, m) == sweep_dirs(width, height, st, x, y, here, k),
    decreases m - k,
{
    if k < m {
        lemma_sweep_dirs_stay_failed(width, height, st, x, y, here, k, m - 1);
    }
}

/// Bit `u` of `x / 2` is bit `u + 1` of `x`.
proof fn lemma_half_bits(x: u64, u: u64)
    requires
        u < 63,
    ensures
        has_bit(x / 2, u) == has_bit(x, (u + 1) as u64),
{
    assert((((x / 2) >> u) & 1u64 == 1u64) == ((x >> ((u + 1) as u64)) & 1u64 == 1u64)) by (bit_vector)
        requires
            u < 63,
    ;
}

/// The top bit of `x / 2` is clear, and bit 0 of `x` is its parity.
proof fn lemma_end_bits(x: u64)
    ensures
        !has_bit(x / 2, 63),
        has_bit(x, 0) == (x % 2 == 1),
{
    assert(((x / 2) >> 63u64) & 1u64 != 1u64) by (bit_vector);
    assert(((x >> 0u64) & 1u64 == 1u64) == (x % 2 == 1)) by (bit_vector);
}

/// A mask whose bits are among those of `a` has no more bits than `a`.
proof fn lemma_popcount_subset(a: u64, b: u64)
    requires
        forall|u: u64| u < 64 && #[trigger] has_bit(b, u) ==> has_bit(a, u),
    ensures
        popcount(b) <= popcount(a),
    decreases b,
{
    if b != 0 {
        lemma_end_bits(a);
        lemma_end_bits(b);
        assert forall|u: u64| u < 64 && #[trigger] has_bit(b / 2, u) implies has_bit(a / 2, u) by {
            if u < 63 {
                lemma_half_bits(b, u);
                lemma_half_bits(a, u);
            }
        }
        lemma_popcount_subset(a / 2, b / 2);
        if a == 0 {
            assert(has_bit(b, 0) ==> has_bit(a, 0));
        }
    }
}

/// A mask with no bit but bit `t` has at most one bit.
proof fn lemma_popcount_one_bit(x: u64, t: u64)
    requires
        t < 64,
        forall|u: u64| u < 64 && #[trigger] has_bit(x, u) ==> u == t,
    ensures
        popcount(x) <= 1,
    decreases t,
{
    if x != 0 {
        lemma_end_bits(x);
        if t == 0 {
            assert forall|u: u64| u < 64 && #[trigger] has_bit(x / 2, u) implies has_bit(0u64, u) by {
                if u < 63 {
                    lemma_half_bits(x, u);
                }
            }
            lemma_popcount_subset(0, x / 2);
        } else {
            assert forall|u: u64| u < 64 && #[trigger] has_bit(x / 2, u) implies u == (t - 1) as u64 by {
                if u < 63 {
                    lemma_half_bits(x, u);
                }
            }
            lemma_popcount_one_bit(x / 2, (t - 1) as u64);
        }
    }
}

/// The number of cells that are still undecided, with more than one
/// candidate tile.
pub open spec fn undecided(cells: Seq<u64>) -> nat
    decreases cells.len(),
{
    if cells.len() == 0 {
        0
    } else {
        undecided(cells.drop_last()) + if popcount(cells.last()) > 1 {
            1nat
        } else {
            0nat
        }
    }
}

proof fn lemma_undecided_bound(cells: Seq<u64>)
    ensures
        undecided(cells) <= cells.len(),
    decreases cells.len(),
{
    if cells.len() > 0 {
        lemma_undecided_bound(cells.drop_last());
    }
}

/// Narrowing never adds an undecided cell, and deciding an undecided cell
/// removes one.
proof fn lemma_undecided_narrowed(a: Seq<u64>, b: Seq<u64>, c: int)
    requires
        narrowed(a, b),
        0 <= c < a.len(),
        popcount(a[c]) > 1,
        popcount(b[c]) <= 1,
    ensures
        undecided(b) < undecided(a),
    decreases a.len(),
{
    let n = a.len() - 1;
    assert forall|i: int| 0 <= i < a.len() implies popcount(#[trigger] b[i]) <= popcount(a[i]) by {
        assert forall|u: u64| u < 64 && #[trigger] has_bit(b[i], u) implies has_bit(a[i], u) by {}
        lemma_popcount_subset(a[i], b[i]);
    }
    assert(popcount(b[n]) <= popcount(a[n]));
    if c < n {
        assert(narrowed(a.drop_last(), b.drop_last())) by {
            assert forall|i: int, u: u64|
                0 <= i < b.drop_last().len() && u < 64 && #[trigger] has_bit(b.drop_last()[i], u) implies has_bit(
                a.drop_last()[i],
                u,
            ) by {
                assert(b.drop_last()[i] == b[i] && a.drop_last()[i] == a[i]);
            }
        }
        assert(a.drop_last()[c] == a[c] && b.drop_last()[c] == b[c]);
        lemma_undecided_narrowed(a.drop_last(), b.drop_last(), c);
    } else {
        lemma_undecided_not_more(a.drop_last(), b.drop_last());
    }
}

proof fn lemma_undecided_not_more(a: Seq<u64>, b: Seq<u64>)
    requires
        a.len() == b.len(),
        forall|i: int| 0 <= i < a.len() ==> popcount(#[trigger] b[i]) <= popcount(a[i]),
    ensures
        undecided(b) <= undecided(a),
    decreases a.len(),
{
    if a.len() > 0 {
        assert forall|i: int| 0 <= i < a.drop_last().len() implies popcount(#[trigger] b.drop_last()[i]) <= popcount(
            a.drop_last()[i],
        ) by {
            assert(b.drop_last()[i] == b[i] && a.drop_last()[i] == a[i]);
        }
        lemma_undecided_not_more(a.drop_last(), b.drop_last());
        assert(popcount(b[a.len() - 1]) <= popcount(a[a.len() - 1]));
    }
}

} // verus!
