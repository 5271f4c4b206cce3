//! Conflict-based search (CBS) for multi-agent path finding on a grid with
//! walls, with a time-expanded, constraint-aware A* as its low level.

use std::collections::HashMap;
use vstd::prelude::*;
use vstd::set_lib::set_int_range;

verus! {

/// A grid cell.
#[derive(Clone, Copy, Debug, PartialEq, Eq, Structural)]
pub struct Pos {
    pub x: i32,
    pub y: i32,
}

/// Absolute value of an integer.
pub open spec fn abs_int(v: int) -> int {
    if v < 0 {
        -v
    } else {
        v
    }
}

/// Manhattan distance between two cells.
pub open spec fn manhattan_spec(a: Pos, b: Pos) -> int {
    abs_int(a.x - b.x) + abs_int(a.y - b.y)
}

/// One move of an agent: stay put, or step to one of the four neighbours.
pub open spec fn is_move(a: Pos, b: Pos) -> bool {
    manhattan_spec(a, b) <= 1
}

/// Both coordinates are away from the ends of `i32`, so that a neighbour can
/// be computed.
pub open spec fn steppable(p: Pos) -> bool {
    i32::MIN < p.x < i32::MAX && i32::MIN < p.y < i32::MAX
}

impl Pos {
    pub fn new(x: i32, y: i32) -> (p: Pos)
        ensures
            p.x == x,
            p.y == y,
    {
        Pos { x, y }
    }

    /// Manhattan distance; it must fit an `i32`, as the distance itself is
    /// computed in `i32`.
    pub fn manhattan(self, other: Pos) -> (d: usize)
        requires
            manhattan_spec(self, other) <= i32::MAX,
        ensures
            d == manhattan_spec(self, other),
    {
        let dx: i64 = self.x as i64 - other.x as i64;
        let dy: i64 = self.y as i64 - other.y as i64;
        let ax: i64 = if dx < 0 {
            -dx
        } else {
            dx
        };
        let ay: i64 = if dy < 0 {
            -dy
        } else {
            dy
        };
        (ax + ay) as usize
    }
}

/// `a` comes before `b` in the order of `(x, y)`.
pub open spec fn pos_less(a: Pos, b: Pos) -> bool {
    a.x < b.x || (a.x == b.x && a.y < b.y)
}

/// A rectangular grid with walls.
#[derive(Debug)]
pub struct Grid {
    pub width: i32,
    pub height: i32,
    pub walls: Vec<Pos>,
}

impl Grid {
    pub open spec fn in_bounds_spec(&self, p: Pos) -> bool {
        0 <= p.x < self.width && 0 <= p.y < self.height
    }

    pub open spec fn is_wall(&self, p: Pos) -> bool {
        self.walls@.contains(p)
    }

    pub open spec fn valid_spec(&self, p: Pos) -> bool {
        self.in_bounds_spec(p) && !self.is_wall(p)
    }

    /// The cells reachable in one move from `p`, in the order stay, right,
    /// left, down, up, after the first `k` of those candidates.
    pub open spec fn moves_upto(&self, p: Pos, k: nat) -> Seq<Pos>
        decreases k,
    {
        if k == 0 {
            Seq::empty()
        } else {
            let rest = self.moves_upto(p, (k - 1) as nat);
            let q = candidate_move(p, k - 1);
            if self.valid_spec(q) {
                rest.push(q)
            } else {
                rest
            }
        }
    }

    pub fn new(width: i32, height: i32, walls: &[(i32, i32)]) -> (g: Grid)
        ensures
            g.width == width,
            g.height == height,
            g.walls@.len() == walls@.len(),
            forall|i: int|
                0 <= i < walls@.len() ==> #[trigger] g.walls@[i] == (Pos {
                    x: walls@[i].0,
                    y: walls@[i].1,
                }),
    {
        let mut v: Vec<Pos> = Vec::new();
        let mut i: usize = 0;
        while i < walls.len()
            invariant
                i <= walls@.len(),
                v@.len() == i,
                forall|j: int|
                    0 <= j < i ==> #[trigger] v@[j] == (Pos { x: walls@[j].0, y: walls@[j].1 }),
            decreases walls@.len() - i,
        {
            let (x, y) = walls[i];
            v.push(Pos::new(x, y));
            i += 1;
        }
        Grid { width, height, walls: v }
    }

    pub fn in_bounds(&self, p: Pos) -> (b: bool)
        ensures
            b == self.in_bounds_spec(p),
    {
        p.x >= 0 && p.x < self.width && p.y >= 0 && p.y < self.height
    }

    pub fn valid(&self, p: Pos) -> (b: bool)
        ensures
            b == self.valid_spec(p),
    {
        if !self.in_bounds(p) {
            return false;
        }
        let mut i: usize = 0;
        while i < self.walls.len()
            invariant
                i <= self.walls@.len(),
                forall|j: int| 0 <= j < i ==> self.walls@[j] != p,
            decreases self.walls@.len() - i,
        {
            if self.walls[i] == p {
                return false;
            }
            i += 1;
        }
        true
    }

    /// The valid cells among `p` itself and its four neighbours.
    pub fn neighbors_with_wait(&self, p: Pos) -> (r: Vec<Pos>)
        requires
            steppable(p),
        ensures
            r@ == self.moves_upto(p, 5),
            r@.len() <= 5,
            forall|i: int|
                0 <= i < r@.len() ==> self.valid_spec(#[trigger] r@[i]) && is_move(p, r@[i]),
    {
        let mut r: Vec<Pos> = Vec::new();
        let mut k: usize = 0;
        while k < 5
            invariant
                k <= 5,
                steppable(p),
                r@ == self.moves_upto(p, k as nat),
                r@.len() <= k,
                forall|i: int|
                    0 <= i < r@.len() ==> self.valid_spec(#[trigger] r@[i]) && is_move(p, r@[i]),
            decreases 5 - k,
        {
            let q = candidate(p, k);
            if self.valid(q) {
                r.push(q);
            }
            k += 1;
        }
        r
    }
}

/// The `k`-th move candidate from `p`: stay, right, left, down, up.
pub open spec fn candidate_move(p: Pos, k: int) -> Pos {
    if k == 0 {
        p
    } else if k == 1 {
        Pos { x: (p.x + 1) as i32, y: p.y }
    } else if k == 2 {
        Pos { x: (p.x - 1) as i32, y: p.y }
    } else if k == 3 {
        Pos { x: p.x, y: (p.y + 1) as i32 }
    } else {
        Pos { x: p.x, y: (p.y - 1) as i32 }
    }
}

fn candidate(p: Pos, k: usize) -> (q: Pos)
    requires
        steppable(p),
        k < 5,
    ensures
        q == candidate_move(p, k as int),
        is_move(p, q),
{
    if k == 0 {
        p
    } else if k == 1 {
        Pos::new(p.x + 1, p.y)
    } else if k == 2 {
        Pos::new(p.x - 1, p.y)
    } else if k == 3 {
        Pos::new(p.x, p.y + 1)
    } else {
        Pos::new(p.x, p.y - 1)
    }
}


/// A restriction placed on one agent by the high level of CBS.
#[derive(Clone, Copy, Debug, PartialEq, Eq, Structural)]
pub enum Constraint {
    /// The agent may not be at `pos` at `time`.
    Vertex { agent: usize, pos: Pos, time: usize },
    /// The agent may not move from `from` to `to` between `time` and `time + 1`.
    Edge { agent: usize, from: Pos, to: Pos, time: usize },
}

/// A collision between agents `a < b` in a set of paths.
#[derive(Clone, Copy, Debug, PartialEq, Eq, Structural)]
pub enum Conflict {
    /// Both agents are at `pos` at `time`.
    Vertex { a: usize, b: usize, pos: Pos, time: usize },
    /// The agents swap cells between `time` and `time + 1`.
    Edge { a: usize, b: usize, a_from: Pos, a_to: Pos, b_from: Pos, b_to: Pos, time: usize },
}

/// `c` forbids `agent` to be at `pos` at `time`.
pub open spec fn bans_vertex(c: Constraint, agent: usize, pos: Pos, time: int) -> bool {
    match c {
        Constraint::Vertex { agent: a, pos: p, time: t } => a == agent && p == pos && t == time,
        Constraint::Edge { .. } => false,
    }
}

/// `c` forbids `agent` to move from `from` to `to` at `time`.
pub open spec fn bans_edge(c: Constraint, agent: usize, from: Pos, to: Pos, time: int) -> bool {
    match c {
        Constraint::Edge { agent: a, from: f, to: tt, time: t } => a == agent && f == from && tt
            == to && t == time,
        Constraint::Vertex { .. } => false,
    }
}

/// `c` forbids `agent` to be at `goal` at `time` or at some later time.
pub open spec fn bans_finish(c: Constraint, agent: usize, goal: Pos, time: int) -> bool {
    match c {
        Constraint::Vertex { agent: a, pos: p, time: t } => a == agent && p == goal && t >= time,
        Constraint::Edge { .. } => false,
    }
}

/// Some constraint forbids `agent` to be at `pos` at `time`.
pub open spec fn vertex_forbidden(agent: usize, pos: Pos, time: int, cs: Seq<Constraint>) -> bool {
    exists|i: int| 0 <= i < cs.len() && #[trigger] bans_vertex(cs[i], agent, pos, time)
}

/// Some constraint forbids `agent` to move from `from` to `to` at `time`.
pub open spec fn edge_forbidden(agent: usize, from: Pos, to: Pos, time: int, cs: Seq<Constraint>) -> bool {
    exists|i: int| 0 <= i < cs.len() && #[trigger] bans_edge(cs[i], agent, from, to, time)
}

/// The last time step that a constraint on `agent` concerns (an edge
/// constraint at `t` concerns `t + 1`), or 0.
pub open spec fn constraint_horizon(agent: usize, c: Constraint) -> int {
    match c {
        Constraint::Vertex { agent: a, time, .. } => if a == agent {
            time as int
        } else {
            0
        },
        Constraint::Edge { agent: a, time, .. } => if a == agent {
            time + 1
        } else {
            0
        },
    }
}

pub open spec fn latest_spec(agent: usize, cs: Seq<Constraint>) -> int
    decreases cs.len(),
{
    if cs.len() == 0 {
        0
    } else {
        let rest = latest_spec(agent, cs.drop_last());
        let here = constraint_horizon(agent, cs.last());
        if here > rest {
            here
        } else {
            rest
        }
    }
}

/// No constraint forbids `agent` to be at `goal` at `time` or later, so that
/// it may stop there.
pub open spec fn finish_allowed(agent: usize, goal: Pos, time: int, cs: Seq<Constraint>) -> bool {
    forall|i: int| 0 <= i < cs.len() ==> !#[trigger] bans_finish(cs[i], agent, goal, time)
}

/// Edge constraints do not sit at the very end of `usize`.
pub open spec fn edge_times_bounded(cs: Seq<Constraint>) -> bool {
    forall|i: int| 0 <= i < cs.len() ==> #[trigger] edge_time_ok(cs[i])
}

/// An edge constraint's time is below `usize::MAX`.
pub open spec fn edge_time_ok(c: Constraint) -> bool {
    match c {
        Constraint::Edge { time, .. } => time < usize::MAX,
        Constraint::Vertex { .. } => true,
    }
}

/// The time step of a constraint.
pub open spec fn constraint_time(c: Constraint) -> usize {
    match c {
        Constraint::Vertex { time, .. } => time,
        Constraint::Edge { time, .. } => time,
    }
}

pub fn violates_vertex(agent: usize, pos: Pos, time: usize, cs: &[Constraint]) -> (b: bool)
    ensures
        b == vertex_forbidden(agent, pos, time as int, cs@),
{
    let mut i: usize = 0;
    while i < cs.len()
        invariant
            i <= cs@.len(),
            forall|j: int|
                0 <= j < i ==> !#[trigger] bans_vertex(cs@[j], agent, pos, time as int),
        decreases cs@.len() - i,
    {
        match cs[i] {
            Constraint::Vertex { agent: a, pos: p, time: t } => {
                if a == agent && p == pos && t == time {
                    assert(bans_vertex(cs@[i as int], agent, pos, time as int));
                    return true;
                }
            },
            Constraint::Edge { .. } => {},
        }
        i += 1;
    }
    false
}

pub fn violates_edge(agent: usize, from: Pos, to: Pos, time: usize, cs: &[Constraint]) -> (b: bool)
    ensures
        b == edge_forbidden(agent, from, to, time as int, cs@),
{
    let mut i: usize = 0;
    while i < cs.len()
        invariant
            i <= cs@.len(),
            forall|j: int|
                0 <= j < i ==> !#[trigger] bans_edge(cs@[j], agent, from, to, time as int),
        decreases cs@.len() - i,
    {
        match cs[i] {
            Constraint::Edge { agent: a, from: f, to: tt, time: t } => {
                if a == agent && f == from && tt == to && t == time {
                    assert(bans_edge(cs@[i as int], agent, from, to, time as int));
                    return true;
                }
            },
            Constraint::Vertex { .. } => {},
        }
        i += 1;
    }
    false
}

pub fn latest_constraint_time(agent: usize, cs: &[Constraint]) -> (t: usize)
    requires
        edge_times_bounded(cs@),
    ensures
        t == latest_spec(agent, cs@),
{
    let mut best: usize = 0;
    let mut i: usize = 0;
    while i < cs.len()
        invariant
            i <= cs@.len(),
            edge_times_bounded(cs@),
            best == latest_spec(agent, cs@.subrange(0, i as int)),
        decreases cs@.len() - i,
    {
        assert(cs@.subrange(0, i + 1).drop_last() == cs@.subrange(0, i as int));
        assert(edge_time_ok(cs@[i as int]));
        let here: usize = match cs[i] {
            Constraint::Vertex { agent: a, time, .. } => if a == agent {
                time
            } else {
                0
            },
            Constraint::Edge { agent: a, time, .. } => if a == agent {
                time + 1
            } else {
                0
            },
        };
        if here > best {
            best = here;
        }
        i += 1;
    }
    assert(cs@.subrange(0, cs@.len() as int) == cs@);
    best
}

pub fn safe_to_finish(agent: usize, goal: Pos, time: usize, cs: &[Constraint]) -> (b: bool)
    ensures
        b == finish_allowed(agent, goal, time as int, cs@),
{
    let mut i: usize = 0;
    while i < cs.len()
        invariant
            i <= cs@.len(),
            forall|j: int|
                0 <= j < i ==> !#[trigger] bans_finish(cs@[j], agent, goal, time as int),
        decreases cs@.len() - i,
    {
        match cs[i] {
            Constraint::Vertex { agent: a, pos: p, time: t } => {
                if a == agent && p == goal && t >= time {
                    assert(bans_finish(cs@[i as int], agent, goal, time as int));
                    return false;
                }
            },
            Constraint::Edge { .. } => {},
        }
        i += 1;
    }
    true
}


/// `path` is a walk on `grid` from `start` to `goal`: each step stays put or
/// moves to a neighbouring cell, and every cell after the first is a free
/// cell of the grid.
pub open spec fn plain_path(grid: Grid, path: Seq<Pos>, start: Pos, goal: Pos) -> bool {
    &&& path.len() >= 1
    &&& path[0] == start
    &&& path.last() == goal
    &&& forall|t: int| 1 <= t < path.len() ==> grid.valid_spec(#[trigger] path[t])
    &&& forall|t: int| 0 <= t < path.len() - 1 ==> #[trigger] step_is_move(path, t)
}

pub open spec fn step_is_move(path: Seq<Pos>, t: int) -> bool {
    is_move(path[t], path[t + 1])
}

pub open spec fn step_allowed(agent: usize, path: Seq<Pos>, t: int, cs: Seq<Constraint>) -> bool {
    !edge_forbidden(agent, path[t], path[t + 1], t, cs)
}

/// `path`, followed by `agent` from time 0, breaks none of the constraints
/// `cs`, and `agent` may stay at its last cell forever after.
pub open spec fn respects(agent: usize, path: Seq<Pos>, cs: Seq<Constraint>) -> bool {
    &&& forall|t: int| 0 <= t < path.len() ==> !vertex_forbidden(agent, #[trigger] path[t], t, cs)
    &&& forall|t: int| 0 <= t < path.len() - 1 ==> #[trigger] step_allowed(agent, path, t, cs)
    &&& finish_allowed(agent, path.last(), path.len() - 1, cs)
}

/// The time steps up to which the low-level search explores.
pub open spec fn search_horizon(grid: Grid, agent: usize, cs: Seq<Constraint>) -> int {
    latest_spec(agent, cs) + 4 * (grid.width * grid.height) + 20
}

/// The arithmetic of the low-level search fits the machine integers.
pub open spec fn a_star_fits(
    grid: Grid,
    start: Pos,
    goal: Pos,
    agent: usize,
    cs: Seq<Constraint>,
) -> bool {
    &&& 0 <= grid.width
    &&& 0 <= grid.height
    &&& grid.width * grid.height <= i32::MAX
    &&& steppable(start)
    &&& manhattan_spec(start, goal) <= i32::MAX
    &&& forall|p: Pos| #[trigger] grid.in_bounds_spec(p) ==> manhattan_spec(p, goal) <= i32::MAX
    &&& edge_times_bounded(cs)
    &&& search_horizon(grid, agent, cs) + i32::MAX <= usize::MAX
}


/// `q` is a legal next cell, at `t + 1`, for `agent` at `from` at `t`: a
/// free cell one move away that no constraint forbids to be in or to move
/// to.
pub open spec fn legal_step(grid: Grid, agent: usize, cs: Seq<Constraint>, from: Pos, t: int, q: Pos) -> bool {
    &&& grid.valid_spec(q)
    &&& is_move(from, q)
    &&& !vertex_forbidden(agent, q, t + 1, cs)
    &&& !edge_forbidden(agent, from, q, t, cs)
}

/// A move from a steppable cell is one of its five candidates.
proof fn lemma_move_candidate(p: Pos, q: Pos) -> (k: int)
    requires
        steppable(p),
        is_move(p, q),
    ensures
        0 <= k < 5,
        q == candidate_move(p, k),
{
    if q == p {
        0
    } else if q.x == p.x + 1 {
        1
    } else if q.x == p.x - 1 {
        2
    } else if q.y == p.y + 1 {
        3
    } else {
        4
    }
}

/// The first `n` candidates list every free one among them.
proof fn lemma_moves_upto_contains(grid: Grid, p: Pos, n: nat, k: int)
    requires
        0 <= k < n,
        grid.valid_spec(candidate_move(p, k)),
    ensures
        grid.moves_upto(p, n).contains(candidate_move(p, k)),
    decreases n,
{
    let rest = grid.moves_upto(p, (n - 1) as nat);
    if k == n - 1 {
        assert(grid.moves_upto(p, n) == rest.push(candidate_move(p, k)));
        assert(grid.moves_upto(p, n)[rest.len() as int] == candidate_move(p, k));
    } else {
        lemma_moves_upto_contains(grid, p, (n - 1) as nat, k);
        let i = choose|i: int| 0 <= i < rest.len() && rest[i] == candidate_move(p, k);
        if grid.valid_spec(candidate_move(p, n - 1)) {
            assert(grid.moves_upto(p, n)[i] == rest[i]);
        }
    }
}

/// Search states of cells on the grid have distinct keys.
proof fn lemma_key_injective(p: Pos, t: int, q: Pos, s: int)
    requires
        0 <= p.x < 0x1_0000_0000,
        0 <= p.y < 0x1_0000_0000,
        0 <= q.x < 0x1_0000_0000,
        0 <= q.y < 0x1_0000_0000,
        0 <= t,
        0 <= s,
        key_of(p, t) == key_of(q, s),
    ensures
        p == q,
        t == s,
{
    let a = p.y * 0x1_0000_0000 + p.x;
    let b = q.y * 0x1_0000_0000 + q.x;
    assert(0 <= a < 0x1_0000_0000_0000_0000) by (nonlinear_arith)
        requires
            0 <= p.x < 0x1_0000_0000,
            0 <= p.y < 0x1_0000_0000,
            a == p.y * 0x1_0000_0000 + p.x,
    ;
    assert(0 <= b < 0x1_0000_0000_0000_0000) by (nonlinear_arith)
        requires
            0 <= q.x < 0x1_0000_0000,
            0 <= q.y < 0x1_0000_0000,
            b == q.y * 0x1_0000_0000 + q.x,
    ;
    assert(t == s) by (nonlinear_arith)
        requires
            t * 0x1_0000_0000_0000_0000 + a == s * 0x1_0000_0000_0000_0000 + b,
            0 <= a < 0x1_0000_0000_0000_0000,
            0 <= b < 0x1_0000_0000_0000_0000,
    ;
    assert(p.y == q.y) by (nonlinear_arith)
        requires
            p.y * 0x1_0000_0000 + p.x == q.y * 0x1_0000_0000 + q.x,
            0 <= p.x < 0x1_0000_0000,
            0 <= q.x < 0x1_0000_0000,
    ;
}

/// A state of the time-expanded search: a cell at a time, with the index of
/// the state it was reached from.
#[derive(Clone, Copy, Debug)]
struct SearchNode {
    pos: Pos,
    time: usize,
    f: usize,
    parent: usize,
}

spec fn key_of(p: Pos, t: int) -> int {
    t * 0x1_0000_0000_0000_0000 + p.y * 0x1_0000_0000 + p.x
}

fn state_key(p: Pos, t: usize) -> (k: u128)
    requires
        0 <= p.x,
        0 <= p.y,
    ensures
        k == key_of(p, t as int),
{
    (t as u128) * 0x1_0000_0000_0000_0000u128 + (p.y as u128) * 0x1_0000_0000u128 + (p.x as u128)
}

spec fn node_le(a: SearchNode, b: SearchNode) -> bool {
    a.f < b.f || (a.f == b.f && (a.time < b.time || (a.time == b.time && !pos_less(b.pos, a.pos))))
}

/// The arena of search states is a tree of legal moves rooted at `start`.
spec fn arena_ok(
    grid: Grid,
    start: Pos,
    goal: Pos,
    agent: usize,
    cs: Seq<Constraint>,
    nodes: Seq<SearchNode>,
    max_time: int,
) -> bool {
    &&& nodes.len() >= 1
    &&& nodes[0].pos == start
    &&& nodes[0].time == 0
    &&& nodes[0].f == manhattan_spec(start, goal)
    &&& !vertex_forbidden(agent, start, 0, cs)
    &&& forall|i: int| 1 <= i < nodes.len() ==> #[trigger] tree_edge_ok(grid, goal, agent, cs, nodes, max_time, i)
}

spec fn tree_edge_ok(
    grid: Grid,
    goal: Pos,
    agent: usize,
    cs: Seq<Constraint>,
    nodes: Seq<SearchNode>,
    max_time: int,
    i: int,
) -> bool {
    let n = nodes[i];
    let p = nodes[n.parent as int];
    &&& n.parent < i
    &&& 1 <= n.time <= max_time
    &&& p.time + 1 == n.time
    &&& grid.valid_spec(n.pos)
    &&& is_move(p.pos, n.pos)
    &&& !vertex_forbidden(agent, n.pos, n.time as int, cs)
    &&& !edge_forbidden(agent, p.pos, n.pos, p.time as int, cs)
    &&& n.f == n.time + manhattan_spec(n.pos, goal)
}


/// The index of the arena maps each key to the one state of the arena,
/// other than the root, that has that key.
spec fn index_ok(nodes: Seq<SearchNode>, index: Map<u128, usize>) -> bool {
    forall|k: u128|
        #[trigger] index.contains_key(k) ==> 1 <= index[k] < nodes.len() && key_of(
            nodes[index[k] as int].pos,
            nodes[index[k] as int].time as int,
        ) == k as int
}

/// State `i` of the arena was expanded: it is not a finish at `goal`, and
/// unless it sits at the horizon every legal next state was added.
spec fn expanded_ok(
    grid: Grid,
    goal: Pos,
    agent: usize,
    cs: Seq<Constraint>,
    nodes: Seq<SearchNode>,
    index: Map<u128, usize>,
    max_time: int,
    i: int,
) -> bool {
    let n = nodes[i];
    &&& !(n.pos == goal && finish_allowed(agent, goal, n.time as int, cs))
    &&& (n.time >= max_time || forall|q: Pos|
        #[trigger] legal_step(grid, agent, cs, n.pos, n.time as int, q) ==> index.contains_key(
            key_of(q, n.time + 1) as u128,
        ))
}

/// Every state along a legal walk from `start` is in a fully expanded
/// arena: the one at step `t`.
proof fn lemma_reached(
    grid: Grid,
    start: Pos,
    goal: Pos,
    agent: usize,
    cs: Seq<Constraint>,
    nodes: Seq<SearchNode>,
    index: Map<u128, usize>,
    max_time: int,
    path: Seq<Pos>,
    t: int,
) -> (i: int)
    requires
        0 <= grid.width,
        0 <= grid.height,
        max_time + 1 <= usize::MAX,
        arena_ok(grid, start, goal, agent, cs, nodes, max_time),
        index_ok(nodes, index),
        forall|j: int| 0 <= j < nodes.len() ==> #[trigger] expanded_ok(grid, goal, agent, cs, nodes, index, max_time, j),
        plain_path(grid, path, start, goal),
        respects(agent, path, cs),
        path.len() <= max_time + 1,
        0 <= t < path.len(),
    ensures
        0 <= i < nodes.len(),
        nodes[i].pos == path[t],
        nodes[i].time == t,
    decreases t,
{
    if t == 0 {
        0
    } else {
        let i0 = lemma_reached(grid, start, goal, agent, cs, nodes, index, max_time, path, t - 1);
        let n = nodes[i0];
        assert(expanded_ok(grid, goal, agent, cs, nodes, index, max_time, i0));
        assert(step_is_move(path, t - 1));
        assert(step_allowed(agent, path, t - 1, cs));
        assert(grid.valid_spec(path[t]));
        assert(!vertex_forbidden(agent, path[t], t, cs));
        assert(legal_step(grid, agent, cs, n.pos, n.time as int, path[t]));
        let k = key_of(path[t], t);
        assert(0 <= k < 0x1_0000_0000_0000_0000_0000_0000_0000_0000) by (nonlinear_arith)
            requires
                k == t * 0x1_0000_0000_0000_0000 + path[t].y * 0x1_0000_0000 + path[t].x,
                0 <= path[t].x < 0x1_0000_0000,
                0 <= path[t].y < 0x1_0000_0000,
                0 <= t <= usize::MAX,
        ;
        assert(index.contains_key(k as u128));
        let j = index[k as u128] as int;
        assert(tree_edge_ok(grid, goal, agent, cs, nodes, max_time, j));
        lemma_key_injective(nodes[j].pos, nodes[j].time as int, path[t], t);
        j
    }
}

/// A fully expanded arena leaves no legal walk from `start` to a finish at
/// `goal` within the horizon.
proof fn lemma_search_exhausted(
    grid: Grid,
    start: Pos,
    goal: Pos,
    agent: usize,
    cs: Seq<Constraint>,
    nodes: Seq<SearchNode>,
    index: Map<u128, usize>,
    max_time: int,
    path: Seq<Pos>,
)
    requires
        0 <= grid.width,
        0 <= grid.height,
        max_time + 1 <= usize::MAX,
        arena_ok(grid, start, goal, agent, cs, nodes, max_time),
        index_ok(nodes, index),
        forall|j: int| 0 <= j < nodes.len() ==> #[trigger] expanded_ok(grid, goal, agent, cs, nodes, index, max_time, j),
    ensures
        !(plain_path(grid, path, start, goal) && respects(agent, path, cs) && path.len() <= max_time + 1),
{
    if plain_path(grid, path, start, goal) && respects(agent, path, cs) && path.len() <= max_time + 1 {
        let i = lemma_reached(grid, start, goal, agent, cs, nodes, index, max_time, path, path.len() - 1);
        assert(expanded_ok(grid, goal, agent, cs, nodes, index, max_time, i));
    }
}

/// Index in `open` of the entry whose state comes first in the order of
/// `(f, g, time, pos)` (here `g` equals the time).
fn pick_min(nodes: &Vec<SearchNode>, open: &Vec<usize>) -> (j: usize)
    requires
        open@.len() > 0,
        forall|i: int| 0 <= i < open@.len() ==> #[trigger] open@[i] < nodes@.len(),
    ensures
        j < open@.len(),
        forall|i: int|
            0 <= i < open@.len() ==> node_le(nodes@[open@[j as int] as int], #[trigger] nodes@[open@[i] as int]),
{
    let mut best: usize = 0;
    let mut i: usize = 1;
    while i < open.len()
        invariant
            1 <= i <= open@.len(),
            best < i,
            forall|i: int| 0 <= i < open@.len() ==> #[trigger] open@[i] < nodes@.len(),
            forall|k: int|
                0 <= k < i ==> node_le(nodes@[open@[best as int] as int], #[trigger] nodes@[open@[k] as int]),
        decreases open@.len() - i,
    {
        let a = nodes[open[i]];
        let b = nodes[open[best]];
        let earlier = a.f < b.f || (a.f == b.f && (a.time < b.time || (a.time == b.time && (
        a.pos.x < b.pos.x || (a.pos.x == b.pos.x && a.pos.y < b.pos.y)))));
        if earlier {
            best = i;
        }
        i += 1;
    }
    best
}

/// The cells visited on the way from the root of the arena to `last`.
fn reconstruct(
    nodes: &Vec<SearchNode>,
    last: usize,
    Ghost(grid): Ghost<Grid>,
    Ghost(start): Ghost<Pos>,
    Ghost(goal): Ghost<Pos>,
    Ghost(agent): Ghost<usize>,
    Ghost(cs): Ghost<Seq<Constraint>>,
    Ghost(max_time): Ghost<int>,
) -> (path: Vec<Pos>)
    requires
        arena_ok(grid, start, goal, agent, cs, nodes@, max_time),
        last < nodes@.len(),
    ensures
        path@.len() == nodes@[last as int].time + 1,
        path@[0] == start,
        path@.last() == nodes@[last as int].pos,
        forall|t: int| 1 <= t < path@.len() ==> grid.valid_spec(#[trigger] path@[t]),
        forall|t: int| 0 <= t < path@.len() - 1 ==> #[trigger] step_is_move(path@, t),
        forall|t: int| 0 <= t < path@.len() ==> !vertex_forbidden(agent, #[trigger] path@[t], t, cs),
        forall|t: int| 0 <= t < path@.len() - 1 ==> #[trigger] step_allowed(agent, path@, t, cs),
{
    let ghost tl = nodes@[last as int].time as int;
    let mut c: usize = last;
    let mut rev: Vec<Pos> = Vec::new();
    rev.push(nodes[last].pos);
    if last != 0 {
        assert(tree_edge_ok(grid, goal, agent, cs, nodes@, max_time, last as int));
    }
    while c != 0
        invariant
            arena_ok(grid, start, goal, agent, cs, nodes@, max_time),
            last < nodes@.len(),
            tl == nodes@[last as int].time,
            c < nodes@.len(),
            rev@.len() == tl - nodes@[c as int].time + 1,
            rev@.len() >= 1,
            rev@[0] == nodes@[last as int].pos,
            rev@.last() == nodes@[c as int].pos,
            c != 0 ==> grid.valid_spec(rev@.last()),
            forall|j: int| 0 <= j < rev@.len() - 1 ==> grid.valid_spec(#[trigger] rev@[j]),
            forall|j: int|
                0 <= j < rev@.len() ==> !vertex_forbidden(agent, #[trigger] rev@[j], tl - j, cs),
            forall|j: int|
                0 <= j < rev@.len() - 1 ==> is_move(#[trigger] rev@[j + 1], rev@[j])
                    && !edge_forbidden(agent, rev@[j + 1], rev@[j], tl - j - 1, cs),
        decreases c,
    {
        assert(tree_edge_ok(grid, goal, agent, cs, nodes@, max_time, c as int));
        let ghost old_rev = rev@;
        c = nodes[c].parent;
        rev.push(nodes[c].pos);
        if c != 0 {
            assert(tree_edge_ok(grid, goal, agent, cs, nodes@, max_time, c as int));
        }
        assert forall|j: int|
            0 <= j < rev@.len() implies !vertex_forbidden(agent, #[trigger] rev@[j], tl - j, cs) by {
            if j < old_rev.len() {
                assert(rev@[j] == old_rev[j]);
            }
        }
    }
    assert(nodes@[c as int].time == 0);
    let n = rev.len();
    let mut path: Vec<Pos> = Vec::new();
    let mut i: usize = 0;
    while i < n
        invariant
            n == rev@.len(),
            n == tl + 1,
            i <= n,
            path@.len() == i,
            forall|k: int| 0 <= k < i ==> #[trigger] path@[k] == rev@[n - 1 - k],
        decreases n - i,
    {
        path.push(rev[n - 1 - i]);
        i += 1;
    }
    assert forall|t: int|
        #![trigger step_is_move(path@, t)]
        #![trigger step_allowed(agent, path@, t, cs)]
        0 <= t < path@.len() - 1 implies step_is_move(path@, t) && step_allowed(agent, path@, t, cs) by {
        let j = n - 2 - t;
        assert(path@[t] == rev@[j + 1]);
        assert(path@[t + 1] == rev@[j]);
        assert(is_move(rev@[j + 1], rev@[j]) && !edge_forbidden(agent, rev@[j + 1], rev@[j], tl - j - 1, cs));
    }
    assert forall|t: int| 0 <= t < path@.len() implies !vertex_forbidden(
        agent,
        #[trigger] path@[t],
        t,
        cs,
    ) by {
        assert(path@[t] == rev@[n - 1 - t]);
    }
    assert forall|t: int| 1 <= t < path@.len() implies grid.valid_spec(#[trigger] path@[t]) by {
        assert(path@[t] == rev@[n - 1 - t]);
    }
    path
}

/// State `i` of the arena is either waiting in `open` or already expanded.
spec fn accounted(open: Seq<usize>, expanded: Set<int>, i: int) -> bool {
    in_open(open, i) || expanded.contains(i)
}

spec fn in_open(open: Seq<usize>, i: int) -> bool {
    exists|p: int| 0 <= p < open.len() && open[p] == i
}

/// Along a walk, the Manhattan distance from step `t` to the last cell is at
/// most the number of steps left.
proof fn lemma_distance_left(path: Seq<Pos>, t: int)
    requires
        path.len() >= 1,
        forall|u: int| 0 <= u < path.len() - 1 ==> #[trigger] step_is_move(path, u),
        0 <= t < path.len(),
    ensures
        manhattan_spec(path[t], path.last()) <= path.len() - 1 - t,
    decreases path.len() - t,
{
    if t < path.len() - 1 {
        lemma_distance_left(path, t + 1);
        assert(step_is_move(path, t));
    }
}

/// While a legal walk from `start` to a finish at `goal` within the horizon
/// exists, some state waiting in `open` has an `f` of at most the walk's
/// number of steps: the first state along the walk that is not expanded.
proof fn lemma_open_frontier(
    grid: Grid,
    start: Pos,
    goal: Pos,
    agent: usize,
    cs: Seq<Constraint>,
    nodes: Seq<SearchNode>,
    index: Map<u128, usize>,
    open: Seq<usize>,
    expanded: Set<int>,
    max_time: int,
    path: Seq<Pos>,
    t: int,
    i: int,
) -> (o: int)
    requires
        0 <= grid.width,
        0 <= grid.height,
        max_time + 1 <= usize::MAX,
        arena_ok(grid, start, goal, agent, cs, nodes, max_time),
        index_ok(nodes, index),
        forall|j: int| #[trigger]
            expanded.contains(j) ==> 0 <= j < nodes.len() && expanded_ok(
                grid,
                goal,
                agent,
                cs,
                nodes,
                index,
                max_time,
                j,
            ),
        forall|j: int| 0 <= j < nodes.len() ==> #[trigger] accounted(open, expanded, j),
        plain_path(grid, path, start, goal),
        respects(agent, path, cs),
        path.len() <= max_time + 1,
        0 <= t < path.len(),
        0 <= i < nodes.len(),
        nodes[i].pos == path[t],
        nodes[i].time == t,
    ensures
        0 <= o < open.len(),
        open[o] < nodes.len(),
        nodes[open[o] as int].f <= path.len() - 1,
    decreases path.len() - t,
{
    assert(accounted(open, expanded, i));
    if in_open(open, i) {
        let o = choose|o: int| 0 <= o < open.len() && open[o] == i;
        lemma_distance_left(path, t);
        if i != 0 {
            assert(tree_edge_ok(grid, goal, agent, cs, nodes, max_time, i));
        }
        o
    } else {
        let n = nodes[i];
        assert(expanded_ok(grid, goal, agent, cs, nodes, index, max_time, i));
        assert(t < path.len() - 1);
        assert(step_is_move(path, t));
        assert(step_allowed(agent, path, t, cs));
        assert(grid.valid_spec(path[t + 1]));
        assert(!vertex_forbidden(agent, path[t + 1], t + 1, cs));
        assert(legal_step(grid, agent, cs, n.pos, n.time as int, path[t + 1]));
        let k = key_of(path[t + 1], t + 1);
        assert(0 <= k < 0x1_0000_0000_0000_0000_0000_0000_0000_0000) by (nonlinear_arith)
            requires
                k == (t + 1) * 0x1_0000_0000_0000_0000 + path[t + 1].y * 0x1_0000_0000 + path[t + 1].x,
                0 <= path[t + 1].x < 0x1_0000_0000,
                0 <= path[t + 1].y < 0x1_0000_0000,
                0 <= t + 1 <= usize::MAX,
        ;
        assert(index.contains_key(k as u128));
        let j = index[k as u128] as int;
        assert(tree_edge_ok(grid, goal, agent, cs, nodes, max_time, j));
        lemma_key_injective(nodes[j].pos, nodes[j].time as int, path[t + 1], t + 1);
        lemma_open_frontier(grid, start, goal, agent, cs, nodes, index, open, expanded, max_time, path, t + 1, j)
    }
}

/// Adding a state to the arena and its key to the index keeps the index
/// exact and every expanded state expanded.
proof fn lemma_arena_push(
    grid: Grid,
    goal: Pos,
    agent: usize,
    cs: Seq<Constraint>,
    old_nodes: Seq<SearchNode>,
    nodes: Seq<SearchNode>,
    old_index: Map<u128, usize>,
    index: Map<u128, usize>,
    expanded: Set<int>,
    max_time: int,
    ni: usize,
)
    requires
        1 <= old_nodes.len(),
        ni == old_nodes.len(),
        nodes == old_nodes.push(nodes.last()),
        index == old_index.insert(key_of(nodes.last().pos, nodes.last().time as int) as u128, ni),
        0 <= key_of(nodes.last().pos, nodes.last().time as int) <= u128::MAX,
        index_ok(old_nodes, old_index),
        forall|i: int| #[trigger]
            expanded.contains(i) ==> 0 <= i < old_nodes.len() && expanded_ok(
                grid,
                goal,
                agent,
                cs,
                old_nodes,
                old_index,
                max_time,
                i,
            ),
    ensures
        index_ok(nodes, index),
        forall|i: int| #[trigger]
            expanded.contains(i) ==> 0 <= i < nodes.len() && expanded_ok(
                grid,
                goal,
                agent,
                cs,
                nodes,
                index,
                max_time,
                i,
            ),
{
    let nk = key_of(nodes.last().pos, nodes.last().time as int) as u128;
    assert forall|kk: u128| #[trigger] index.contains_key(kk) implies 1 <= index[kk] < nodes.len()
        && key_of(nodes[index[kk] as int].pos, nodes[index[kk] as int].time as int) == kk as int by {
        if kk != nk {
            assert(old_index.contains_key(kk));
            assert(nodes[index[kk] as int] == old_nodes[old_index[kk] as int]);
        } else {
            assert(index[kk] as int == old_nodes.len());
            assert(nodes[old_nodes.len() as int] == nodes.last());
        }
    }
    assert forall|i: int| #[trigger] expanded.contains(i) implies 0 <= i < nodes.len() && expanded_ok(
        grid,
        goal,
        agent,
        cs,
        nodes,
        index,
        max_time,
        i,
    ) by {
        assert(expanded_ok(grid, goal, agent, cs, old_nodes, old_index, max_time, i));
        assert(nodes[i] == old_nodes[i]);
        let n = nodes[i];
        if n.time < max_time {
            assert forall|q: Pos| #[trigger] legal_step(grid, agent, cs, n.pos, n.time as int, q) implies index.contains_key(
                key_of(q, n.time + 1) as u128,
            ) by {
                assert(old_index.contains_key(key_of(q, n.time + 1) as u128));
            }
        }
    }
}

/// Pushing a new state onto `open` keeps every other state accounted for.
proof fn lemma_open_push(old_open: Seq<usize>, open: Seq<usize>, expanded: Set<int>, ni: int, ci: int)
    requires
        0 <= ci < ni <= usize::MAX,
        open == old_open.push(ni as usize),
        forall|i: int| 0 <= i < ni && i != ci ==> #[trigger] accounted(old_open, expanded, i),
    ensures
        forall|i: int| 0 <= i < ni + 1 && i != ci ==> #[trigger] accounted(open, expanded, i),
{
    assert forall|i: int| 0 <= i < ni + 1 && i != ci implies #[trigger] accounted(open, expanded, i) by {
        if i == ni {
            assert(open[open.len() - 1] == ni);
        } else {
            assert(accounted(old_open, expanded, i));
            if in_open(old_open, i) {
                let p = choose|p: int| 0 <= p < old_open.len() && old_open[p] == i;
                assert(open[p] == i);
            }
        }
    }
}

/// Removing one entry of `open` by swapping in the last keeps every other
/// entry.
proof fn lemma_swap_remove_keeps(before: Seq<usize>, after: Seq<usize>, j: int, x: int)
    requires
        0 <= j < before.len(),
        after == before.update(j, before.last()).drop_last(),
        in_open(before, x),
        x != before[j],
    ensures
        in_open(after, x),
{
    let p = choose|p: int| 0 <= p < before.len() && before[p] == x;
    if p < before.len() - 1 {
        assert(after[p] == x);
    } else {
        assert(after[j] == x);
    }
}

/// Shortest-time search for one agent in space-time, avoiding the cells and
/// moves that `cs` forbids to it; states are `(cell, time)` and waiting in
/// place is a move.  A returned path starts at `start`, ends at `goal`, uses
/// only legal moves onto free cells, breaks no constraint, and lets the agent
/// stay at `goal` from then on.
pub fn a_star(grid: &Grid, start: Pos, goal: Pos, agent: usize, cs: &[Constraint]) -> (r: Option<
    Vec<Pos>,
>)
    requires
        a_star_fits(*grid, start, goal, agent, cs@),
    ensures
        vertex_forbidden(agent, start, 0, cs@) ==> r is None,
        r matches Some(path) ==> {
            &&& plain_path(*grid, path@, start, goal)
            &&& respects(agent, path@, cs@)
            &&& path@.len() <= search_horizon(*grid, agent, cs@) + 1
            &&& forall|other: Seq<Pos>|
                #[trigger] plain_path(*grid, other, start, goal) && respects(agent, other, cs@) ==> path@.len()
                    <= other.len()
        },
        r is None ==> forall|path: Seq<Pos>|
            !(#[trigger] plain_path(*grid, path, start, goal) && respects(agent, path, cs@) && path.len()
                <= search_horizon(*grid, agent, cs@) + 1),
{
    broadcast use vstd::std_specs::hash::group_hash_axioms;

    if violates_vertex(agent, start, 0, cs) {
        proof {
            assert forall|path: Seq<Pos>|
                !(#[trigger] plain_path(*grid, path, start, goal) && respects(agent, path, cs@)) by {
                if plain_path(*grid, path, start, goal) {
                    assert(path[0] == start);
                }
            }
        }
        return None;
    }
    let latest = latest_constraint_time(agent, cs);
    let cells: usize = (grid.width * grid.height) as usize;
    let max_time: usize = latest + cells * 4 + 20;
    let ghost gr = *grid;
    let ghost csq = cs@;
    let ghost big_k: int = (max_time + 1) * 0x1_0000_0000_0000_0000;

    let mut nodes: Vec<SearchNode> = Vec::new();
    nodes.push(SearchNode { pos: start, time: 0, f: start.manhattan(goal), parent: 0 });
    let mut index: HashMap<u128, usize> = HashMap::new();
    let mut open: Vec<usize> = Vec::new();
    open.push(0);
    let ghost mut seen: Set<int> = Set::empty();
    let ghost mut expanded: Set<int> = Set::empty();
    proof {
        vstd::set_lib::lemma_int_range(0, big_k);
        assert(open@[0] == 0usize);
        assert(in_open(open@, 0));
        assert forall|i: int| 0 <= i < nodes@.len() implies #[trigger] accounted(open@, expanded, i) by {
            assert(in_open(open@, 0));
        }
    }

    while open.len() > 0
        invariant
            a_star_fits(gr, start, goal, agent, csq),
            gr == *grid,
            csq == cs@,
            max_time == search_horizon(gr, agent, csq),
            big_k == (max_time + 1) * 0x1_0000_0000_0000_0000,
            arena_ok(gr, start, goal, agent, csq, nodes@, max_time as int),
            forall|i: int| 0 <= i < open@.len() ==> #[trigger] open@[i] < nodes@.len(),
            forall|i: int|
                1 <= i < nodes@.len() ==> #[trigger] index@.contains_key(
                    key_of(nodes@[i].pos, nodes@[i].time as int) as u128,
                ),
            index_ok(nodes@, index@),
            forall|i: int| #[trigger]
                expanded.contains(i) ==> 0 <= i < nodes@.len() && expanded_ok(
                    gr,
                    goal,
                    agent,
                    csq,
                    nodes@,
                    index@,
                    max_time as int,
                    i,
                ),
            forall|i: int| 0 <= i < nodes@.len() ==> #[trigger] accounted(open@, expanded, i),
            forall|k: u128| #[trigger]
                index@.contains_key(k) ==> seen.contains(k as int),
            forall|k: int| #[trigger] seen.contains(k) ==> 0 <= k < big_k && index@.contains_key(k as u128),
            seen.finite(),
            seen.len() == nodes@.len() - 1,
            set_int_range(0, big_k).len() == big_k,
            seen.len() <= big_k,
        decreases 6 * (big_k - seen.len()) + open@.len(),
    {
        let j = pick_min(&nodes, &open);
        let ghost open_before = open@;
        let ci = open.swap_remove(j);
        proof {
            assert(open_before[j as int] == ci);
            assert forall|i: int| 0 <= i < nodes@.len() && i != ci implies #[trigger] accounted(
                open@,
                expanded,
                i,
            ) by {
                assert(accounted(open_before, expanded, i));
                if in_open(open_before, i) {
                    lemma_swap_remove_keeps(open_before, open@, j as int, i);
                }
            }
            assert forall|i: int| 0 <= i < open@.len() implies #[trigger] open@[i] < nodes@.len() by {
                if i == j {
                    assert(open@[i] == open_before[open_before.len() - 1]);
                } else {
                    assert(open@[i] == open_before[i]);
                }
            }
        }
        let cur = nodes[ci];
        if cur.pos == goal && safe_to_finish(agent, goal, cur.time, cs) {
            let path = reconstruct(
                &nodes,
                ci,
                Ghost(gr),
                Ghost(start),
                Ghost(goal),
                Ghost(agent),
                Ghost(csq),
                Ghost(max_time as int),
            );
            if ci != 0 {
                assert(tree_edge_ok(gr, goal, agent, csq, nodes@, max_time as int, ci as int));
            }
            proof {
                assert forall|other: Seq<Pos>|
                    #[trigger] plain_path(gr, other, start, goal) && respects(agent, other, csq) implies path@.len()
                    <= other.len() by {
                    if other.len() <= max_time + 1 {
                        let o = lemma_open_frontier(
                            gr,
                            start,
                            goal,
                            agent,
                            csq,
                            nodes@,
                            index@,
                            open_before,
                            expanded,
                            max_time as int,
                            other,
                            0,
                            0,
                        );
                        assert(node_le(nodes@[ci as int], nodes@[open_before[o] as int]));
                    }
                }
            }
            return Some(path);
        }
        if cur.time >= max_time {
            proof {
                assert(expanded_ok(gr, goal, agent, csq, nodes@, index@, max_time as int, ci as int));
                let ghost exp0 = expanded;
                expanded = expanded.insert(ci as int);
                assert forall|i: int| 0 <= i < nodes@.len() implies #[trigger] accounted(
                    open@,
                    expanded,
                    i,
                ) by {
                    if i != ci {
                        assert(accounted(open@, exp0, i));
                    }
                }
            }
            continue;
        }
        if ci != 0 {
            assert(tree_edge_ok(gr, goal, agent, csq, nodes@, max_time as int, ci as int));
        }
        let nbrs = grid.neighbors_with_wait(cur.pos);
        let ghost open_len0 = open@.len();
        let ghost seen0 = seen.len();
        let mut k: usize = 0;
        while k < nbrs.len()
            invariant
                a_star_fits(gr, start, goal, agent, csq),
                gr == *grid,
                csq == cs@,
                max_time == search_horizon(gr, agent, csq),
                big_k == (max_time + 1) * 0x1_0000_0000_0000_0000,
                ci < nodes@.len(),
                cur == nodes@[ci as int],
                cur.time < max_time,
                !(cur.pos == goal && finish_allowed(agent, goal, cur.time as int, csq)),
                ci != 0 ==> tree_edge_ok(gr, goal, agent, csq, nodes@, max_time as int, ci as int),
                ci == 0 ==> cur.pos == start && cur.time == 0,
                nbrs@ == gr.moves_upto(cur.pos, 5),
                forall|i: int|
                    0 <= i < nbrs@.len() ==> gr.valid_spec(#[trigger] nbrs@[i]) && is_move(
                        cur.pos,
                        nbrs@[i],
                    ),
                k <= nbrs@.len(),
                nbrs@.len() <= 5,
                forall|i: int|
                    0 <= i < k ==> (legal_step(gr, agent, csq, cur.pos, cur.time as int, #[trigger] nbrs@[i])
                        ==> index@.contains_key(key_of(nbrs@[i], cur.time + 1) as u128)),
                arena_ok(gr, start, goal, agent, csq, nodes@, max_time as int),
                forall|i: int| 0 <= i < open@.len() ==> #[trigger] open@[i] < nodes@.len(),
                forall|i: int|
                    1 <= i < nodes@.len() ==> #[trigger] index@.contains_key(
                        key_of(nodes@[i].pos, nodes@[i].time as int) as u128,
                    ),
                index_ok(nodes@, index@),
                forall|i: int| #[trigger]
                    expanded.contains(i) ==> 0 <= i < nodes@.len() && expanded_ok(
                        gr,
                        goal,
                        agent,
                        csq,
                        nodes@,
                        index@,
                        max_time as int,
                        i,
                    ),
                forall|i: int|
                    0 <= i < nodes@.len() && i != ci ==> #[trigger] accounted(open@, expanded, i),
                forall|k: u128| #[trigger]
                    index@.contains_key(k) ==> seen.contains(k as int),
                forall|k: int| #[trigger] seen.contains(k) ==> 0 <= k < big_k && index@.contains_key(k as u128),
                seen.finite(),
                seen.len() == nodes@.len() - 1,
                set_int_range(0, big_k).len() == big_k,
                seen.len() <= big_k,
                open@.len() - open_len0 == seen.len() - seen0,
                seen.len() - seen0 <= k,
                seen.len() >= seen0,
            decreases nbrs@.len() - k,
        {
            let next = nbrs[k];
            let nt = cur.time + 1;
            k += 1;
            if violates_vertex(agent, next, nt, cs) {
                continue;
            }
            if violates_edge(agent, cur.pos, next, cur.time, cs) {
                continue;
            }
            let nk = state_key(next, nt);
            if index.contains_key(&nk) {
                continue;
            }
            let h = next.manhattan(goal);
            let ni = nodes.len();
            let ghost old_nodes = nodes@;
            let ghost old_index = index@;
            let ghost old_open = open@;
            nodes.push(SearchNode { pos: next, time: nt, f: nt + h, parent: ci });
            index.insert(nk, ni);
            open.push(ni);
            proof {
                seen = seen.insert(nk as int);
                vstd::set_lib::lemma_int_range(0, big_k);
                assert forall|x: int| seen.contains(x) implies #[trigger] set_int_range(0, big_k).contains(x) by {}
                vstd::set_lib::lemma_len_subset(seen, set_int_range(0, big_k));
                assert forall|i: int| 1 <= i < nodes@.len() implies #[trigger] tree_edge_ok(
                    gr,
                    goal,
                    agent,
                    csq,
                    nodes@,
                    max_time as int,
                    i,
                ) by {
                    if i < ni {
                        assert(tree_edge_ok(gr, goal, agent, csq, old_nodes, max_time as int, i));
                    }
                }
                lemma_arena_push(gr, goal, agent, csq, old_nodes, nodes@, old_index, index@, expanded, max_time as int, ni);
                lemma_open_push(old_open, open@, expanded, ni as int, ci as int);
            }
        }
        proof {
            assert forall|q: Pos| #[trigger] legal_step(gr, agent, csq, cur.pos, cur.time as int, q)
                implies index@.contains_key(key_of(q, cur.time + 1) as u128) by {
                let kk = lemma_move_candidate(cur.pos, q);
                lemma_moves_upto_contains(gr, cur.pos, 5, kk);
                let jj = choose|jj: int| 0 <= jj < nbrs@.len() && nbrs@[jj] == q;
                assert(legal_step(gr, agent, csq, cur.pos, cur.time as int, nbrs@[jj]));
            }
            assert(expanded_ok(gr, goal, agent, csq, nodes@, index@, max_time as int, ci as int));
            let ghost exp0 = expanded;
            expanded = expanded.insert(ci as int);
            assert forall|i: int| 0 <= i < nodes@.len() implies #[trigger] accounted(open@, expanded, i) by {
                if i != ci {
                    assert(accounted(open@, exp0, i));
                }
            }
        }
        assert(6 * (big_k - seen.len()) + open@.len() < 6 * (big_k - seen0) + open_len0 + 1);
    }
    proof {
        assert forall|j: int| 0 <= j < nodes@.len() implies #[trigger] expanded_ok(
            gr,
            goal,
            agent,
            csq,
            nodes@,
            index@,
            max_time as int,
            j,
        ) by {
            assert(accounted(open@, expanded, j));
        }
        assert forall|path: Seq<Pos>|
            !(#[trigger] plain_path(gr, path, start, goal) && respects(agent, path, csq) && path.len()
                <= max_time + 1) by {
            lemma_search_exhausted(gr, start, goal, agent, csq, nodes@, index@, max_time as int, path);
        }
    }
    None
}


/// Where an agent following `path` is at `t`: it waits at its last cell once
/// the path is over.
pub open spec fn pos_at(path: Seq<Pos>, t: int) -> Pos {
    if t < path.len() {
        path[t]
    } else {
        path.last()
    }
}

/// The length of the longest path.
pub open spec fn horizon_spec(paths: Seq<Vec<Pos>>) -> int
    decreases paths.len(),
{
    if paths.len() == 0 {
        0
    } else {
        let rest = horizon_spec(paths.drop_last());
        let here = paths.last()@.len() as int;
        if here > rest {
            here
        } else {
            rest
        }
    }
}

/// Agents `a` and `b` are in the same cell at `t`.
pub open spec fn vertex_clash(paths: Seq<Vec<Pos>>, t: int, a: int, b: int) -> bool {
    pos_at(paths[a]@, t) == pos_at(paths[b]@, t)
}

/// Agents `a` and `b` swap cells between `t` and `t + 1`.
pub open spec fn edge_clash(paths: Seq<Vec<Pos>>, t: int, a: int, b: int) -> bool {
    &&& t + 1 < horizon_spec(paths)
    &&& pos_at(paths[a]@, t) == pos_at(paths[b]@, t + 1)
    &&& pos_at(paths[a]@, t + 1) == pos_at(paths[b]@, t)
    &&& pos_at(paths[a]@, t) != pos_at(paths[a]@, t + 1)
}

/// Agents `a < b` collide at `t`, within the horizon of the paths.
pub open spec fn clash(paths: Seq<Vec<Pos>>, t: int, a: int, b: int) -> bool {
    &&& 0 <= t < horizon_spec(paths)
    &&& 0 <= a < b < paths.len()
    &&& (vertex_clash(paths, t, a, b) || edge_clash(paths, t, a, b))
}

/// No two agents collide.
pub open spec fn conflict_free(paths: Seq<Vec<Pos>>) -> bool {
    forall|t: int, a: int, b: int| !#[trigger] clash(paths, t, a, b)
}

/// `(t1, a1, b1)` comes before `(t2, a2, b2)` in the order in which
/// collisions are looked for.
pub open spec fn scan_before(t1: int, a1: int, b1: int, t2: int, a2: int, b2: int) -> bool {
    t1 < t2 || (t1 == t2 && (a1 < a2 || (a1 == a2 && b1 < b2)))
}

/// `c` is the first collision of `paths` in the order of time, then first
/// agent, then second agent, a vertex collision taking precedence over a
/// swap of the same pair at the same time.
pub open spec fn first_conflict(paths: Seq<Vec<Pos>>, c: Conflict) -> bool {
    match c {
        Conflict::Vertex { a, b, pos, time } => {
            &&& clash(paths, time as int, a as int, b as int)
            &&& vertex_clash(paths, time as int, a as int, b as int)
            &&& pos == pos_at(paths[a as int]@, time as int)
            &&& no_clash_before(paths, time as int, a as int, b as int)
        },
        Conflict::Edge { a, b, a_from, a_to, b_from, b_to, time } => {
            &&& clash(paths, time as int, a as int, b as int)
            &&& !vertex_clash(paths, time as int, a as int, b as int)
            &&& edge_clash(paths, time as int, a as int, b as int)
            &&& a_from == pos_at(paths[a as int]@, time as int)
            &&& a_to == pos_at(paths[a as int]@, time + 1)
            &&& b_from == pos_at(paths[b as int]@, time as int)
            &&& b_to == pos_at(paths[b as int]@, time + 1)
            &&& no_clash_before(paths, time as int, a as int, b as int)
        },
    }
}

pub open spec fn no_clash_before(paths: Seq<Vec<Pos>>, t: int, a: int, b: int) -> bool {
    forall|t2: int, a2: int, b2: int|
        scan_before(t2, a2, b2, t, a, b) ==> !#[trigger] clash(paths, t2, a2, b2)
}

/// Every path has at least one cell.
pub open spec fn all_nonempty(paths: Seq<Vec<Pos>>) -> bool {
    forall|i: int| 0 <= i < paths.len() ==> #[trigger] paths[i]@.len() > 0
}

pub fn position_at(path: &[Pos], time: usize) -> (p: Pos)
    requires
        path@.len() > 0,
    ensures
        p == pos_at(path@, time as int),
{
    if time < path.len() {
        path[time]
    } else {
        path[path.len() - 1]
    }
}

fn horizon(paths: &[Vec<Pos>]) -> (h: usize)
    ensures
        h == horizon_spec(paths@),
{
    let mut h: usize = 0;
    let mut i: usize = 0;
    while i < paths.len()
        invariant
            i <= paths@.len(),
            h == horizon_spec(paths@.subrange(0, i as int)),
        decreases paths@.len() - i,
    {
        assert(paths@.subrange(0, i + 1).drop_last() == paths@.subrange(0, i as int));
        if paths[i].len() > h {
            h = paths[i].len();
        }
        i += 1;
    }
    assert(paths@.subrange(0, paths@.len() as int) == paths@);
    h
}

proof fn lemma_horizon_bounds(paths: Seq<Vec<Pos>>)
    ensures
        forall|i: int| 0 <= i < paths.len() ==> #[trigger] paths[i]@.len() <= horizon_spec(paths),
        horizon_spec(paths) >= 0,
        paths.len() > 0 ==> exists|i: int|
            0 <= i < paths.len() && #[trigger] paths[i]@.len() == horizon_spec(paths),
    decreases paths.len(),
{
    if paths.len() > 0 {
        lemma_horizon_bounds(paths.drop_last());
        assert forall|i: int| 0 <= i < paths.len() implies #[trigger] paths[i]@.len() <= horizon_spec(
            paths,
        ) by {
            if i < paths.len() - 1 {
                assert(paths[i] == paths.drop_last()[i]);
            }
        }
        if paths.len() > 1 && horizon_spec(paths) != paths.last()@.len() {
            let k = choose|i: int|
                0 <= i < paths.drop_last().len() && #[trigger] paths.drop_last()[i]@.len()
                    == horizon_spec(paths.drop_last());
            assert(paths[k] == paths.drop_last()[k]);
        }
        if horizon_spec(paths) == paths.last()@.len() {
            assert(paths[paths.len() - 1]@.len() == horizon_spec(paths));
        }
    }
}

/// The first collision among the paths, scanning time steps in order and,
/// within a time step, pairs of agents `a < b` in order.
pub fn find_first_conflict(paths: &[Vec<Pos>]) -> (r: Option<Conflict>)
    requires
        all_nonempty(paths@),
    ensures
        r is None <==> conflict_free(paths@),
        r matches Some(c) ==> first_conflict(paths@, c),
{
    let horizon = horizon(paths);
    let n = paths.len();
    let mut time: usize = 0;
    while time < horizon
        invariant
            all_nonempty(paths@),
            horizon == horizon_spec(paths@),
            n == paths@.len(),
            time <= horizon,
            forall|t2: int, a2: int, b2: int|
                t2 < time ==> !#[trigger] clash(paths@, t2, a2, b2),
        decreases horizon - time,
    {
        let mut a: usize = 0;
        while a < n
            invariant
                all_nonempty(paths@),
                horizon == horizon_spec(paths@),
                n == paths@.len(),
                time < horizon,
                a <= n,
                forall|t2: int, a2: int, b2: int|
                    scan_before(t2, a2, b2, time as int, a as int, 0) ==> !#[trigger] clash(
                        paths@,
                        t2,
                        a2,
                        b2,
                    ),
            decreases n - a,
        {
            let mut b: usize = a + 1;
            while b < n
                invariant
                    all_nonempty(paths@),
                    horizon == horizon_spec(paths@),
                    n == paths@.len(),
                    time < horizon,
                    a < n,
                    a + 1 <= b <= n,
                    forall|t2: int, a2: int, b2: int|
                        scan_before(t2, a2, b2, time as int, a as int, b as int) ==> !#[trigger] clash(
                            paths@,
                            t2,
                            a2,
                            b2,
                        ),
                decreases n - b,
            {
                let ap = position_at(&paths[a], time);
                let bp = position_at(&paths[b], time);
                if ap == bp {
                    assert(clash(paths@, time as int, a as int, b as int));
                    return Some(Conflict::Vertex { a, b, pos: ap, time });
                }
                if time + 1 < horizon {
                    let an = position_at(&paths[a], time + 1);
                    let bn = position_at(&paths[b], time + 1);
                    if ap == bn && an == bp && ap != an {
                        assert(clash(paths@, time as int, a as int, b as int));
                        return Some(
                            Conflict::Edge {
                                a,
                                b,
                                a_from: ap,
                                a_to: an,
                                b_from: bp,
                                b_to: bn,
                                time,
                            },
                        );
                    }
                }
                assert(!clash(paths@, time as int, a as int, b as int));
                b += 1;
            }
            assert forall|t2: int, a2: int, b2: int|
                scan_before(t2, a2, b2, time as int, a + 1, 0) implies !#[trigger] clash(
                paths@,
                t2,
                a2,
                b2,
            ) by {
                if !(0 <= a2 < b2 < n) {
                    assert(!clash(paths@, t2, a2, b2));
                } else {
                    assert(scan_before(t2, a2, b2, time as int, a as int, b as int));
                }
            }
            a += 1;
        }
        assert forall|t2: int, a2: int, b2: int| t2 < time + 1 implies !#[trigger] clash(
            paths@,
            t2,
            a2,
            b2,
        ) by {
            if t2 == time && a2 >= n {
                assert(!clash(paths@, t2, a2, b2));
            } else {
                assert(scan_before(t2, a2, b2, time as int, n as int, 0));
            }
        }
        time += 1;
    }
    assert forall|t2: int, a2: int, b2: int| !#[trigger] clash(paths@, t2, a2, b2) by {
        if t2 >= horizon {
            assert(!clash(paths@, t2, a2, b2));
        }
    }
    None
}


/// How many collisions the pair `a < b` has at `t`: one for sharing a cell,
/// one for swapping cells.
pub open spec fn pair_count(paths: Seq<Vec<Pos>>, t: int, a: int, b: int) -> int {
    (if vertex_clash(paths, t, a, b) {
        1int
    } else {
        0int
    }) + (if edge_clash(paths, t, a, b) {
        1int
    } else {
        0int
    })
}

/// Collisions of agent `a` with the agents strictly between `a` and `b`.
pub open spec fn row_sum(paths: Seq<Vec<Pos>>, t: int, a: int, b: int) -> int
    decreases b - a,
{
    if b <= a + 1 {
        0
    } else {
        row_sum(paths, t, a, b - 1) + pair_count(paths, t, a, b - 1)
    }
}

/// Collisions at `t` of the pairs whose first agent is below `a`.
pub open spec fn step_sum(paths: Seq<Vec<Pos>>, t: int, a: int) -> int
    decreases a,
{
    if a <= 0 {
        0
    } else {
        step_sum(paths, t, a - 1) + row_sum(paths, t, a - 1, paths.len() as int)
    }
}

/// Collisions at the time steps below `t`.
pub open spec fn clash_total(paths: Seq<Vec<Pos>>, t: int) -> int
    decreases t,
{
    if t <= 0 {
        0
    } else {
        clash_total(paths, t - 1) + step_sum(paths, t - 1, paths.len() as int)
    }
}

/// The number of collisions, counting a shared cell and a swap separately.
pub open spec fn conflict_count(paths: Seq<Vec<Pos>>) -> int {
    clash_total(paths, horizon_spec(paths))
}

proof fn lemma_row_sum(paths: Seq<Vec<Pos>>, t: int, a: int, b: int)
    ensures
        0 <= row_sum(paths, t, a, b),
        b >= a ==> row_sum(paths, t, a, b) <= 2 * (b - a),
        row_sum(paths, t, a, b) == 0 <==> forall|b2: int|
            a < b2 < b ==> #[trigger] pair_count(paths, t, a, b2) == 0,
    decreases b - a,
{
    if b > a + 1 {
        lemma_row_sum(paths, t, a, b - 1);
    }
}

proof fn lemma_step_sum(paths: Seq<Vec<Pos>>, t: int, a: int)
    ensures
        0 <= step_sum(paths, t, a),
        a >= 0 ==> step_sum(paths, t, a) <= 2 * a * paths.len(),
        step_sum(paths, t, a) == 0 <==> forall|a2: int, b2: int|
            0 <= a2 < a && a2 < b2 < paths.len() ==> #[trigger] pair_count(paths, t, a2, b2) == 0,
    decreases a,
{
    let n = paths.len() as int;
    if a > 0 {
        lemma_step_sum(paths, t, a - 1);
        lemma_row_sum(paths, t, a - 1, n);
        assert(2 * (a - 1) * n + 2 * n == 2 * a * n) by (nonlinear_arith);
        if step_sum(paths, t, a) == 0 {
            assert forall|a2: int, b2: int|
                0 <= a2 < a && a2 < b2 < paths.len() implies #[trigger] pair_count(paths, t, a2, b2)
                == 0 by {
                if a2 == a - 1 {
                    assert(pair_count(paths, t, a - 1, b2) == 0);
                }
            }
        }
        if forall|a2: int, b2: int|
            0 <= a2 < a && a2 < b2 < paths.len() ==> #[trigger] pair_count(paths, t, a2, b2) == 0 {
            assert forall|b2: int| a - 1 < b2 < n implies #[trigger] pair_count(paths, t, a - 1, b2)
                == 0 by {
                assert(pair_count(paths, t, a - 1, b2) == 0);
            }
        }
    } else {
        assert(2 * a * paths.len() >= 0 || a < 0) by (nonlinear_arith)
            requires
                a == 0 || a < 0,
        ;
    }
}

proof fn lemma_clash_total(paths: Seq<Vec<Pos>>, t: int)
    ensures
        0 <= clash_total(paths, t),
        t >= 0 ==> clash_total(paths, t) <= 2 * t * paths.len() * paths.len(),
        clash_total(paths, t) == 0 <==> forall|t2: int, a2: int, b2: int|
            0 <= t2 < t && 0 <= a2 < b2 < paths.len() ==> #[trigger] pair_count(paths, t2, a2, b2)
                == 0,
    decreases t,
{
    let n = paths.len() as int;
    if t > 0 {
        lemma_clash_total(paths, t - 1);
        lemma_step_sum(paths, t - 1, n);
        assert(2 * (t - 1) * n * n + 2 * n * n == 2 * t * n * n) by (nonlinear_arith);
        if clash_total(paths, t) == 0 {
            assert forall|t2: int, a2: int, b2: int|
                0 <= t2 < t && 0 <= a2 < b2 < paths.len() implies #[trigger] pair_count(
                paths,
                t2,
                a2,
                b2,
            ) == 0 by {
                if t2 == t - 1 {
                    assert(pair_count(paths, t - 1, a2, b2) == 0);
                }
            }
        }
        if forall|t2: int, a2: int, b2: int|
            0 <= t2 < t && 0 <= a2 < b2 < paths.len() ==> #[trigger] pair_count(paths, t2, a2, b2)
                == 0 {
            assert forall|a2: int, b2: int|
                0 <= a2 < n && a2 < b2 < n implies #[trigger] pair_count(paths, t - 1, a2, b2)
                == 0 by {
                assert(pair_count(paths, t - 1, a2, b2) == 0);
            }
        }
    } else {
        assert(2 * t * n * n >= 0 || t < 0) by (nonlinear_arith)
            requires
                t == 0 || t < 0,
        ;
    }
}

/// Law: a set of paths has no collision exactly when its collision count is
/// zero.
pub proof fn lemma_count_zero_iff_conflict_free(paths: Seq<Vec<Pos>>)
    ensures
        conflict_count(paths) == 0 <==> conflict_free(paths),
{
    lemma_clash_total(paths, horizon_spec(paths));
    if conflict_count(paths) == 0 {
        assert forall|t: int, a: int, b: int| !#[trigger] clash(paths, t, a, b) by {
            if clash(paths, t, a, b) {
                assert(pair_count(paths, t, a, b) == 0);
            }
        }
    }
    if conflict_free(paths) {
        assert forall|t2: int, a2: int, b2: int|
            0 <= t2 < horizon_spec(paths) && 0 <= a2 < b2 < paths.len() implies #[trigger] pair_count(
            paths,
            t2,
            a2,
            b2,
        ) == 0 by {
            assert(!clash(paths, t2, a2, b2));
        }
    }
}

/// The collision counts fit a `usize`.
pub open spec fn count_fits(paths: Seq<Vec<Pos>>) -> bool {
    2 * horizon_spec(paths) * paths.len() * paths.len() <= usize::MAX
}

/// The number of collisions over all time steps and pairs of agents.
pub fn count_conflicts(paths: &[Vec<Pos>]) -> (r: usize)
    requires
        all_nonempty(paths@),
        count_fits(paths@),
    ensures
        r == conflict_count(paths@),
{
    let horizon = horizon(paths);
    let n = paths.len();
    let ghost nn = n as int;
    let mut count: usize = 0;
    let mut time: usize = 0;
    proof {
        lemma_clash_total(paths@, horizon as int);
    }
    while time < horizon
        invariant
            all_nonempty(paths@),
            count_fits(paths@),
            horizon == horizon_spec(paths@),
            n == paths@.len(),
            nn == n,
            time <= horizon,
            count == clash_total(paths@, time as int),
        decreases horizon - time,
    {
        proof {
            lemma_clash_total(paths@, time as int);
            assert(2 * time * nn * nn + 2 * nn * nn <= 2 * horizon * nn * nn) by (nonlinear_arith)
                requires
                    time < horizon,
                    nn >= 0,
            ;
        }
        let ghost base = count as int;
        let mut a: usize = 0;
        while a < n
            invariant
                all_nonempty(paths@),
                count_fits(paths@),
                horizon == horizon_spec(paths@),
                n == paths@.len(),
                nn == n,
                time < horizon,
                a <= n,
                base == clash_total(paths@, time as int),
                base <= 2 * time * nn * nn,
                2 * time * nn * nn + 2 * nn * nn <= usize::MAX,
                count == base + step_sum(paths@, time as int, a as int),
            decreases n - a,
        {
            proof {
                lemma_step_sum(paths@, time as int, a as int);
                assert(2 * a * nn + 2 * nn <= 2 * nn * nn) by (nonlinear_arith)
                    requires
                        a < nn,
                ;
            }
            let ghost mid = count as int;
            let mut b: usize = a + 1;
            while b < n
                invariant
                    all_nonempty(paths@),
                    horizon == horizon_spec(paths@),
                    n == paths@.len(),
                    nn == n,
                    time < horizon,
                    a < n,
                    a + 1 <= b <= n,
                    mid + 2 * nn <= usize::MAX,
                    count == mid + row_sum(paths@, time as int, a as int, b as int),
                decreases n - b,
            {
                proof {
                    lemma_row_sum(paths@, time as int, a as int, b as int);
                }
                let ap = position_at(&paths[a], time);
                let bp = position_at(&paths[b], time);
                if ap == bp {
                    count += 1;
                }
                if time + 1 < horizon {
                    let an = position_at(&paths[a], time + 1);
                    let bn = position_at(&paths[b], time + 1);
                    if ap == bn && an == bp && ap != an {
                        count += 1;
                    }
                }
                b += 1;
            }
            a += 1;
        }
        time += 1;
    }
    count
}

/// The sum of the path costs (length minus one) of the first `k` paths.
pub open spec fn cost_upto(paths: Seq<Vec<Pos>>, k: int) -> int
    decreases k,
{
    if k <= 0 {
        0
    } else {
        let len = paths[k - 1]@.len() as int;
        cost_upto(paths, k - 1) + if len > 0 {
            len - 1
        } else {
            0
        }
    }
}

proof fn lemma_cost_monotone(paths: Seq<Vec<Pos>>, i: int, j: int)
    requires
        0 <= i <= j,
    ensures
        cost_upto(paths, i) <= cost_upto(paths, j),
    decreases j - i,
{
    if i < j {
        lemma_cost_monotone(paths, i, j - 1);
    }
}

/// The total number of moves of all agents (the sum of path lengths minus
/// one each).
pub fn cost_of(paths: &[Vec<Pos>]) -> (c: usize)
    requires
        cost_upto(paths@, paths@.len() as int) <= usize::MAX,
    ensures
        c == cost_upto(paths@, paths@.len() as int),
{
    let mut c: usize = 0;
    let mut i: usize = 0;
    while i < paths.len()
        invariant
            i <= paths@.len(),
            cost_upto(paths@, paths@.len() as int) <= usize::MAX,
            c == cost_upto(paths@, i as int),
        decreases paths@.len() - i,
    {
        proof {
            lemma_cost_monotone(paths@, i + 1, paths@.len() as int);
        }
        c = c + paths[i].len().saturating_sub(1);
        i += 1;
    }
    c
}

/// The constraint that keeps `agent` out of `conflict`: the shared cell at
/// that time, or its own half of the swap.
pub fn constraint_from(conflict: &Conflict, agent: usize) -> (c: Constraint)
    ensures
        c == constraint_for(*conflict, agent),
{
    match conflict {
        Conflict::Vertex { pos, time, .. } => Constraint::Vertex { agent, pos: *pos, time: *time },
        Conflict::Edge { a, a_from, a_to, b_from, b_to, time, .. } => {
            if agent == *a {
                Constraint::Edge { agent, from: *a_from, to: *a_to, time: *time }
            } else {
                Constraint::Edge { agent, from: *b_from, to: *b_to, time: *time }
            }
        },
    }
}

pub open spec fn constraint_for(conflict: Conflict, agent: usize) -> Constraint {
    match conflict {
        Conflict::Vertex { pos, time, .. } => Constraint::Vertex { agent, pos, time },
        Conflict::Edge { a, a_from, a_to, b_from, b_to, time, .. } => {
            if agent == a {
                Constraint::Edge { agent, from: a_from, to: a_to, time }
            } else {
                Constraint::Edge { agent, from: b_from, to: b_to, time }
            }
        },
    }
}

pub open spec fn agents_of(c: Conflict) -> (usize, usize) {
    match c {
        Conflict::Vertex { a, b, .. } => (a, b),
        Conflict::Edge { a, b, .. } => (a, b),
    }
}

/// The two agents of a collision.
pub fn conflict_agents(c: &Conflict) -> (r: [usize; 2])
    ensures
        r@ == seq![agents_of(*c).0, agents_of(*c).1],
{
    match c {
        Conflict::Vertex { a, b, .. } | Conflict::Edge { a, b, .. } => [*a, *b],
    }
}


/// An agent: where it starts and where it must go.
#[derive(Debug)]
pub struct Agent {
    pub name: String,
    pub start: Pos,
    pub goal: Pos,
}

/// A node of the constraint tree: constraints and the paths planned under
/// them.
struct CbsNode {
    constraints: Vec<Constraint>,
    paths: Vec<Vec<Pos>>,
    cost: usize,
}

/// An entry of the open list of the constraint tree.
#[derive(Clone, Copy, Debug)]
struct OpenItem {
    cost: usize,
    conflicts: usize,
    id: usize,
    node_index: usize,
}

/// The number of constraint-tree nodes after which the search gives up.
pub const NODE_LIMIT: usize = 50_000;

/// How much longer a path may get with each constraint added above it.
pub open spec fn cbs_step(grid: Grid) -> int {
    4 * (grid.width * grid.height) + 21
}

/// The arithmetic of the low-level search for agent `ag` fits the machine
/// integers.
pub open spec fn agent_fits(grid: Grid, ag: Agent) -> bool {
    &&& steppable(ag.start)
    &&& manhattan_spec(ag.start, ag.goal) <= i32::MAX
    &&& forall|p: Pos| #[trigger] grid.in_bounds_spec(p) ==> manhattan_spec(p, ag.goal) <= i32::MAX
}

/// The arithmetic of the whole search fits the machine integers: paths grow
/// by at most `cbs_step` per level of a tree of at most `NODE_LIMIT + 2` nodes.
pub open spec fn cbs_fits(grid: Grid, agents: Seq<Agent>) -> bool {
    &&& 0 <= grid.width
    &&& 0 <= grid.height
    &&& grid.width * grid.height <= i32::MAX
    &&& forall|i: int| 0 <= i < agents.len() ==> agent_fits(grid, #[trigger] agents[i])
    &&& 50_003 * cbs_step(grid) + i32::MAX <= usize::MAX
    &&& 2 * (50_002 * cbs_step(grid)) * agents.len() * agents.len() <= usize::MAX
}

/// A solution: one path per agent, from its start to its goal, with no
/// collision.
pub open spec fn solves(grid: Grid, agents: Seq<Agent>, paths: Seq<Vec<Pos>>) -> bool {
    &&& paths.len() == agents.len()
    &&& forall|i: int|
        0 <= i < paths.len() ==> #[trigger] plain_path(grid, paths[i]@, agents[i].start, agents[i].goal)
    &&& conflict_free(paths)
}

/// Agent number `i` can reach its goal over free cells on its own, with no
/// constraint, within the horizon of the low-level search.
pub open spec fn reachable_alone(grid: Grid, agent: Agent, i: usize) -> bool {
    exists|path: Seq<Pos>|
        #[trigger] plain_path(grid, path, agent.start, agent.goal) && respects(i, path, Seq::empty()) && path.len()
            <= search_horizon(grid, i, Seq::empty()) + 1
}

/// `plans` gives every agent a shortest path of its own from its start to
/// its goal, as if it were alone on the grid.
pub open spec fn lone_plans(grid: Grid, agents: Seq<Agent>, plans: Seq<Vec<Pos>>) -> bool {
    &&& plans.len() == agents.len()
    &&& forall|i: int|
        0 <= i < plans.len() ==> #[trigger] plain_path(grid, plans[i]@, agents[i].start, agents[i].goal)
            && best_path(grid, agents[i], i as usize, Seq::empty(), plans[i]@)
}

spec fn node_ok(grid: Grid, agents: Seq<Agent>, cs: Seq<Constraint>, paths: Seq<Vec<Pos>>, cost: int) -> bool {
    &&& node_paths_ok(grid, agents, cs, paths)
    &&& cost == cost_upto(paths, paths.len() as int)
}

spec fn node_paths_ok(grid: Grid, agents: Seq<Agent>, cs: Seq<Constraint>, paths: Seq<Vec<Pos>>) -> bool {
    let d = cs.len() as int;
    let step = cbs_step(grid);
    &&& paths.len() == agents.len()
    &&& forall|k: int| 0 <= k < cs.len() ==> constraint_time(#[trigger] cs[k]) + 1 <= d * step
    &&& forall|j: int|
        #![trigger paths[j]]
        0 <= j < paths.len() ==> plain_path(grid, paths[j]@, agents[j].start, agents[j].goal)
    &&& forall|j: int|
        #![trigger paths[j]]
        0 <= j < paths.len() ==> 1 <= paths[j]@.len() <= (d + 1) * step
}

/// The time step of a collision.
pub open spec fn conflict_time(c: Conflict) -> int {
    match c {
        Conflict::Vertex { time, .. } => time as int,
        Conflict::Edge { time, .. } => time as int,
    }
}

proof fn lemma_first_conflict_facts(paths: Seq<Vec<Pos>>, c: Conflict)
    requires
        first_conflict(paths, c),
    ensures
        0 <= conflict_time(c) < horizon_spec(paths),
        agents_of(c).0 < agents_of(c).1 < paths.len(),
        forall|ag: usize| #[trigger] constraint_time(constraint_for(c, ag)) == conflict_time(c),
{
}

proof fn lemma_mul_le(a: int, b: int, s: int)
    requires
        a <= b,
        0 <= s,
    ensures
        a * s <= b * s,
        (a + 1) * s == a * s + s,
{
    assert(a * s <= b * s) by (nonlinear_arith)
        requires
            a <= b,
            0 <= s,
    ;
    assert((a + 1) * s == a * s + s) by (nonlinear_arith);
}

proof fn lemma_latest_bound(agent: usize, cs: Seq<Constraint>, bound: int)
    requires
        0 <= bound,
        forall|k: int| 0 <= k < cs.len() ==> constraint_time(#[trigger] cs[k]) + 1 <= bound,
    ensures
        latest_spec(agent, cs) <= bound,
    decreases cs.len(),
{
    if cs.len() > 0 {
        assert(constraint_time(cs[cs.len() - 1]) + 1 <= bound);
        lemma_latest_bound(agent, cs.drop_last(), bound);
    }
}

proof fn lemma_cost_bound(paths: Seq<Vec<Pos>>, k: int, len: int)
    requires
        0 <= k <= paths.len(),
        0 <= len,
        forall|j: int| 0 <= j < paths.len() ==> #[trigger] paths[j]@.len() <= len,
    ensures
        cost_upto(paths, k) <= k * len,
    decreases k,
{
    if k > 0 {
        lemma_cost_bound(paths, k - 1, len);
        assert(paths[k - 1]@.len() <= len);
        lemma_mul_le(k - 1, k, len);
    }
}

proof fn lemma_paths_fit(grid: Grid, agents: Seq<Agent>, paths: Seq<Vec<Pos>>, len: int)
    requires
        cbs_fits(grid, agents),
        paths.len() == agents.len(),
        0 <= len <= 50_002 * cbs_step(grid),
        forall|j: int| 0 <= j < paths.len() ==> 1 <= #[trigger] paths[j]@.len() <= len,
    ensures
        all_nonempty(paths),
        count_fits(paths),
        cost_upto(paths, paths.len() as int) <= usize::MAX,
{
    let n = paths.len() as int;
    let big = 50_002 * cbs_step(grid);
    lemma_horizon_bounds(paths);
    let h = horizon_spec(paths);
    if n > 0 {
        let i = choose|i: int| 0 <= i < paths.len() && #[trigger] paths[i]@.len() == horizon_spec(paths);
        assert(paths[i]@.len() <= len);
    }
    assert(h <= big);
    assert(2 * h * n * n <= 2 * big * n * n) by (nonlinear_arith)
        requires
            0 <= h <= big,
            0 <= n,
    ;
    lemma_cost_bound(paths, n, len);
    assert(n * len <= 2 * big * n * n) by (nonlinear_arith)
        requires
            0 <= len <= big,
            0 <= n,
    ;
}

fn clone_path(p: &Vec<Pos>) -> (r: Vec<Pos>)
    ensures
        r@ == p@,
{
    let mut r: Vec<Pos> = Vec::new();
    let mut i: usize = 0;
    while i < p.len()
        invariant
            i <= p@.len(),
            r@ == p@.subrange(0, i as int),
        decreases p@.len() - i,
    {
        r.push(p[i]);
        i += 1;
    }
    r
}

fn clone_paths(ps: &Vec<Vec<Pos>>) -> (r: Vec<Vec<Pos>>)
    ensures
        r@.len() == ps@.len(),
        forall|i: int| 0 <= i < ps@.len() ==> #[trigger] r@[i]@ == ps@[i]@,
{
    let mut r: Vec<Vec<Pos>> = Vec::new();
    let mut i: usize = 0;
    while i < ps.len()
        invariant
            i <= ps@.len(),
            r@.len() == i,
            forall|k: int| 0 <= k < i ==> #[trigger] r@[k]@ == ps@[k]@,
        decreases ps@.len() - i,
    {
        r.push(clone_path(&ps[i]));
        i += 1;
    }
    r
}

fn clone_constraints(cs: &Vec<Constraint>) -> (r: Vec<Constraint>)
    ensures
        r@ == cs@,
{
    let mut r: Vec<Constraint> = Vec::new();
    let mut i: usize = 0;
    while i < cs.len()
        invariant
            i <= cs@.len(),
            r@ == cs@.subrange(0, i as int),
        decreases cs@.len() - i,
    {
        r.push(cs[i]);
        i += 1;
    }
    r
}

fn contains_constraint(cs: &Vec<Constraint>, c: Constraint) -> (b: bool)
    ensures
        b == cs@.contains(c),
{
    let mut i: usize = 0;
    while i < cs.len()
        invariant
            i <= cs@.len(),
            forall|k: int| 0 <= k < i ==> cs@[k] != c,
        decreases cs@.len() - i,
    {
        if cs[i] == c {
            return true;
        }
        i += 1;
    }
    false
}

spec fn open_le(a: OpenItem, b: OpenItem) -> bool {
    a.cost < b.cost || (a.cost == b.cost && (a.conflicts < b.conflicts || (a.conflicts
        == b.conflicts && (a.id < b.id || (a.id == b.id && a.node_index <= b.node_index)))))
}

/// Index of the open entry with the least `(cost, conflicts, id, node)`.
fn pick_open(open: &Vec<OpenItem>) -> (j: usize)
    requires
        open@.len() > 0,
    ensures
        j < open@.len(),
        forall|i: int| 0 <= i < open@.len() ==> open_le(open@[j as int], #[trigger] open@[i]),
{
    let mut best: usize = 0;
    let mut i: usize = 1;
    while i < open.len()
        invariant
            1 <= i <= open@.len(),
            best < i,
            forall|k: int| 0 <= k < i ==> open_le(open@[best as int], #[trigger] open@[k]),
        decreases open@.len() - i,
    {
        let a = open[i];
        let b = open[best];
        let earlier = a.cost < b.cost || (a.cost == b.cost && (a.conflicts < b.conflicts || (
        a.conflicts == b.conflicts && (a.id < b.id || (a.id == b.id && a.node_index
            < b.node_index)))));
        if earlier {
            best = i;
        }
        i += 1;
    }
    best
}

/// Conflict-based search: plans each agent alone, then repeatedly takes the
/// cheapest node of the constraint tree (fewest collisions, then oldest, on
/// ties), and on its first collision splits it in two, one child forbidding
/// each of the two agents its part of the collision and replanning only that
/// agent.  A returned set of paths takes every agent from its start to its
/// goal without any collision, and costs no more than any other such set
/// whose paths stay within the horizon `cbs_step` that every search of the
/// tree covers.  It gives up only when an agent cannot reach its goal on
/// its own, when no solution within that horizon exists (the tree runs out
/// of nodes to split), or when the tree has grown past `NODE_LIMIT`
/// constraint sets, each grown from an earlier one by splitting a shortest
/// plan no costlier than any solution.
pub fn cbs(grid: &Grid, agents: &[Agent]) -> (r: Option<Vec<Vec<Pos>>>)
    requires
        cbs_fits(*grid, agents@),
    ensures
        r matches Some(paths) ==> solves(*grid, agents@, paths@),
        r matches Some(paths) ==> forall|other: Seq<Vec<Pos>>|
            #[trigger] solves(*grid, agents@, other) && within_step(*grid, other) ==> cost_upto(
                paths@,
                agents@.len() as int,
            ) <= cost_upto(other, agents@.len() as int),
        (exists|i: int| 0 <= i < agents@.len() && !reachable_alone(*grid, agents@[i], i as usize)) ==> r is None,
        agents@.len() <= 1 && (forall|i: int| 0 <= i < agents@.len() ==> reachable_alone(*grid, agents@[i], i as usize))
            ==> r is Some,
        (forall|i: int| 0 <= i < agents@.len() ==> reachable_alone(*grid, agents@[i], i as usize)) && (forall|plans: Seq<
            Vec<Pos>,
        >| #[trigger] lone_plans(*grid, agents@, plans) ==> conflict_free(plans)) ==> (r matches Some(paths)
            && lone_plans(*grid, agents@, paths@)),
        r is None ==> (exists|i: int| 0 <= i < agents@.len() && !reachable_alone(*grid, agents@[i], i as usize)) || (
        forall|sol: Seq<Vec<Pos>>| !(#[trigger] solves(*grid, agents@, sol) && within_step(*grid, sol))) || (exists|
            tree: Seq<Seq<Constraint>>,
        | #[trigger] search_tree(*grid, agents@, tree) && tree.len() > NODE_LIMIT),
{
    let ghost gr = *grid;
    let ghost ags = agents@;
    let ghost step = cbs_step(gr);
    let n = agents.len();
    let empty: Vec<Constraint> = Vec::new();
    let mut root_paths: Vec<Vec<Pos>> = Vec::new();
    let mut i: usize = 0;
    while i < n
        invariant
            cbs_fits(gr, ags),
            gr == *grid,
            ags == agents@,
            step == cbs_step(gr),
            n == ags.len(),
            empty@.len() == 0,
            i <= n,
            root_paths@.len() == i,
            forall|j: int|
                #![trigger root_paths@[j]]
                0 <= j < i ==> plain_path(gr, root_paths@[j]@, ags[j].start, ags[j].goal),
            forall|j: int|
                #![trigger root_paths@[j]]
                0 <= j < i ==> 1 <= root_paths@[j]@.len() <= step,
            forall|j: int| 0 <= j < i ==> #[trigger] reachable_alone(gr, ags[j], j as usize),
            forall|j: int|
                #![trigger root_paths@[j]]
                0 <= j < i ==> best_path(gr, ags[j], j as usize, Seq::empty(), root_paths@[j]@),
        decreases n - i,
    {
        assert(agent_fits(gr, ags[i as int]));
        assert(latest_spec(i, empty@) == 0);
        match a_star(grid, agents[i].start, agents[i].goal, i, empty.as_slice()) {
            Some(p) => {
                proof {
                    assert(empty@ =~= Seq::<Constraint>::empty());
                    assert(plain_path(gr, p@, ags[i as int].start, ags[i as int].goal));
                    assert(reachable_alone(gr, ags[i as int], i));
                    assert(best_path(gr, ags[i as int], i, Seq::empty(), p@));
                }
                let ghost before = root_paths@;
                root_paths.push(p);
                proof {
                    assert forall|j: int|
                        #![trigger root_paths@[j]]
                        0 <= j < i + 1 implies best_path(gr, ags[j], j as usize, Seq::empty(), root_paths@[j]@) by {
                        if j < i {
                            assert(root_paths@[j] == before[j]);
                        }
                    }
                }
            },
            None => {
                proof {
                    assert(empty@ =~= Seq::<Constraint>::empty());
                    assert(!reachable_alone(gr, ags[i as int], i));
                }
                return None;
            },
        }
        i += 1;
    }
    proof {
        lemma_mul_le(0, 1, step);
        lemma_paths_fit(gr, ags, root_paths@, step);
    }
    let root_cost = cost_of(&root_paths);
    let root_conflicts = count_conflicts(&root_paths);
    let ghost rp = root_paths@;
    let ghost lone_free = forall|plans: Seq<Vec<Pos>>| #[trigger] lone_plans(gr, ags, plans) ==> conflict_free(plans);
    let mut nodes: Vec<CbsNode> = Vec::new();
    nodes.push(CbsNode { constraints: Vec::new(), paths: root_paths, cost: root_cost });
    let mut open: Vec<OpenItem> = Vec::new();
    open.push(OpenItem { cost: root_cost, conflicts: root_conflicts, id: 0, node_index: 0 });
    let mut next_id: usize = 1;
    proof {
        assert(node_best(gr, ags, nodes@[0].constraints@, nodes@[0].paths@)) by {
            assert(nodes@[0].constraints@ =~= Seq::<Constraint>::empty());
            assert forall|j: int| 0 <= j < nodes@[0].paths@.len() implies #[trigger] best_path(
                gr,
                ags[j],
                j as usize,
                nodes@[0].constraints@,
                nodes@[0].paths@[j]@,
            ) by {
                assert(nodes@[0].paths@[j] == rp[j]);
            }
        }
        assert forall|sol: Seq<Vec<Pos>>| #[trigger] solves(gr, ags, sol) && within_step(gr, sol) implies exists|k: int|
            0 <= k < open@.len() && obeys(sol, nodes@[open@[k].node_index as int].constraints@) by {
            assert(nodes@[0].constraints@ =~= Seq::<Constraint>::empty());
            assert forall|j: int| 0 <= j < sol.len() implies #[trigger] respects(j as usize, sol[j]@, Seq::<Constraint>::empty()) by {}
            assert(open@[0].node_index == 0);
            assert(obeys(sol, nodes@[open@[0].node_index as int].constraints@));
        }
        assert(ctree(nodes@)[0] == nodes@[0].constraints@);
        assert(search_tree(gr, ags, ctree(nodes@)));
        assert(open_unexpanded(nodes@, open@));
    }

    while open.len() > 0
        invariant
            cbs_fits(gr, ags),
            gr == *grid,
            ags == agents@,
            step == cbs_step(gr),
            n == ags.len(),
            forall|j: int| 0 <= j < n ==> #[trigger] reachable_alone(gr, ags[j], j as usize),
            forall|k: int| 0 <= k < nodes@.len() ==> #[trigger] node_best(gr, ags, nodes@[k].constraints@, nodes@[k].paths@),
            forall|k: int| 0 <= k < open@.len() ==> #[trigger] open@[k].cost == nodes@[open@[k].node_index as int].cost,
            open_covers(gr, ags, nodes@, open@),
            search_tree(gr, ags, ctree(nodes@)),
            open_unexpanded(nodes@, open@),
            n <= 1 ==> open@.len() > 0,
            lone_free == (forall|plans: Seq<Vec<Pos>>| #[trigger] lone_plans(gr, ags, plans) ==> conflict_free(plans)),
            lone_free ==> open@.len() == 1 && open@[0].node_index == 0 && nodes@[0].constraints@.len() == 0,
            1 <= nodes@.len() <= NODE_LIMIT,
            next_id <= nodes@.len(),
            forall|k: int| 0 <= k < open@.len() ==> #[trigger] open@[k].node_index < nodes@.len(),
            forall|k: int|
                0 <= k < nodes@.len() ==> #[trigger] nodes@[k].constraints@.len() <= k && node_ok(
                    gr,
                    ags,
                    nodes@[k].constraints@,
                    nodes@[k].paths@,
                    nodes@[k].cost as int,
                ),
        decreases 3 * (NODE_LIMIT + 2 - nodes@.len()) + open@.len(),
    {
        let ghost open_before = open@;
        let ghost nodes_before = nodes@;
        let j = pick_open(&open);
        let item = open.swap_remove(j);
        let ni0 = item.node_index;
        let node_cs = clone_constraints(&nodes[ni0].constraints);
        let node_paths = clone_paths(&nodes[ni0].paths);
        let ghost d = node_cs@.len() as int;
        assert(nodes@[ni0 as int].constraints@.len() <= ni0);
        assert(node_ok(gr, ags, node_cs@, node_paths@, nodes@[ni0 as int].cost as int)) by {
            assert forall|jj: int|
                #![trigger node_paths@[jj]]
                0 <= jj < node_paths@.len() implies plain_path(
                gr,
                node_paths@[jj]@,
                ags[jj].start,
                ags[jj].goal,
            ) && 1 <= node_paths@[jj]@.len() <= (d + 1) * step by {
                assert(node_paths@[jj]@ == nodes@[ni0 as int].paths@[jj]@);
            }
            assert(cost_upto(node_paths@, n as int) == cost_upto(
                nodes@[ni0 as int].paths@,
                n as int,
            )) by {
                lemma_cost_ext(node_paths@, nodes@[ni0 as int].paths@, n as int);
            }
        }
        assert(node_best(gr, ags, node_cs@, node_paths@)) by {
            assert(node_best(gr, ags, nodes@[ni0 as int].constraints@, nodes@[ni0 as int].paths@));
            assert forall|jj: int| 0 <= jj < node_paths@.len() implies #[trigger] best_path(
                gr,
                ags[jj],
                jj as usize,
                node_cs@,
                node_paths@[jj]@,
            ) by {
                assert(node_paths@[jj]@ == nodes@[ni0 as int].paths@[jj]@);
                assert(best_path(gr, ags[jj], jj as usize, nodes@[ni0 as int].constraints@, nodes@[ni0 as int].paths@[jj]@));
            }
        }
        proof {
            if lone_free {
                assert(node_cs@ =~= Seq::<Constraint>::empty());
                assert forall|i: int| 0 <= i < node_paths@.len() implies #[trigger] plain_path(
                    gr,
                    node_paths@[i]@,
                    ags[i].start,
                    ags[i].goal,
                ) && best_path(gr, ags[i], i as usize, Seq::empty(), node_paths@[i]@) by {
                    assert(best_path(gr, ags[i], i as usize, node_cs@, node_paths@[i]@));
                }
                assert(lone_plans(gr, ags, node_paths@));
            }
        }
        proof {
            assert forall|sol: Seq<Vec<Pos>>| #[trigger] solves(gr, ags, sol) && within_step(gr, sol) implies cost_upto(
                node_paths@,
                n as int,
            ) <= cost_upto(sol, n as int) by {
                let k = choose|k: int|
                    0 <= k < open_before.len() && obeys(sol, nodes@[open_before[k].node_index as int].constraints@);
                let nk = open_before[k].node_index as int;
                assert(open_before[k].node_index < nodes@.len());
                assert(nodes@[nk].constraints@.len() <= nk);
                assert(node_ok(gr, ags, nodes@[nk].constraints@, nodes@[nk].paths@, nodes@[nk].cost as int));
                lemma_node_lower_bound(gr, ags, nodes@[nk].constraints@, nodes@[nk].paths@, sol);
                assert(open_le(open_before[j as int], open_before[k]));
                assert(open_before[k].cost == nodes@[nk].cost);
            }
        }
        let conflict = match find_first_conflict(&node_paths) {
            None => {
                return Some(node_paths);
            },
            Some(c) => c,
        };
        let pair = conflict_agents(&conflict);
        let ghost old_len = nodes@.len();
        let ghost open0 = open@.len();
        let ghost open_after_pop = open@;
        proof {
            lemma_first_conflict_facts(node_paths@, conflict);
            assert(n >= 2);
            assert(!lone_free);
            lemma_covers_pop(gr, ags, nodes@, open_before, open@, j as int, node_cs@, conflict, pair@);
            lemma_horizon_bounds(node_paths@);
            if n > 0 {
                let w = choose|w: int|
                    0 <= w < node_paths@.len() && #[trigger] node_paths@[w]@.len() == horizon_spec(
                        node_paths@,
                    );
                assert(node_paths@[w]@.len() <= (d + 1) * step);
            }
            lemma_mul_le(d, d + 1, step);
            lemma_mul_le(d + 1, 50_001, step);
            assert(nodes_before[ni0 as int].constraints@ == node_cs@);
            assert(tree_step(gr, ags, node_cs@, node_paths@, conflict, pair@[0]));
            assert(tree_step(gr, ags, node_cs@, node_paths@, conflict, pair@[1]));
            assert(open_before[j as int].node_index == ni0);
            assert forall|k: int| 0 <= k < nodes@.len() implies !extends(#[trigger] nodes@[k].constraints@, node_cs@) by {
                assert(!extends(nodes@[k].constraints@, nodes@[open_before[j as int].node_index as int].constraints@));
            }
            assert(constraint_agent(constraint_for(conflict, pair@[0])) == pair@[0]);
            assert(constraint_agent(constraint_for(conflict, pair@[1])) == pair@[1]);
        }
        let mut q: usize = 0;
        while q < 2
            invariant
                cbs_fits(gr, ags),
                gr == *grid,
                ags == agents@,
                step == cbs_step(gr),
                n == ags.len(),
                q <= 2,
                old_len <= NODE_LIMIT,
                old_len <= nodes@.len() <= old_len + q,
                ni0 < old_len,
                d == node_cs@.len(),
                d <= ni0,
                node_paths_ok(gr, ags, node_cs@, node_paths@),
                horizon_spec(node_paths@) <= (d + 1) * step,
                open@.len() == open0 + (nodes@.len() - old_len),
                first_conflict(node_paths@, conflict),
                n >= 2,
                pair@ == seq![agents_of(conflict).0, agents_of(conflict).1],
                split_covers(gr, ags, nodes@, open@, node_cs@, conflict, pair@, q as int),
                search_tree(gr, ags, ctree(nodes@)),
                forall|k: int| 0 <= k < old_len ==> #[trigger] nodes@[k] == nodes_before[k],
                old_len == nodes_before.len(),
                nodes_before[ni0 as int].constraints@ == node_cs@,
                tree_step(gr, ags, node_cs@, node_paths@, conflict, pair@[0]),
                tree_step(gr, ags, node_cs@, node_paths@, conflict, pair@[1]),
                constraint_for(conflict, pair@[0]) != constraint_for(conflict, pair@[1]),
                forall|k: int| 0 <= k < old_len ==> !extends(#[trigger] nodes_before[k].constraints@, node_cs@),
                forall|k: int|
                    old_len <= k < nodes@.len() ==> extends(#[trigger] nodes@[k].constraints@, node_cs@) && (q <= 1
                        ==> nodes@[k].constraints@.last() == constraint_for(conflict, pair@[0])),
                open0 == open_after_pop.len(),
                forall|o: int| 0 <= o < open0 ==> #[trigger] open@[o] == open_after_pop[o],
                forall|o: int|
                    open0 <= o < open@.len() ==> #[trigger] open@[o].node_index == old_len + (o - open0) && open@[o].node_index
                        < nodes@.len(),
                forall|k: int| 0 <= k < nodes@.len() ==> #[trigger] node_best(gr, ags, nodes@[k].constraints@, nodes@[k].paths@),
                forall|k: int| 0 <= k < open@.len() ==> #[trigger] open@[k].cost == nodes@[open@[k].node_index as int].cost,
                node_best(gr, ags, node_cs@, node_paths@),
                next_id <= nodes@.len(),
                forall|k: int| 0 <= k < open@.len() ==> #[trigger] open@[k].node_index < nodes@.len(),
                forall|k: int|
                    0 <= k < nodes@.len() ==> #[trigger] nodes@[k].constraints@.len() <= k
                        && node_ok(
                        gr,
                        ags,
                        nodes@[k].constraints@,
                        nodes@[k].paths@,
                        nodes@[k].cost as int,
                    ),
            decreases 2 - q,
        {
            let ai = pair[q];
            q += 1;
            let nc = constraint_from(&conflict, ai);
            proof {
                lemma_first_conflict_facts(node_paths@, conflict);
                assert(ai == agents_of(conflict).0 || ai == agents_of(conflict).1);
                assert(constraint_agent(nc) == ai);
                assert forall|i: int| 0 <= i < node_paths@.len() implies #[trigger] node_paths@[i]@.len() > 0 by {}
            }
            if contains_constraint(&node_cs, nc) {
                proof {
                    let idx = choose|i: int| 0 <= i < node_cs@.len() && node_cs@[i] == nc;
                    assert(best_path(gr, ags[ai as int], (ai as int) as usize, node_cs@, node_paths@[ai as int]@));
                    lemma_respects_keeps(ai, node_paths@[ai as int]@, node_cs@, idx);
                    lemma_conflict_breaks(node_paths@, conflict, ai);
                }
                continue;
            }
            proof {
                lemma_first_conflict_facts(node_paths@, conflict);
                assert(constraint_time(nc) == conflict_time(conflict));
            }
            let mut next_cs = clone_constraints(&node_cs);
            next_cs.push(nc);
            let ghost d2 = d + 1;
            proof {
                lemma_mul_le(d, d2, step);
                lemma_mul_le(d2, d2 + 1, step);
                lemma_mul_le(d2 + 1, 50_001, step);
                assert forall|k: int| 0 <= k < next_cs@.len() implies constraint_time(
                    #[trigger] next_cs@[k],
                ) + 1 <= d2 * step by {
                    if k < d {
                        assert(next_cs@[k] == node_cs@[k]);
                    }
                }
                assert forall|k: int| 0 <= k < next_cs@.len() implies #[trigger] edge_time_ok(
                    next_cs@[k],
                ) by {
                    assert(constraint_time(next_cs@[k]) + 1 <= d2 * step);
                }
                lemma_latest_bound(ai, next_cs@, d2 * step);
                assert(agent_fits(gr, ags[ai as int]));
            }
            let mut next_paths = clone_paths(&node_paths);
            proof {
                assert(next_cs@ == node_cs@.push(nc));
                lemma_latest_nonneg(ai, next_cs@);
            }
            match a_star(grid, agents[ai].start, agents[ai].goal, ai, next_cs.as_slice()) {
                Some(p) => {
                    let ghost before = next_paths@;
                    next_paths.set(ai, p);
                    proof {
                        assert(best_path(gr, ags[ai as int], ai, node_cs@.push(nc), next_paths@[ai as int]@));
                        lemma_best_push(gr, ags, node_cs@, nc, node_paths@, next_paths@, ai);
                    }
                    proof {
                        assert forall|jj: int|
                            #![trigger next_paths@[jj]]
                            0 <= jj < next_paths@.len() implies plain_path(
                            gr,
                            next_paths@[jj]@,
                            ags[jj].start,
                            ags[jj].goal,
                        ) && 1 <= next_paths@[jj]@.len() <= (d2 + 1) * step by {
                            if jj != ai {
                                assert(next_paths@[jj]@ == node_paths@[jj]@);
                            }
                        }
                        lemma_paths_fit(gr, ags, next_paths@, (d2 + 1) * step);
                    }
                    let cost = cost_of(&next_paths);
                    let conflicts = count_conflicts(&next_paths);
                    let ni = nodes.len();
                    let ghost old_nodes = nodes@;
                    let ghost old_open = open@;
                    proof {
                        let tr = ctree(nodes@);
                        assert(tr[ni0 as int] == node_cs@) by {
                            assert(nodes@[ni0 as int] == nodes_before[ni0 as int]);
                        }
                        assert forall|k: int| 0 <= k < tr.len() && extends(#[trigger] tr[k], tr[ni0 as int]) implies tr[k].last()
                            != constraint_for(conflict, ai) by {
                            assert(tr[k] == nodes@[k].constraints@);
                            if k < old_len {
                                assert(nodes@[k] == nodes_before[k]);
                            }
                        }
                        lemma_tree_push(gr, ags, tr, ni0 as int, node_paths@, conflict, ai);
                    }
                    let ghost child_cs = next_cs@;
                    let ghost child_paths = next_paths@;
                    nodes.push(CbsNode { constraints: next_cs, paths: next_paths, cost });
                    open.push(OpenItem { cost, conflicts, id: next_id, node_index: ni });
                    next_id += 1;
                    proof {
                        assert(nodes@[ni as int].constraints@ == child_cs);
                        assert(nodes@[ni as int].paths@ == child_paths);
                        assert(ctree(nodes@) =~= ctree(old_nodes).push(node_cs@.push(constraint_for(conflict, ai))));
                        assert forall|k: int| 0 <= k < old_len implies #[trigger] nodes@[k] == nodes_before[k] by {
                            assert(nodes@[k] == old_nodes[k]);
                        }
                        assert forall|k: int| old_len <= k < nodes@.len() implies extends(#[trigger] nodes@[k].constraints@, node_cs@) && (q <= 1
                            ==> nodes@[k].constraints@.last() == constraint_for(conflict, pair@[0])) by {
                            if k < ni {
                                assert(nodes@[k] == old_nodes[k]);
                            } else {
                                assert(nodes@[k].constraints@.drop_last() =~= node_cs@);
                            }
                        }
                        assert forall|o: int| 0 <= o < open0 implies #[trigger] open@[o] == open_after_pop[o] by {
                            assert(open@[o] == old_open[o]);
                        }
                        assert forall|o: int| open0 <= o < open@.len() implies #[trigger] open@[o].node_index == old_len + (o - open0)
                            && open@[o].node_index < nodes@.len() by {
                            if o < old_open.len() {
                                assert(open@[o] == old_open[o]);
                            }
                        }
                        lemma_covers_child(gr, ags, old_nodes, old_open, nodes@, open@, node_cs@, conflict, pair@, (q - 1) as int);
                        assert forall|k: int| 0 <= k < nodes@.len() implies #[trigger] node_best(
                            gr,
                            ags,
                            nodes@[k].constraints@,
                            nodes@[k].paths@,
                        ) by {
                            if k < ni {
                                assert(nodes@[k] == old_nodes[k]);
                            }
                        }
                        assert forall|k: int| 0 <= k < open@.len() implies #[trigger] open@[k].cost == nodes@[open@[k].node_index as int].cost by {
                            if k < old_open.len() {
                                assert(open@[k] == old_open[k]);
                                assert(nodes@[open@[k].node_index as int] == old_nodes[open@[k].node_index as int]);
                            }
                        }
                        assert forall|k: int| 0 <= k < nodes@.len() implies #[trigger] nodes@[k].constraints@.len()
                            <= k && node_ok(
                            gr,
                            ags,
                            nodes@[k].constraints@,
                            nodes@[k].paths@,
                            nodes@[k].cost as int,
                        ) by {
                            if k < ni {
                                assert(nodes@[k] == old_nodes[k]);
                            }
                        }
                    }
                },
                None => {
                    proof {
                        lemma_covers_no_child(
                            gr,
                            ags,
                            nodes@,
                            open@,
                            node_cs@,
                            conflict,
                            pair@,
                            (q - 1) as int,
                            search_horizon(gr, ai, next_cs@),
                        );
                    }
                },
            }
        }
        proof {
            lemma_covers_done(gr, ags, nodes@, open@, node_cs@, conflict, node_paths@, pair@);
            assert forall|o: int| 0 <= o < open_before.len() - 1 implies #[trigger] open@[o] == open_before.update(
                j as int,
                open_before.last(),
            ).drop_last()[o] by {
                assert(open@[o] == open_after_pop[o]);
            }
            assert forall|k: int| nodes_before.len() <= k < nodes@.len() implies extends(
                #[trigger] nodes@[k].constraints@,
                node_cs@,
            ) by {}
            assert forall|o: int| 0 <= o < open_before.len() implies #[trigger] open_before[o].node_index < nodes_before.len() by {}
            lemma_unexpanded_after(gr, ags, nodes_before, open_before, j as int, nodes@, open@, node_cs@);
        }
        if nodes.len() > NODE_LIMIT {
            proof {
                assert(ctree(nodes@).len() > NODE_LIMIT);
            }
            return None;
        }
    }
    proof {
        assert forall|sol: Seq<Vec<Pos>>| !(#[trigger] solves(gr, ags, sol) && within_step(gr, sol)) by {
            if solves(gr, ags, sol) && within_step(gr, sol) {
                assert(open_covers(gr, ags, nodes@, open@));
            }
        }
    }
    None
}

/// A split of the constraint set `cs` that conflict-based search makes:
/// `paths` is a plan under `cs` of shortest paths, no costlier than any
/// solution within the horizon, whose first collision is `c`, and `ai` is
/// one of the two agents of that collision.
pub open spec fn tree_step(grid: Grid, agents: Seq<Agent>, cs: Seq<Constraint>, paths: Seq<Vec<Pos>>, c: Conflict, ai: usize) -> bool {
    &&& paths.len() == agents.len()
    &&& forall|j: int| 0 <= j < paths.len() ==> #[trigger] plain_path(grid, paths[j]@, agents[j].start, agents[j].goal)
    &&& forall|j: int| 0 <= j < paths.len() ==> #[trigger] best_path(grid, agents[j], j as usize, cs, paths[j]@)
    &&& first_conflict(paths, c)
    &&& (ai == agents_of(c).0 || ai == agents_of(c).1)
    &&& forall|sol: Seq<Vec<Pos>>|
        #[trigger] solves(grid, agents, sol) && within_step(grid, sol) ==> cost_upto(paths, agents.len() as int) <= cost_upto(
            sol,
            agents.len() as int,
        )
}

/// Set `k` of `tree` adds to an earlier set the constraint of a split of
/// that set.
pub open spec fn grown_from(grid: Grid, agents: Seq<Agent>, tree: Seq<Seq<Constraint>>, k: int) -> bool {
    exists|p: int, paths: Seq<Vec<Pos>>, c: Conflict, ai: usize|
        0 <= p < k && #[trigger] tree_step(grid, agents, tree[p], paths, c, ai) && tree[k] == tree[p].push(
            constraint_for(c, ai),
        )
}

/// `tree` is a tree of constraint sets that conflict-based search grows
/// for `agents`: the root has no constraint, every other set is grown from
/// an earlier one by a split, and no set occurs twice.
pub open spec fn search_tree(grid: Grid, agents: Seq<Agent>, tree: Seq<Seq<Constraint>>) -> bool {
    &&& tree.len() >= 1
    &&& tree[0].len() == 0
    &&& forall|k1: int, k2: int| 0 <= k1 < k2 < tree.len() ==> #[trigger] tree[k1] != #[trigger] tree[k2]
    &&& forall|k: int| 1 <= k < tree.len() ==> #[trigger] grown_from(grid, agents, tree, k)
}

/// The constraint sets of the nodes.
spec fn ctree(nodes: Seq<CbsNode>) -> Seq<Seq<Constraint>> {
    nodes.map_values(|nd: CbsNode| nd.constraints@)
}

/// `a` is `b` with one constraint added.
spec fn extends(a: Seq<Constraint>, b: Seq<Constraint>) -> bool {
    a.len() > 0 && a.drop_last() == b
}

/// The entries of the open list name distinct nodes, none of which has a
/// child yet.
spec fn open_unexpanded(nodes: Seq<CbsNode>, open: Seq<OpenItem>) -> bool {
    &&& forall|o1: int, o2: int|
        0 <= o1 < o2 < open.len() ==> #[trigger] open[o1].node_index != #[trigger] open[o2].node_index
    &&& forall|o: int, k: int|
        0 <= o < open.len() && 0 <= k < nodes.len() ==> !extends(
            #[trigger] nodes[k].constraints@,
            #[trigger] nodes[open[o].node_index as int].constraints@,
        )
}

/// A set of a search tree that extends set `p` is grown from `p`.
proof fn lemma_tree_parent(grid: Grid, agents: Seq<Agent>, tree: Seq<Seq<Constraint>>, k: int, p: int)
    requires
        search_tree(grid, agents, tree),
        0 <= k < tree.len(),
        0 <= p < tree.len(),
        extends(tree[k], tree[p]),
    ensures
        p < k,
{
    if k == 0 {
        assert(tree[0].len() == 0);
    } else {
        assert(grown_from(grid, agents, tree, k));
        let (p2, paths, c, ai) = choose|p2: int, paths: Seq<Vec<Pos>>, c: Conflict, ai: usize|
            0 <= p2 < k && #[trigger] tree_step(grid, agents, tree[p2], paths, c, ai) && tree[k] == tree[p2].push(
                constraint_for(c, ai),
            );
        assert(tree[p2] =~= tree[k].drop_last());
        if p != p2 {
            if p < p2 {
                assert(tree[p] != tree[p2]);
            } else {
                assert(tree[p2] != tree[p]);
            }
        }
    }
}

/// Adding a child of set `p`, by a split whose constraint no set extending
/// `p` already carries, keeps a search tree.
proof fn lemma_tree_push(
    grid: Grid,
    agents: Seq<Agent>,
    tree: Seq<Seq<Constraint>>,
    p: int,
    paths: Seq<Vec<Pos>>,
    c: Conflict,
    ai: usize,
)
    requires
        search_tree(grid, agents, tree),
        0 <= p < tree.len(),
        tree_step(grid, agents, tree[p], paths, c, ai),
        forall|k: int| 0 <= k < tree.len() && extends(#[trigger] tree[k], tree[p]) ==> tree[k].last() != constraint_for(c, ai),
    ensures
        search_tree(grid, agents, tree.push(tree[p].push(constraint_for(c, ai)))),
{
    let child = tree[p].push(constraint_for(c, ai));
    let t2 = tree.push(child);
    assert(t2[0] == tree[0]);
    assert forall|k1: int, k2: int| 0 <= k1 < k2 < t2.len() implies #[trigger] t2[k1] != #[trigger] t2[k2] by {
        if k2 < tree.len() {
            assert(t2[k1] == tree[k1] && t2[k2] == tree[k2]);
        } else {
            assert(t2[k1] == tree[k1]);
            if tree[k1] == child {
                assert(tree[k1].drop_last() =~= tree[p]);
                assert(extends(tree[k1], tree[p]));
            }
        }
    }
    assert forall|k: int| 1 <= k < t2.len() implies #[trigger] grown_from(grid, agents, t2, k) by {
        if k < tree.len() {
            assert(grown_from(grid, agents, tree, k));
            let (p2, ps, c2, a2) = choose|p2: int, ps: Seq<Vec<Pos>>, c2: Conflict, a2: usize|
                0 <= p2 < k && #[trigger] tree_step(grid, agents, tree[p2], ps, c2, a2) && tree[k] == tree[p2].push(
                    constraint_for(c2, a2),
                );
            assert(t2[p2] == tree[p2] && t2[k] == tree[k]);
            assert(tree_step(grid, agents, t2[p2], ps, c2, a2));
        } else {
            assert(t2[p] == tree[p]);
            assert(tree_step(grid, agents, t2[p], paths, c, ai));
        }
    }
}

/// After a node is taken off the open list and split, the open list again
/// names distinct nodes without children.
proof fn lemma_unexpanded_after(
    grid: Grid,
    agents: Seq<Agent>,
    nb: Seq<CbsNode>,
    ob: Seq<OpenItem>,
    j: int,
    nodes: Seq<CbsNode>,
    open: Seq<OpenItem>,
    node_cs: Seq<Constraint>,
)
    requires
        open_unexpanded(nb, ob),
        0 <= j < ob.len(),
        forall|o: int| 0 <= o < ob.len() ==> #[trigger] ob[o].node_index < nb.len(),
        nb.len() <= nodes.len(),
        forall|k: int| 0 <= k < nb.len() ==> #[trigger] nodes[k] == nb[k],
        search_tree(grid, agents, ctree(nodes)),
        nb[ob[j].node_index as int].constraints@ == node_cs,
        forall|k: int| nb.len() <= k < nodes.len() ==> extends(#[trigger] nodes[k].constraints@, node_cs),
        open.len() >= ob.len() - 1,
        forall|o: int| 0 <= o < ob.len() - 1 ==> #[trigger] open[o] == ob.update(j, ob.last()).drop_last()[o],
        forall|o: int|
            ob.len() - 1 <= o < open.len() ==> #[trigger] open[o].node_index == nb.len() + (o - (ob.len() - 1))
                && open[o].node_index < nodes.len(),
    ensures
        open_unexpanded(nodes, open),
{
    let oa = ob.update(j, ob.last()).drop_last();
    let base = ob.len() - 1;
    let tree = ctree(nodes);
    let ni0 = ob[j].node_index as int;
    assert forall|o: int| 0 <= o < base implies #[trigger] open[o].node_index == ob[if o == j {
        base
    } else {
        o
    }].node_index && (if o == j {
        base
    } else {
        o
    }) != j by {
        assert(open[o] == oa[o]);
    }
    assert forall|o1: int, o2: int| 0 <= o1 < o2 < open.len() implies #[trigger] open[o1].node_index
        != #[trigger] open[o2].node_index by {
        if o2 < base {
            let p1 = if o1 == j {
                base
            } else {
                o1
            };
            let p2 = if o2 == j {
                base
            } else {
                o2
            };
            assert(open[o1].node_index == ob[p1].node_index);
            assert(open[o2].node_index == ob[p2].node_index);
            if p1 < p2 {
                assert(ob[p1].node_index != ob[p2].node_index);
            } else {
                assert(ob[p2].node_index != ob[p1].node_index);
            }
        } else if o1 < base {
            let p1 = if o1 == j {
                base
            } else {
                o1
            };
            assert(open[o1].node_index == ob[p1].node_index);
            assert(ob[p1].node_index < nb.len());
        }
    }
    assert forall|o: int, k: int| 0 <= o < open.len() && 0 <= k < nodes.len() implies !extends(
        #[trigger] nodes[k].constraints@,
        #[trigger] nodes[open[o].node_index as int].constraints@,
    ) by {
        let idx = open[o].node_index as int;
        assert(tree[k] == nodes[k].constraints@);
        assert(tree[idx] == nodes[idx].constraints@);
        if o < base {
            let p = if o == j {
                base
            } else {
                o
            };
            assert(idx == ob[p].node_index);
            assert(idx < nb.len());
            assert(nodes[idx] == nb[idx]);
            if k < nb.len() {
                assert(nodes[k] == nb[k]);
                assert(!extends(nb[k].constraints@, nb[ob[p].node_index as int].constraints@));
            } else if extends(nodes[k].constraints@, nodes[idx].constraints@) {
                assert(extends(nodes[k].constraints@, node_cs));
                assert(nodes[idx].constraints@ == node_cs);
                assert(nodes[ni0] == nb[ni0]);
                assert(ob[p].node_index != ob[j].node_index) by {
                    if p < j {
                        assert(ob[p].node_index != ob[j].node_index);
                    } else {
                        assert(ob[j].node_index != ob[p].node_index);
                    }
                }
                if idx < ni0 {
                    assert(tree[idx] != tree[ni0]);
                } else {
                    assert(tree[ni0] != tree[idx]);
                }
            }
        } else if extends(nodes[k].constraints@, nodes[idx].constraints@) {
            assert(idx >= nb.len());
            assert(extends(nodes[idx].constraints@, node_cs));
            if k < nb.len() {
                lemma_tree_parent(grid, agents, tree, k, idx);
            } else {
                assert(extends(nodes[k].constraints@, node_cs));
            }
        }
    }
}

proof fn lemma_cost_ext(a: Seq<Vec<Pos>>, b: Seq<Vec<Pos>>, k: int)
    requires
        0 <= k <= a.len(),
        a.len() == b.len(),
        forall|i: int| 0 <= i < a.len() ==> #[trigger] a[i]@ == b[i]@,
    ensures
        cost_upto(a, k) == cost_upto(b, k),
    decreases k,
{
    if k > 0 {
        lemma_cost_ext(a, b, k - 1);
        assert(a[k - 1]@ == b[k - 1]@);
    }
}


/// The agent that a constraint restricts.
pub open spec fn constraint_agent(c: Constraint) -> usize {
    match c {
        Constraint::Vertex { agent, .. } => agent,
        Constraint::Edge { agent, .. } => agent,
    }
}

/// Path `p` of `agent` does nothing that `c` forbids.
pub open spec fn keeps(agent: usize, p: Seq<Pos>, c: Constraint) -> bool {
    &&& forall|t: int| 0 <= t < p.len() ==> !bans_vertex(c, agent, #[trigger] p[t], t)
    &&& forall|t: int| 0 <= t < p.len() - 1 ==> !bans_edge(c, agent, #[trigger] p[t], p[t + 1], t)
    &&& !bans_finish(c, agent, p.last(), p.len() - 1)
}

/// Every path of `paths` keeps the constraints `cs` for its agent.
pub open spec fn obeys(paths: Seq<Vec<Pos>>, cs: Seq<Constraint>) -> bool {
    forall|j: int| 0 <= j < paths.len() ==> #[trigger] respects(j as usize, paths[j]@, cs)
}

/// No path of `paths` is longer than the time horizon that every search
/// of the constraint tree covers.
pub open spec fn within_step(grid: Grid, paths: Seq<Vec<Pos>>) -> bool {
    forall|j: int| 0 <= j < paths.len() ==> #[trigger] paths[j]@.len() <= cbs_step(grid)
}

/// `p` keeps the constraints `cs` of agent `j` and is no longer than any
/// path of that agent that keeps them.
pub open spec fn best_path(grid: Grid, ag: Agent, j: usize, cs: Seq<Constraint>, p: Seq<Pos>) -> bool {
    &&& respects(j, p, cs)
    &&& forall|other: Seq<Pos>|
        #[trigger] plain_path(grid, other, ag.start, ag.goal) && respects(j, other, cs) ==> p.len() <= other.len()
}

/// Every path of a node is a shortest one of its agent under the node's
/// constraints.
spec fn node_best(grid: Grid, agents: Seq<Agent>, cs: Seq<Constraint>, paths: Seq<Vec<Pos>>) -> bool {
    forall|j: int| 0 <= j < paths.len() ==> #[trigger] best_path(grid, agents[j], j as usize, cs, paths[j]@)
}

proof fn lemma_respects_push(agent: usize, p: Seq<Pos>, cs: Seq<Constraint>, c: Constraint)
    ensures
        respects(agent, p, cs.push(c)) == (respects(agent, p, cs) && keeps(agent, p, c)),
{
    let cs2 = cs.push(c);
    assert(cs2[cs.len() as int] == c);
    assert forall|pos: Pos, t: int|
        #[trigger] vertex_forbidden(agent, pos, t, cs2) == (vertex_forbidden(agent, pos, t, cs) || bans_vertex(
            c,
            agent,
            pos,
            t,
        )) by {
        if vertex_forbidden(agent, pos, t, cs) {
            let i = choose|i: int| 0 <= i < cs.len() && #[trigger] bans_vertex(cs[i], agent, pos, t);
            assert(cs2[i] == cs[i]);
        }
        if vertex_forbidden(agent, pos, t, cs2) {
            let i = choose|i: int| 0 <= i < cs2.len() && #[trigger] bans_vertex(cs2[i], agent, pos, t);
            if i < cs.len() {
                assert(cs2[i] == cs[i]);
            }
        }
    }
    assert forall|f: Pos, to: Pos, t: int|
        #[trigger] edge_forbidden(agent, f, to, t, cs2) == (edge_forbidden(agent, f, to, t, cs) || bans_edge(
            c,
            agent,
            f,
            to,
            t,
        )) by {
        if edge_forbidden(agent, f, to, t, cs) {
            let i = choose|i: int| 0 <= i < cs.len() && #[trigger] bans_edge(cs[i], agent, f, to, t);
            assert(cs2[i] == cs[i]);
        }
        if edge_forbidden(agent, f, to, t, cs2) {
            let i = choose|i: int| 0 <= i < cs2.len() && #[trigger] bans_edge(cs2[i], agent, f, to, t);
            if i < cs.len() {
                assert(cs2[i] == cs[i]);
            }
        }
    }
    assert(finish_allowed(agent, p.last(), p.len() - 1, cs2) == (finish_allowed(agent, p.last(), p.len() - 1, cs)
        && !bans_finish(c, agent, p.last(), p.len() - 1))) by {
        if finish_allowed(agent, p.last(), p.len() - 1, cs) && !bans_finish(c, agent, p.last(), p.len() - 1) {
            assert forall|i: int| 0 <= i < cs2.len() implies !#[trigger] bans_finish(cs2[i], agent, p.last(), p.len() - 1) by {
                if i < cs.len() {
                    assert(cs2[i] == cs[i]);
                }
            }
        }
        if finish_allowed(agent, p.last(), p.len() - 1, cs2) {
            assert forall|i: int| 0 <= i < cs.len() implies !#[trigger] bans_finish(cs[i], agent, p.last(), p.len() - 1) by {
                assert(cs2[i] == cs[i]);
            }
        }
    }
    if respects(agent, p, cs2) {
        assert forall|t: int| 0 <= t < p.len() implies !bans_vertex(c, agent, #[trigger] p[t], t) by {
            assert(!vertex_forbidden(agent, p[t], t, cs2));
        }
        assert forall|t: int| 0 <= t < p.len() - 1 implies !bans_edge(c, agent, #[trigger] p[t], p[t + 1], t) by {
            assert(step_allowed(agent, p, t, cs2));
        }
        assert forall|t: int| 0 <= t < p.len() - 1 implies #[trigger] step_allowed(agent, p, t, cs) by {
            assert(step_allowed(agent, p, t, cs2));
        }
    }
    if respects(agent, p, cs) && keeps(agent, p, c) {
        assert forall|t: int| 0 <= t < p.len() - 1 implies #[trigger] step_allowed(agent, p, t, cs2) by {
            assert(step_allowed(agent, p, t, cs));
        }
    }
}

/// A path keeps every constraint that it respects.
proof fn lemma_respects_keeps(agent: usize, p: Seq<Pos>, cs: Seq<Constraint>, i: int)
    requires
        respects(agent, p, cs),
        0 <= i < cs.len(),
    ensures
        keeps(agent, p, cs[i]),
{
    assert forall|t: int| 0 <= t < p.len() implies !bans_vertex(cs[i], agent, #[trigger] p[t], t) by {
        assert(!vertex_forbidden(agent, p[t], t, cs));
    }
    assert forall|t: int| 0 <= t < p.len() - 1 implies !bans_edge(cs[i], agent, #[trigger] p[t], p[t + 1], t) by {
        assert(step_allowed(agent, p, t, cs));
    }
}

/// A constraint on one agent leaves the paths of the others alone.
proof fn lemma_respects_other(agent: usize, p: Seq<Pos>, cs: Seq<Constraint>, c: Constraint)
    requires
        constraint_agent(c) != agent,
    ensures
        respects(agent, p, cs.push(c)) == respects(agent, p, cs),
{
    lemma_respects_push(agent, p, cs, c);
}

/// A path keeps a vertex constraint unless it is there at its time,
/// counting the wait at its end.
proof fn lemma_keeps_vertex(agent: usize, p: Seq<Pos>, v: Pos, t: usize)
    requires
        p.len() >= 1,
    ensures
        keeps(agent, p, Constraint::Vertex { agent, pos: v, time: t }) == (pos_at(p, t as int) != v),
{
    let c = Constraint::Vertex { agent, pos: v, time: t };
    if t < p.len() {
        if p[t as int] == v {
            assert(bans_vertex(c, agent, p[t as int], t as int));
        }
    }
}

/// A path keeps an edge constraint unless it makes that move at its time.
proof fn lemma_keeps_edge(agent: usize, p: Seq<Pos>, f: Pos, to: Pos, t: usize)
    ensures
        keeps(agent, p, Constraint::Edge { agent, from: f, to, time: t }) == !(t + 1 < p.len() && p[t as int] == f
            && p[t + 1] == to),
{
    let c = Constraint::Edge { agent, from: f, to, time: t };
    if t + 1 < p.len() && p[t as int] == f && p[t + 1] == to {
        assert(bans_edge(c, agent, p[t as int], p[t + 1], t as int));
    }
}

proof fn lemma_latest_nonneg(agent: usize, cs: Seq<Constraint>)
    ensures
        latest_spec(agent, cs) >= 0,
    decreases cs.len(),
{
    if cs.len() > 0 {
        lemma_latest_nonneg(agent, cs.drop_last());
    }
}

/// Summing path lengths is monotone.
proof fn lemma_cost_le(a: Seq<Vec<Pos>>, b: Seq<Vec<Pos>>, k: int)
    requires
        0 <= k <= a.len(),
        a.len() == b.len(),
        forall|j: int| 0 <= j < a.len() ==> 1 <= #[trigger] a[j]@.len() <= b[j]@.len(),
    ensures
        cost_upto(a, k) <= cost_upto(b, k),
    decreases k,
{
    if k > 0 {
        lemma_cost_le(a, b, k - 1);
        assert(1 <= a[k - 1]@.len() <= b[k - 1]@.len());
    }
}

/// Two agents of a set of paths without collision are never in one cell,
/// not even after both have arrived.
proof fn lemma_apart_forever(s: Seq<Vec<Pos>>, t: int, a: int, b: int)
    requires
        conflict_free(s),
        all_nonempty(s),
        0 <= a < b < s.len(),
        0 <= t,
    ensures
        !vertex_clash(s, t, a, b),
{
    lemma_horizon_bounds(s);
    assert(!clash(s, t, a, b));
    let h = horizon_spec(s);
    if t >= h {
        assert(s[a]@.len() <= h && s[b]@.len() <= h);
        assert(s[a]@.len() > 0 && s[b]@.len() > 0);
        assert(!clash(s, h - 1, a, b));
        assert(pos_at(s[a]@, h - 1) == s[a]@.last());
        assert(pos_at(s[b]@, h - 1) == s[b]@.last());
    }
}

/// A first collision of the node's paths breaks the constraint that the
/// split gives each of its two agents.
proof fn lemma_conflict_breaks(paths: Seq<Vec<Pos>>, c: Conflict, ag: usize)
    requires
        first_conflict(paths, c),
        all_nonempty(paths),
        ag == agents_of(c).0 || ag == agents_of(c).1,
    ensures
        !keeps(ag, paths[ag as int]@, constraint_for(c, ag)),
{
    let p = paths[ag as int]@;
    assert(p.len() > 0);
    match c {
        Conflict::Vertex { a, b, pos, time } => {
            lemma_keeps_vertex(ag, p, pos, time);
        },
        Conflict::Edge { a, b, a_from, a_to, b_from, b_to, time } => {
            if ag == a {
                lemma_keeps_edge(ag, p, a_from, a_to, time);
                if time + 1 >= p.len() {
                    assert(pos_at(p, time as int) == p.last());
                    assert(pos_at(p, time + 1) == p.last());
                }
            } else {
                lemma_keeps_edge(ag, p, b_from, b_to, time);
                if time + 1 >= p.len() {
                    assert(pos_at(p, time as int) == p.last());
                    assert(pos_at(p, time + 1) == p.last());
                }
            }
        },
    }
}

/// A set of paths without collision keeps the constraint of at least one
/// of the two children of a split.
proof fn lemma_split_covers(paths: Seq<Vec<Pos>>, c: Conflict, s: Seq<Vec<Pos>>)
    requires
        first_conflict(paths, c),
        conflict_free(s),
        all_nonempty(s),
        s.len() == paths.len(),
    ensures
        keeps(agents_of(c).0, s[agents_of(c).0 as int]@, constraint_for(c, agents_of(c).0)) || keeps(
            agents_of(c).1,
            s[agents_of(c).1 as int]@,
            constraint_for(c, agents_of(c).1),
        ),
{
    match c {
        Conflict::Vertex { a, b, pos, time } => {
            lemma_keeps_vertex(a, s[a as int]@, pos, time);
            lemma_keeps_vertex(b, s[b as int]@, pos, time);
            lemma_apart_forever(s, time as int, a as int, b as int);
        },
        Conflict::Edge { a, b, a_from, a_to, b_from, b_to, time } => {
            lemma_keeps_edge(a, s[a as int]@, a_from, a_to, time);
            lemma_keeps_edge(b, s[b as int]@, b_from, b_to, time);
            let pa = s[a as int]@;
            let pb = s[b as int]@;
            if time + 1 < pa.len() && pa[time as int] == a_from && pa[time + 1] == a_to && time + 1 < pb.len()
                && pb[time as int] == b_from && pb[time + 1] == b_to {
                lemma_horizon_bounds(s);
                let pp = paths[a as int]@;
                assert(a_from != a_to);
                assert(edge_clash(s, time as int, a as int, b as int));
                assert(clash(s, time as int, a as int, b as int));
            }
        },
    }
}


/// Every solution within the horizon keeps the constraints of some node on
/// the open list.
spec fn open_covers(grid: Grid, agents: Seq<Agent>, nodes: Seq<CbsNode>, open: Seq<OpenItem>) -> bool {
    forall|sol: Seq<Vec<Pos>>|
        #[trigger] solves(grid, agents, sol) && within_step(grid, sol) ==> exists|k: int|
            0 <= k < open.len() && obeys(sol, nodes[open[k].node_index as int].constraints@)
}

/// While a node with constraints `cs` is being split on `conflict`: every
/// solution within the horizon keeps the constraints of a node on the open
/// list, or keeps `cs` and breaks the constraint of each child made so far.
spec fn split_covers(
    grid: Grid,
    agents: Seq<Agent>,
    nodes: Seq<CbsNode>,
    open: Seq<OpenItem>,
    cs: Seq<Constraint>,
    conflict: Conflict,
    pair: Seq<usize>,
    q: int,
) -> bool {
    forall|sol: Seq<Vec<Pos>>|
        #[trigger] solves(grid, agents, sol) && within_step(grid, sol) ==> (exists|k: int|
            0 <= k < open.len() && obeys(sol, nodes[open[k].node_index as int].constraints@)) || (obeys(sol, cs)
            && forall|qq: int|
            0 <= qq < q ==> !#[trigger] keeps(pair[qq], sol[pair[qq] as int]@, constraint_for(conflict, pair[qq])))
}

/// The cost of a node is at most that of every solution that keeps its
/// constraints.
proof fn lemma_node_lower_bound(
    grid: Grid,
    agents: Seq<Agent>,
    cs: Seq<Constraint>,
    paths: Seq<Vec<Pos>>,
    sol: Seq<Vec<Pos>>,
)
    requires
        node_best(grid, agents, cs, paths),
        node_paths_ok(grid, agents, cs, paths),
        solves(grid, agents, sol),
        obeys(sol, cs),
    ensures
        cost_upto(paths, paths.len() as int) <= cost_upto(sol, paths.len() as int),
{
    assert forall|j: int| 0 <= j < paths.len() implies 1 <= #[trigger] paths[j]@.len() <= sol[j]@.len() by {
        assert(best_path(grid, agents[j], j as usize, cs, paths[j]@));
        assert(plain_path(grid, sol[j]@, agents[j].start, agents[j].goal));
        assert(respects(j as usize, sol[j]@, cs));
    }
    lemma_cost_le(paths, sol, paths.len() as int);
}

/// Taking entry `j` off the open list leaves its node's constraints as the
/// ones to split.
proof fn lemma_covers_pop(
    grid: Grid,
    agents: Seq<Agent>,
    nodes: Seq<CbsNode>,
    before: Seq<OpenItem>,
    after: Seq<OpenItem>,
    j: int,
    cs: Seq<Constraint>,
    conflict: Conflict,
    pair: Seq<usize>,
)
    requires
        open_covers(grid, agents, nodes, before),
        0 <= j < before.len(),
        after == before.update(j, before.last()).drop_last(),
        nodes[before[j].node_index as int].constraints@ == cs,
    ensures
        split_covers(grid, agents, nodes, after, cs, conflict, pair, 0),
{
    assert forall|sol: Seq<Vec<Pos>>| #[trigger] solves(grid, agents, sol) && within_step(grid, sol) implies (exists|k: int|
        0 <= k < after.len() && obeys(sol, nodes[after[k].node_index as int].constraints@)) || (obeys(sol, cs)
        && forall|qq: int|
        0 <= qq < 0 ==> !#[trigger] keeps(pair[qq], sol[pair[qq] as int]@, constraint_for(conflict, pair[qq]))) by {
        let k = choose|k: int| 0 <= k < before.len() && obeys(sol, nodes[before[k].node_index as int].constraints@);
        if k != j {
            let k2 = if k == before.len() - 1 {
                j
            } else {
                k
            };
            assert(after[k2] == before[k]);
        }
    }
}

/// A child of the split on the list: a solution that keeps its constraint
/// keeps all of the child's.
proof fn lemma_covers_child(
    grid: Grid,
    agents: Seq<Agent>,
    nodes: Seq<CbsNode>,
    open: Seq<OpenItem>,
    nodes2: Seq<CbsNode>,
    open2: Seq<OpenItem>,
    cs: Seq<Constraint>,
    conflict: Conflict,
    pair: Seq<usize>,
    q: int,
)
    requires
        split_covers(grid, agents, nodes, open, cs, conflict, pair, q),
        0 <= q < pair.len(),
        pair[q] < agents.len(),
        agents.len() <= usize::MAX,
        constraint_agent(constraint_for(conflict, pair[q])) == pair[q],
        forall|k: int| 0 <= k < open.len() ==> #[trigger] open[k].node_index < nodes.len(),
        nodes2.len() == nodes.len() + 1,
        forall|k: int| 0 <= k < nodes.len() ==> #[trigger] nodes2[k] == nodes[k],
        nodes2[nodes.len() as int].constraints@ == cs.push(constraint_for(conflict, pair[q])),
        open2.len() == open.len() + 1,
        forall|k: int| 0 <= k < open.len() ==> #[trigger] open2[k] == open[k],
        open2[open.len() as int].node_index == nodes.len(),
    ensures
        split_covers(grid, agents, nodes2, open2, cs, conflict, pair, q + 1),
{
    let c = constraint_for(conflict, pair[q]);
    let ai = pair[q];
    assert forall|sol: Seq<Vec<Pos>>| #[trigger] solves(grid, agents, sol) && within_step(grid, sol) implies (exists|k: int|
        0 <= k < open2.len() && obeys(sol, nodes2[open2[k].node_index as int].constraints@)) || (obeys(sol, cs)
        && forall|qq: int|
        0 <= qq < q + 1 ==> !#[trigger] keeps(pair[qq], sol[pair[qq] as int]@, constraint_for(conflict, pair[qq]))) by {
        if exists|k: int| 0 <= k < open.len() && obeys(sol, nodes[open[k].node_index as int].constraints@) {
            let k = choose|k: int| 0 <= k < open.len() && obeys(sol, nodes[open[k].node_index as int].constraints@);
            assert(open2[k] == open[k]);
            assert(nodes2[open[k].node_index as int] == nodes[open[k].node_index as int]);
        } else if keeps(ai, sol[ai as int]@, c) {
            assert forall|jj: int| 0 <= jj < sol.len() implies #[trigger] respects(jj as usize, sol[jj]@, cs.push(c)) by {
                assert(respects(jj as usize, sol[jj]@, cs));
                lemma_respects_push(jj as usize, sol[jj]@, cs, c);
                if jj != ai {
                    lemma_respects_other(jj as usize, sol[jj]@, cs, c);
                }
            }
            let k = open.len() as int;
            assert(obeys(sol, nodes2[open2[k].node_index as int].constraints@));
        }
    }
}

/// A child whose agent has no path within the horizon: no solution within
/// the horizon keeps its constraint.
proof fn lemma_covers_no_child(
    grid: Grid,
    agents: Seq<Agent>,
    nodes: Seq<CbsNode>,
    open: Seq<OpenItem>,
    cs: Seq<Constraint>,
    conflict: Conflict,
    pair: Seq<usize>,
    q: int,
    horizon: int,
)
    requires
        split_covers(grid, agents, nodes, open, cs, conflict, pair, q),
        0 <= q < pair.len(),
        pair[q] < agents.len(),
        agents.len() <= usize::MAX,
        cbs_step(grid) <= horizon + 1,
        forall|path: Seq<Pos>|
            !(#[trigger] plain_path(grid, path, agents[pair[q] as int].start, agents[pair[q] as int].goal) && respects(
                pair[q],
                path,
                cs.push(constraint_for(conflict, pair[q])),
            ) && path.len() <= horizon + 1),
    ensures
        split_covers(grid, agents, nodes, open, cs, conflict, pair, q + 1),
{
    let c = constraint_for(conflict, pair[q]);
    let ai = pair[q];
    assert forall|sol: Seq<Vec<Pos>>| #[trigger] solves(grid, agents, sol) && within_step(grid, sol) implies (exists|k: int|
        0 <= k < open.len() && obeys(sol, nodes[open[k].node_index as int].constraints@)) || (obeys(sol, cs)
        && forall|qq: int|
        0 <= qq < q + 1 ==> !#[trigger] keeps(pair[qq], sol[pair[qq] as int]@, constraint_for(conflict, pair[qq]))) by {
        if !(exists|k: int| 0 <= k < open.len() && obeys(sol, nodes[open[k].node_index as int].constraints@)) {
            if keeps(ai, sol[ai as int]@, c) {
                assert(sol.len() == agents.len());
                assert(respects((ai as int) as usize, sol[ai as int]@, cs));
                lemma_respects_push(ai, sol[ai as int]@, cs, c);
                assert(plain_path(grid, sol[ai as int]@, agents[ai as int].start, agents[ai as int].goal));
                assert(sol[ai as int]@.len() <= cbs_step(grid));
            }
        }
    }
}

/// Once both children are made, every solution within the horizon keeps
/// the constraints of a node on the open list.
proof fn lemma_covers_done(
    grid: Grid,
    agents: Seq<Agent>,
    nodes: Seq<CbsNode>,
    open: Seq<OpenItem>,
    cs: Seq<Constraint>,
    conflict: Conflict,
    paths: Seq<Vec<Pos>>,
    pair: Seq<usize>,
)
    requires
        split_covers(grid, agents, nodes, open, cs, conflict, pair, 2),
        first_conflict(paths, conflict),
        paths.len() == agents.len(),
        pair == seq![agents_of(conflict).0, agents_of(conflict).1],
    ensures
        open_covers(grid, agents, nodes, open),
{
    assert forall|sol: Seq<Vec<Pos>>| #[trigger] solves(grid, agents, sol) && within_step(grid, sol) implies exists|k: int|
        0 <= k < open.len() && obeys(sol, nodes[open[k].node_index as int].constraints@) by {
        assert forall|i: int| 0 <= i < sol.len() implies #[trigger] sol[i]@.len() > 0 by {
            assert(plain_path(grid, sol[i]@, agents[i].start, agents[i].goal));
        }
        lemma_split_covers(paths, conflict, sol);
        assert(pair[0] == agents_of(conflict).0 && pair[1] == agents_of(conflict).1);
        if !(exists|k: int| 0 <= k < open.len() && obeys(sol, nodes[open[k].node_index as int].constraints@)) {
            assert(!keeps(pair[0], sol[pair[0] as int]@, constraint_for(conflict, pair[0])));
            assert(!keeps(pair[1], sol[pair[1] as int]@, constraint_for(conflict, pair[1])));
        }
    }
}

/// A child keeps the shortest paths of its parent for the agents its new
/// constraint does not concern.
proof fn lemma_best_push(
    grid: Grid,
    agents: Seq<Agent>,
    cs: Seq<Constraint>,
    c: Constraint,
    paths: Seq<Vec<Pos>>,
    paths2: Seq<Vec<Pos>>,
    ai: usize,
)
    requires
        node_best(grid, agents, cs, paths),
        constraint_agent(c) == ai,
        paths2.len() == paths.len(),
        ai < paths.len(),
        paths.len() <= usize::MAX,
        forall|jj: int| 0 <= jj < paths.len() && jj != ai ==> #[trigger] paths2[jj]@ == paths[jj]@,
        best_path(grid, agents[ai as int], ai, cs.push(c), paths2[ai as int]@),
    ensures
        node_best(grid, agents, cs.push(c), paths2),
{
    assert forall|jj: int| 0 <= jj < paths2.len() implies #[trigger] best_path(
        grid,
        agents[jj],
        jj as usize,
        cs.push(c),
        paths2[jj]@,
    ) by {
        if jj != ai {
            assert(paths2[jj]@ == paths[jj]@);
            assert(best_path(grid, agents[jj], jj as usize, cs, paths[jj]@));
            lemma_respects_other(jj as usize, paths[jj]@, cs, c);
            assert forall|other: Seq<Pos>|
                #[trigger] plain_path(grid, other, agents[jj].start, agents[jj].goal) && respects(
                    jj as usize,
                    other,
                    cs.push(c),
                ) implies paths2[jj]@.len() <= other.len() by {
                lemma_respects_other(jj as usize, other, cs, c);
            }
        }
    }
}

} // verus!
