//! Step-by-step A* search on a grid of walls and free cells, as an
//! editable board: walls can be toggled, start and goal moved, a maze-like
//! pattern generated, and the search advanced one expansion at a time.
//! Cells are identified by their row-major index.

use vstd::prelude::*;

verus! {

/// A cell of the grid.
#[derive(Clone, Copy, Debug, PartialEq, Eq, Structural)]
pub struct Pos {
    pub x: usize,
    pub y: usize,
}

/// What a cell holds.
#[derive(Clone, Copy, Debug, PartialEq, Eq, Structural)]
pub enum Cell {
    Empty,
    Wall,
}

/// What a click on the board does.
#[derive(Clone, Copy, Debug, PartialEq, Eq, Structural)]
pub enum EditMode {
    Wall,
    Start,
    Goal,
}

/// The row-major index of `p` on a grid `width` cells wide.
pub open spec fn idx(p: Pos, width: int) -> int {
    p.y * width + p.x
}

/// `p` lies on a `width` by `height` grid.
pub open spec fn inside(p: Pos, width: int, height: int) -> bool {
    p.x < width && p.y < height
}

/// The cells next to `p` on a `width` by `height` grid: left, right, up
/// and down, as far as they exist.
pub open spec fn neighbor_cells(p: Pos, width: int, height: int) -> Seq<Pos> {
    (if p.x > 0 {
        seq![Pos { x: (p.x - 1) as usize, y: p.y }]
    } else {
        Seq::empty()
    }) + (if p.x + 1 < width {
        seq![Pos { x: (p.x + 1) as usize, y: p.y }]
    } else {
        Seq::empty()
    }) + (if p.y > 0 {
        seq![Pos { x: p.x, y: (p.y - 1) as usize }]
    } else {
        Seq::empty()
    }) + (if p.y + 1 < height {
        seq![Pos { x: p.x, y: (p.y + 1) as usize }]
    } else {
        Seq::empty()
    })
}

/// The Manhattan distance between `a` and `b`.
pub open spec fn manhattan(a: Pos, b: Pos) -> int {
    (if a.x >= b.x {
        a.x - b.x
    } else {
        b.x - a.x
    }) + (if a.y >= b.y {
        a.y - b.y
    } else {
        b.y - a.y
    })
}

/// The cells next to `pos`: left, right, up and down, as far as the grid
/// reaches.
pub fn neighbors(pos: Pos, width: usize, height: usize) -> (result: Vec<Pos>)
    requires
        pos.x < usize::MAX,
        pos.y < usize::MAX,
    ensures
        result@ == neighbor_cells(pos, width as int, height as int),
{
    let mut result: Vec<Pos> = Vec::new();
    if pos.x > 0 {
        result.push(Pos { x: pos.x - 1, y: pos.y });
    }
    if pos.x + 1 < width {
        result.push(Pos { x: pos.x + 1, y: pos.y });
    }
    if pos.y > 0 {
        result.push(Pos { x: pos.x, y: pos.y - 1 });
    }
    if pos.y + 1 < height {
        result.push(Pos { x: pos.x, y: pos.y + 1 });
    }
    assert(result@ =~= neighbor_cells(pos, width as int, height as int));
    result
}

/// The Manhattan distance between `a` and `b`.
pub fn heuristic(a: Pos, b: Pos) -> (d: usize)
    requires
        manhattan(a, b) <= usize::MAX,
    ensures
        d == manhattan(a, b),
{
    let dx = if a.x >= b.x {
        a.x - b.x
    } else {
        b.x - a.x
    };
    let dy = if a.y >= b.y {
        a.y - b.y
    } else {
        b.y - a.y
    };
    dx + dy
}

/// Every link of `came_from` (indexed by cell) points to a cell of the
/// grid.
pub open spec fn links_inside(came_from: Seq<Option<Pos>>, width: int, height: int) -> bool {
    forall|i: int|
        0 <= i < came_from.len() ==> (#[trigger] came_from[i] matches Some(c) ==> inside(c, width, height))
}

/// `rank` decreases along every link of `came_from`, so following the
/// links always ends.
pub open spec fn ranked_by(came_from: Seq<Option<Pos>>, width: int, rank: spec_fn(int) -> nat) -> bool {
    forall|i: int|
        0 <= i < came_from.len() ==> (#[trigger] came_from[i] matches Some(c) ==> rank(idx(c, width)) < rank(i))
}

/// `path` follows the links of `came_from` back from its last cell to a cell
/// without a link, listed from there forward.
pub open spec fn traces_back(path: Seq<Pos>, came_from: Seq<Option<Pos>>, width: int) -> bool {
    &&& path.len() >= 1
    &&& came_from[idx(path[0], width)] is None
    &&& forall|i: int| 0 <= i < path.len() - 1 ==> came_from[idx(#[trigger] path[i + 1], width)] == Some(path[i])
}

/// `a` and `b` are next to each other.
pub open spec fn adjacent(a: Pos, b: Pos) -> bool {
    manhattan(a, b) == 1
}

/// `path` leads from `start` to `goal` one step at a time through free
/// cells.
pub open spec fn valid_path(path: Seq<Pos>, grid: Seq<Cell>, width: int, start: Pos, goal: Pos) -> bool {
    &&& path.len() >= 1
    &&& path[0] == start
    &&& path.last() == goal
    &&& forall|i: int| 0 <= i < path.len() - 1 ==> adjacent(#[trigger] path[i], path[i + 1])
    &&& forall|i: int| 0 <= i < path.len() ==> grid[idx(#[trigger] path[i], width)] != Cell::Wall
}

/// The path that leads to `current`: from a cell without a link, along the
/// links of `came_from`, to `current`.
pub fn reconstruct_path(came_from: &Vec<Option<Pos>>, width: usize, height: usize, current: Pos) -> (path: Vec<Pos>)
    requires
        came_from@.len() == width * height,
        inside(current, width as int, height as int),
        links_inside(came_from@, width as int, height as int),
        exists|rank: spec_fn(int) -> nat| ranked_by(came_from@, width as int, rank),
    ensures
        traces_back(path@, came_from@, width as int),
        path@.last() == current,
{
    let ghost rank = choose|rank: spec_fn(int) -> nat| ranked_by(came_from@, width as int, rank);
    let mut back: Vec<Pos> = Vec::new();
    back.push(current);
    let mut cur = current;
    let cells = came_from.len();
    let mut done = false;
    while !done
        invariant
            cells == came_from@.len() == width * height,
            inside(cur, width as int, height as int),
            links_inside(came_from@, width as int, height as int),
            ranked_by(came_from@, width as int, rank),
            back@.len() >= 1,
            back@[0] == current,
            back@.last() == cur,
            forall|i: int| 0 <= i < back@.len() - 1 ==> came_from@[idx(#[trigger] back@[i], width as int)] == Some(back@[i + 1]),
            done ==> came_from@[idx(cur, width as int)] is None,
        decreases rank(idx(cur, width as int)) * 2 + if done {
            0int
        } else {
            1int
        },
    {
        proof {
            lemma_index_inside(cur, width as int, height as int);
        }
        let i = cur.y * width + cur.x;
        match came_from[i] {
            Some(prev) => {
                let ghost before = back@;
                back.push(prev);
                cur = prev;
                proof {
                    assert forall|k: int| 0 <= k < back@.len() - 1 implies came_from@[idx(
                        #[trigger] back@[k],
                        width as int,
                    )] == Some(back@[k + 1]) by {
                        if k < before.len() - 1 {
                            assert(back@[k] == before[k]);
                        }
                    }
                }
            },
            None => {
                done = true;
            },
        }
    }
    let mut path: Vec<Pos> = Vec::new();
    let mut k = back.len();
    while k > 0
        invariant
            k <= back@.len(),
            back@.len() >= 1,
            path@.len() == back@.len() - k,
            forall|j: int| 0 <= j < path@.len() ==> #[trigger] path@[j] == back@[back@.len() - 1 - j],
        decreases k,
    {
        k -= 1;
        path.push(back[k]);
    }
    proof {
        assert forall|i: int| 0 <= i < path@.len() - 1 implies came_from@[idx(#[trigger] path@[i + 1], width as int)]
            == Some(path@[i]) by {
            let m = back@.len() - 2 - i;
            assert(path@[i + 1] == back@[m]);
            assert(path@[i] == back@[m + 1]);
        }
    }
    path
}

/// A cell of a `width` by `height` grid has an index below the number of
/// cells.
proof fn lemma_index_inside(p: Pos, width: int, height: int)
    requires
        inside(p, width, height),
    ensures
        0 <= p.y * width <= idx(p, width) < width * height,
{
    assert(p.y * width + p.x < width * height) by (nonlinear_arith)
        requires
            p.x < width,
            p.y < height,
            0 <= p.y,
            0 <= p.x,
    ;
    assert(0 <= p.y * width) by (nonlinear_arith)
        requires
            0 <= p.y,
            p.x < width,
            0 <= p.x,
    ;
}


/// Different cells of a grid have different indices.
proof fn lemma_index_injective(p: Pos, q: Pos, width: int, height: int)
    requires
        inside(p, width, height),
        inside(q, width, height),
        idx(p, width) == idx(q, width),
    ensures
        p == q,
{
    if p.y < q.y {
        assert(p.y * width + width <= q.y * width) by (nonlinear_arith)
            requires
                p.y < q.y,
                0 <= width,
        ;
    }
    if q.y < p.y {
        assert(q.y * width + width <= p.y * width) by (nonlinear_arith)
            requires
                q.y < p.y,
                0 <= width,
        ;
    }
}

/// An entry of the open list: a cell with its estimated total cost
/// `f_score` and its cost so far `g_score`.
#[derive(Clone, Copy, Debug, PartialEq, Eq, Structural)]
pub struct Node {
    pub pos: Pos,
    pub f_score: usize,
    pub g_score: usize,
}

/// `a` is expanded before `b`: a smaller estimate, or the same estimate
/// and a smaller cost so far.
pub open spec fn goes_first(a: Node, b: Node) -> bool {
    a.f_score < b.f_score || (a.f_score == b.f_score && a.g_score < b.g_score)
}

/// The position of the first entry of `open` that no entry goes before.
pub open spec fn first_min(open: Seq<Node>) -> int
    decreases open.len(),
{
    if open.len() <= 1 {
        0
    } else {
        let k = first_min(open.drop_last());
        if goes_first(open.last(), open[k]) {
            open.len() - 1
        } else {
            k
        }
    }
}

/// Law (priority): the entry taken from a non-empty open list is one that
/// no entry goes before, and every entry ahead of it goes after it.
pub proof fn lemma_first_min(open: Seq<Node>)
    requires
        open.len() > 0,
    ensures
        0 <= first_min(open) < open.len(),
        forall|j: int| 0 <= j < open.len() ==> !goes_first(#[trigger] open[j], open[first_min(open)]),
        forall|j: int| 0 <= j < first_min(open) ==> goes_first(open[first_min(open)], #[trigger] open[j]),
    decreases open.len(),
{
    if open.len() > 1 {
        let p = open.drop_last();
        lemma_first_min(p);
        let k = first_min(p);
        assert forall|j: int| 0 <= j < open.len() implies !goes_first(#[trigger] open[j], open[first_min(open)]) by {
            if j < open.len() - 1 {
                assert(open[j] == p[j]);
            }
        }
        assert forall|j: int| 0 <= j < first_min(open) implies goes_first(open[first_min(open)], #[trigger] open[j]) by {
            if j < open.len() - 1 {
                assert(open[j] == p[j]);
            }
        }
    }
}

/// The position of the entry to expand next.
fn pick_first_min(open: &Vec<Node>) -> (k: usize)
    requires
        open@.len() > 0,
    ensures
        k == first_min(open@),
{
    let mut best: usize = 0;
    let mut i: usize = 1;
    assert(open@.take(1).len() == 1);
    while i < open.len()
        invariant
            1 <= i <= open@.len(),
            best == first_min(open@.take(i as int)),
            best < i,
        decreases open@.len() - i,
    {
        proof {
            assert(open@.take(i + 1).drop_last() =~= open@.take(i as int));
            assert(open@.take(i + 1)[best as int] == open@[best as int]);
            assert(open@.take(i + 1).last() == open@[i as int]);
        }
        let a = open[i];
        let b = open[best];
        if a.f_score < b.f_score || (a.f_score == b.f_score && a.g_score < b.g_score) {
            best = i;
        }
        i += 1;
    }
    assert(open@.take(open@.len() as int) =~= open@);
    best
}

/// The number of cells with a known cost.
pub open spec fn known(g: Seq<Option<usize>>) -> nat
    decreases g.len(),
{
    if g.len() == 0 {
        0
    } else {
        known(g.drop_last()) + if g.last() is Some {
            1nat
        } else {
            0nat
        }
    }
}

proof fn lemma_known_update(g: Seq<Option<usize>>, i: int, v: usize)
    requires
        0 <= i < g.len(),
    ensures
        known(g.update(i, Some(v))) == known(g) + if g[i] is None {
            1nat
        } else {
            0nat
        },
        known(g) <= g.len(),
    decreases g.len(),
{
    let g2 = g.update(i, Some(v));
    if i < g.len() - 1 {
        lemma_known_update(g.drop_last(), i, v);
        assert(g2.drop_last() =~= g.drop_last().update(i, Some(v)));
    } else {
        assert(g2.drop_last() =~= g.drop_last());
        lemma_known_bound(g.drop_last());
    }
}

proof fn lemma_known_bound(g: Seq<Option<usize>>)
    ensures
        known(g) <= g.len(),
    decreases g.len(),
{
    if g.len() > 0 {
        lemma_known_bound(g.drop_last());
    }
}

/// The cost so far of cell `i`, or 0 when unknown.
pub open spec fn cost_or_zero(g: Seq<Option<usize>>, i: int) -> nat {
    match g[i] {
        Some(v) => v as nat,
        None => 0,
    }
}

/// The state of a search on a `width` by `height` grid.
#[derive(Debug)]
pub struct AStarState {
    /// Entries waiting for expansion (a cell may appear more than once).
    pub open_set: Vec<Node>,
    /// By cell: whether it was added to the open list since it was last
    /// taken from it.
    pub open_positions: Vec<bool>,
    /// By cell: whether it was expanded.
    pub closed_set: Vec<bool>,
    /// By cell: the cell it was best reached from.
    pub came_from: Vec<Option<Pos>>,
    /// By cell: the least cost found so far.
    pub g_score: Vec<Option<usize>>,
    /// The path found, from start to goal.
    pub path: Vec<Pos>,
    pub finished: bool,
    pub found: bool,
}

impl AStarState {
    /// The invariant of a search on a `width` by `height` grid: tables of
    /// one entry per cell; links and open entries on the grid; a link goes
    /// to a cell of smaller cost, and every open entry has a known cost,
    /// each smaller than the number of known costs.
    pub open spec fn wf(&self, width: int, height: int) -> bool {
        let cells = width * height;
        let g = self.g_score@;
        &&& self.open_positions@.len() == cells
        &&& self.closed_set@.len() == cells
        &&& self.came_from@.len() == cells
        &&& g.len() == cells
        &&& links_inside(self.came_from@, width, height)
        &&& forall|i: int|
            0 <= i < cells ==> (#[trigger] self.came_from@[i] matches Some(c) ==> {
                &&& g[i] is Some
                &&& g[idx(c, width)] is Some
                &&& g[idx(c, width)]->0 < g[i]->0
            })
        &&& forall|k: int|
            0 <= k < self.open_set@.len() ==> inside(#[trigger] self.open_set@[k].pos, width, height) && g[idx(
                self.open_set@[k].pos,
                width,
            )] is Some
        &&& forall|i: int| 0 <= i < cells ==> (#[trigger] g[i] matches Some(v) ==> v < known(g))
    }

    /// The links of a search from `start` on `grid`: every link joins
    /// neighboring cells and leaves a free cell, and the only cell with a
    /// known cost and no link is `start`.
    pub open spec fn links_ok(&self, grid: Seq<Cell>, width: int, height: int, start: Pos) -> bool {
        &&& forall|p: Pos|
            inside(p, width, height) ==> (#[trigger] self.came_from@[idx(p, width)] matches Some(c) ==> adjacent(c, p)
                && grid[idx(p, width)] != Cell::Wall)
        &&& forall|p: Pos|
            inside(p, width, height) && #[trigger] self.g_score@[idx(p, width)] is Some && self.came_from@[idx(
                p,
                width,
            )] is None ==> p == start
    }

    /// A search from `start` towards `goal`: only `start` is open, with
    /// cost 0.
    pub fn new(start: Pos, goal: Pos, width: usize, height: usize) -> (s: AStarState)
        requires
            inside(start, width as int, height as int),
            inside(goal, width as int, height as int),
            width * height <= usize::MAX,
        ensures
            s.wf(width as int, height as int),
            s.open_set@ == seq![Node { pos: start, f_score: manhattan(start, goal) as usize, g_score: 0 }],
            forall|i: int|
                0 <= i < width * height ==> {
                    &&& #[trigger] s.open_positions@[i] == (i == idx(start, width as int))
                    &&& !s.closed_set@[i]
                    &&& s.came_from@[i] is None
                    &&& s.g_score@[i] == if i == idx(start, width as int) {
                        Some(0usize)
                    } else {
                        None
                    }
                },
            s.path@.len() == 0,
            !s.finished,
            !s.found,
            forall|grid: Seq<Cell>| #[trigger] s.links_ok(grid, width as int, height as int, start),
    {
        proof {
            lemma_index_inside(start, width as int, height as int);
            lemma_index_inside(goal, width as int, height as int);
            assert(start.x < width && start.y < height && goal.x < width && goal.y < height);
            assert(width + height <= width * height + 1) by (nonlinear_arith)
                requires
                    start.x < width,
                    start.y < height,
            ;
        }
        let cells = width * height;
        let s_index = start.y * width + start.x;
        let mut open_positions: Vec<bool> = Vec::new();
        let mut closed_set: Vec<bool> = Vec::new();
        let mut came_from: Vec<Option<Pos>> = Vec::new();
        let mut g_score: Vec<Option<usize>> = Vec::new();
        let mut i: usize = 0;
        while i < cells
            invariant
                i <= cells,
                s_index < cells,
                open_positions@.len() == i,
                closed_set@.len() == i,
                came_from@.len() == i,
                g_score@.len() == i,
                forall|k: int| 0 <= k < i ==> #[trigger] open_positions@[k] == (k == s_index),
                forall|k: int| 0 <= k < i ==> !#[trigger] closed_set@[k],
                forall|k: int| 0 <= k < i ==> #[trigger] came_from@[k] is None,
                forall|k: int|
                    0 <= k < i ==> #[trigger] g_score@[k] == if k == s_index {
                        Some(0usize)
                    } else {
                        None
                    },
            decreases cells - i,
        {
            open_positions.push(i == s_index);
            closed_set.push(false);
            came_from.push(None);
            g_score.push(if i == s_index {
                Some(0)
            } else {
                None
            });
            i += 1;
        }
        let h = heuristic(start, goal);
        let mut open_set: Vec<Node> = Vec::new();
        open_set.push(Node { pos: start, f_score: h, g_score: 0 });
        let s = AStarState {
            open_set,
            open_positions,
            closed_set,
            came_from,
            g_score,
            path: Vec::new(),
            finished: false,
            found: false,
        };
        proof {
            assert forall|k: int| 0 <= k < s.g_score@.len() implies (#[trigger] s.g_score@[k] is Some <==> k
                == s_index) by {}
            lemma_known_one(s.g_score@, s_index as int);
            assert forall|grid: Seq<Cell>| #[trigger] s.links_ok(grid, width as int, height as int, start) by {
                assert forall|p: Pos| inside(p, width as int, height as int) && #[trigger] s.g_score@[idx(
                    p,
                    width as int,
                )] is Some && s.came_from@[idx(p, width as int)] is None implies p == start by {
                    lemma_index_inside(p, width as int, height as int);
                    lemma_index_injective(p, start, width as int, height as int);
                }
                assert forall|p: Pos| inside(p, width as int, height as int) implies (
                #[trigger] s.came_from@[idx(p, width as int)] matches Some(c) ==> adjacent(c, p) && grid[idx(
                    p,
                    width as int,
                )] != Cell::Wall) by {
                    lemma_index_inside(p, width as int, height as int);
                }
            }
        }
        s
    }
}

/// A table with exactly one known cost knows one cost.
proof fn lemma_known_one(g: Seq<Option<usize>>, at: int)
    requires
        0 <= at < g.len(),
        forall|k: int| 0 <= k < g.len() ==> (#[trigger] g[k] is Some <==> k == at),
    ensures
        known(g) == 1,
    decreases g.len(),
{
    if g.len() - 1 > at {
        lemma_known_one(g.drop_last(), at);
    } else {
        lemma_known_none(g.drop_last());
    }
}

proof fn lemma_known_none(g: Seq<Option<usize>>)
    requires
        forall|k: int| 0 <= k < g.len() ==> #[trigger] g[k] is None,
    ensures
        known(g) == 0,
    decreases g.len(),
{
    if g.len() > 0 {
        lemma_known_none(g.drop_last());
    }
}


/// Cell `p`, next to the expanded cell, gets a better route of cost `t`:
/// it is free, not expanded, and its cost is unknown or higher.
pub open spec fn improves(grid: Seq<Cell>, closed: Seq<bool>, g: Seq<Option<usize>>, p: Pos, width: int, t: int) -> bool {
    let i = idx(p, width);
    &&& grid[i] != Cell::Wall
    &&& !closed[i]
    &&& (g[i] matches Some(v) ==> t < v)
}

/// `s` with the entry of each chosen cell of `cells` set to `v`.
pub open spec fn set_at<T>(s: Seq<T>, cells: Seq<Pos>, chosen: spec_fn(Pos) -> bool, width: int, v: T) -> Seq<T>
    decreases cells.len(),
{
    if cells.len() == 0 {
        s
    } else {
        let r = set_at(s, cells.drop_last(), chosen, width, v);
        if chosen(cells.last()) {
            r.update(idx(cells.last(), width), v)
        } else {
            r
        }
    }
}

/// The open entry for cell `p` with cost `t`: its estimate is `t` plus the
/// distance to `goal`.
pub open spec fn entry_for(p: Pos, t: int, goal: Pos) -> Node {
    Node { pos: p, f_score: (t + manhattan(p, goal)) as usize, g_score: t as usize }
}

/// The open entries for the chosen cells of `cells`, in order, with cost
/// `t` and estimate `t` plus the distance to `goal`.
pub open spec fn pushed(cells: Seq<Pos>, chosen: spec_fn(Pos) -> bool, t: int, goal: Pos) -> Seq<Node>
    decreases cells.len(),
{
    if cells.len() == 0 {
        Seq::empty()
    } else {
        let r = pushed(cells.drop_last(), chosen, t, goal);
        if chosen(cells.last()) {
            r.push(entry_for(cells.last(), t, goal))
        } else {
            r
        }
    }
}

/// One step of the search from state `s` to state `s2` on `grid`, towards
/// `goal`.  A finished search stays as it is; with nothing open it ends
/// without a path.  Otherwise the first entry that no entry goes before is
/// taken from the open list.  When it is the goal, the search ends with the
/// path that leads to it.  Otherwise the cell is expanded: each free,
/// unexpanded neighbor, in the order left, right, up, down, whose cost is
/// unknown or higher than the cell's cost plus one, gets that cost, a link
/// back to the cell, and an open entry.
/// `b` is the search `a` after `k` steps on `grid` towards `goal`.
pub open spec fn steps_taken(a: AStarState, b: AStarState, grid: Seq<Cell>, width: int, height: int, goal: Pos, k: int) -> bool {
    exists|trace: Seq<AStarState>| #[trigger] trace_of_steps(trace, grid, width, height, goal) && trace.len() == k + 1 && trace[0] == a
        && trace[k] == b
}

/// Each state of `trace` is one search step after the one before it.
pub open spec fn trace_of_steps(trace: Seq<AStarState>, grid: Seq<Cell>, width: int, height: int, goal: Pos) -> bool {
    forall|i: int| 0 <= i < trace.len() - 1 ==> search_step(#[trigger] trace[i], trace[i + 1], grid, width, height, goal)
}

proof fn lemma_steps_push(a: AStarState, m: AStarState, b: AStarState, grid: Seq<Cell>, width: int, height: int, goal: Pos, k: int)
    requires
        k >= 0,
        steps_taken(a, m, grid, width, height, goal, k),
        search_step(m, b, grid, width, height, goal),
    ensures
        steps_taken(a, b, grid, width, height, goal, k + 1),
{
    let trace = choose|trace: Seq<AStarState>| #[trigger] trace_of_steps(trace, grid, width, height, goal) && trace.len() == k + 1
        && trace[0] == a && trace[k] == m;
    let longer = trace.push(b);
    assert forall|i: int| 0 <= i < longer.len() - 1 implies search_step(#[trigger] longer[i], longer[i + 1], grid, width, height, goal) by {
        if i < k {
            assert(longer[i] == trace[i] && longer[i + 1] == trace[i + 1]);
        }
    }
    assert(trace_of_steps(longer, grid, width, height, goal));
}

pub open spec fn search_step(s: AStarState, s2: AStarState, grid: Seq<Cell>, width: int, height: int, goal: Pos) -> bool {
    if s.finished {
        s2 == s
    } else if s.open_set@.len() == 0 {
        s2 == AStarState { finished: true, found: false, ..s }
    } else {
        let k = first_min(s.open_set@);
        let cur = s.open_set@[k].pos;
        let ci = idx(cur, width);
        let open = s.open_set@.remove(k);
        let marks = s.open_positions@.update(ci, false);
        if cur == goal {
            &&& s2 == AStarState {
                open_set: s2.open_set,
                open_positions: s2.open_positions,
                path: s2.path,
                finished: true,
                found: true,
                ..s
            }
            &&& s2.open_set@ == open
            &&& s2.open_positions@ == marks
            &&& traces_back(s2.path@, s.came_from@, width)
            &&& s2.path@.last() == cur
        } else {
            let t = s.g_score@[ci]->0 + 1;
            let closed = s.closed_set@.update(ci, true);
            let nbs = neighbor_cells(cur, width, height);
            let better = |p: Pos| improves(grid, closed, s.g_score@, p, width, t);
            &&& s2 == AStarState {
                open_set: s2.open_set,
                open_positions: s2.open_positions,
                closed_set: s2.closed_set,
                came_from: s2.came_from,
                g_score: s2.g_score,
                ..s
            }
            &&& s2.closed_set@ == closed
            &&& s2.open_set@ == open + pushed(nbs, better, t, goal)
            &&& s2.open_positions@ == set_at(marks, nbs, better, width, true)
            &&& s2.came_from@ == set_at(s.came_from@, nbs, better, width, Some(cur))
            &&& s2.g_score@ == set_at(s.g_score@, nbs, better, width, Some(t as usize))
        }
    }
}

/// The side a neighbor lies on: 0 left, 1 right, 2 up, 3 down.
spec fn side_of(p: Pos, width: int, height: int, j: int) -> int {
    let la: int = if p.x > 0 { 1 } else { 0 };
    let lb: int = if p.x + 1 < width { 1 } else { 0 };
    let lc: int = if p.y > 0 { 1 } else { 0 };
    if j < la {
        0
    } else if j < la + lb {
        1
    } else if j < la + lb + lc {
        2
    } else {
        3
    }
}

/// `p` has a neighbor on side `side` of a `width` by `height` grid.
spec fn side_ok(p: Pos, width: int, height: int, side: int) -> bool {
    if side == 0 {
        p.x > 0
    } else if side == 1 {
        p.x + 1 < width
    } else if side == 2 {
        p.y > 0
    } else {
        side == 3 && p.y + 1 < height
    }
}

/// The cell next to `p` on side `side`.
spec fn beside(p: Pos, side: int) -> Pos {
    if side == 0 {
        Pos { x: (p.x - 1) as usize, y: p.y }
    } else if side == 1 {
        Pos { x: (p.x + 1) as usize, y: p.y }
    } else if side == 2 {
        Pos { x: p.x, y: (p.y - 1) as usize }
    } else {
        Pos { x: p.x, y: (p.y + 1) as usize }
    }
}

proof fn lemma_beside(p: Pos, width: int, height: int, a: int, b: int)
    requires
        width <= usize::MAX,
        height <= usize::MAX,
        side_ok(p, width, height, a),
        side_ok(p, width, height, b),
    ensures
        beside(p, a) != p,
        a != b ==> beside(p, a) != beside(p, b),
        adjacent(beside(p, a), p),
{
    if a == 0 {
        assert(beside(p, a).x == p.x - 1);
    } else if a == 1 {
        assert(beside(p, a).x == p.x + 1);
    } else if a == 2 {
        assert(beside(p, a).y == p.y - 1);
    } else {
        assert(beside(p, a).y == p.y + 1);
    }
    if b == 0 {
        assert(beside(p, b).x == p.x - 1);
    } else if b == 1 {
        assert(beside(p, b).x == p.x + 1);
    } else if b == 2 {
        assert(beside(p, b).y == p.y - 1);
    } else {
        assert(beside(p, b).y == p.y + 1);
    }
}

proof fn lemma_neighbor_sides(p: Pos, width: int, height: int)
    requires
        inside(p, width, height),
    ensures
        forall|j: int|
            0 <= j < neighbor_cells(p, width, height).len() ==> #[trigger] neighbor_cells(p, width, height)[j]
                == beside(p, side_of(p, width, height, j)) && side_ok(p, width, height, side_of(p, width, height, j))
                && inside(neighbor_cells(p, width, height)[j], width, height),
        forall|a: int, b: int|
            0 <= a < b < neighbor_cells(p, width, height).len() ==> side_of(p, width, height, a) < side_of(
                p,
                width,
                height,
                b,
            ),
{
    let la = if p.x > 0 {
        seq![Pos { x: (p.x - 1) as usize, y: p.y }]
    } else {
        Seq::empty()
    };
    let lb = if p.x + 1 < width {
        seq![Pos { x: (p.x + 1) as usize, y: p.y }]
    } else {
        Seq::empty()
    };
    let lc = if p.y > 0 {
        seq![Pos { x: p.x, y: (p.y - 1) as usize }]
    } else {
        Seq::empty()
    };
    let ld = if p.y + 1 < height {
        seq![Pos { x: p.x, y: (p.y + 1) as usize }]
    } else {
        Seq::empty()
    };
    let nbs = neighbor_cells(p, width, height);
    assert(nbs == la + lb + lc + ld);
    assert forall|j: int| 0 <= j < nbs.len() implies #[trigger] nbs[j] == beside(p, side_of(p, width, height, j))
        && side_ok(p, width, height, side_of(p, width, height, j)) && inside(nbs[j], width, height) by {
        if j < la.len() {
            assert(nbs[j] == la[j]);
        } else if j < la.len() + lb.len() {
            assert(nbs[j] == (la + lb)[j]);
            assert(nbs[j] == lb[j - la.len()]);
        } else if j < la.len() + lb.len() + lc.len() {
            assert(nbs[j] == (la + lb + lc)[j]);
            assert(nbs[j] == lc[j - la.len() - lb.len()]);
        } else {
            assert(nbs[j] == ld[j - la.len() - lb.len() - lc.len()]);
        }
    }
}

/// The neighbors of a cell are cells of the grid, with indices different
/// from each other and from the cell's.
proof fn lemma_neighbor_cells(p: Pos, width: int, height: int)
    requires
        inside(p, width, height),
        width <= usize::MAX,
        height <= usize::MAX,
    ensures
        forall|j: int|
            0 <= j < neighbor_cells(p, width, height).len() ==> inside(
                #[trigger] neighbor_cells(p, width, height)[j],
                width,
                height,
            ) && idx(neighbor_cells(p, width, height)[j], width) != idx(p, width) && adjacent(
                neighbor_cells(p, width, height)[j],
                p,
            ),
        forall|a: int, b: int|
            0 <= a < b < neighbor_cells(p, width, height).len() ==> idx(
                #[trigger] neighbor_cells(p, width, height)[a],
                width,
            ) != idx(#[trigger] neighbor_cells(p, width, height)[b], width),
{
    let nbs = neighbor_cells(p, width, height);
    lemma_neighbor_sides(p, width, height);
    assert forall|j: int| 0 <= j < nbs.len() implies inside(#[trigger] nbs[j], width, height) && idx(nbs[j], width)
        != idx(p, width) && adjacent(nbs[j], p) by {
        let sd = side_of(p, width, height, j);
        assert(nbs[j] == beside(p, sd));
        assert(side_ok(p, width, height, sd));
        assert(inside(nbs[j], width, height));
        lemma_beside(p, width, height, sd, sd);
        if idx(nbs[j], width) == idx(p, width) {
            lemma_index_injective(nbs[j], p, width, height);
            lemma_beside(p, width, height, sd, sd);
        }
    }
    assert forall|a: int, b: int| 0 <= a < b < nbs.len() implies idx(#[trigger] nbs[a], width) != idx(
        #[trigger] nbs[b],
        width,
    ) by {
        assert(side_of(p, width, height, a) < side_of(p, width, height, b));
        assert(nbs[a] == beside(p, side_of(p, width, height, a)));
        assert(nbs[b] == beside(p, side_of(p, width, height, b)));
        if idx(nbs[a], width) == idx(nbs[b], width) {
            lemma_index_injective(nbs[a], nbs[b], width, height);
            lemma_beside(p, width, height, side_of(p, width, height, a), side_of(p, width, height, b));
        }
    }
}


/// Costs along links rank the cells.
proof fn lemma_ranked(s: AStarState, width: int, height: int)
    requires
        s.wf(width, height),
    ensures
        ranked_by(s.came_from@, width, |i: int| cost_or_zero(s.g_score@, i)),
{
    let rank = |i: int| cost_or_zero(s.g_score@, i);
    assert forall|i: int| 0 <= i < s.came_from@.len() implies (#[trigger] s.came_from@[i] matches Some(c) ==> rank(
        idx(c, width),
    ) < rank(i)) by {
        if let Some(c) = s.came_from@[i] {
            assert(s.g_score@[idx(c, width)] is Some);
        }
    }
}

/// Two cells of the grid are at most `width + height - 2` apart.
proof fn lemma_manhattan_bound(a: Pos, b: Pos, width: int, height: int)
    requires
        inside(a, width, height),
        inside(b, width, height),
    ensures
        0 <= manhattan(a, b) <= width + height - 2,
{
}

impl AStarState {
    /// One step of the search on `grid` towards `goal`, as `search_step`
    /// describes it.
    fn advance(&mut self, grid: &Vec<Cell>, width: usize, height: usize, goal: Pos, Ghost(start): Ghost<Pos>)
        requires
            old(self).wf(width as int, height as int),
            old(self).links_ok(grid@, width as int, height as int, start),
            old(self).found ==> old(self).finished && grid_walk(old(self).path@, grid@, width as int, height as int, start, goal),
            grid@.len() == width * height,
            width * height + width + height <= usize::MAX,
            inside(goal, width as int, height as int),
            inside(start, width as int, height as int),
            grid@[idx(start, width as int)] != Cell::Wall,
        ensures
            final(self).wf(width as int, height as int),
            final(self).links_ok(grid@, width as int, height as int, start),
            final(self).found ==> final(self).finished && grid_walk(final(self).path@, grid@, width as int, height as int, start, goal),
            search_step(*old(self), *final(self), grid@, width as int, height as int, goal),
    {
        let ghost w = width as int;
        let ghost h = height as int;
        if self.finished {
            return;
        }
        if self.open_set.len() == 0 {
            self.finished = true;
            self.found = false;
            return;
        }
        let k = pick_first_min(&self.open_set);
        proof {
            lemma_first_min(self.open_set@);
        }
        let ghost s0 = *self;
        let current_node = self.open_set.remove(k);
        let current = current_node.pos;
        proof {
            assert(s0.open_set@[k as int].pos == current);
            lemma_index_inside(current, w, h);
            assert forall|q: int| 0 <= q < self.open_set@.len() implies inside(#[trigger] self.open_set@[q].pos, w, h)
                && self.g_score@[idx(self.open_set@[q].pos, w)] is Some by {
                if q < k {
                    assert(self.open_set@[q] == s0.open_set@[q]);
                } else {
                    assert(self.open_set@[q] == s0.open_set@[q + 1]);
                }
            }
        }
        let ci = current.y * width + current.x;
        self.open_positions.set(ci, false);
        if current == goal {
            proof {
                lemma_ranked(*self, w, h);
            }
            self.path = reconstruct_path(&self.came_from, width, height, current);
            self.finished = true;
            self.found = true;
            proof {
                lemma_traced_path(*self, grid@, w, h, start, goal);
            }
            return;
        }
        self.closed_set.set(ci, true);
        let nbs = neighbors(current, width, height);
        proof {
            lemma_neighbor_cells(current, w, h);
            assert(s0.g_score@[ci as int] is Some);
            lemma_known_bound(self.g_score@);
            assert(self.g_score@[ci as int] matches Some(v) ==> v < known(self.g_score@));
        }
        let t = self.g_score[ci].unwrap() + 1;
        let ghost g1 = self.g_score@;
        let ghost c1 = self.came_from@;
        let ghost m1 = self.open_positions@;
        let ghost o1 = self.open_set@;
        let ghost closed = self.closed_set@;
        let ghost better = |p: Pos| improves(grid@, closed, g1, p, w, t as int);
        proof {
            lemma_known_bound(g1);
            assert(t <= known(g1));
            assert(nbs@.take(0) =~= Seq::<Pos>::empty());
        }
        let mut j: usize = 0;
        while j < nbs.len()
            invariant
                w == width,
                h == height,
                grid@.len() == w * h,
                w * h + w + h <= usize::MAX,
                inside(goal, w, h),
                inside(current, w, h),
                ci == idx(current, w),
                0 <= ci < w * h,
                nbs@ == neighbor_cells(current, w, h),
                forall|q: int|
                    0 <= q < nbs@.len() ==> inside(#[trigger] nbs@[q], w, h) && idx(nbs@[q], w) != idx(current, w),
                forall|a: int, b: int|
                    0 <= a < b < nbs@.len() ==> idx(#[trigger] nbs@[a], w) != idx(#[trigger] nbs@[b], w),
                j <= nbs@.len(),
                closed == s0.closed_set@.update(ci as int, true),
                better == (|p: Pos| improves(grid@, closed, g1, p, w, t as int)),
                *self == (AStarState {
                    open_set: self.open_set,
                    open_positions: self.open_positions,
                    came_from: self.came_from,
                    g_score: self.g_score,
                    closed_set: self.closed_set,
                    ..s0
                }),
                self.closed_set@ == closed,
                self.open_set@ == o1 + pushed(nbs@.take(j as int), better, t as int, goal),
                self.open_positions@ == set_at(m1, nbs@.take(j as int), better, w, true),
                self.came_from@ == set_at(c1, nbs@.take(j as int), better, w, Some(current)),
                self.g_score@ == set_at(g1, nbs@.take(j as int), better, w, Some(t)),
                forall|q: int| j <= q < nbs@.len() ==> self.g_score@[idx(#[trigger] nbs@[q], w)] == g1[idx(nbs@[q], w)],
                self.g_score@[ci as int] == Some((t - 1) as usize),
                1 <= t <= known(self.g_score@),
                self.open_positions@.len() == w * h,
                self.closed_set@.len() == w * h,
                self.came_from@.len() == w * h,
                self.g_score@.len() == w * h,
                links_inside(self.came_from@, w, h),
                self.links_ok(grid@, w, h, start),
                inside(start, w, h),
                forall|i: int|
                    0 <= i < w * h ==> (#[trigger] self.came_from@[i] matches Some(c) ==> {
                        &&& self.g_score@[i] is Some
                        &&& self.g_score@[idx(c, w)] is Some
                        &&& self.g_score@[idx(c, w)]->0 < self.g_score@[i]->0
                    }),
                forall|q: int|
                    0 <= q < self.open_set@.len() ==> inside(#[trigger] self.open_set@[q].pos, w, h)
                        && self.g_score@[idx(self.open_set@[q].pos, w)] is Some,
                forall|i: int| 0 <= i < w * h ==> (#[trigger] self.g_score@[i] matches Some(v) ==> v < known(self.g_score@)),
            decreases nbs@.len() - j,
        {
            let nb = nbs[j];
            proof {
                lemma_index_inside(nb, w, h);
                assert(nbs@.take(j + 1).drop_last() =~= nbs@.take(j as int));
                assert(nbs@.take(j + 1).last() == nb);
            }
            let ni = nb.y * width + nb.x;
            let ghost before = *self;
            if grid[ni] != Cell::Wall && !self.closed_set[ni] {
                let known_g = match self.g_score[ni] {
                    Some(v) => v,
                    None => usize::MAX,
                };
                proof {
                    lemma_known_bound(self.g_score@);
                    assert(t < usize::MAX) by (nonlinear_arith)
                        requires
                            t <= known(before.g_score@),
                            known(before.g_score@) <= w * h,
                            w * h + w + h <= usize::MAX,
                            current.x < w,
                    ;
                }
                if t < known_g {
                    proof {
                        lemma_known_update(self.g_score@, ni as int, t);
                        lemma_manhattan_bound(nb, goal, w, h);
                    }
                    self.came_from.set(ni, Some(current));
                    self.g_score.set(ni, Some(t));
                    proof {
                        assert(t <= w * h);
                    }
                    let f = t + heuristic(nb, goal);
                    self.open_set.push(Node { pos: nb, f_score: f, g_score: t });
                    self.open_positions.set(ni, true);
                    proof {
                        assert(better(nb));
                        assert forall|i: int| 0 <= i < w * h implies (#[trigger] self.came_from@[i] matches Some(c) ==> {
                            &&& self.g_score@[i] is Some
                            &&& self.g_score@[idx(c, w)] is Some
                            &&& self.g_score@[idx(c, w)]->0 < self.g_score@[i]->0
                        }) by {
                            if i != ni {
                                assert(self.came_from@[i] == before.came_from@[i]);
                                assert(self.g_score@[i] == before.g_score@[i]);
                                if let Some(c) = self.came_from@[i] {
                                    assert(before.came_from@[i] == Some(c));
                                    assert(before.g_score@[idx(c, w)] is Some);
                                    assert(before.g_score@[i] is Some);
                                    assert(before.g_score@[idx(c, w)]->0 < before.g_score@[i]->0);
                                    if idx(c, w) == ni {
                                        assert(t < before.g_score@[ni as int]->0);
                                        assert(self.g_score@[ni as int] == Some(t));
                                    }
                                    if idx(c, w) != ni {
                                        assert(inside(c, w, h));
                                        lemma_index_inside(c, w, h);
                                        assert(self.g_score@[idx(c, w)] == before.g_score@[idx(c, w)]);
                                    }
                                }
                            } else {
                                assert(ni != ci);
                                assert(self.g_score@[ci as int] == before.g_score@[ci as int]);
                                assert(self.g_score@[ci as int] == Some((t - 1) as usize));
                            }
                        }
                        assert forall|q: int| 0 <= q < self.open_set@.len() implies inside(
                            #[trigger] self.open_set@[q].pos,
                            w,
                            h,
                        ) && self.g_score@[idx(self.open_set@[q].pos, w)] is Some by {
                            if q < before.open_set@.len() {
                                assert(self.open_set@[q] == before.open_set@[q]);
                                let qi = idx(self.open_set@[q].pos, w);
                                if qi != ni {
                                    lemma_index_inside(self.open_set@[q].pos, w, h);
                                    assert(self.g_score@[qi] == before.g_score@[qi]);
                                }
                            }
                        }
                        assert forall|p: Pos| inside(p, w, h) implies (#[trigger] self.came_from@[idx(p, w)] matches Some(
                            c,
                        ) ==> adjacent(c, p) && grid@[idx(p, w)] != Cell::Wall) by {
                            lemma_index_inside(p, w, h);
                            if idx(p, w) == ni {
                                lemma_index_injective(p, nb, w, h);
                            } else {
                                assert(self.came_from@[idx(p, w)] == before.came_from@[idx(p, w)]);
                            }
                        }
                        assert forall|p: Pos| inside(p, w, h) && #[trigger] self.g_score@[idx(p, w)] is Some
                            && self.came_from@[idx(p, w)] is None implies p == start by {
                            lemma_index_inside(p, w, h);
                            if idx(p, w) != ni {
                                assert(self.came_from@[idx(p, w)] == before.came_from@[idx(p, w)]);
                                assert(self.g_score@[idx(p, w)] == before.g_score@[idx(p, w)]);
                            }
                        }
                        assert forall|i: int| 0 <= i < w * h implies (#[trigger] self.g_score@[i] matches Some(v) ==> v
                            < known(self.g_score@)) by {
                            if i != ni {
                                assert(self.g_score@[i] == before.g_score@[i]);
                            }
                        }
                    }
                } else {
                    proof {
                        assert(!better(nb));
                    }
                }
            } else {
                proof {
                    assert(!better(nb));
                }
            }
            proof {
                assert forall|q: int| j + 1 <= q < nbs@.len() implies self.g_score@[idx(#[trigger] nbs@[q], w)]
                    == g1[idx(nbs@[q], w)] by {
                    assert(idx(nbs@[q], w) != idx(nbs@[j as int], w));
                    lemma_index_inside(nbs@[q], w, h);
                    assert(self.g_score@[idx(nbs@[q], w)] == before.g_score@[idx(nbs@[q], w)]);
                }
                if ni != ci {
                    assert(self.g_score@[ci as int] == before.g_score@[ci as int]);
                }
            }
            j += 1;
        }
        proof {
            assert(nbs@.take(nbs@.len() as int) =~= nbs@);
        }
    }
}

/// The cell at column `x` and row `y`.
pub open spec fn at(x: int, y: int) -> Pos {
    Pos { x: x as usize, y: y as usize }
}

/// Where the generated maze puts walls.
pub open spec fn maze_wall(x: int, y: int) -> bool {
    (x % 7 == 0 && y % 3 != 0) || (y % 6 == 0 && x % 5 != 0)
}

/// An editable board with a search on it.
#[derive(Debug)]
pub struct Board {
    pub width: usize,
    pub height: usize,
    /// The cells, row by row.
    pub grid: Vec<Cell>,
    pub start: Pos,
    pub goal: Pos,
    pub edit_mode: EditMode,
    /// The search, from its start until the board changes.
    pub astar: Option<AStarState>,
    /// Whether the search advances by itself.
    pub running: bool,
}

impl Board {
    /// The board's invariant: one cell per grid position, room for costs
    /// and estimates, start and goal on the grid and free, and a search in
    /// a consistent state that finds shortest walks.
    pub open spec fn wf(&self) -> bool {
        let w = self.width as int;
        let h = self.height as int;
        &&& self.grid@.len() == w * h
        &&& w * h + w + h <= usize::MAX
        &&& inside(self.start, w, h)
        &&& inside(self.goal, w, h)
        &&& self.grid@[idx(self.start, w)] == Cell::Empty
        &&& self.grid@[idx(self.goal, w)] == Cell::Empty
        &&& self.astar matches Some(s) ==> {
            &&& s.wf(w, h)
            &&& s.links_ok(self.grid@, w, h, self.start)
            &&& s.found ==> s.finished && grid_walk(s.path@, self.grid@, w, h, self.start, self.goal)
            &&& s.shortest_ok(self.grid@, w, h, self.start, self.goal)
        }
    }

    /// The row-major index of `pos`.
    pub fn index(&self, pos: Pos) -> (i: usize)
        requires
            self.wf(),
            inside(pos, self.width as int, self.height as int),
        ensures
            i == idx(pos, self.width as int),
            i < self.grid@.len(),
    {
        proof {
            lemma_index_inside(pos, self.width as int, self.height as int);
        }
        pos.y * self.width + pos.x
    }

    /// What the cell at `pos` holds.
    pub fn cell(&self, pos: Pos) -> (c: Cell)
        requires
            self.wf(),
            inside(pos, self.width as int, self.height as int),
        ensures
            c == self.grid@[idx(pos, self.width as int)],
    {
        self.grid[self.index(pos)]
    }

    /// Puts `cell` at `pos`.
    pub fn set_cell(&mut self, pos: Pos, cell: Cell)
        requires
            old(self).grid@.len() == old(self).width * old(self).height,
            inside(pos, old(self).width as int, old(self).height as int),
        ensures
            *final(self) == (Board { grid: final(self).grid, ..*old(self) }),
            final(self).grid@ == old(self).grid@.update(idx(pos, old(self).width as int), cell),
    {
        proof {
            lemma_index_inside(pos, self.width as int, self.height as int);
        }
        let n = self.grid.len();
        assert(pos.y * self.width + pos.x < n);
        let index = pos.y * self.width + pos.x;
        self.grid.set(index, cell);
    }

    /// Whether `pos` lies on the board.
    pub fn in_bounds(&self, pos: Pos) -> (b: bool)
        ensures
            b == inside(pos, self.width as int, self.height as int),
    {
        pos.x < self.width && pos.y < self.height
    }

    /// Drops the search and stops.
    pub fn reset_search(&mut self)
        ensures
            *final(self) == (Board { astar: None, running: false, ..*old(self) }),
    {
        self.astar = None;
        self.running = false;
    }

    /// Starts a new search from the start towards the goal, and runs it.
    pub fn start_search(&mut self)
        requires
            old(self).wf(),
        ensures
            final(self).wf(),
            *final(self) == (Board { astar: final(self).astar, running: true, ..*old(self) }),
            final(self).astar matches Some(s) && s.open_set@ == seq![
                Node {
                    pos: old(self).start,
                    f_score: manhattan(old(self).start, old(self).goal) as usize,
                    g_score: 0,
                },
            ] && s.path@.len() == 0 && !s.finished && !s.found && forall|i: int|
                0 <= i < old(self).grid@.len() ==> {
                    &&& #[trigger] s.open_positions@[i] == (i == idx(old(self).start, old(self).width as int))
                    &&& !s.closed_set@[i]
                    &&& s.came_from@[i] is None
                    &&& s.g_score@[i] == if i == idx(old(self).start, old(self).width as int) {
                        Some(0usize)
                    } else {
                        None
                    }
                },
    {
        let s = AStarState::new(self.start, self.goal, self.width, self.height);
        proof {
            let w = self.width as int;
            let h = self.height as int;
            assert forall|i: int| 0 <= i < w * h implies {
                &&& !(#[trigger] s.closed_set@[i])
                &&& s.g_score@[i] == if i == idx(self.start, w) {
                    Some(0usize)
                } else {
                    None
                }
            } by {
                assert(s.open_positions@[i] == (i == idx(self.start, w)));
            }
            lemma_new_shortest(s, self.grid@, self.width as int, self.height as int, self.start, self.goal);
        }
        self.astar = Some(s);
        self.running = true;
    }

    /// Advances the search by one step, as `search_step` describes it.
    pub fn step_astar(&mut self)
        requires
            old(self).wf(),
        ensures
            final(self).wf(),
            *final(self) == (Board { astar: final(self).astar, ..*old(self) }),
            old(self).astar is None ==> final(self).astar is None,
            old(self).astar matches Some(s) ==> final(self).astar matches Some(s2) && search_step(
                s,
                s2,
                old(self).grid@,
                old(self).width as int,
                old(self).height as int,
                old(self).goal,
            ),
    {
        let mut state = match self.astar.take() {
            Some(s) => s,
            None => return ,
        };
        let ghost before = state;
        state.advance(&self.grid, self.width, self.height, self.goal, Ghost(self.start));
        proof {
            lemma_search_step_shortest(
                before,
                state,
                self.grid@,
                self.width as int,
                self.height as int,
                self.start,
                self.goal,
            );
        }
        self.astar = Some(state);
    }

    /// Takes `k` search steps, and stops running once the search has
    /// finished.
    pub fn run_steps(&mut self, k: usize)
        requires
            old(self).wf(),
        ensures
            final(self).wf(),
            *final(self) == (Board { astar: final(self).astar, running: final(self).running, ..*old(self) }),
            old(self).astar is None ==> final(self).astar is None && final(self).running == old(self).running,
            old(self).astar matches Some(s) ==> final(self).astar matches Some(s2) && steps_taken(
                s,
                s2,
                old(self).grid@,
                old(self).width as int,
                old(self).height as int,
                old(self).goal,
                k as int,
            ) && final(self).running == (old(self).running && !s2.finished),
    {
        let mut i: usize = 0;
        proof {
            if let Some(s) = old(self).astar {
                let start = seq![s];
                assert(trace_of_steps(start, old(self).grid@, old(self).width as int, old(self).height as int, old(self).goal));
                assert(start[0] == s);
            }
        }
        while i < k
            invariant
                self.wf(),
                *self == (Board { astar: self.astar, ..*old(self) }),
                i <= k,
                old(self).astar is None ==> self.astar is None,
                old(self).astar matches Some(s) ==> self.astar matches Some(si) && steps_taken(
                    s,
                    si,
                    old(self).grid@,
                    old(self).width as int,
                    old(self).height as int,
                    old(self).goal,
                    i as int,
                ),
            decreases k - i,
        {
            let ghost before = self.astar;
            self.step_astar();
            proof {
                if let Some(s) = old(self).astar {
                    let si = before->0;
                    let s2 = self.astar->0;
                    assert(search_step(si, s2, old(self).grid@, old(self).width as int, old(self).height as int, old(self).goal));
                    lemma_steps_push(s, si, s2, old(self).grid@, old(self).width as int, old(self).height as int, old(self).goal, i as int);
                    assert(steps_taken(s, s2, old(self).grid@, old(self).width as int, old(self).height as int, old(self).goal, i + 1));
                }
            }
            i += 1;
        }
        let done = match &self.astar {
            Some(s) => s.finished,
            None => false,
        };
        if done {
            self.running = false;
        }
    }

    /// Empties every cell and drops the search.
    pub fn clear_walls(&mut self)
        requires
            old(self).wf(),
        ensures
            final(self).wf(),
            *final(self) == (Board { grid: final(self).grid, astar: None, running: false, ..*old(self) }),
            final(self).grid@.len() == old(self).grid@.len(),
            forall|i: int| 0 <= i < final(self).grid@.len() ==> #[trigger] final(self).grid@[i] == Cell::Empty,
    {
        let n = self.grid.len();
        let mut i: usize = 0;
        while i < n
            invariant
                n == self.grid@.len(),
                i <= n,
                *self == (Board { grid: self.grid, ..*old(self) }),
                forall|k: int| 0 <= k < i ==> #[trigger] self.grid@[k] == Cell::Empty,
            decreases n - i,
        {
            self.grid.set(i, Cell::Empty);
            i += 1;
        }
        self.reset_search();
        proof {
            lemma_index_inside(self.start, self.width as int, self.height as int);
            lemma_index_inside(self.goal, self.width as int, self.height as int);
        }
    }

    /// Replaces the walls by a maze-like pattern (leaving the start and the
    /// goal free) and drops the search.
    pub fn generate_maze_like_walls(&mut self)
        requires
            old(self).wf(),
        ensures
            final(self).wf(),
            *final(self) == (Board { grid: final(self).grid, astar: None, running: false, ..*old(self) }),
            final(self).grid@.len() == old(self).grid@.len(),
            forall|x: int, y: int|
                0 <= x < old(self).width && 0 <= y < old(self).height ==> #[trigger] final(self).grid@[idx(
                    at(x, y),
                    old(self).width as int,
                )] == if maze_wall(x, y) && at(x, y) != old(self).start && at(x, y) != old(self).goal {
                    Cell::Wall
                } else {
                    Cell::Empty
                },
    {
        self.clear_walls();
        let ghost w = self.width as int;
        let ghost h = self.height as int;
        let ghost cleared = *self;
        proof {
            assert forall|xx: int, yy: int| 0 <= xx < w && 0 <= yy < h implies #[trigger] self.grid@[idx(at(xx, yy), w)]
                == Cell::Empty by {
                lemma_index_inside(at(xx, yy), w, h);
            }
        }
        let mut y: usize = 0;
        while y < self.height
            invariant
                w == self.width,
                h == self.height,
                self.grid@.len() == w * h,
                w * h + w + h <= usize::MAX,
                y <= h,
                *self == (Board { grid: self.grid, ..cleared }),
                forall|xx: int, yy: int|
                    0 <= xx < w && 0 <= yy < h ==> #[trigger] self.grid@[idx(at(xx, yy), w)] == if yy < y
                        && maze_wall(xx, yy) && at(xx, yy) != cleared.start && at(xx, yy) != cleared.goal {
                        Cell::Wall
                    } else {
                        Cell::Empty
                    },
            decreases h - y,
        {
            let mut x: usize = 0;
            while x < self.width
                invariant
                    w == self.width,
                    h == self.height,
                    self.grid@.len() == w * h,
                    w * h + w + h <= usize::MAX,
                    y < h,
                    x <= w,
                    *self == (Board { grid: self.grid, ..cleared }),
                    forall|xx: int, yy: int|
                        0 <= xx < w && 0 <= yy < h ==> #[trigger] self.grid@[idx(at(xx, yy), w)] == if (yy < y || (yy
                            == y && xx < x)) && maze_wall(xx, yy) && at(xx, yy) != cleared.start && at(xx, yy)
                            != cleared.goal {
                            Cell::Wall
                        } else {
                            Cell::Empty
                        },
                decreases w - x,
            {
                let pos = Pos { x, y };
                if pos != self.start && pos != self.goal {
                    let wall = (x % 7 == 0 && y % 3 != 0) || (y % 6 == 0 && x % 5 != 0);
                    if wall {
                        let ghost before = self.grid@;
                        self.set_cell(pos, Cell::Wall);
                        proof {
                            lemma_index_inside(pos, w, h);
                            assert forall|xx: int, yy: int| 0 <= xx < w && 0 <= yy < h implies #[trigger] self.grid@[idx(
                                at(xx, yy),
                                w,
                            )] == if (yy < y || (yy == y && xx < x + 1)) && maze_wall(xx, yy) && at(xx, yy)
                                != cleared.start && at(xx, yy) != cleared.goal {
                                Cell::Wall
                            } else {
                                Cell::Empty
                            } by {
                                let p = at(xx, yy);
                                lemma_index_inside(p, w, h);
                                if idx(p, w) == idx(pos, w) {
                                    lemma_index_injective(p, pos, w, h);
                                } else {
                                    assert(self.grid@[idx(p, w)] == before[idx(p, w)]);
                                }
                            }
                        }
                    }
                }
                x += 1;
            }
            y += 1;
        }
        self.reset_search();
        proof {
            lemma_index_inside(self.start, w, h);
            lemma_index_inside(self.goal, w, h);
            assert(at(self.start.x as int, self.start.y as int) == self.start);
            assert(at(self.goal.x as int, self.goal.y as int) == self.goal);
            assert(self.grid@[idx(at(self.start.x as int, self.start.y as int), w)] == Cell::Empty);
            assert(self.grid@[idx(at(self.goal.x as int, self.goal.y as int), w)] == Cell::Empty);
        }
    }
}


impl Board {
    /// A click on the cell at `pos`: in wall mode it toggles the wall there
    /// (never on the start or the goal); in start or goal mode it moves the
    /// start or the goal there, unless that is a wall or the other end.  A
    /// change drops the search.
    pub fn handle_cell_click(&mut self, pos: Pos)
        requires
            old(self).wf(),
            inside(pos, old(self).width as int, old(self).height as int),
        ensures
            final(self).wf(),
            ({
                let a = *old(self);
                let b = *final(self);
                let i = idx(pos, a.width as int);
                match a.edit_mode {
                    EditMode::Wall => if pos != a.start && pos != a.goal {
                        &&& b == (Board { grid: b.grid, astar: None, running: false, ..a })
                        &&& b.grid@ == a.grid@.update(
                            i,
                            if a.grid@[i] == Cell::Empty {
                                Cell::Wall
                            } else {
                                Cell::Empty
                            },
                        )
                    } else {
                        b == a
                    },
                    EditMode::Start => if pos != a.goal && a.grid@[i] != Cell::Wall {
                        b == (Board { start: pos, astar: None, running: false, ..a })
                    } else {
                        b == a
                    },
                    EditMode::Goal => if pos != a.start && a.grid@[i] != Cell::Wall {
                        b == (Board { goal: pos, astar: None, running: false, ..a })
                    } else {
                        b == a
                    },
                }
            }),
    {
        let ghost w = self.width as int;
        let ghost h = self.height as int;
        proof {
            lemma_index_inside(pos, w, h);
            lemma_index_inside(self.start, w, h);
            lemma_index_inside(self.goal, w, h);
        }
        match self.edit_mode {
            EditMode::Wall => {
                if pos != self.start && pos != self.goal {
                    let next = match self.cell(pos) {
                        Cell::Empty => Cell::Wall,
                        Cell::Wall => Cell::Empty,
                    };
                    self.set_cell(pos, next);
                    self.reset_search();
                    proof {
                        if idx(pos, w) == idx(self.start, w) {
                            lemma_index_injective(pos, self.start, w, h);
                        }
                        if idx(pos, w) == idx(self.goal, w) {
                            lemma_index_injective(pos, self.goal, w, h);
                        }
                    }
                }
            },
            EditMode::Start => {
                if pos != self.goal && self.cell(pos) != Cell::Wall {
                    self.start = pos;
                    self.reset_search();
                }
            },
            EditMode::Goal => {
                if pos != self.start && self.cell(pos) != Cell::Wall {
                    self.goal = pos;
                    self.reset_search();
                }
            },
        }
    }
}

impl Default for Board {
    /// A 40 by 28 board without walls, with the start at (3, 3) and the goal
    /// at (35, 22), in wall mode, with no search.
    fn default() -> (b: Board)
        ensures
            b.wf(),
            b.width == 40,
            b.height == 28,
            b.start == (Pos { x: 3, y: 3 }),
            b.goal == (Pos { x: 35, y: 22 }),
            b.edit_mode == EditMode::Wall,
            b.astar is None,
            !b.running,
            forall|i: int| 0 <= i < b.grid@.len() ==> #[trigger] b.grid@[i] == Cell::Empty,
    {
        let width: usize = 40;
        let height: usize = 28;
        let mut grid: Vec<Cell> = Vec::new();
        let mut i: usize = 0;
        while i < width * height
            invariant
                width == 40,
                height == 28,
                i <= width * height,
                grid@.len() == i,
                forall|k: int| 0 <= k < i ==> #[trigger] grid@[k] == Cell::Empty,
            decreases width * height - i,
        {
            grid.push(Cell::Empty);
            i += 1;
        }
        Board {
            width,
            height,
            grid,
            start: Pos { x: 3, y: 3 },
            goal: Pos { x: 35, y: 22 },
            edit_mode: EditMode::Wall,
            astar: None,
            running: false,
        }
    }
}


/// A path traced back from an open cell over the links of a search from
/// `start` leads from `start` to that cell through free neighboring cells.
proof fn lemma_traced_path(s: AStarState, grid: Seq<Cell>, width: int, height: int, start: Pos, goal: Pos)
    requires
        s.wf(width, height),
        s.links_ok(grid, width, height, start),
        traces_back(s.path@, s.came_from@, width),
        s.path@.last() == goal,
        inside(goal, width, height),
        s.g_score@[idx(goal, width)] is Some,
        grid[idx(start, width)] != Cell::Wall,
    ensures
        grid_walk(s.path@, grid, width, height, start, goal),
{
    let path = s.path@;
    let n = path.len();
    lemma_path_inside(path, s.came_from@, width, height, 0);
    assert forall|i: int| 0 <= i < n - 1 implies adjacent(#[trigger] path[i], path[i + 1]) by {
        assert(inside(path[i + 1], width, height));
        assert(s.came_from@[idx(path[i + 1], width)] == Some(path[i]));
    }
    if n > 1 {
        assert(inside(path[1], width, height));
        lemma_index_inside(path[1], width, height);
        assert(s.came_from@[idx(path[1], width)] == Some(path[0]));
        assert(s.g_score@[idx(path[0], width)] is Some);
    }
    assert(inside(path[0], width, height));
    assert(path[0] == start);
    assert forall|i: int| 0 <= i < n implies grid[idx(#[trigger] path[i], width)] != Cell::Wall by {
        if i > 0 {
            assert(inside(path[i], width, height));
            assert(s.came_from@[idx(path[i], width)] == Some(path[i - 1]));
        }
    }
}


/// The cells of a path traced back along links that stay on the grid, from
/// a cell on the grid, are on the grid: those from position `from` on.
proof fn lemma_path_inside(path: Seq<Pos>, came_from: Seq<Option<Pos>>, width: int, height: int, from: int)
    requires
        traces_back(path, came_from, width),
        came_from.len() == width * height,
        links_inside(came_from, width, height),
        inside(path.last(), width, height),
        0 <= from < path.len(),
    ensures
        forall|i: int| from <= i < path.len() ==> inside(#[trigger] path[i], width, height),
    decreases path.len() - from,
{
    if from < path.len() - 1 {
        lemma_path_inside(path, came_from, width, height, from + 1);
        assert(inside(path[from + 1], width, height));
        lemma_index_inside(path[from + 1], width, height);
        assert(came_from[idx(path[from + 1], width)] == Some(path[from]));
    }
}


/// `path` is a walk on the `width` by `height` grid from `start` to `goal`
/// through free cells.
pub open spec fn grid_walk(path: Seq<Pos>, grid: Seq<Cell>, width: int, height: int, start: Pos, goal: Pos) -> bool {
    &&& valid_path(path, grid, width, start, goal)
    &&& forall|i: int| 0 <= i < path.len() ==> inside(#[trigger] path[i], width, height)
}

impl AStarState {
    /// What makes the search find shortest walks on `grid` from `start` to
    /// `goal`: an expanded cell has a cost that no walk to it undercuts;
    /// the goal is never expanded; an open entry's estimate is its cost
    /// plus the distance to the goal, and its cell's cost is at most its
    /// cost; while the search runs, an unexpanded cell with a cost has an
    /// open entry of that cost; a free neighbor of an expanded cell is
    /// expanded or costs at most one more; the start costs 0; a found path
    /// is no longer than any walk from the start to the goal; and a search
    /// that ends without a path leaves no such walk.
    pub open spec fn shortest_ok(&self, grid: Seq<Cell>, width: int, height: int, start: Pos, goal: Pos) -> bool {
        let g = self.g_score@;
        let closed = self.closed_set@;
        let open = self.open_set@;
        &&& forall|p: Pos| inside(p, width, height) && #[trigger] closed[idx(p, width)] ==> g[idx(p, width)] is Some
        &&& forall|p: Pos, path: Seq<Pos>|
            #![trigger grid_walk(path, grid, width, height, start, p)]
            inside(p, width, height) && closed[idx(p, width)] && grid_walk(path, grid, width, height, start, p)
                ==> g[idx(p, width)]->0 <= path.len() - 1
        &&& !closed[idx(goal, width)]
        &&& forall|k: int|
            0 <= k < open.len() ==> {
                &&& (#[trigger] open[k]).f_score == open[k].g_score + manhattan(open[k].pos, goal)
                &&& g[idx(open[k].pos, width)] is Some
                &&& g[idx(open[k].pos, width)]->0 <= open[k].g_score
            }
        &&& !self.finished ==> forall|p: Pos|
            inside(p, width, height) && #[trigger] g[idx(p, width)] is Some && !closed[idx(p, width)] ==> exists|k: int|
                0 <= k < open.len() && open[k].pos == p && open[k].g_score == g[idx(p, width)]->0
        &&& forall|p: Pos, q: Pos|
            inside(p, width, height) && inside(q, width, height) && #[trigger] closed[idx(p, width)] && #[trigger] adjacent(
                p,
                q,
            ) && grid[idx(q, width)] != Cell::Wall ==> closed[idx(q, width)] || (g[idx(q, width)] is Some
                && g[idx(q, width)]->0 <= g[idx(p, width)]->0 + 1)
        &&& g[idx(start, width)] == Some(0usize)
        &&& self.found ==> forall|path: Seq<Pos>|
            #[trigger] grid_walk(path, grid, width, height, start, goal) ==> self.path@.len() <= path.len()
        &&& self.finished && !self.found ==> forall|path: Seq<Pos>|
            !#[trigger] grid_walk(path, grid, width, height, start, goal)
    }
}

/// Along a walk, the distance from step `m` to the last cell is at most the
/// number of steps left.
proof fn lemma_walk_distance(path: Seq<Pos>, m: int)
    requires
        path.len() >= 1,
        forall|i: int| 0 <= i < path.len() - 1 ==> adjacent(#[trigger] path[i], path[i + 1]),
        0 <= m < path.len(),
    ensures
        manhattan(path[m], path.last()) <= path.len() - 1 - m,
    decreases path.len() - m,
{
    if m < path.len() - 1 {
        lemma_walk_distance(path, m + 1);
        assert(adjacent(path[m], path[m + 1]));
    }
}

/// A prefix of a walk is a walk to its last cell.
proof fn lemma_walk_prefix(path: Seq<Pos>, grid: Seq<Cell>, width: int, height: int, start: Pos, goal: Pos, m: int)
    requires
        grid_walk(path, grid, width, height, start, goal),
        1 <= m <= path.len(),
    ensures
        grid_walk(path.take(m), grid, width, height, start, path[m - 1]),
{
    let p = path.take(m);
    assert forall|i: int| 0 <= i < p.len() - 1 implies adjacent(#[trigger] p[i], p[i + 1]) by {
        assert(p[i] == path[i] && p[i + 1] == path[i + 1]);
    }
    assert forall|i: int| 0 <= i < p.len() implies grid[idx(#[trigger] p[i], width)] != Cell::Wall && inside(
        p[i],
        width,
        height,
    ) by {
        assert(p[i] == path[i]);
    }
}

/// A cell next to `p` on the grid is one of its neighbor cells.
proof fn lemma_adjacent_neighbor(p: Pos, q: Pos, width: int, height: int)
    requires
        inside(p, width, height),
        inside(q, width, height),
        adjacent(p, q),
    ensures
        neighbor_cells(p, width, height).contains(q),
{
    let la = if p.x > 0 {
        seq![Pos { x: (p.x - 1) as usize, y: p.y }]
    } else {
        Seq::empty()
    };
    let lb = if p.x + 1 < width {
        seq![Pos { x: (p.x + 1) as usize, y: p.y }]
    } else {
        Seq::empty()
    };
    let lc = if p.y > 0 {
        seq![Pos { x: p.x, y: (p.y - 1) as usize }]
    } else {
        Seq::empty()
    };
    let ld = if p.y + 1 < height {
        seq![Pos { x: p.x, y: (p.y + 1) as usize }]
    } else {
        Seq::empty()
    };
    let nbs = neighbor_cells(p, width, height);
    assert(nbs == la + lb + lc + ld);
    if q.y == p.y && q.x + 1 == p.x {
        assert(nbs[0] == q);
    } else if q.y == p.y && q.x == p.x + 1 {
        assert(nbs[la.len() as int] == q);
    } else if q.x == p.x && q.y + 1 == p.y {
        assert(nbs[(la.len() + lb.len()) as int] == q);
    } else {
        assert(q.x == p.x && q.y == p.y + 1);
        assert(nbs[(la.len() + lb.len() + lc.len()) as int] == q);
    }
}

/// Writing `v` at the chosen cells of `cells` leaves the length, puts `v`
/// at the index of every chosen cell and leaves every other index.
proof fn lemma_set_at<T>(s: Seq<T>, cells: Seq<Pos>, chosen: spec_fn(Pos) -> bool, width: int, v: T, i: int)
    requires
        0 <= i < s.len(),
        forall|j: int| 0 <= j < cells.len() ==> 0 <= #[trigger] idx(cells[j], width) < s.len(),
    ensures
        set_at(s, cells, chosen, width, v).len() == s.len(),
        set_at(s, cells, chosen, width, v)[i] == if exists|j: int|
            0 <= j < cells.len() && chosen(cells[j]) && #[trigger] idx(cells[j], width) == i {
            v
        } else {
            s[i]
        },
    decreases cells.len(),
{
    if cells.len() > 0 {
        let rest = cells.drop_last();
        assert forall|j: int| 0 <= j < rest.len() implies 0 <= #[trigger] idx(rest[j], width) < s.len() by {
            assert(rest[j] == cells[j]);
            assert(0 <= idx(cells[j], width) < s.len());
        }
        lemma_set_at(s, rest, chosen, width, v, i);
        let last = cells.len() - 1;
        assert(0 <= idx(cells[last], width) < s.len());
        if exists|j: int| 0 <= j < cells.len() && chosen(cells[j]) && #[trigger] idx(cells[j], width) == i {
            let j = choose|j: int| 0 <= j < cells.len() && chosen(cells[j]) && #[trigger] idx(cells[j], width) == i;
            if j < last {
                assert(rest[j] == cells[j]);
                assert(idx(rest[j], width) == i);
            }
        } else {
            assert forall|j: int| 0 <= j < rest.len() && chosen(rest[j]) implies #[trigger] idx(rest[j], width) != i by {
                assert(rest[j] == cells[j]);
                assert(idx(cells[j], width) != i);
            }
        }
    }
}

/// Every entry pushed for the chosen cells of `cells` is the entry of one
/// of them.
proof fn lemma_pushed_from(cells: Seq<Pos>, chosen: spec_fn(Pos) -> bool, t: int, goal: Pos, k: int) -> (j: int)
    requires
        0 <= k < pushed(cells, chosen, t, goal).len(),
    ensures
        0 <= j < cells.len(),
        chosen(cells[j]),
        pushed(cells, chosen, t, goal)[k] == entry_for(cells[j], t, goal),
    decreases cells.len(),
{
    let rest = cells.drop_last();
    let r = pushed(rest, chosen, t, goal);
    if k < r.len() {
        let j = lemma_pushed_from(rest, chosen, t, goal, k);
        assert(rest[j] == cells[j]);
        j
    } else {
        cells.len() - 1
    }
}

/// Every chosen cell of `cells` has its entry among those pushed.
proof fn lemma_pushed_has(cells: Seq<Pos>, chosen: spec_fn(Pos) -> bool, t: int, goal: Pos, j: int) -> (k: int)
    requires
        0 <= j < cells.len(),
        chosen(cells[j]),
    ensures
        0 <= k < pushed(cells, chosen, t, goal).len(),
        pushed(cells, chosen, t, goal)[k] == entry_for(cells[j], t, goal),
    decreases cells.len(),
{
    let rest = cells.drop_last();
    let r = pushed(rest, chosen, t, goal);
    if j < cells.len() - 1 {
        assert(rest[j] == cells[j]);
        lemma_pushed_has(rest, chosen, t, goal, j)
    } else {
        r.len() as int
    }
}

/// Along a path traced back over links to cells of smaller cost, the cost
/// of the cell at step `i` is at least `i`.
proof fn lemma_trace_costs(s: AStarState, width: int, height: int, i: int)
    requires
        s.wf(width, height),
        traces_back(s.path@, s.came_from@, width),
        inside(s.path@.last(), width, height),
        s.g_score@[idx(s.path@.last(), width)] is Some,
        0 <= i < s.path@.len(),
    ensures
        s.g_score@[idx(s.path@[i], width)] is Some,
        s.g_score@[idx(s.path@[i], width)]->0 >= i,
    decreases i,
{
    let path = s.path@;
    lemma_path_inside(path, s.came_from@, width, height, 0);
    if i < path.len() - 1 {
        lemma_index_inside(path[i + 1], width, height);
        assert(s.came_from@[idx(path[i + 1], width)] == Some(path[i]));
    }
    if i > 0 {
        lemma_trace_costs(s, width, height, i - 1);
        lemma_index_inside(path[i], width, height);
        let j = i - 1;
        assert(s.came_from@[idx(path[j + 1], width)] == Some(path[j]));
    }
}


/// While the search runs, a walk from the start to an unexpanded cell `x`
/// whose first `m` cells are expanded has an open entry whose estimate is
/// at most the walk's length plus the distance from `x` to the goal: the
/// entry of its first unexpanded cell.
proof fn lemma_frontier(
    s: AStarState,
    grid: Seq<Cell>,
    width: int,
    height: int,
    start: Pos,
    goal: Pos,
    path: Seq<Pos>,
    x: Pos,
    m: int,
) -> (k: int)
    requires
        s.wf(width, height),
        s.shortest_ok(grid, width, height, start, goal),
        !s.finished,
        grid_walk(path, grid, width, height, start, x),
        !s.closed_set@[idx(x, width)],
        0 <= m < path.len(),
        forall|i: int| 0 <= i < m ==> s.closed_set@[idx(#[trigger] path[i], width)],
    ensures
        0 <= k < s.open_set@.len(),
        s.open_set@[k].f_score <= path.len() - 1 + manhattan(x, goal),
    decreases path.len() - m,
{
    let c = path[m];
    let g = s.g_score@;
    assert(inside(c, width, height));
    if s.closed_set@[idx(c, width)] {
        assert(m < path.len() - 1);
        lemma_frontier(s, grid, width, height, start, goal, path, x, m + 1)
    } else {
        if m > 0 {
            let pr = path[m - 1];
            assert(s.closed_set@[idx(pr, width)]);
            assert(inside(pr, width, height));
            lemma_walk_prefix(path, grid, width, height, start, x, m);
            assert(path.take(m).len() == m);
            assert(grid_walk(path.take(m), grid, width, height, start, pr));
            assert(g[idx(pr, width)]->0 <= m - 1);
            assert(adjacent(path[m - 1], path[m]));
            assert(grid[idx(c, width)] != Cell::Wall);
        }
        assert(g[idx(c, width)] is Some);
        assert(g[idx(c, width)]->0 <= m);
        let k = choose|k: int| 0 <= k < s.open_set@.len() && s.open_set@[k].pos == c && s.open_set@[k].g_score == g[idx(c, width)]->0;
        lemma_walk_distance(path, m);
        assert(s.open_set@[k].f_score == s.open_set@[k].g_score + manhattan(c, goal));
        k
    }
}

/// When the goal is taken from the open list, the path traced back to it
/// is no longer than any walk from the start to the goal.
proof fn lemma_found_shortest(
    s: AStarState,
    s2: AStarState,
    grid: Seq<Cell>,
    width: int,
    height: int,
    start: Pos,
    goal: Pos,
)
    requires
        s.wf(width, height),
        s.shortest_ok(grid, width, height, start, goal),
        !s.finished,
        s.open_set@.len() > 0,
        s.open_set@[first_min(s.open_set@)].pos == goal,
        inside(goal, width, height),
        traces_back(s2.path@, s.came_from@, width),
        s2.path@.last() == goal,
    ensures
        forall|path: Seq<Pos>| #[trigger] grid_walk(path, grid, width, height, start, goal) ==> s2.path@.len() <= path.len(),
{
    let kk = first_min(s.open_set@);
    lemma_first_min(s.open_set@);
    let e = s.open_set@[kk];
    assert(e.f_score == e.g_score + manhattan(goal, goal));
    let t = AStarState { path: s2.path, ..s };
    lemma_trace_costs(t, width, height, s2.path@.len() - 1);
    assert forall|path: Seq<Pos>| #[trigger] grid_walk(path, grid, width, height, start, goal) implies s2.path@.len()
        <= path.len() by {
        let k = lemma_frontier(s, grid, width, height, start, goal, path, goal, 0);
        assert(!goes_first(s.open_set@[k], e));
    }
}


/// Expanding the first open entry, of a cell other than the goal, keeps
/// the search finding shortest walks.
proof fn lemma_expand_shortest(
    s: AStarState,
    s2: AStarState,
    grid: Seq<Cell>,
    width: int,
    height: int,
    start: Pos,
    goal: Pos,
)
    requires
        s.wf(width, height),
        s.shortest_ok(grid, width, height, start, goal),
        !s.finished,
        s.open_set@.len() > 0,
        s.open_set@[first_min(s.open_set@)].pos != goal,
        search_step(s, s2, grid, width, height, goal),
        grid.len() == width * height,
        width * height + width + height <= usize::MAX,
        inside(start, width, height),
        inside(goal, width, height),
    ensures
        s2.shortest_ok(grid, width, height, start, goal),
{
    let w = width;
    let h = height;
    let open = s.open_set@;
    let k = first_min(open);
    lemma_first_min(open);
    let e = open[k];
    let cur = e.pos;
    let ci = idx(cur, w);
    let g = s.g_score@;
    let closed = s.closed_set@;
    assert(inside(cur, w, h));
    lemma_index_inside(cur, w, h);
    assert(g[ci] is Some);
    let t = g[ci]->0 + 1;
    let closed2 = closed.update(ci, true);
    let nbs = neighbor_cells(cur, w, h);
    let better = |p: Pos| improves(grid, closed2, g, p, w, t);
    let g2 = s2.g_score@;
    let open2 = s2.open_set@;
    let rem = open.remove(k);
    assert(s2.closed_set@ == closed2);
    assert(g2 == set_at(g, nbs, better, w, Some(t as usize)));
    assert(open2 == rem + pushed(nbs, better, t, goal));
    assert(!s2.finished && s2.found == s.found && s2.path == s.path);
    lemma_neighbor_cells(cur, w, h);
    lemma_known_bound(g);
    assert(t <= w * h);
    assert forall|j: int| 0 <= j < nbs.len() implies 0 <= #[trigger] idx(nbs[j], w) < g.len() by {
        lemma_index_inside(nbs[j], w, h);
    }
    // The costs after the step, cell by cell.
    assert forall|p: Pos| #[trigger] inside(p, w, h) implies {
        &&& better(p) && nbs.contains(p) ==> g2[idx(p, w)] == Some(t as usize)
        &&& !(better(p) && nbs.contains(p)) ==> g2[idx(p, w)] == g[idx(p, w)]
    } by {
        lemma_index_inside(p, w, h);
        lemma_set_at(g, nbs, better, w, Some(t as usize), idx(p, w));
        if exists|j: int| 0 <= j < nbs.len() && better(nbs[j]) && #[trigger] idx(nbs[j], w) == idx(p, w) {
            let j = choose|j: int| 0 <= j < nbs.len() && better(nbs[j]) && #[trigger] idx(nbs[j], w) == idx(p, w);
            lemma_index_injective(nbs[j], p, w, h);
        } else if better(p) && nbs.contains(p) {
            let j = choose|j: int| 0 <= j < nbs.len() && nbs[j] == p;
            assert(idx(nbs[j], w) == idx(p, w));
        }
    }
    // Expanded cells have costs, which stay.
    assert forall|p: Pos| inside(p, w, h) && #[trigger] closed2[idx(p, w)] implies g2[idx(p, w)] is Some && g2[idx(
        p,
        w,
    )] == g[idx(p, w)] by {
        lemma_index_inside(p, w, h);
        assert(!better(p));
        if idx(p, w) != ci {
            assert(closed[idx(p, w)]);
        }
    }
    // No walk undercuts an expanded cell.
    assert forall|p: Pos, path: Seq<Pos>|
        #![trigger grid_walk(path, grid, w, h, start, p)]
        inside(p, w, h) && closed2[idx(p, w)] && grid_walk(path, grid, w, h, start, p) implies g2[idx(p, w)]->0
        <= path.len() - 1 by {
        lemma_index_inside(p, w, h);
        if closed[idx(p, w)] {
        } else {
            assert(idx(p, w) == ci);
            lemma_index_injective(p, cur, w, h);
            let kk = lemma_frontier(s, grid, w, h, start, goal, path, p, 0);
            assert(!goes_first(open[kk], e));
        }
    }
    // The goal stays unexpanded.
    assert(!closed2[idx(goal, w)]) by {
        lemma_index_inside(goal, w, h);
        if idx(goal, w) == ci {
            lemma_index_injective(goal, cur, w, h);
        }
    }
    // The open entries.
    assert forall|q: int| 0 <= q < open2.len() implies {
        &&& (#[trigger] open2[q]).f_score == open2[q].g_score + manhattan(open2[q].pos, goal)
        &&& g2[idx(open2[q].pos, w)] is Some
        &&& g2[idx(open2[q].pos, w)]->0 <= open2[q].g_score
    } by {
        if q < rem.len() {
            let o = if q < k {
                q
            } else {
                q + 1
            };
            assert(open2[q] == open[o]);
            assert(inside(open[o].pos, w, h));
        } else {
            let j = lemma_pushed_from(nbs, better, t, goal, q - rem.len());
            assert(open2[q] == entry_for(nbs[j], t, goal));
            assert(inside(nbs[j], w, h));
            assert(nbs.contains(nbs[j]));
            lemma_manhattan_bound(nbs[j], goal, w, h);
        }
    }
    // Every unexpanded cell with a cost has an open entry of that cost.
    assert forall|p: Pos| inside(p, w, h) && #[trigger] g2[idx(p, w)] is Some && !closed2[idx(p, w)] implies exists|q: int|
        0 <= q < open2.len() && open2[q].pos == p && open2[q].g_score == g2[idx(p, w)]->0 by {
        lemma_index_inside(p, w, h);
        if better(p) && nbs.contains(p) {
            let j = choose|j: int| 0 <= j < nbs.len() && nbs[j] == p;
            let q = lemma_pushed_has(nbs, better, t, goal, j);
            assert(open2[rem.len() + q] == entry_for(p, t, goal));
        } else {
            assert(idx(p, w) != ci);
            assert(!closed[idx(p, w)]);
            let o = choose|o: int| 0 <= o < open.len() && open[o].pos == p && open[o].g_score == g[idx(p, w)]->0;
            assert(o != k);
            let q = if o < k {
                o
            } else {
                o - 1
            };
            assert(rem[q] == open[o]);
            assert(open2[q] == rem[q]);
        }
    }
    // A free neighbor of an expanded cell is expanded or costs at most one
    // more.
    assert forall|p: Pos, q: Pos|
        inside(p, w, h) && inside(q, w, h) && #[trigger] closed2[idx(p, w)] && #[trigger] adjacent(p, q) && grid[idx(
            q,
            w,
        )] != Cell::Wall implies closed2[idx(q, w)] || (g2[idx(q, w)] is Some && g2[idx(q, w)]->0 <= g2[idx(p, w)]->0
        + 1) by {
        lemma_index_inside(p, w, h);
        lemma_index_inside(q, w, h);
        if !closed2[idx(q, w)] {
            assert(g2[idx(p, w)] == g[idx(p, w)]);
            if idx(p, w) == ci {
                lemma_index_injective(p, cur, w, h);
                lemma_adjacent_neighbor(cur, q, w, h);
            } else {
                assert(closed[idx(p, w)]);
                assert(!closed[idx(q, w)]);
            }
        }
    }
    // The start keeps cost 0.
    assert(g2[idx(start, w)] == Some(0usize));
}

/// Law (shortest paths): every step of the search keeps what makes it find
/// shortest walks, so a path it finds is no longer than any walk on the
/// grid from the start to the goal, and when it ends without a path there
/// is no such walk.
pub proof fn lemma_search_step_shortest(
    s: AStarState,
    s2: AStarState,
    grid: Seq<Cell>,
    width: int,
    height: int,
    start: Pos,
    goal: Pos,
)
    requires
        s.wf(width, height),
        s.shortest_ok(grid, width, height, start, goal),
        search_step(s, s2, grid, width, height, goal),
        grid.len() == width * height,
        width * height + width + height <= usize::MAX,
        inside(start, width, height),
        inside(goal, width, height),
    ensures
        s2.shortest_ok(grid, width, height, start, goal),
{
    if s.finished {
    } else if s.open_set@.len() == 0 {
        assert forall|path: Seq<Pos>| !#[trigger] grid_walk(path, grid, width, height, start, goal) by {
            if grid_walk(path, grid, width, height, start, goal) {
                lemma_frontier(s, grid, width, height, start, goal, path, goal, 0);
            }
        }
    } else if s.open_set@[first_min(s.open_set@)].pos == goal {
        lemma_found_shortest(s, s2, grid, width, height, start, goal);
        let k = first_min(s.open_set@);
        lemma_first_min(s.open_set@);
        assert forall|q: int| 0 <= q < s2.open_set@.len() implies {
            &&& (#[trigger] s2.open_set@[q]).f_score == s2.open_set@[q].g_score + manhattan(s2.open_set@[q].pos, goal)
            &&& s2.g_score@[idx(s2.open_set@[q].pos, width)] is Some
            &&& s2.g_score@[idx(s2.open_set@[q].pos, width)]->0 <= s2.open_set@[q].g_score
        } by {
            let o = if q < k {
                q
            } else {
                q + 1
            };
            assert(s2.open_set@[q] == s.open_set@[o]);
        }
    } else {
        lemma_expand_shortest(s, s2, grid, width, height, start, goal);
    }
}


/// A new search from `start` finds shortest walks: nothing is expanded,
/// and only the start is open, with cost 0.
proof fn lemma_new_shortest(s: AStarState, grid: Seq<Cell>, width: int, height: int, start: Pos, goal: Pos)
    requires
        inside(start, width, height),
        inside(goal, width, height),
        width * height + width + height <= usize::MAX,
        s.open_set@ == seq![Node { pos: start, f_score: manhattan(start, goal) as usize, g_score: 0 }],
        s.g_score@.len() == width * height,
        s.closed_set@.len() == width * height,
        forall|i: int|
            0 <= i < width * height ==> {
                &&& !(#[trigger] s.closed_set@[i])
                &&& s.g_score@[i] == if i == idx(start, width) {
                    Some(0usize)
                } else {
                    None
                }
            },
        !s.finished,
        !s.found,
    ensures
        s.shortest_ok(grid, width, height, start, goal),
{
    lemma_index_inside(start, width, height);
    lemma_index_inside(goal, width, height);
    lemma_manhattan_bound(start, goal, width, height);
    assert(!s.closed_set@[idx(start, width)]);
    assert(s.g_score@[idx(start, width)] == Some(0usize));
    assert(!s.closed_set@[idx(goal, width)]);
    assert(s.open_set@[0].f_score == s.open_set@[0].g_score + manhattan(s.open_set@[0].pos, goal));
    assert forall|p: Pos| inside(p, width, height) implies !#[trigger] s.closed_set@[idx(p, width)] by {
        lemma_index_inside(p, width, height);
    }
    assert forall|p: Pos| inside(p, width, height) && #[trigger] s.g_score@[idx(p, width)] is Some && !s.closed_set@[idx(
        p,
        width,
    )] implies exists|k: int|
        0 <= k < s.open_set@.len() && s.open_set@[k].pos == p && s.open_set@[k].g_score == s.g_score@[idx(p, width)]->0 by {
        lemma_index_inside(p, width, height);
        lemma_index_injective(p, start, width, height);
        assert(s.open_set@[0].pos == p);
    }
}

} // verus!
