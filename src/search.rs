use vstd::prelude::*;
use crate::algos::{Algo, AlgoStatus, Algorithm};
use vstd::set_lib::{lemma_int_range, lemma_len_subset, set_int_range};
use vstd::arithmetic::div_mod::lemma_fundamental_div_mod_converse;
use crate::grid::{Coord, GridMap, DIAGONAL_UNIT, ORTHOGONAL_UNIT, abs_diff};

verus! {

/// The estimate of the remaining cost that the heuristic-guided search uses.
#[derive(Debug, Clone, Copy, PartialEq, Eq, Structural)]
pub enum Heuristic {
    /// No estimate: the search orders by cost so far alone.
    Zero,
    /// Orthogonal distance.
    Manhattan,
    /// Distance with diagonal moves allowed.
    Octile,
}

/// The estimate from `a` to `t`, in the units of `GridMap::step_cost`.
pub open spec fn estimate(h: Heuristic, a: Coord, t: Coord, diagonal: bool) -> int {
    let dx = abs_diff(a.x, t.x);
    let dy = abs_diff(a.y, t.y);
    let lo = if dx <= dy { dx } else { dy };
    let hi = if dx <= dy { dy } else { dx };
    match h {
        Heuristic::Zero => 0,
        Heuristic::Manhattan => if diagonal { (dx + dy) * ORTHOGONAL_UNIT } else { dx + dy },
        Heuristic::Octile => if diagonal {
            lo * DIAGONAL_UNIT + (hi - lo) * ORTHOGONAL_UNIT
        } else {
            hi
        },
    }
}

/// The smallest estimate from `a` to any of the targets `ts`.
pub open spec fn nearest_estimate(h: Heuristic, a: Coord, ts: Seq<Coord>, diagonal: bool) -> int
    decreases ts.len(),
{
    if ts.len() == 0 {
        0
    } else if ts.len() == 1 {
        estimate(h, a, ts[0], diagonal)
    } else {
        let rest = nearest_estimate(h, a, ts.drop_last(), diagonal);
        let last = estimate(h, a, ts.last(), diagonal);
        if last < rest { last } else { rest }
    }
}

/// A cell on the frontier: its cost so far, its priority, and the index in the
/// finished list of the cell it was reached from.
#[derive(Debug, Clone, Copy)]
pub struct OpenEntry {
    pub at: Coord,
    pub g: u128,
    pub f: u128,
    pub pred: usize,
}

/// Above the cost of any single move: fourteen times the largest cell cost.
pub const STEP_BOUND: u128 = 30064771058;

/// The index of the first entry of lowest priority.
pub open spec fn first_min(s: Seq<OpenEntry>) -> int
    decreases s.len(),
{
    if s.len() <= 1 {
        0
    } else {
        let k = first_min(s.drop_last());
        if s.last().f < s[k].f { s.len() - 1 } else { k }
    }
}

pub open spec fn coords_of(s: Seq<OpenEntry>) -> Seq<Coord> {
    s.map_values(|e: OpenEntry| e.at)
}

/// The cells from finished cell `i` back to the first finished cell, following
/// the recorded predecessors.
pub open spec fn trace_back(closed: Seq<Coord>, pred: Seq<usize>, i: int) -> Seq<Coord>
    decreases i,
{
    if i <= 0 || pred[i] >= i {
        seq![closed[0]]
    } else {
        seq![closed[i]] + trace_back(closed, pred, pred[i] as int)
    }
}

pub open spec fn reversed(s: Seq<Coord>) -> Seq<Coord> {
    Seq::new(s.len(), |k: int| s[s.len() - 1 - k])
}

/// A sequence of cells in which each one is a move from the one before.
pub open spec fn is_walk(m: GridMap, p: Seq<Coord>, diagonal: bool) -> bool {
    p.len() >= 1 && forall|k: int| 0 <= k < p.len() - 1 ==> m.step_ok(#[trigger] p[k], p[k + 1], diagonal)
}

/// The cost of a walk: the sum of the costs of its moves.
pub open spec fn walk_cost(m: GridMap, p: Seq<Coord>, diagonal: bool) -> int
    decreases p.len(),
{
    if p.len() <= 1 {
        0
    } else {
        walk_cost(m, p.drop_last(), diagonal) + m.step_cost(p[p.len() - 2], p[p.len() - 1], diagonal)
    }
}

/// No walk has a negative cost.
pub proof fn lemma_walk_cost_nonneg(m: GridMap, p: Seq<Coord>, diagonal: bool)
    ensures
        walk_cost(m, p, diagonal) >= 0,
    decreases p.len(),
{
    if p.len() > 1 {
        lemma_walk_cost_nonneg(m, p.drop_last(), diagonal);
    }
}

/// A walk's cost is the cost up to its cell `k` plus the cost from there on.
pub proof fn lemma_walk_split(m: GridMap, p: Seq<Coord>, diagonal: bool, k: int)
    requires
        0 <= k < p.len(),
    ensures
        walk_cost(m, p, diagonal) == walk_cost(m, p.subrange(0, k + 1), diagonal) + walk_cost(
            m,
            p.subrange(k, p.len() as int),
            diagonal,
        ),
    decreases p.len(),
{
    if k == p.len() - 1 {
        assert(p.subrange(0, k + 1) =~= p);
        assert(p.subrange(k, p.len() as int).len() == 1);
    } else {
        let dl = p.drop_last();
        lemma_walk_split(m, dl, diagonal, k);
        assert(dl.subrange(0, k + 1) =~= p.subrange(0, k + 1));
        let r = p.subrange(k, p.len() as int);
        assert(r.drop_last() =~= dl.subrange(k, dl.len() as int));
        assert(r[r.len() - 2] == p[p.len() - 2]);
        assert(r[r.len() - 1] == p[p.len() - 1]);
    }
}

/// Column offset of direction `d`: the four orthogonal directions come first.
pub open spec fn dir_dx(d: int) -> int {
    if d == 0 { 1 } else if d == 1 { -1 } else if d == 2 || d == 3 { 0 }
    else if d == 4 || d == 5 { 1 } else { -1 }
}

/// Row offset of direction `d`.
pub open spec fn dir_dy(d: int) -> int {
    if d == 0 || d == 1 { 0 } else if d == 2 { 1 } else if d == 3 { -1 }
    else if d == 4 || d == 6 { 1 } else { -1 }
}

pub open spec fn dir_count(diagonal: bool) -> int {
    if diagonal { 8 } else { 4 }
}

/// The direction that leads from `a` to `b`, when `b` is next to `a`.
pub open spec fn dir_of(a: Coord, b: Coord) -> int {
    let dx = b.x - a.x;
    let dy = b.y - a.y;
    if dx == 1 && dy == 0 { 0 } else if dx == -1 && dy == 0 { 1 }
    else if dx == 0 && dy == 1 { 2 } else if dx == 0 && dy == -1 { 3 }
    else if dx == 1 && dy == 1 { 4 } else if dx == 1 && dy == -1 { 5 }
    else if dx == -1 && dy == 1 { 6 } else { 7 }
}

/// Each allowed move goes in one of the mode's directions.
pub proof fn lemma_dir_of(m: GridMap, a: Coord, b: Coord, diagonal: bool)
    requires
        m.step_ok(a, b, diagonal),
    ensures
        0 <= dir_of(a, b) < dir_count(diagonal),
        b.x == a.x + dir_dx(dir_of(a, b)),
        b.y == a.y + dir_dy(dir_of(a, b)),
{
}

/// Above every estimate on a grid whose sides fit in `usize`.
pub const ESTIMATE_BOUND: u128 = 0x1000_0000_0000_0000_0000;

/// The heuristics whose estimate, in the given mode, never drops by more than the
/// cost of a move: none at all, Manhattan in straight mode, and Octile in either mode.
pub open spec fn consistent(h: Heuristic, diagonal: bool) -> bool {
    match h {
        Heuristic::Zero => true,
        Heuristic::Manhattan => !diagonal,
        Heuristic::Octile => true,
    }
}

proof fn lemma_estimate_consistent(m: GridMap, h: Heuristic, a: Coord, b: Coord, t: Coord, diagonal: bool)
    requires
        consistent(h, diagonal),
        m.step_ok(a, b, diagonal),
    ensures
        0 <= estimate(h, b, t, diagonal),
        estimate(h, a, t, diagonal) <= m.step_cost(a, b, diagonal) + estimate(h, b, t, diagonal),
{
}

/// The nearest estimate is at most the estimate to any one target, and equals
/// the estimate to some target.
proof fn lemma_nearest(h: Heuristic, a: Coord, ts: Seq<Coord>, diagonal: bool)
    requires
        ts.len() > 0,
    ensures
        forall|i: int| 0 <= i < ts.len() ==> nearest_estimate(h, a, ts, diagonal) <= estimate(h, a, #[trigger] ts[i], diagonal),
        exists|i: int| 0 <= i < ts.len() && nearest_estimate(h, a, ts, diagonal) == estimate(h, a, #[trigger] ts[i], diagonal),
    decreases ts.len(),
{
    if ts.len() == 1 {
        assert(nearest_estimate(h, a, ts, diagonal) == estimate(h, a, ts[0], diagonal));
    } else {
        lemma_nearest(h, a, ts.drop_last(), diagonal);
        assert forall|i: int| 0 <= i < ts.len() implies nearest_estimate(h, a, ts, diagonal) <= estimate(h, a, #[trigger] ts[i], diagonal) by {
            if i < ts.len() - 1 {
                assert(ts.drop_last()[i] == ts[i]);
            }
        }
        let rest = nearest_estimate(h, a, ts.drop_last(), diagonal);
        let i = choose|i: int| 0 <= i < ts.len() - 1 && rest == estimate(h, a, #[trigger] ts.drop_last()[i], diagonal);
        assert(ts.drop_last()[i] == ts[i]);
        assert(ts.last() == ts[ts.len() - 1]);
    }
}

/// With a consistent heuristic the nearest estimate never drops by more than the
/// cost of a move, is never negative, and is zero on a target.
proof fn lemma_nearest_consistent(m: GridMap, h: Heuristic, a: Coord, b: Coord, ts: Seq<Coord>, diagonal: bool)
    requires
        consistent(h, diagonal),
        m.step_ok(a, b, diagonal),
        ts.len() > 0,
    ensures
        0 <= nearest_estimate(h, b, ts, diagonal),
        nearest_estimate(h, a, ts, diagonal) <= m.step_cost(a, b, diagonal) + nearest_estimate(h, b, ts, diagonal),
{
    lemma_nearest(h, a, ts, diagonal);
    lemma_nearest(h, b, ts, diagonal);
    let i = choose|i: int| 0 <= i < ts.len() && nearest_estimate(h, b, ts, diagonal) == estimate(h, b, #[trigger] ts[i], diagonal);
    lemma_estimate_consistent(m, h, a, b, ts[i], diagonal);
}

proof fn lemma_nearest_bounds(h: Heuristic, a: Coord, ts: Seq<Coord>, diagonal: bool)
    requires
        ts.len() > 0,
    ensures
        0 <= nearest_estimate(h, a, ts, diagonal),
        ts.contains(a) ==> nearest_estimate(h, a, ts, diagonal) == 0,
{
    lemma_nearest(h, a, ts, diagonal);
    let i = choose|i: int| 0 <= i < ts.len() && nearest_estimate(h, a, ts, diagonal) == estimate(h, a, #[trigger] ts[i], diagonal);
    if ts.contains(a) {
        let k = choose|k: int| 0 <= k < ts.len() && ts[k] == a;
        assert(nearest_estimate(h, a, ts, diagonal) <= estimate(h, a, ts[k], diagonal));
    }
}

/// `first_min` picks an entry whose priority no other entry undercuts.
proof fn lemma_first_min(s: Seq<OpenEntry>)
    requires
        s.len() > 0,
    ensures
        0 <= first_min(s) < s.len(),
        forall|j: int| 0 <= j < s.len() ==> s[first_min(s)].f <= (#[trigger] s[j]).f,
        forall|j: int| 0 <= j < first_min(s) ==> s[first_min(s)].f < (#[trigger] s[j]).f,
    decreases s.len(),
{
    if s.len() > 1 {
        lemma_first_min(s.drop_last());
        assert forall|j: int| 0 <= j < s.len() implies s[first_min(s)].f <= (#[trigger] s[j]).f by {
            if j < s.len() - 1 {
                assert(s.drop_last()[j] == s[j]);
            }
        }
        assert forall|j: int| 0 <= j < first_min(s) implies s[first_min(s)].f < (#[trigger] s[j]).f by {
            if j < s.len() - 1 {
                assert(s.drop_last()[j] == s[j]);
            }
        }
    }
}

/// The cost of a cell reached from the finished cell at index `idx` stays within
/// the bound for the next index, and fits in `u128`.
proof fn lemma_cost_room(g: int, step: int, idx: int)
    requires
        0 <= g <= idx * STEP_BOUND,
        0 <= step <= STEP_BOUND,
        0 <= idx < 0x1_0000_0000_0000_0000,
    ensures
        g + step <= (idx + 1) * STEP_BOUND,
        (idx + 1) * STEP_BOUND <= 0x1_0000_0000_0000_0000 * STEP_BOUND,
        g + step < 0x1_0000_0000_0000_0000_0000_0000_0000,
{
    assert(g + step <= (idx + 1) * 30064771058 <= 0x1_0000_0000_0000_0000 * 30064771058) by (nonlinear_arith)
        requires
            0 <= g <= idx * 30064771058,
            0 <= step <= 30064771058,
            0 <= idx < 0x1_0000_0000_0000_0000;
}

/// Computes `estimate`.
fn estimate_exec(h: Heuristic, a: Coord, t: Coord, diagonal: bool) -> (r: u128)
    ensures
        r == estimate(h, a, t, diagonal),
        r <= ESTIMATE_BOUND,
{
    let dx: u128 = if a.x >= t.x { (a.x - t.x) as u128 } else { (t.x - a.x) as u128 };
    let dy: u128 = if a.y >= t.y { (a.y - t.y) as u128 } else { (t.y - a.y) as u128 };
    let lo: u128 = if dx <= dy { dx } else { dy };
    let hi: u128 = if dx <= dy { dy } else { dx };
    assert((dx + dy) * 10 <= 400000000000000000000) by (nonlinear_arith)
        requires
            dx + dy <= 40000000000000000000;
    assert(lo * 14 <= 400000000000000000000 && (hi - lo) * 10 <= 400000000000000000000) by (nonlinear_arith)
        requires
            lo <= 20000000000000000000,
            hi - lo <= 20000000000000000000;
    match h {
        Heuristic::Zero => 0,
        Heuristic::Manhattan => if diagonal { (dx + dy) * (ORTHOGONAL_UNIT as u128) } else { dx + dy },
        Heuristic::Octile => if diagonal {
            lo * (DIAGONAL_UNIT as u128) + (hi - lo) * (ORTHOGONAL_UNIT as u128)
        } else {
            hi
        },
    }
}

/// Computes `nearest_estimate`.
fn nearest_exec(h: Heuristic, a: Coord, ts: &Vec<Coord>, diagonal: bool) -> (r: u128)
    ensures
        r == nearest_estimate(h, a, ts@, diagonal),
        r <= ESTIMATE_BOUND,
{
    if ts.len() == 0 {
        return 0;
    }
    let mut best = estimate_exec(h, a, ts[0], diagonal);
    let mut i: usize = 1;
    assert(ts@.subrange(0, 1).drop_last() =~= seq![]);
    while i < ts.len()
        invariant
            1 <= i <= ts@.len(),
            best == nearest_estimate(h, a, ts@.subrange(0, i as int), diagonal),
            best <= ESTIMATE_BOUND,
        decreases ts.len() - i,
    {
        let e = estimate_exec(h, a, ts[i], diagonal);
        assert(ts@.subrange(0, i + 1).drop_last() =~= ts@.subrange(0, i as int));
        if e < best {
            best = e;
        }
        i = i + 1;
    }
    assert(ts@.subrange(0, ts@.len() as int) =~= ts@);
    best
}

/// The index of the first entry of lowest priority.
fn first_min_exec(open: &Vec<OpenEntry>) -> (r: usize)
    requires
        open@.len() > 0,
    ensures
        r == first_min(open@),
        r < open@.len(),
{
    let mut best: usize = 0;
    let mut j: usize = 1;
    while j < open.len()
        invariant
            1 <= j <= open@.len(),
            best < j,
            best == first_min(open@.subrange(0, j as int)),
        decreases open.len() - j,
    {
        assert(open@.subrange(0, j + 1).drop_last() =~= open@.subrange(0, j as int));
        if open[j].f < open[best].f {
            best = j;
        }
        j = j + 1;
    }
    assert(open@.subrange(0, open@.len() as int) =~= open@);
    best
}

/// An incremental shortest-path search over a grid: each `advance` finishes one
/// frontier cell. With `Heuristic::Zero` it is a uniform-cost search.
pub struct Search {
    map: GridMap,
    diagonal: bool,
    heuristic: Heuristic,
    open: Vec<OpenEntry>,
    closed: Vec<Coord>,
    closed_g: Vec<u128>,
    closed_pred: Vec<usize>,
    status: AlgoStatus,
}

impl Search {
    pub closed spec fn map_spec(&self) -> GridMap {
        self.map
    }

    pub closed spec fn diagonal_spec(&self) -> bool {
        self.diagonal
    }

    pub closed spec fn heuristic_spec(&self) -> Heuristic {
        self.heuristic
    }

    /// The frontier cells, in order of discovery.
    pub closed spec fn open_spec(&self) -> Seq<Coord> {
        coords_of(self.open@)
    }

    /// The finished cells, in the order they were finished.
    pub closed spec fn closed_spec(&self) -> Seq<Coord> {
        self.closed@
    }

    pub closed spec fn status_spec(&self) -> AlgoStatus {
        self.status
    }

    /// The frontier cell that the next step finishes: the one of lowest priority,
    /// the earliest discovered among equals (see `lemma_next`).
    pub closed spec fn next_spec(&self) -> Coord {
        self.open@[first_min(self.open@)].at
    }

    /// The position of `next_spec` on the frontier.
    pub closed spec fn next_index(&self) -> int {
        first_min(self.open@)
    }

    /// The recorded cost so far of each frontier cell, in the order of `open_spec`.
    pub closed spec fn open_costs(&self) -> Seq<int> {
        self.open@.map_values(|e: OpenEntry| e.g as int)
    }

    /// The priority of each frontier cell, in the order of `open_spec`.
    pub closed spec fn open_priorities(&self) -> Seq<int> {
        self.open@.map_values(|e: OpenEntry| e.f as int)
    }

    /// The status shows the search's own frontier and finished cells.
    pub open spec fn snapshot_ok(&self) -> bool {
        match self.status_spec() {
            AlgoStatus::InProgress((o, c)) => o@ == self.open_spec() && c@ == self.closed_spec(),
            AlgoStatus::Found(_, c) => c@ == self.closed_spec(),
            AlgoStatus::NoPath => true,
        }
    }

    /// The estimate for a cell: the smallest over all targets.
    pub open spec fn h(&self, c: Coord) -> int {
        nearest_estimate(self.heuristic_spec(), c, self.map_spec().targets_spec(), self.diagonal_spec())
    }

    pub closed spec fn in_open(&self, n: Coord) -> bool {
        exists|j: int| 0 <= j < self.open@.len() && (#[trigger] self.open@[j]).at == n
    }

    pub closed spec fn entry_ok(&self, e: OpenEntry) -> bool {
        &&& self.map.free(e.at)
        &&& e.f == e.g + self.h(e.at)
        &&& e.g <= self.closed@.len() * STEP_BOUND
        &&& self.closed@.len() > 0 ==> {
            &&& e.pred < self.closed@.len()
            &&& self.map.step_ok(self.closed@[e.pred as int], e.at, self.diagonal)
            &&& e.g == (self.closed_g@[e.pred as int] + self.map.step_cost(self.closed@[e.pred as int], e.at, self.diagonal))
        }
    }

    /// Every move out of the first `n` finished cells leads to a frontier or a finished cell.
    pub closed spec fn closure_upto(&self, n: int) -> bool {
        forall|i: int, c: Coord|
            0 <= i < n && #[trigger] self.map.step_ok(self.closed@[i], c, self.diagonal) ==> self.in_open(c)
                || self.closed@.contains(c)
    }

    pub closed spec fn no_target_closed(&self) -> bool {
        forall|i: int| 0 <= i < self.closed@.len() ==> !self.map.is_target_spec(#[trigger] self.closed@[i])
    }

    /// The state without the status.
    pub closed spec fn state_ok(&self) -> bool {
        let cl = self.closed@;
        let op = self.open@;
        &&& self.map.wf()
        &&& cl.len() == self.closed_g@.len() && cl.len() == self.closed_pred@.len()
        &&& cl.len() == 0 ==> op.len() == 1 && op[0].at == self.map.start_spec() && op[0].g == 0
        &&& cl.len() > 0 ==> cl[0] == self.map.start_spec() && self.closed_g@[0] == 0
            && self.closed_pred@[0] == 0
        &&& forall|i: int|
            1 <= i < cl.len() ==> {
                &&& (#[trigger] self.closed_pred@[i]) < i
                &&& self.map.step_ok(cl[self.closed_pred@[i] as int], cl[i], self.diagonal)
                &&& self.closed_g@[i] == (self.closed_g@[self.closed_pred@[i] as int] + self.map.step_cost(cl[self.closed_pred@[i] as int], cl[i], self.diagonal))
            }
        &&& forall|i: int| 0 <= i < cl.len() ==> #[trigger] self.closed_g@[i] <= i * STEP_BOUND
        &&& forall|j: int| 0 <= j < op.len() ==> self.entry_ok(#[trigger] op[j])
        &&& forall|j: int, k: int| 0 <= j < op.len() && 0 <= k < op.len() && j != k ==> op[j].at != op[k].at
        &&& cl.no_duplicates()
        &&& forall|j: int| 0 <= j < op.len() ==> !cl.contains(#[trigger] op[j].at)
    }

    /// What a search with a consistent heuristic keeps, with the first `expanded`
    /// finished cells expanded: finished priorities never fall, no frontier priority
    /// is below a finished one, and no move out of an expanded cell leads to a higher
    /// recorded cost than that cell's cost plus the move's.
    pub closed spec fn order_ok(&self, expanded: int) -> bool {
        let cl = self.closed@;
        let cg = self.closed_g@;
        let op = self.open@;
        consistent(self.heuristic, self.diagonal) ==> {
            &&& forall|i: int, j: int| 0 <= i <= j < cl.len() ==> #[trigger] cg[i] + self.h(cl[i]) <= #[trigger] cg[j] + self.h(cl[j])
            &&& forall|i: int, j: int| 0 <= i < cl.len() && 0 <= j < op.len() ==> #[trigger] cg[i] + self.h(cl[i]) <= (#[trigger] op[j]).f
            &&& forall|i: int, j: int|
                0 <= i < expanded && 0 <= j < op.len() && #[trigger] self.map.step_ok(cl[i], op[j].at, self.diagonal)
                    ==> op[j].g <= cg[i] + self.map.step_cost(cl[i], op[j].at, self.diagonal)
            &&& forall|i: int, j: int|
                0 <= i < expanded && 0 <= j < cl.len() && #[trigger] self.map.step_ok(cl[i], cl[j], self.diagonal)
                    ==> cg[j] <= cg[i] + self.map.step_cost(cl[i], cl[j], self.diagonal)
        }
    }

    /// The invariant of a search.
    pub closed spec fn inv(&self) -> bool {
        &&& self.state_ok()
        &&& match self.status {
            AlgoStatus::InProgress((o, c)) => {
                &&& o@ == coords_of(self.open@)
                &&& c@ == self.closed@
                &&& self.no_target_closed()
                &&& self.closure_upto(self.closed@.len() as int)
                &&& self.order_ok(self.closed@.len() as int)
            },
            AlgoStatus::Found(p, c) => {
                &&& c@ == self.closed@
                &&& self.closed@.len() > 0
                &&& self.map.is_target_spec(self.closed@.last())
                &&& forall|i: int| 0 <= i < self.closed@.len() - 1 ==> !self.map.is_target_spec(#[trigger] self.closed@[i])
                &&& self.closure_upto(self.closed@.len() - 1)
                &&& self.order_ok(self.closed@.len() - 1)
                &&& p@ == reversed(trace_back(self.closed@, self.closed_pred@, self.closed@.len() - 1))
            },
            AlgoStatus::NoPath => {
                &&& self.open@.len() == 0
                &&& self.closed@.len() > 0
                &&& self.no_target_closed()
                &&& self.closure_upto(self.closed@.len() as int)
                &&& self.order_ok(self.closed@.len() as int)
            },
        }
    }

    /// A search over `map` that has not taken a step: its frontier holds the start alone.
    pub fn new(map: GridMap, heuristic: Heuristic, diagonal: bool) -> (r: Search)
        requires
            map.wf(),
        ensures
            r.inv(),
            r.map_spec() == map,
            r.heuristic_spec() == heuristic,
            r.diagonal_spec() == diagonal,
            r.open_spec() == seq![map.start_spec()],
            r.closed_spec().len() == 0,
            r.next_spec() == map.start_spec(),
            r.snapshot_ok(),
            match r.status_spec() {
                AlgoStatus::InProgress((o, c)) => o@ == seq![map.start_spec()] && c@.len() == 0,
                _ => false,
            },
    {
        let start = map.start();
        let f = nearest_exec(heuristic, start, map.targets(), diagonal);
        let open = vec![OpenEntry { at: start, g: 0, f, pred: 0 }];
        let snapshot = vec![start];
        let empty: Vec<Coord> = Vec::new();
        assert(snapshot@ =~= seq![start]);
        assert(empty@ =~= Seq::<Coord>::empty());
        let status = AlgoStatus::InProgress((snapshot, empty));
        let r = Search {
            map,
            diagonal,
            heuristic,
            open,
            closed: Vec::new(),
            closed_g: Vec::new(),
            closed_pred: Vec::new(),
            status,
        };
        assert(coords_of(r.open@) =~= seq![start]);
        assert(r.closed@.no_duplicates());
        assert(r.map.free(start));
        assert(r.entry_ok(r.open@[0]));
        assert(r.closure_upto(0));
        assert(r.no_target_closed());
        assert(r.state_ok());
        r
    }

    /// The grid the search runs on.
    pub fn map(&self) -> (r: &GridMap)
        ensures
            *r == self.map_spec(),
            self.inv() ==> r.wf(),
    {
        &self.map
    }

    /// The current status.
    pub fn status(&self) -> (r: &AlgoStatus)
        ensures
            *r == self.status_spec(),
    {
        &self.status
    }

    /// The cell one move from `c` in direction `d`, where that move is allowed.
    fn neighbor(&self, c: Coord, d: usize) -> (r: Option<Coord>)
        requires
            self.map.wf(),
            self.map.in_bounds_spec(c),
            d < dir_count(self.diagonal),
        ensures
            match r {
                Some(n) => n.x == c.x + dir_dx(d as int) && n.y == c.y + dir_dy(d as int)
                    && self.map.step_ok(c, n, self.diagonal),
                None => forall|n: Coord|
                    n.x == c.x + dir_dx(d as int) && n.y == c.y + dir_dy(d as int) ==> !(
                    #[trigger] self.map.step_ok(c, n, self.diagonal)),
            },
    {
        let w = self.map.width();
        let hgt = self.map.height();
        let nx: usize;
        if d == 0 || d == 4 || d == 5 {
            if c.x + 1 >= w {
                return None;
            }
            nx = c.x + 1;
        } else if d == 1 || d == 6 || d == 7 {
            if c.x == 0 {
                return None;
            }
            nx = c.x - 1;
        } else {
            nx = c.x;
        }
        let ny: usize;
        if d == 2 || d == 4 || d == 6 {
            if c.y + 1 >= hgt {
                return None;
            }
            ny = c.y + 1;
        } else if d == 3 || d == 5 || d == 7 {
            if c.y == 0 {
                return None;
            }
            ny = c.y - 1;
        } else {
            ny = c.y;
        }
        let n = Coord { x: nx, y: ny };
        if self.map.is_obstacle(n) {
            return None;
        }
        if d >= 4 && self.map.is_obstacle(Coord { x: nx, y: c.y }) && self.map.is_obstacle(
            Coord { x: c.x, y: ny },
        ) {
            return None;
        }
        Some(n)
    }

    /// Whether `n` is a finished cell.
    fn closed_contains(&self, n: Coord) -> (r: bool)
        ensures
            r == self.closed@.contains(n),
    {
        let mut i: usize = 0;
        while i < self.closed.len()
            invariant
                i <= self.closed@.len(),
                forall|j: int| 0 <= j < i ==> self.closed@[j] != n,
            decreases self.closed.len() - i,
        {
            if self.closed[i] == n {
                return true;
            }
            i = i + 1;
        }
        false
    }

    /// The position of `n` on the frontier, if it is there.
    fn find_open(&self, n: Coord) -> (r: Option<usize>)
        ensures
            match r {
                Some(j) => j < self.open@.len() && self.open@[j as int].at == n,
                None => !self.in_open(n),
            },
    {
        let mut i: usize = 0;
        while i < self.open.len()
            invariant
                i <= self.open@.len(),
                forall|j: int| 0 <= j < i ==> self.open@[j].at != n,
            decreases self.open.len() - i,
        {
            if self.open[i].at == n {
                return Some(i);
            }
            i = i + 1;
        }
        None
    }

    /// Computes `GridMap::step_cost`.
    fn step_cost_exec(&self, a: Coord, b: Coord) -> (r: u64)
        requires
            self.map.wf(),
            self.map.in_bounds_spec(b),
        ensures
            r == self.map.step_cost(a, b, self.diagonal),
            r <= STEP_BOUND,
    {
        let v = match self.map.cost_at(b) {
            Some(v) => v,
            None => 0,
        };
        let base: u64 = if v < 1 { 1 } else { v as u64 };
        if !self.diagonal {
            base
        } else if a.x != b.x && a.y != b.y {
            base * DIAGONAL_UNIT
        } else {
            base * ORTHOGONAL_UNIT
        }
    }

    /// A copy of a list of cells.
    fn copy_cells(v: &Vec<Coord>) -> (r: Vec<Coord>)
        ensures
            r@ == v@,
    {
        let mut r: Vec<Coord> = Vec::new();
        let mut i: usize = 0;
        while i < v.len()
            invariant
                i <= v@.len(),
                r@ =~= v@.subrange(0, i as int),
            decreases v.len() - i,
        {
            r.push(v[i]);
            i = i + 1;
        }
        r
    }

    /// The frontier cells, in order of discovery.
    fn open_cells(&self) -> (r: Vec<Coord>)
        ensures
            r@ == coords_of(self.open@),
    {
        let mut r: Vec<Coord> = Vec::new();
        let mut i: usize = 0;
        while i < self.open.len()
            invariant
                i <= self.open@.len(),
                r@ =~= coords_of(self.open@).subrange(0, i as int),
            decreases self.open.len() - i,
        {
            r.push(self.open[i].at);
            i = i + 1;
        }
        r
    }

    /// Moves the frontier cell of lowest priority to the finished cells.
    #[verifier::rlimit(40)]
    fn pop_next(&mut self) -> (c: Coord)
        requires
            old(self).state_ok(),
            old(self).open@.len() > 0,
            old(self).closure_upto(old(self).closed@.len() as int),
            old(self).order_ok(old(self).closed@.len() as int),
        ensures
            final(self).state_ok(),
            final(self).order_ok(old(self).closed@.len() as int),
            c == old(self).next_spec(),
            final(self).closed@ == old(self).closed@.push(c),
            final(self).closure_upto(old(self).closed@.len() as int),
            final(self).map == old(self).map,
            final(self).diagonal == old(self).diagonal,
            final(self).heuristic == old(self).heuristic,
            final(self).status == old(self).status,
    {
        let k = first_min_exec(&self.open);
        let e = self.open.remove(k);
        let idx = self.closed.len();
        self.closed.push(e.at);
        self.closed_g.push(e.g);
        let p: usize = if idx == 0 { 0 } else { e.pred };
        self.closed_pred.push(p);
        proof {
            let o = old(self);
            assert(o.entry_ok(o.open@[k as int]));
            if consistent(self.heuristic, self.diagonal) {
                lemma_first_min(o.open@);
                let cl = self.closed@;
                let cg = self.closed_g@;
                let op = self.open@;
                assert(cg[idx as int] + self.h(cl[idx as int]) == e.f);
                assert forall|i: int, j: int| 0 <= i <= j < cl.len() implies #[trigger] cg[i] + self.h(cl[i])
                    <= #[trigger] cg[j] + self.h(cl[j]) by {
                    if j == idx && i < idx {
                        assert(o.closed_g@[i] + o.h(o.closed@[i]) <= o.open@[k as int].f);
                    }
                }
                assert forall|i: int, j: int| 0 <= i < cl.len() && 0 <= j < op.len() implies #[trigger] cg[i]
                    + self.h(cl[i]) <= (#[trigger] op[j]).f by {
                    let jj = if j < k { j } else { j + 1 };
                    assert(op[j] == o.open@[jj]);
                    if i < idx {
                        assert(o.closed_g@[i] + o.h(o.closed@[i]) <= o.open@[jj].f);
                    } else {
                        assert(o.open@[first_min(o.open@)].f <= o.open@[jj].f);
                    }
                }
                assert forall|i: int, j: int|
                    0 <= i < idx && 0 <= j < op.len() && #[trigger] self.map.step_ok(cl[i], op[j].at, self.diagonal)
                        implies op[j].g <= cg[i] + self.map.step_cost(cl[i], op[j].at, self.diagonal) by {
                    let jj = if j < k { j } else { j + 1 };
                    assert(op[j] == o.open@[jj]);
                    assert(o.map.step_ok(o.closed@[i], o.open@[jj].at, o.diagonal));
                }
                assert forall|i: int, j: int|
                    0 <= i < idx && 0 <= j < cl.len() && #[trigger] self.map.step_ok(cl[i], cl[j], self.diagonal)
                        implies cg[j] <= cg[i] + self.map.step_cost(cl[i], cl[j], self.diagonal) by {
                    if j == idx {
                        assert(o.map.step_ok(o.closed@[i], o.open@[k as int].at, o.diagonal));
                    } else {
                        assert(o.map.step_ok(o.closed@[i], o.closed@[j], o.diagonal));
                    }
                }
            }
            assert forall|j: int| 0 <= j < self.open@.len() implies self.entry_ok(
                #[trigger] self.open@[j],
            ) by {
                let jj = if j < k { j } else { j + 1 };
                assert(self.open@[j] == o.open@[jj]);
                assert(o.entry_ok(o.open@[jj]));
            }
            assert forall|j: int, l: int|
                0 <= j < self.open@.len() && 0 <= l < self.open@.len() && j != l implies self.open@[j].at
                != self.open@[l].at by {
                let jj = if j < k { j } else { j + 1 };
                let ll = if l < k { l } else { l + 1 };
                assert(self.open@[j] == o.open@[jj]);
                assert(self.open@[l] == o.open@[ll]);
            }
            assert forall|j: int| 0 <= j < self.open@.len() implies !self.closed@.contains(
                #[trigger] self.open@[j].at,
            ) by {
                let jj = if j < k { j } else { j + 1 };
                assert(self.open@[j] == o.open@[jj]);
                assert(!o.closed@.contains(o.open@[jj].at));
                if self.closed@.contains(self.open@[j].at) {
                    let t = choose|t: int| 0 <= t < self.closed@.len() && self.closed@[t] == self.open@[j].at;
                    if t < idx {
                        assert(o.closed@[t] == self.closed@[t]);
                    }
                }
            }
            assert(!o.closed@.contains(e.at));
            assert forall|a: int, b: int| 0 <= a < self.closed@.len() && 0 <= b < self.closed@.len() && a != b implies
                self.closed@[a] != self.closed@[b] by {
                if a == idx {
                    assert(o.closed@[b] == self.closed@[b]);
                } else if b == idx {
                    assert(o.closed@[a] == self.closed@[a]);
                }
            }
            assert forall|i: int|
                1 <= i < self.closed@.len() implies {
                    &&& (#[trigger] self.closed_pred@[i]) < i
                    &&& self.map.step_ok(self.closed@[self.closed_pred@[i] as int], self.closed@[i], self.diagonal)
                    &&& self.closed_g@[i] == (self.closed_g@[self.closed_pred@[i] as int] + self.map.step_cost(self.closed@[self.closed_pred@[i] as int], self.closed@[i], self.diagonal))
                } by {
                if i < idx {
                    assert(o.closed_pred@[i] < i);
                }
            }
            assert forall|i: int, n: Coord|
                0 <= i < idx && #[trigger] self.map.step_ok(self.closed@[i], n, self.diagonal) implies self.in_open(n)
                    || self.closed@.contains(n) by {
                assert(self.closed@[i] == o.closed@[i]);
                assert(o.map.step_ok(o.closed@[i], n, o.diagonal));
                if o.closed@.contains(n) {
                    let t = choose|t: int| 0 <= t < o.closed@.len() && o.closed@[t] == n;
                    assert(self.closed@[t] == n);
                } else {
                    assert(o.in_open(n));
                    let t = choose|t: int| 0 <= t < o.open@.len() && (#[trigger] o.open@[t]).at == n;
                    if t == k {
                        assert(self.closed@[idx as int] == n);
                    } else if t < k {
                        assert(self.open@[t] == o.open@[t]);
                    } else {
                        assert(self.open@[t - 1] == o.open@[t]);
                    }
                }
            }
        }
        e.at
    }

    /// Puts every allowed, unfinished neighbour of the last finished cell on the
    /// frontier, or lowers its recorded cost where the new route is cheaper.
    fn expand(&mut self)
        requires
            old(self).state_ok(),
            old(self).closed@.len() > 0,
            old(self).closure_upto(old(self).closed@.len() - 1),
            old(self).order_ok(old(self).closed@.len() - 1),
        ensures
            final(self).state_ok(),
            final(self).closed@ == old(self).closed@,
            final(self).closure_upto(final(self).closed@.len() as int),
            final(self).order_ok(final(self).closed@.len() as int),
            final(self).map == old(self).map,
            final(self).diagonal == old(self).diagonal,
            final(self).heuristic == old(self).heuristic,
            final(self).status == old(self).status,
    {
        let idx = self.closed.len() - 1;
        let c = self.closed[idx];
        let gc = self.closed_g[idx];
        let nd: usize = if self.diagonal { 8 } else { 4 };
        let mut d: usize = 0;
        assert(self.map.in_bounds_spec(c)) by {
            if idx > 0 {
                assert(self.closed_pred@[idx as int] < idx);
            }
        }
        while d < nd
            invariant
                self.state_ok(),
                nd == dir_count(self.diagonal),
                d <= nd,
                idx == self.closed@.len() - 1,
                c == self.closed@[idx as int],
                gc == self.closed_g@[idx as int],
                self.map.in_bounds_spec(c),
                self.closed@ == old(self).closed@,
                self.closed_g@ == old(self).closed_g@,
                self.closure_upto(idx as int),
                self.order_ok(idx as int),
                consistent(self.heuristic, self.diagonal) ==> forall|j: int|
                    0 <= j < self.open@.len() && #[trigger] self.map.step_ok(c, self.open@[j].at, self.diagonal)
                        && dir_of(c, self.open@[j].at) < d ==> self.open@[j].g <= gc + self.map.step_cost(
                        c,
                        self.open@[j].at,
                        self.diagonal,
                    ),
                forall|n: Coord|
                    #[trigger] self.map.step_ok(c, n, self.diagonal) && dir_of(c, n) < d ==> self.in_open(n)
                        || self.closed@.contains(n),
                self.map == old(self).map,
                self.diagonal == old(self).diagonal,
                self.heuristic == old(self).heuristic,
                self.status == old(self).status,
            decreases nd - d,
        {
            let ghost before = *self;
            if let Some(n) = self.neighbor(c, d) {
                if !self.closed_contains(n) {
                    let step = self.step_cost_exec(c, n);
                    proof {
                        lemma_cost_room(gc as int, step as int, idx as int);
                    }
                    let g: u128 = gc + step as u128;
                    let f = g + nearest_exec(self.heuristic, n, self.map.targets(), self.diagonal);
                    let entry = OpenEntry { at: n, g, f, pred: idx };
                    match self.find_open(n) {
                        None => {
                            self.open.push(entry);
                        },
                        Some(j) => {
                            if g < self.open[j].g {
                                self.open.set(j, entry);
                            }
                        },
                    }
                    proof {
                        assert(self.entry_ok(entry));
                        assert forall|j: int| 0 <= j < self.open@.len() implies self.entry_ok(
                            #[trigger] self.open@[j],
                        ) by {
                            if j < before.open@.len() && self.open@[j] == before.open@[j] {
                                assert(before.entry_ok(before.open@[j]));
                            }
                        }
                        assert forall|m: Coord| before.in_open(m) implies self.in_open(m) by {
                            let t = choose|t: int| 0 <= t < before.open@.len() && (#[trigger] before.open@[t]).at == m;
                            assert(self.open@[t].at == m);
                        }
                        assert(self.in_open(n)) by {
                            if self.open@.len() > before.open@.len() {
                                assert(self.open@[before.open@.len() as int].at == n);
                            } else {
                                let t = choose|t: int| 0 <= t < self.open@.len() && (#[trigger] self.open@[t]).at == n;
                            }
                        }
                    }
                }
            }
            proof {
                assert forall|n: Coord|
                    #[trigger] self.map.step_ok(c, n, self.diagonal) && dir_of(c, n) < d + 1 implies self.in_open(n)
                        || self.closed@.contains(n) by {
                    lemma_dir_of(self.map, c, n, self.diagonal);
                    if dir_of(c, n) < d {
                        assert(before.map.step_ok(c, n, before.diagonal));
                        if before.in_open(n) {
                            let t = choose|t: int| 0 <= t < before.open@.len() && (#[trigger] before.open@[t]).at == n;
                            assert(self.open@[t].at == n);
                        }
                    }
                }
                assert forall|i: int, n: Coord|
                    0 <= i < idx && #[trigger] self.map.step_ok(self.closed@[i], n, self.diagonal) implies self.in_open(n)
                        || self.closed@.contains(n) by {
                    assert(before.map.step_ok(before.closed@[i], n, before.diagonal));
                    if before.in_open(n) {
                        let t = choose|t: int| 0 <= t < before.open@.len() && (#[trigger] before.open@[t]).at == n;
                        assert(self.open@[t].at == n);
                    }
                }
                if consistent(self.heuristic, self.diagonal) {
                    self.lemma_expand_order(before, c, idx as int, d as int);
                }
            }
            d = d + 1;
        }
        proof {
            assert forall|i: int, n: Coord|
                0 <= i < self.closed@.len() && #[trigger] self.map.step_ok(self.closed@[i], n, self.diagonal) implies self.in_open(n)
                    || self.closed@.contains(n) by {
                if i == idx {
                    lemma_dir_of(self.map, c, n, self.diagonal);
                }
            }
            if consistent(self.heuristic, self.diagonal) {
                let cl = self.closed@;
                let cg = self.closed_g@;
                let op = self.open@;
                assert forall|i: int, j: int|
                    0 <= i <= idx && 0 <= j < op.len() && #[trigger] self.map.step_ok(cl[i], op[j].at, self.diagonal)
                        implies op[j].g <= cg[i] + self.map.step_cost(cl[i], op[j].at, self.diagonal) by {
                    if i == idx {
                        lemma_dir_of(self.map, c, op[j].at, self.diagonal);
                    }
                }
                assert forall|i: int, j: int|
                    0 <= i <= idx && 0 <= j < cl.len() && #[trigger] self.map.step_ok(cl[i], cl[j], self.diagonal)
                        implies cg[j] <= cg[i] + self.map.step_cost(cl[i], cl[j], self.diagonal) by {
                    if i == idx {
                        assert(cg[j] + self.h(cl[j]) <= cg[i] + self.h(cl[i]));
                        lemma_nearest_consistent(self.map, self.heuristic, cl[i], cl[j], self.map.targets_spec(), self.diagonal);
                    }
                }
            }
        }
    }

    /// One step of the search. A finished search stays as it is. Otherwise, with an
    /// empty frontier the search ends with `NoPath`; else the frontier cell of lowest
    /// priority is finished, and the search ends with `Found` if it is a target, or
    /// puts that cell's neighbours on the frontier.
    pub fn advance(&mut self)
        requires
            old(self).inv(),
        ensures
            stepped(*old(self), *final(self)),
    {
        match &self.status {
            AlgoStatus::InProgress(_) => {},
            _ => {
                return;
            },
        }
        if self.open.len() == 0 {
            self.status = AlgoStatus::NoPath;
            return;
        }
        let c = self.pop_next();
        if self.map.is_target(c) {
            let path = self.trace_path(self.closed.len() - 1);
            let finished = Search::copy_cells(&self.closed);
            self.status = AlgoStatus::Found(path, finished);
            return;
        }
        proof {
            assert forall|i: int| 0 <= i < self.closed@.len() implies !self.map.is_target_spec(
                #[trigger] self.closed@[i],
            ) by {
                if i < self.closed@.len() - 1 {
                    assert(self.closed@[i] == old(self).closed@[i]);
                }
            }
        }
        self.expand();
        let frontier = self.open_cells();
        let finished = Search::copy_cells(&self.closed);
        self.status = AlgoStatus::InProgress((frontier, finished));
    }

    /// One direction of `expand` keeps the ordering facts: a frontier cost only
    /// falls, and only to the expanded cell's cost plus the move's, whose priority no
    /// finished priority exceeds.
    proof fn lemma_expand_order(&self, before: Search, c: Coord, idx: int, d: int)
        requires
            consistent(self.heuristic, self.diagonal),
            self.heuristic == before.heuristic,
            self.map == before.map,
            self.diagonal == before.diagonal,
            self.closed@ == before.closed@,
            self.closed_g@ == before.closed_g@,
            0 <= idx == self.closed@.len() - 1,
            c == self.closed@[idx],
            before.state_ok(),
            self.state_ok(),
            before.closure_upto(idx),
            before.order_ok(idx),
            forall|j: int|
                0 <= j < before.open@.len() && #[trigger] before.map.step_ok(c, before.open@[j].at, before.diagonal)
                    && dir_of(c, before.open@[j].at) < d ==> before.open@[j].g <= before.closed_g@[idx]
                    + before.map.step_cost(c, before.open@[j].at, before.diagonal),
            // the frontier only gains entries at its end, or has one entry replaced by a cheaper one for
            // a cell in direction `d`
            self.open@.len() >= before.open@.len(),
            forall|j: int|
                0 <= j < before.open@.len() ==> (#[trigger] self.open@[j]).at == before.open@[j].at && (
                self.open@[j] == before.open@[j] || (self.open@[j].g <= before.open@[j].g
                    && dir_of(c, self.open@[j].at) == d && self.open@[j].g == (self.closed_g@[idx] + self.map.step_cost(c, self.open@[j].at, self.diagonal)) && self.map.step_ok(c, self.open@[j].at, self.diagonal))),
            forall|j: int|
                before.open@.len() <= j < self.open@.len() ==> !before.in_open((#[trigger] self.open@[j]).at)
                    && !self.closed@.contains(self.open@[j].at) && dir_of(c, self.open@[j].at) == d
                    && self.map.step_ok(c, self.open@[j].at, self.diagonal) && self.open@[j].g == (self.closed_g@[idx] + self.map.step_cost(c, self.open@[j].at, self.diagonal)),
            forall|n: Coord|
                self.map.step_ok(c, n, self.diagonal) && dir_of(c, n) == d && !self.closed@.contains(n) ==> exists|
                    j: int,
                | 0 <= j < self.open@.len() && (#[trigger] self.open@[j]).at == n && self.open@[j].g <= (self.closed_g@[idx] + self.map.step_cost(c, n, self.diagonal)),
        ensures
            self.order_ok(idx),
            forall|j: int|
                0 <= j < self.open@.len() && #[trigger] self.map.step_ok(c, self.open@[j].at, self.diagonal)
                    && dir_of(c, self.open@[j].at) < d + 1 ==> self.open@[j].g <= self.closed_g@[idx]
                    + self.map.step_cost(c, self.open@[j].at, self.diagonal),
    {
        let cl = self.closed@;
        let cg = self.closed_g@;
        let op = self.open@;
        let bo = before.open@;
        assert forall|i: int, j: int| 0 <= i < cl.len() && 0 <= j < op.len() implies #[trigger] cg[i]
            + self.h(cl[i]) <= (#[trigger] op[j]).f by {
            assert(cg[i] + self.h(cl[i]) <= cg[idx] + self.h(c));
            assert(self.entry_ok(op[j]));
            if j < bo.len() && op[j] == bo[j] {
                assert(before.closed_g@[i] + before.h(before.closed@[i]) <= bo[j].f);
            } else {
                lemma_nearest_consistent(self.map, self.heuristic, c, op[j].at, self.map.targets_spec(), self.diagonal);
            }
        }
        assert forall|i: int, j: int|
            0 <= i < idx && 0 <= j < op.len() && #[trigger] self.map.step_ok(cl[i], op[j].at, self.diagonal)
                implies op[j].g <= cg[i] + self.map.step_cost(cl[i], op[j].at, self.diagonal) by {
            if j < bo.len() {
                assert(before.map.step_ok(cl[i], bo[j].at, before.diagonal));
            } else {
                assert(before.map.step_ok(before.closed@[i], op[j].at, before.diagonal));
                assert(!before.in_open(op[j].at));
            }
        }
        assert forall|j: int|
            0 <= j < op.len() && #[trigger] self.map.step_ok(c, op[j].at, self.diagonal) && dir_of(c, op[j].at)
                < d + 1 implies op[j].g <= cg[idx] + self.map.step_cost(c, op[j].at, self.diagonal) by {
            if j < bo.len() && op[j] == bo[j] {
                assert(before.map.step_ok(c, bo[j].at, before.diagonal));
                if dir_of(c, op[j].at) == d {
                    let n = op[j].at;
                    assert(!cl.contains(n));
                    let jj = choose|jj: int| 0 <= jj < op.len() && (#[trigger] op[jj]).at == n && op[jj].g <= (cg[idx] + self.map.step_cost(c, n, self.diagonal));
                    assert(jj == j);
                }
            }
        }
    }

    /// The path from the start to finished cell `last`.
    fn trace_path(&self, last: usize) -> (r: Vec<Coord>)
        requires
            self.state_ok(),
            last < self.closed@.len(),
        ensures
            r@ == reversed(trace_back(self.closed@, self.closed_pred@, last as int)),
    {
        let mut rev: Vec<Coord> = Vec::new();
        let mut cur: usize = last;
        while cur > 0
            invariant
                self.state_ok(),
                cur <= last < self.closed@.len(),
                rev@ + trace_back(self.closed@, self.closed_pred@, cur as int) == trace_back(
                    self.closed@,
                    self.closed_pred@,
                    last as int,
                ),
            decreases cur,
        {
            let p = self.closed_pred[cur];
            assert(self.closed_pred@[cur as int] < cur);
            let ghost old_rev = rev@;
            rev.push(self.closed[cur]);
            assert(rev@ + trace_back(self.closed@, self.closed_pred@, p as int) =~= old_rev
                + trace_back(self.closed@, self.closed_pred@, cur as int));
            cur = p;
        }
        let ghost old_rev = rev@;
        rev.push(self.closed[0]);
        assert(rev@ =~= old_rev + trace_back(self.closed@, self.closed_pred@, 0));
        let mut out: Vec<Coord> = Vec::new();
        let mut j: usize = rev.len();
        while j > 0
            invariant
                j <= rev@.len(),
                out@.len() + j == rev@.len(),
                out@ =~= Seq::new(out@.len(), |k: int| rev@[rev@.len() - 1 - k]),
            decreases j,
        {
            j = j - 1;
            out.push(rev[j]);
        }
        out
    }
}

impl Algorithm for Search {
    open spec fn valid(&self) -> bool {
        self.inv()
    }

    open spec fn current(&self) -> AlgoStatus {
        self.status_spec()
    }

    open spec fn frontier_len(&self) -> nat {
        self.open_spec().len()
    }

    open spec fn finished_len(&self) -> nat {
        self.closed_spec().len()
    }

    fn tick(&mut self) {
        self.advance();
    }

    fn get_data(&self) -> (r: &AlgoStatus) {
        self.status()
    }
}

impl Algo {
    /// A fresh search of this strategy over `map`. The uniform-cost strategy takes
    /// no heuristic and ignores the one given.
    pub fn create(&self, map: GridMap, heuristic: Heuristic, diagonal: bool) -> (r: Search)
        requires
            map.wf(),
        ensures
            r.inv(),
            r.map_spec() == map,
            r.diagonal_spec() == diagonal,
            r.heuristic_spec() == (if *self == Algo::AStar { heuristic } else { Heuristic::Zero }),
            r.open_spec() == seq![map.start_spec()],
            r.closed_spec().len() == 0,
            r.status_spec() is InProgress,
    {
        match self {
            Algo::AStar => Search::new(map, heuristic, diagonal),
            Algo::Dijkstra => Search::new(map, Heuristic::Zero, diagonal),
        }
    }
}

/// What one step does to a search: it keeps the grid, the heuristic and the mode,
/// the invariant and a status that shows its own cells. A finished search stays as
/// it is. Otherwise, with an empty frontier it ends with `NoPath`; else it finishes
/// `next_spec`, and ends with `Found` exactly when that cell is a target.
pub open spec fn stepped(before: Search, after: Search) -> bool {
    &&& after.inv()
    &&& after.snapshot_ok()
    &&& after.map_spec() == before.map_spec()
    &&& after.diagonal_spec() == before.diagonal_spec()
    &&& after.heuristic_spec() == before.heuristic_spec()
    &&& before.status_spec().is_terminal() ==> after.status_spec() == before.status_spec()
        && after.closed_spec() == before.closed_spec()
    &&& !before.status_spec().is_terminal() && before.open_spec().len() == 0 ==> after.status_spec() is NoPath
        && after.closed_spec() == before.closed_spec()
    &&& !before.status_spec().is_terminal() && before.open_spec().len() > 0 ==> {
        &&& after.closed_spec() == before.closed_spec().push(before.next_spec())
        &&& before.map_spec().is_target_spec(before.next_spec()) ==> after.status_spec() is Found
        &&& !before.map_spec().is_target_spec(before.next_spec()) ==> after.status_spec() is InProgress
    }
}

/// The cells of the grid that a search may enter.
pub open spec fn free_cells(m: GridMap) -> Set<Coord> {
    Set::new(|c: Coord| m.free(c))
}

/// A valid grid has finitely many free cells.
pub proof fn lemma_free_cells_finite(m: GridMap)
    requires
        m.wf(),
    ensures
        free_cells(m).finite(),
{
    let w = m.width_spec();
    let h = m.height_spec();
    assert(w * h >= 0) by (nonlinear_arith)
        requires
            w > 0,
            h > 0;
    lemma_int_range(0, w * h);
    let f = |i: int| Coord { x: (i / h) as usize, y: (i % h) as usize };
    let grid = set_int_range(0, w * h).map(f);
    set_int_range(0, w * h).lemma_map_finite(f);
    assert forall|c: Coord| free_cells(m).contains(c) implies grid.contains(c) by {
        let i = c.x * h + c.y;
        assert(c.x * h + c.y < w * h) by (nonlinear_arith)
            requires
                c.x < w,
                c.y < h,
                0 <= c.y;
        assert(0 <= c.x * h) by (nonlinear_arith)
            requires
                c.x >= 0,
                h > 0;
        lemma_fundamental_div_mod_converse(i, h, c.x as int, c.y as int);
        assert(set_int_range(0, w * h).contains(i));
        assert(f(i) == c);
    }
    lemma_len_subset(free_cells(m), grid);
}

impl Search {
    /// Every finished cell is free.
    proof fn lemma_closed_free(&self, i: int)
        requires
            self.state_ok(),
            0 <= i < self.closed@.len(),
        ensures
            self.map.free(self.closed@[i]),
    {
        if i > 0 {
            assert(self.closed_pred@[i] < i);
        }
    }

    /// Following the predecessors from finished cell `i` reaches the start, one
    /// allowed move at a time.
    proof fn lemma_trace_back(&self, i: int)
        requires
            self.state_ok(),
            0 <= i < self.closed@.len(),
        ensures
            trace_back(self.closed@, self.closed_pred@, i).len() >= 1,
            trace_back(self.closed@, self.closed_pred@, i)[0] == self.closed@[i],
            trace_back(self.closed@, self.closed_pred@, i).last() == self.map.start_spec(),
            forall|k: int|
                0 <= k < trace_back(self.closed@, self.closed_pred@, i).len() - 1 ==> self.map.step_ok(
                    #[trigger] trace_back(self.closed@, self.closed_pred@, i)[k + 1],
                    trace_back(self.closed@, self.closed_pred@, i)[k],
                    self.diagonal,
                ),
        decreases i,
    {
        if i > 0 {
            let p = self.closed_pred@[i] as int;
            assert(p < i);
            self.lemma_trace_back(p);
            let t = trace_back(self.closed@, self.closed_pred@, i);
            let tp = trace_back(self.closed@, self.closed_pred@, p);
            assert(t == seq![self.closed@[i]] + tp);
            assert forall|k: int| 0 <= k < t.len() - 1 implies self.map.step_ok(
                #[trigger] t[k + 1],
                t[k],
                self.diagonal,
            ) by {
                if k > 0 {
                    assert(t[k + 1] == tp[k]);
                    assert(t[k] == tp[k - 1]);
                    assert(self.map.step_ok(tp[(k - 1) + 1], tp[k - 1], self.diagonal));
                }
            }
        }
    }

    /// A valid search's status shows its own frontier and finished cells.
    pub proof fn lemma_snapshot(&self)
        requires
            self.inv(),
        ensures
            self.snapshot_ok(),
    {
    }

    /// The next cell to finish is on the frontier at `next_index`; its priority is
    /// the lowest there, strictly lower than that of every cell discovered before it;
    /// and each priority is the cell's cost so far plus its estimate.
    pub proof fn lemma_next(&self)
        requires
            self.inv(),
            self.open_spec().len() > 0,
        ensures
            0 <= self.next_index() < self.open_spec().len(),
            self.open_spec()[self.next_index()] == self.next_spec(),
            self.open_costs().len() == self.open_spec().len(),
            self.open_priorities().len() == self.open_spec().len(),
            forall|j: int|
                0 <= j < self.open_spec().len() ==> self.open_priorities()[self.next_index()]
                    <= #[trigger] self.open_priorities()[j],
            forall|j: int|
                0 <= j < self.next_index() ==> self.open_priorities()[self.next_index()]
                    < #[trigger] self.open_priorities()[j],
            forall|j: int|
                0 <= j < self.open_spec().len() ==> #[trigger] self.open_priorities()[j] == self.open_costs()[j]
                    + self.h(self.open_spec()[j]),
    {
        lemma_first_min(self.open@);
        assert forall|j: int| 0 <= j < self.open_spec().len() implies #[trigger] self.open_priorities()[j]
            == self.open_costs()[j] + self.h(self.open_spec()[j]) by {
            assert(self.entry_ok(self.open@[j]));
        }
    }

    /// The frontier and the finished cells never share a cell.
    pub proof fn lemma_open_closed_disjoint(&self)
        requires
            self.inv(),
        ensures
            forall|c: Coord| self.open_spec().contains(c) ==> !self.closed_spec().contains(c),
            match self.status_spec() {
                AlgoStatus::InProgress((o, c)) => forall|x: Coord| o@.contains(x) ==> !c@.contains(x),
                _ => true,
            },
    {
        assert forall|c: Coord| self.open_spec().contains(c) implies !self.closed_spec().contains(c) by {
            let j = choose|j: int| 0 <= j < self.open_spec().len() && self.open_spec()[j] == c;
            assert(self.open@[j].at == c);
        }
    }

    /// A path that a search reports starts at the start, ends on a target, and
    /// each of its cells is one allowed move from the one before.
    pub proof fn lemma_found_path_valid(&self)
        requires
            self.inv(),
            self.status_spec() is Found,
        ensures
            match self.status_spec() {
                AlgoStatus::Found(p, _) => {
                    &&& p@[0] == self.map_spec().start_spec()
                    &&& self.map_spec().is_target_spec(p@.last())
                    &&& is_walk(self.map_spec(), p@, self.diagonal_spec())
                },
                _ => true,
            },
    {
        if let AlgoStatus::Found(p, _) = self.status {
            let last = self.closed@.len() - 1;
            self.lemma_trace_back(last);
            let t = trace_back(self.closed@, self.closed_pred@, last);
            assert(p@.len() == t.len());
            assert(p@[0] == t[t.len() - 1]);
            assert(p@.last() == t[0]);
            assert forall|k: int| 0 <= k < p@.len() - 1 implies self.map.step_ok(
                #[trigger] p@[k],
                p@[k + 1],
                self.diagonal,
            ) by {
                let kk = t.len() - 2 - k;
                assert(p@[k] == t[kk + 1]);
                assert(p@[k + 1] == t[kk]);
            }
        }
    }

    /// A diagonal move on a reported path never squeezes between two obstacles.
    pub proof fn lemma_found_path_no_corner_cutting(&self)
        requires
            self.inv(),
            self.status_spec() is Found,
        ensures
            match self.status_spec() {
                AlgoStatus::Found(p, _) => forall|k: int|
                    0 <= k < p@.len() - 1 && (#[trigger] p@[k]).x != p@[k + 1].x && p@[k].y != p@[k + 1].y
                        ==> !(self.map_spec().obstacle(Coord { x: p@[k + 1].x, y: p@[k].y })
                        && self.map_spec().obstacle(Coord { x: p@[k].x, y: p@[k + 1].y })),
                _ => true,
            },
    {
        self.lemma_found_path_valid();
    }

    /// A search that ends with `NoPath` has finished every cell that some walk from
    /// the start reaches, so no such walk reaches a target.
    pub proof fn lemma_no_path_unreachable(&self, p: Seq<Coord>)
        requires
            self.inv(),
            self.status_spec() is NoPath,
            is_walk(self.map_spec(), p, self.diagonal_spec()),
            p[0] == self.map_spec().start_spec(),
        ensures
            forall|k: int| 0 <= k < p.len() ==> !self.map_spec().is_target_spec(#[trigger] p[k]),
    {
        assert forall|k: int| 0 <= k < p.len() implies !self.map_spec().is_target_spec(#[trigger] p[k]) by {
            self.lemma_walk_closed(p, k);
            let t = choose|t: int| 0 <= t < self.closed@.len() && self.closed@[t] == p[k];
        }
    }

    /// Where some walk from the start reaches a target, the search never ends with
    /// `NoPath`; as it ends within the bound of `lemma_closed_bounded`, it ends with `Found`.
    pub proof fn lemma_reachable_never_no_path(&self, p: Seq<Coord>)
        requires
            self.inv(),
            is_walk(self.map_spec(), p, self.diagonal_spec()),
            p[0] == self.map_spec().start_spec(),
            self.map_spec().is_target_spec(p.last()),
        ensures
            !(self.status_spec() is NoPath),
    {
        if self.status_spec() is NoPath {
            self.lemma_no_path_unreachable(p);
            assert(!self.map_spec().is_target_spec(p[p.len() - 1]));
        }
    }

    /// The path traced back from finished cell `i` costs what was recorded for `i`.
    proof fn lemma_trace_cost(&self, i: int)
        requires
            self.state_ok(),
            0 <= i < self.closed@.len(),
        ensures
            walk_cost(self.map, reversed(trace_back(self.closed@, self.closed_pred@, i)), self.diagonal)
                == self.closed_g@[i],
        decreases i,
    {
        let t = trace_back(self.closed@, self.closed_pred@, i);
        if i > 0 {
            let p = self.closed_pred@[i] as int;
            assert(p < i);
            let tp = trace_back(self.closed@, self.closed_pred@, p);
            self.lemma_trace_back(p);
            self.lemma_trace_cost(p);
            assert(t == seq![self.closed@[i]] + tp);
            let r = reversed(t);
            let rp = reversed(tp);
            assert(r.drop_last() =~= rp);
            assert(r[r.len() - 1] == self.closed@[i]);
            assert(r[r.len() - 2] == tp[0]);
        } else {
            assert(t.len() == 1);
        }
    }

    /// No estimate exceeds the cost of a walk from the cell to a target.
    proof fn lemma_admissible(&self, q: Seq<Coord>, k: int)
        requires
            self.state_ok(),
            consistent(self.heuristic, self.diagonal),
            is_walk(self.map, q, self.diagonal),
            self.map.is_target_spec(q.last()),
            0 <= k < q.len(),
        ensures
            self.h(q[k]) <= walk_cost(self.map, q.subrange(k, q.len() as int), self.diagonal),
        decreases q.len() - k,
    {
        let ts = self.map.targets_spec();
        if k == q.len() - 1 {
            assert(q[k] == q.last());
            lemma_nearest_bounds(self.heuristic, q[k], ts, self.diagonal);
            assert(q.subrange(k, q.len() as int).len() == 1);
        } else {
            self.lemma_admissible(q, k + 1);
            assert(self.map.step_ok(q[k], q[k + 1], self.diagonal));
            lemma_nearest_consistent(self.map, self.heuristic, q[k], q[k + 1], ts, self.diagonal);
            let r = q.subrange(k, q.len() as int);
            lemma_walk_split(self.map, r, self.diagonal, 1);
            assert(r.subrange(0, 2) =~= seq![q[k], q[k + 1]]);
            assert(seq![q[k], q[k + 1]].drop_last() =~= seq![q[k]]);
            assert(walk_cost(self.map, seq![q[k]], self.diagonal) == 0);
            assert(walk_cost(self.map, seq![q[k], q[k + 1]], self.diagonal) == self.map.step_cost(
                q[k],
                q[k + 1],
                self.diagonal,
            ));
            assert(r.subrange(1, r.len() as int) =~= q.subrange(k + 1, q.len() as int));
        }
    }

    /// Walking `q` from the start to a target: either the cost recorded for the last
    /// finished cell is at most the walk's cost, or after `m` moves the walk stands
    /// on an expanded finished cell whose recorded cost is at most what it has spent.
    proof fn lemma_walk_prefix(&self, q: Seq<Coord>, m: int)
        requires
            self.inv(),
            consistent(self.heuristic, self.diagonal),
            self.status is Found,
            is_walk(self.map, q, self.diagonal),
            q[0] == self.map.start_spec(),
            self.map.is_target_spec(q.last()),
            0 <= m < q.len(),
        ensures
            self.closed_g@.last() <= walk_cost(self.map, q, self.diagonal) || exists|t: int|
                0 <= t < self.closed@.len() - 1 && self.closed@[t] == q[m] && #[trigger] self.closed_g@[t]
                    <= walk_cost(self.map, q.subrange(0, m + 1), self.diagonal),
        decreases m,
    {
        let last = self.closed@.len() - 1;
        let cl = self.closed@;
        let cg = self.closed_g@;
        let ts = self.map.targets_spec();
        lemma_walk_split(self.map, q, self.diagonal, m);
        lemma_walk_cost_nonneg(self.map, q.subrange(m, q.len() as int), self.diagonal);
        lemma_nearest_bounds(self.heuristic, cl[last], ts, self.diagonal);
        if m == 0 {
            assert(q.subrange(0, 1).len() == 1);
            lemma_walk_cost_nonneg(self.map, q, self.diagonal);
            if last > 0 {
                assert(cg[0] <= walk_cost(self.map, q.subrange(0, 1), self.diagonal));
            }
        } else {
            self.lemma_walk_prefix(q, m - 1);
            let before = walk_cost(self.map, q.subrange(0, m), self.diagonal);
            let now = walk_cost(self.map, q.subrange(0, m + 1), self.diagonal);
            let step = self.map.step_cost(q[m - 1], q[m], self.diagonal);
            assert(q.subrange(0, m + 1).drop_last() =~= q.subrange(0, m));
            assert(now == before + step);
            assert(self.map.step_ok(q[m - 1], q[(m - 1) + 1], self.diagonal));
            if cg[last] <= walk_cost(self.map, q, self.diagonal) {
            } else {
                let t = choose|t: int| 0 <= t < last && cl[t] == q[m - 1] && #[trigger] cg[t] <= before;
                assert(self.map.step_ok(cl[t], q[m], self.diagonal));
                if cl.contains(q[m]) {
                    let t2 = choose|t2: int| 0 <= t2 < cl.len() && cl[t2] == q[m];
                    assert(cg[t2] <= cg[t] + step);
                    if t2 < last {
                        assert(cg[t2] <= now);
                    }
                } else {
                    assert(self.in_open(q[m]));
                    let j = choose|j: int| 0 <= j < self.open@.len() && (#[trigger] self.open@[j]).at == q[m];
                    assert(self.entry_ok(self.open@[j]));
                    assert(cg[last] + self.h(cl[last]) <= self.open@[j].f);
                    self.lemma_admissible(q, m);
                }
            }
        }
    }

    /// With a consistent heuristic (or none) the reported path is a cheapest one: no
    /// walk from the start to a target costs less.
    pub proof fn lemma_found_path_optimal(&self, q: Seq<Coord>)
        requires
            self.inv(),
            consistent(self.heuristic_spec(), self.diagonal_spec()),
            self.status_spec() is Found,
            is_walk(self.map_spec(), q, self.diagonal_spec()),
            q[0] == self.map_spec().start_spec(),
            self.map_spec().is_target_spec(q.last()),
        ensures
            match self.status_spec() {
                AlgoStatus::Found(p, _) => walk_cost(self.map_spec(), p@, self.diagonal_spec()) <= walk_cost(
                    self.map_spec(),
                    q,
                    self.diagonal_spec(),
                ),
                _ => true,
            },
    {
        let last = self.closed@.len() - 1;
        self.lemma_walk_prefix(q, q.len() - 1);
        assert(q.subrange(0, q.len() as int) =~= q);
        if !(self.closed_g@[last] <= walk_cost(self.map, q, self.diagonal)) {
            let t = choose|t: int|
                0 <= t < last && self.closed@[t] == q[q.len() - 1] && #[trigger] self.closed_g@[t] <= walk_cost(
                    self.map,
                    q,
                    self.diagonal,
                );
            assert(!self.map.is_target_spec(self.closed@[t]));
        }
        self.lemma_trace_cost(last);
    }

    proof fn lemma_walk_closed(&self, p: Seq<Coord>, k: int)
        requires
            self.inv(),
            self.status_spec() is NoPath,
            is_walk(self.map_spec(), p, self.diagonal_spec()),
            p[0] == self.map_spec().start_spec(),
            0 <= k < p.len(),
        ensures
            self.closed@.contains(p[k]),
        decreases k,
    {
        if k == 0 {
            assert(self.closed@[0] == p[0]);
        } else {
            self.lemma_walk_closed(p, k - 1);
            let t = choose|t: int| 0 <= t < self.closed@.len() && self.closed@[t] == p[k - 1];
            assert(self.map.step_ok(p[k - 1], p[(k - 1) + 1], self.diagonal));
            assert(self.map.step_ok(self.closed@[t], p[k], self.diagonal));
            if self.in_open(p[k]) {
                let j = choose|j: int| 0 <= j < self.open@.len() && (#[trigger] self.open@[j]).at == p[k];
            }
        }
    }

    /// A search never finishes more cells than the grid has free cells, and each
    /// step that does not end the search finishes one more: so a search ends within
    /// one step more than the number of free cells.
    pub proof fn lemma_closed_bounded(&self)
        requires
            self.inv(),
        ensures
            free_cells(self.map_spec()).finite(),
            self.closed_spec().len() <= free_cells(self.map_spec()).len(),
    {
        lemma_free_cells_finite(self.map);
        self.closed@.unique_seq_to_set();
        assert forall|c: Coord| self.closed@.to_set().contains(c) implies free_cells(self.map).contains(c) by {
            let i = choose|i: int| 0 <= i < self.closed@.len() && self.closed@[i] == c;
            self.lemma_closed_free(i);
        }
        lemma_len_subset(self.closed@.to_set(), free_cells(self.map));
    }
}

} // verus!
