use vstd::prelude::*;

verus! {

/// A cell of the grid: column `x`, row `y`.
#[derive(Debug, Clone, Copy, PartialEq, Eq, Structural, Hash)]
pub struct Coord {
    pub x: usize,
    pub y: usize,
}

impl Coord {
    pub fn new(x: usize, y: usize) -> (r: Coord)
        ensures
            r.x == x,
            r.y == y,
    {
        Coord { x, y }
    }
}

/// Why a grid could not be built.
#[derive(Debug, Clone, Copy, PartialEq, Eq, Structural)]
pub enum MapError {
    /// The width or the height is zero.
    EmptyDimensions,
    /// The cost grid does not have `width` columns of `height` cells.
    CostShape,
    /// The start lies outside the grid.
    StartOutOfBounds,
    /// The start lies on an obstacle.
    StartOnObstacle,
    /// No target was given.
    NoTargets,
    /// A target lies outside the grid.
    TargetOutOfBounds,
    /// A target lies on an obstacle.
    TargetOnObstacle,
}

/// Multiplier of an orthogonal step in diagonal mode.
pub const ORTHOGONAL_UNIT: u64 = 10;

/// Multiplier of a diagonal step in diagonal mode (ten times the square root of two, rounded).
pub const DIAGONAL_UNIT: u64 = 14;

/// A static weighted grid: `cost[x][y]` is the cost of entering cell `(x, y)`,
/// a negative cost marks an obstacle, and a cost of zero counts as one.
pub struct GridMap {
    width: usize,
    height: usize,
    cost: Vec<Vec<i32>>,
    start: Coord,
    targets: Vec<Coord>,
}

pub open spec fn cost_shape_ok(width: int, height: int, cost: Seq<Vec<i32>>) -> bool {
    cost.len() == width && forall|x: int| 0 <= x < width ==> (#[trigger] cost[x])@.len() == height
}

pub open spec fn within(width: int, height: int, c: Coord) -> bool {
    c.x < width && c.y < height
}

pub open spec fn blocked(cost: Seq<Vec<i32>>, c: Coord) -> bool {
    cost[c.x as int]@[c.y as int] < 0
}

/// The first rule of grid validity that the given parts break, if any.
pub open spec fn map_error(
    width: int,
    height: int,
    cost: Seq<Vec<i32>>,
    start: Coord,
    targets: Seq<Coord>,
) -> Option<MapError> {
    if width == 0 || height == 0 {
        Some(MapError::EmptyDimensions)
    } else if !cost_shape_ok(width, height, cost) {
        Some(MapError::CostShape)
    } else if !within(width, height, start) {
        Some(MapError::StartOutOfBounds)
    } else if blocked(cost, start) {
        Some(MapError::StartOnObstacle)
    } else if targets.len() == 0 {
        Some(MapError::NoTargets)
    } else if exists|i: int| 0 <= i < targets.len() && !within(width, height, #[trigger] targets[i]) {
        Some(MapError::TargetOutOfBounds)
    } else if exists|i: int| 0 <= i < targets.len() && blocked(cost, #[trigger] targets[i]) {
        Some(MapError::TargetOnObstacle)
    } else {
        None
    }
}

pub open spec fn abs_diff(a: usize, b: usize) -> int {
    if a >= b { a - b } else { b - a }
}

impl GridMap {
    pub closed spec fn width_spec(&self) -> int {
        self.width as int
    }

    pub closed spec fn height_spec(&self) -> int {
        self.height as int
    }

    pub closed spec fn cost_spec(&self) -> Seq<Vec<i32>> {
        self.cost@
    }

    pub closed spec fn start_spec(&self) -> Coord {
        self.start
    }

    pub closed spec fn targets_spec(&self) -> Seq<Coord> {
        self.targets@
    }

    /// Every grid that `new` hands out satisfies this.
    pub open spec fn wf(&self) -> bool {
        map_error(
            self.width_spec(),
            self.height_spec(),
            self.cost_spec(),
            self.start_spec(),
            self.targets_spec(),
        ) is None
    }

    pub open spec fn in_bounds_spec(&self, c: Coord) -> bool {
        within(self.width_spec(), self.height_spec(), c)
    }

    pub open spec fn cell_cost(&self, c: Coord) -> int {
        self.cost_spec()[c.x as int]@[c.y as int] as int
    }

    pub open spec fn obstacle(&self, c: Coord) -> bool {
        self.cell_cost(c) < 0
    }

    /// A cell that a search may enter.
    pub open spec fn free(&self, c: Coord) -> bool {
        self.in_bounds_spec(c) && !self.obstacle(c)
    }

    pub open spec fn is_target_spec(&self, c: Coord) -> bool {
        self.targets_spec().contains(c)
    }

    /// One move from `a` to `b`: to a free cell next to `a`, orthogonally, or
    /// diagonally in diagonal mode, where a diagonal move may not squeeze between
    /// two obstacles that stand orthogonally next to both cells.
    pub open spec fn step_ok(&self, a: Coord, b: Coord, diagonal: bool) -> bool {
        let dx = abs_diff(a.x, b.x);
        let dy = abs_diff(a.y, b.y);
        &&& self.in_bounds_spec(a)
        &&& self.free(b)
        &&& dx <= 1 && dy <= 1 && dx + dy >= 1
        &&& (dx + dy == 2 ==> diagonal && !(self.obstacle(Coord { x: b.x, y: a.y })
            && self.obstacle(Coord { x: a.x, y: b.y })))
    }

    /// The cost of entering `b` from `a`: the cell's cost, at least one; in diagonal
    /// mode scaled by ten for an orthogonal move and by fourteen for a diagonal one.
    pub open spec fn step_cost(&self, a: Coord, b: Coord, diagonal: bool) -> int {
        let base = if self.cell_cost(b) < 1 { 1 } else { self.cell_cost(b) };
        if !diagonal {
            base
        } else if a.x != b.x && a.y != b.y {
            base * DIAGONAL_UNIT
        } else {
            base * ORTHOGONAL_UNIT
        }
    }

    /// Builds a grid from its parts, or says which rule of validity they break first.
    pub fn new(width: usize, height: usize, cost: Vec<Vec<i32>>, start: Coord, targets: Vec<Coord>) -> (r:
        Result<GridMap, MapError>)
        ensures
            match r {
                Ok(m) => {
                    &&& map_error(width as int, height as int, cost@, start, targets@) is None
                    &&& m.width_spec() == width && m.height_spec() == height
                    &&& m.cost_spec() == cost@ && m.start_spec() == start
                    &&& m.targets_spec() == targets@
                    &&& m.wf()
                },
                Err(e) => map_error(width as int, height as int, cost@, start, targets@) == Some(e),
            },
    {
        if width == 0 || height == 0 {
            return Err(MapError::EmptyDimensions);
        }
        if cost.len() != width {
            return Err(MapError::CostShape);
        }
        let mut x: usize = 0;
        while x < width
            invariant
                x <= width,
                width > 0,
                height > 0,
                cost@.len() == width,
                forall|i: int| 0 <= i < x ==> (#[trigger] cost@[i])@.len() == height,
            decreases width - x,
        {
            if cost[x].len() != height {
                assert(!cost_shape_ok(width as int, height as int, cost@)) by {
                    assert(cost@[x as int]@.len() != height);
                }
                return Err(MapError::CostShape);
            }
            x = x + 1;
        }
        if start.x >= width || start.y >= height {
            return Err(MapError::StartOutOfBounds);
        }
        if cost[start.x][start.y] < 0 {
            return Err(MapError::StartOnObstacle);
        }
        if targets.len() == 0 {
            return Err(MapError::NoTargets);
        }
        let mut i: usize = 0;
        while i < targets.len()
            invariant
                i <= targets.len(),
                width > 0,
                height > 0,
                cost_shape_ok(width as int, height as int, cost@),
                within(width as int, height as int, start),
                !blocked(cost@, start),
                forall|j: int| 0 <= j < i ==> within(width as int, height as int, #[trigger] targets@[j]),
            decreases targets.len() - i,
        {
            if targets[i].x >= width || targets[i].y >= height {
                assert(!within(width as int, height as int, targets@[i as int]));
                return Err(MapError::TargetOutOfBounds);
            }
            i = i + 1;
        }
        let mut i: usize = 0;
        while i < targets.len()
            invariant
                i <= targets.len(),
                width > 0,
                height > 0,
                targets.len() > 0,
                cost_shape_ok(width as int, height as int, cost@),
                within(width as int, height as int, start),
                !blocked(cost@, start),
                forall|j: int| 0 <= j < targets.len() ==> within(width as int, height as int, #[trigger] targets@[j]),
                forall|j: int| 0 <= j < i ==> !blocked(cost@, #[trigger] targets@[j]),
            decreases targets.len() - i,
        {
            if cost[targets[i].x][targets[i].y] < 0 {
                assert(blocked(cost@, targets@[i as int]));
                return Err(MapError::TargetOnObstacle);
            }
            i = i + 1;
        }
        Ok(GridMap { width, height, cost, start, targets })
    }

    pub fn width(&self) -> (r: usize)
        ensures
            r == self.width_spec(),
    {
        self.width
    }

    pub fn height(&self) -> (r: usize)
        ensures
            r == self.height_spec(),
    {
        self.height
    }

    pub fn start(&self) -> (r: Coord)
        ensures
            r == self.start_spec(),
    {
        self.start
    }

    pub fn targets(&self) -> (r: &Vec<Coord>)
        ensures
            r@ == self.targets_spec(),
    {
        &self.targets
    }

    pub fn in_bounds(&self, c: Coord) -> (r: bool)
        ensures
            r == self.in_bounds_spec(c),
    {
        c.x < self.width && c.y < self.height
    }

    /// The cost of a cell, or `None` outside the grid.
    pub fn cost_at(&self, c: Coord) -> (r: Option<i32>)
        requires
            self.wf(),
        ensures
            match r {
                Some(v) => self.in_bounds_spec(c) && v == self.cell_cost(c),
                None => !self.in_bounds_spec(c),
            },
    {
        if c.x < self.width && c.y < self.height {
            Some(self.cost[c.x][c.y])
        } else {
            None
        }
    }

    /// Whether a cell lies inside the grid and is an obstacle.
    pub fn is_obstacle(&self, c: Coord) -> (r: bool)
        requires
            self.wf(),
        ensures
            r == (self.in_bounds_spec(c) && self.obstacle(c)),
    {
        c.x < self.width && c.y < self.height && self.cost[c.x][c.y] < 0
    }

    /// Whether a cell is one of the targets.
    pub fn is_target(&self, c: Coord) -> (r: bool)
        ensures
            r == self.is_target_spec(c),
    {
        let mut i: usize = 0;
        while i < self.targets.len()
            invariant
                i <= self.targets@.len(),
                forall|j: int| 0 <= j < i ==> self.targets@[j] != c,
            decreases self.targets.len() - i,
        {
            if self.targets[i] == c {
                return true;
            }
            i = i + 1;
        }
        false
    }
}

} // verus!
