use vstd::prelude::*;

verus! {

/// A cell coordinate: (x, y) with x in [0, width) and y in [0, height).
#[derive(Clone, Copy, Debug, PartialEq, Eq, Structural)]
pub struct Point {
    pub x: usize,
    pub y: usize,
}

/// One cell of the grid. `top_open` is true when the wall toward (x, y-1) has
/// been carved away; `left_open` when the wall toward (x-1, y) has. Each
/// interior wall is owned by exactly one cell's flag: the cell on the far side
/// of the wall from the origin. `visited` is used only during carving.
#[derive(Clone, Copy, Debug)]
pub struct Square {
    pub top_open: bool,
    pub left_open: bool,
    pub visited: bool,
    pub loc: Point,
}

impl Square {
    pub fn new(x: usize, y: usize) -> (s: Self)
        ensures
            s == (Square { top_open: false, left_open: false, visited: false, loc: Point { x, y } }),
    {
        Self { top_open: false, left_open: false, visited: false, loc: Point { x, y } }
    }
}

/// The maze grid: `width * height` cells stored in one vector, the cell
/// (x, y) at index `x * height + y`.
pub struct Maze {
    pub width: usize,
    pub height: usize,
    pub cells: Vec<Square>,
}

impl Maze {
    /// Well-formed: the cell vector has exactly width * height entries and
    /// every cell records its own coordinates.
    pub open spec fn wf(self) -> bool {
        &&& 1 <= self.width
        &&& 1 <= self.height
        &&& self.width * self.height <= usize::MAX
        &&& self.cells@.len() == self.width * self.height
        &&& forall|x: int, y: int|
            0 <= x < self.width && 0 <= y < self.height ==> (#[trigger] self.at(x, y)).loc == (Point {
                x: x as usize,
                y: y as usize,
            })
    }

    pub open spec fn in_bounds(self, x: int, y: int) -> bool {
        0 <= x < self.width && 0 <= y < self.height
    }

    /// The cell at (x, y).
    pub open spec fn at(self, x: int, y: int) -> Square {
        self.cells@[x * self.height + y]
    }

    /// Two coordinates name adjacent cells (horizontally or vertically).
    pub open spec fn spec_adjacent(a: Point, b: Point) -> bool {
        ||| (a.x == b.x && (a.y + 1 == b.y || b.y + 1 == a.y))
        ||| (a.y == b.y && (a.x + 1 == b.x || b.x + 1 == a.x))
    }

    /// The wall between adjacent cells a and b is open: the flag of the owning
    /// cell (the one farther from the origin) is set.
    pub open spec fn wall_open(self, a: Point, b: Point) -> bool {
        if a.y == b.y {
            if a.x < b.x {
                self.at(b.x as int, b.y as int).left_open
            } else {
                self.at(a.x as int, a.y as int).left_open
            }
        } else {
            if a.y < b.y {
                self.at(b.x as int, b.y as int).top_open
            } else {
                self.at(a.x as int, a.y as int).top_open
            }
        }
    }
    /// Builds the grid: width * height cells, all walls closed, nothing
    /// visited, every cell at the coordinates of its array position. Rejects a
    /// zero dimension (and a size beyond the machine's addressing) up front.
    pub fn new(width: usize, height: usize) -> (r: Result<Self, crate::MazeError>)
        ensures
            r is Ok <==> (1 <= width && 1 <= height && width * height <= usize::MAX),
            r matches Err(e) ==> e == crate::MazeError::Config(crate::ConfigFault::Dimensions),
            r matches Ok(m) ==> {
                &&& m.wf()
                &&& m.width == width
                &&& m.height == height
                &&& forall|x: int, y: int|
                    0 <= x < width && 0 <= y < height ==> (#[trigger] m.at(x, y)) == (Square {
                        top_open: false,
                        left_open: false,
                        visited: false,
                        loc: Point { x: x as usize, y: y as usize },
                    })
            },
    {
        if width == 0 || height == 0 {
            return Err(crate::MazeError::Config(crate::ConfigFault::Dimensions));
        }
        if width.checked_mul(height).is_none() {
            return Err(crate::MazeError::Config(crate::ConfigFault::Dimensions));
        }
        let mut cells: Vec<Square> = Vec::new();
        let mut x: usize = 0;
        while x < width
            invariant
                x <= width,
                1 <= height,
                width * height <= usize::MAX,
                cells@.len() == x * height,
                forall|xx: int, yy: int|
                    0 <= xx < x && 0 <= yy < height ==> #[trigger] cells@[xx * height + yy] == (
                    Square {
                        top_open: false,
                        left_open: false,
                        visited: false,
                        loc: Point { x: xx as usize, y: yy as usize },
                    }),
            decreases width - x,
        {
            let mut y: usize = 0;
            proof {
                lemma_idx_bounds(x as int, 0, width as int, height as int);
            }
            while y < height
                invariant
                    x < width,
                    y <= height,
                    1 <= height,
                    width * height <= usize::MAX,
                    cells@.len() == x * height + y,
                    forall|xx: int, yy: int|
                        (0 <= xx < x && 0 <= yy < height) || (xx == x && 0 <= yy < y)
                            ==> #[trigger] cells@[xx * height + yy] == (Square {
                            top_open: false,
                            left_open: false,
                            visited: false,
                            loc: Point { x: xx as usize, y: yy as usize },
                        }),
                decreases height - y,
            {
                proof {
                    lemma_idx_bounds(x as int, y as int, width as int, height as int);
                }
                cells.push(Square::new(x, y));
                proof {
                    assert forall|xx: int, yy: int|
                        (0 <= xx < x && 0 <= yy < height) || (xx == x && 0 <= yy < y + 1)
                            implies #[trigger] cells@[xx * height + yy] == (Square {
                        top_open: false,
                        left_open: false,
                        visited: false,
                        loc: Point { x: xx as usize, y: yy as usize },
                    }) by {
                        if xx == x && yy == y {
                            assert(xx * height + yy == cells@.len() - 1);
                        } else if xx < x {
                            lemma_idx_bounds(xx, yy, x as int, height as int);
                        } else {
                            assert(xx * height + yy < x * height + y);
                        }
                    }
                }
                y = y + 1;
            }
            proof {
                assert((x + 1) * height == x * height + height) by (nonlinear_arith);
            }
            x = x + 1;
        }
        let m = Maze { width, height, cells };
        proof {
            assert forall|xx: int, yy: int| 0 <= xx < width && 0 <= yy < height implies (
            #[trigger] m.at(xx, yy)).loc == (Point { x: xx as usize, y: yy as usize }) by {
                lemma_idx_bounds(xx, yy, width as int, height as int);
            }
        }
        Ok(m)
    }

    /// Bounds-checked neighbor lookup: direction 0 is left, 1 is up, 2 is
    /// right, 3 is down; None at a grid edge.
    pub open spec fn spec_neighbor(self, p: Point, n: int) -> Option<Point> {
        if n == 0 {
            if p.x > 0 {
                Some(Point { x: (p.x - 1) as usize, y: p.y })
            } else {
                None
            }
        } else if n == 1 {
            if p.y > 0 {
                Some(Point { x: p.x, y: (p.y - 1) as usize })
            } else {
                None
            }
        } else if n == 2 {
            if p.x + 1 < self.width {
                Some(Point { x: (p.x + 1) as usize, y: p.y })
            } else {
                None
            }
        } else {
            if p.y + 1 < self.height {
                Some(Point { x: p.x, y: (p.y + 1) as usize })
            } else {
                None
            }
        }
    }

    /// Reads the cell at `p`.
    pub fn cell(&self, p: Point) -> (sq: Square)
        requires
            self.wf(),
            self.in_bounds(p.x as int, p.y as int),
        ensures
            sq == self.at(p.x as int, p.y as int),
    {
        proof {
            lemma_idx_bounds(p.x as int, p.y as int, self.width as int, self.height as int);
        }
        self.cells[p.x * self.height + p.y]
    }

    /// Looks up the cell adjacent to `p` in compass direction `n`, or None
    /// when the grid edge lies there.
    pub fn get_neighbor(&self, p: Point, n: usize) -> (r: Option<Point>)
        requires
            self.wf(),
            self.in_bounds(p.x as int, p.y as int),
            n < 4,
        ensures
            r == self.spec_neighbor(p, n as int),
            r matches Some(q) ==> self.in_bounds(q.x as int, q.y as int) && Self::spec_adjacent(
                p,
                q,
            ),
    {
        match n {
            0 => {
                if p.x > 0 {
                    Some(Point { x: p.x - 1, y: p.y })
                } else {
                    None
                }
            },
            1 => {
                if p.y > 0 {
                    Some(Point { x: p.x, y: p.y - 1 })
                } else {
                    None
                }
            },
            2 => {
                if p.x < self.width - 1 {
                    Some(Point { x: p.x + 1, y: p.y })
                } else {
                    None
                }
            },
            _ => {
                if p.y < self.height - 1 {
                    Some(Point { x: p.x, y: p.y + 1 })
                } else {
                    None
                }
            },
        }
    }

    /// Stores `sq` at (x, y), leaving every other cell alone.
    fn set_cell(&mut self, x: usize, y: usize, sq: Square)
        requires
            old(self).wf(),
            old(self).in_bounds(x as int, y as int),
            sq.loc == (Point { x, y }),
        ensures
            final(self).wf(),
            final(self).width == old(self).width,
            final(self).height == old(self).height,
            final(self).cells@ == old(self).cells@.update(x as int * old(self).height + y, sq),
            final(self).at(x as int, y as int) == sq,
            forall|xx: int, yy: int|
                old(self).in_bounds(xx, yy) && !(xx == x && yy == y) ==> final(self).at(xx, yy)
                    == old(self).at(xx, yy),
    {
        proof {
            lemma_idx_bounds(x as int, y as int, self.width as int, self.height as int);
        }
        let i = x * self.height + y;
        self.cells[i] = sq;
        proof {
            let h = self.height as int;
            assert forall|xx: int, yy: int|
                self.in_bounds(xx, yy) && !(xx == x && yy == y) implies self.at(xx, yy) == old(self).at(xx, yy) by {
                lemma_idx_bounds(xx, yy, self.width as int, h);
                if xx * h + yy == x as int * h + y {
                    lemma_idx_inj(xx, yy, x as int, y as int, h);
                }
            }
            assert forall|xx: int, yy: int| self.in_bounds(xx, yy) implies (#[trigger] self.at(
                xx,
                yy,
            )).loc == (Point { x: xx as usize, y: yy as usize }) by {
                lemma_idx_bounds(xx, yy, self.width as int, h);
                if xx * h + yy == x as int * h + y {
                    lemma_idx_inj(xx, yy, x as int, y as int, h);
                }
                assert(old(self).at(xx, yy).loc == (Point { x: xx as usize, y: yy as usize }));
            }
        }
    }

    /// Marks the cell at `p` visited, changing nothing else.
    pub fn mark_visited(&mut self, p: Point)
        requires
            old(self).wf(),
            old(self).in_bounds(p.x as int, p.y as int),
        ensures
            final(self).wf(),
            final(self).width == old(self).width,
            final(self).height == old(self).height,
            final(self).cells@ == old(self).cells@.update(
                p.x as int * old(self).height + p.y,
                Square { visited: true, ..old(self).at(p.x as int, p.y as int) },
            ),
            final(self).at(p.x as int, p.y as int) == (Square {
                visited: true,
                ..old(self).at(p.x as int, p.y as int)
            }),
            forall|xx: int, yy: int|
                old(self).in_bounds(xx, yy) && !(xx == p.x && yy == p.y) ==> final(self).at(xx, yy)
                    == old(self).at(xx, yy),
    {
        proof {
            lemma_idx_bounds(p.x as int, p.y as int, self.width as int, self.height as int);
        }
        let i = p.x * self.height + p.y;
        let sq = Square { visited: true, ..self.cells[i] };
        proof {
            assert(self.at(p.x as int, p.y as int).loc == (Point { x: p.x, y: p.y }));
        }
        self.set_cell(p.x, p.y, sq);
    }

    /// Opens the wall between adjacent cells a and b by setting the owning
    /// cell's flag; no other cell and no other flag changes.
    pub fn remove_wall(&mut self, a: Point, b: Point)
        requires
            old(self).wf(),
            old(self).in_bounds(a.x as int, a.y as int),
            old(self).in_bounds(b.x as int, b.y as int),
            Self::spec_adjacent(a, b),
        ensures
            final(self).wf(),
            final(self).width == old(self).width,
            final(self).height == old(self).height,
            final(self).wall_open(a, b),
            final(self).cells@ == old(self).cells@.update(
                Self::owner_idx(a, b, old(self).height as int),
                Self::owner_square(a, b, *old(self)),
            ),
            count_open(final(self).cells@) == count_open(old(self).cells@) + (if old(self).wall_open(a, b) {
                0int
            } else {
                1int
            }),
            forall|p: Point, q: Point|
                old(self).in_bounds(p.x as int, p.y as int) && old(self).in_bounds(
                    q.x as int,
                    q.y as int,
                ) && Self::spec_adjacent(p, q) ==> (#[trigger] final(self).wall_open(p, q) <==> (
                old(self).wall_open(p, q) || (p == a && q == b) || (p == b && q == a))),
            forall|xx: int, yy: int|
                old(self).in_bounds(xx, yy) ==> (#[trigger] final(self).at(xx, yy)).visited == old(self).at(xx, yy).visited,
    {
        let owner: Point;
        let horizontal: bool;
        if a.x != b.x {
            owner = if a.x > b.x {
                a
            } else {
                b
            };
            horizontal = false;
        } else {
            owner = if a.y > b.y {
                a
            } else {
                b
            };
            horizontal = true;
        }
        proof {
            lemma_idx_bounds(
                owner.x as int,
                owner.y as int,
                self.width as int,
                self.height as int,
            );
        }
        let i = owner.x * self.height + owner.y;
        proof {
            assert(self.at(owner.x as int, owner.y as int).loc == (Point {
                x: owner.x,
                y: owner.y,
            }));
        }
        let sq = if horizontal {
            Square { top_open: true, ..self.cells[i] }
        } else {
            Square { left_open: true, ..self.cells[i] }
        };
        proof {
            lemma_count_open_update(self.cells@, i as int, sq);
        }
        self.set_cell(owner.x, owner.y, sq);
        proof {
            let h = self.height as int;
            assert forall|p: Point, q: Point|
                old(self).in_bounds(p.x as int, p.y as int) && old(self).in_bounds(
                    q.x as int,
                    q.y as int,
                ) && Self::spec_adjacent(p, q) implies (#[trigger] self.wall_open(p, q) <==> (old(
                self,
            ).wall_open(p, q) || (p == a && q == b) || (p == b && q == a))) by {
                lemma_idx_bounds(p.x as int, p.y as int, self.width as int, h);
                lemma_idx_bounds(q.x as int, q.y as int, self.width as int, h);
                let po = Self::owner_of(p, q);
                if po != owner {
                    if po.x as int * h + po.y == owner.x as int * h + owner.y {
                        lemma_idx_inj(po.x as int, po.y as int, owner.x as int, owner.y as int, h);
                    }
                    assert(self.at(po.x as int, po.y as int) == old(self).at(
                        po.x as int,
                        po.y as int,
                    ));
                }
            }
        }
    }

    /// The cell that owns the wall between adjacent a and b.
    pub open spec fn owner_of(a: Point, b: Point) -> Point {
        if a.x != b.x {
            if a.x > b.x {
                a
            } else {
                b
            }
        } else {
            if a.y > b.y {
                a
            } else {
                b
            }
        }
    }

    pub open spec fn owner_idx(a: Point, b: Point, h: int) -> int {
        Self::owner_of(a, b).x * h + Self::owner_of(a, b).y
    }

    pub open spec fn owner_square(a: Point, b: Point, m: Maze) -> Square {
        let o = Self::owner_of(a, b);
        if a.x != b.x {
            Square { left_open: true, ..m.at(o.x as int, o.y as int) }
        } else {
            Square { top_open: true, ..m.at(o.x as int, o.y as int) }
        }
    }

    /// Forces both wall flags of the cell at `rc` open (used by room carving).
    pub fn remove_all_walls_from_cell(&mut self, rc: Point)
        requires
            old(self).wf(),
            old(self).in_bounds(rc.x as int, rc.y as int),
        ensures
            final(self).wf(),
            final(self).width == old(self).width,
            final(self).height == old(self).height,
            final(self).at(rc.x as int, rc.y as int) == (Square {
                top_open: true,
                left_open: true,
                ..old(self).at(rc.x as int, rc.y as int)
            }),
            forall|xx: int, yy: int|
                old(self).in_bounds(xx, yy) && !(xx == rc.x && yy == rc.y) ==> final(self).at(
                    xx,
                    yy,
                ) == old(self).at(xx, yy),
    {
        proof {
            lemma_idx_bounds(rc.x as int, rc.y as int, self.width as int, self.height as int);
        }
        let i = rc.x * self.height + rc.y;
        let sq = Square { top_open: true, left_open: true, ..self.cells[i] };
        proof {
            assert(self.at(rc.x as int, rc.y as int).loc == (Point { x: rc.x, y: rc.y }));
        }
        self.set_cell(rc.x, rc.y, sq);
    }
}

/// In a w-column, h-row grid stored row-by-row within each column, the flat
/// index of an in-bounds cell is itself in bounds.
pub proof fn lemma_idx_bounds(x: int, y: int, w: int, h: int)
    by (nonlinear_arith)
    requires
        0 <= x < w,
        0 <= y < h,
    ensures
        0 <= x * h + y < w * h,
{
}

/// Distinct in-bounds coordinates get distinct flat indices.
pub proof fn lemma_idx_inj(x1: int, y1: int, x2: int, y2: int, h: int)
    by (nonlinear_arith)
    requires
        0 <= y1 < h,
        0 <= y2 < h,
        0 <= x1,
        0 <= x2,
        x1 * h + y1 == x2 * h + y2,
    ensures
        x1 == x2 && y1 == y2,
{
}

/// How many cells of s carry the visited flag.
pub open spec fn count_visited(s: Seq<Square>) -> int
    decreases s.len(),
{
    if s.len() == 0 {
        0
    } else {
        count_visited(s.drop_last()) + if s.last().visited {
            1int
        } else {
            0int
        }
    }
}

/// How many wall flags of s are open, both flags of every cell counted.
pub open spec fn count_open(s: Seq<Square>) -> int
    decreases s.len(),
{
    if s.len() == 0 {
        0
    } else {
        count_open(s.drop_last()) + open_flags(s.last())
    }
}

pub open spec fn open_flags(sq: Square) -> int {
    (if sq.top_open {
        1int
    } else {
        0int
    }) + (if sq.left_open {
        1int
    } else {
        0int
    })
}

pub proof fn lemma_count_visited_bounds(s: Seq<Square>)
    ensures
        0 <= count_visited(s) <= s.len(),
    decreases s.len(),
{
    if s.len() > 0 {
        lemma_count_visited_bounds(s.drop_last());
    }
}

/// Replacing one cell shifts the visited count by the flags' difference.
pub proof fn lemma_count_visited_update(s: Seq<Square>, i: int, sq: Square)
    requires
        0 <= i < s.len(),
    ensures
        count_visited(s.update(i, sq)) == count_visited(s) + (if sq.visited {
            1int
        } else {
            0int
        }) - (if s[i].visited {
            1int
        } else {
            0int
        }),
    decreases s.len(),
{
    let t = s.update(i, sq);
    if i == s.len() - 1 {
        assert(t.drop_last() =~= s.drop_last());
    } else {
        assert(t.drop_last() =~= s.drop_last().update(i, sq));
        lemma_count_visited_update(s.drop_last(), i, sq);
    }
}

/// Replacing one cell shifts the open-wall count by the flags' difference.
pub proof fn lemma_count_open_update(s: Seq<Square>, i: int, sq: Square)
    requires
        0 <= i < s.len(),
    ensures
        count_open(s.update(i, sq)) == count_open(s) + open_flags(sq) - open_flags(s[i]),
    decreases s.len(),
{
    let t = s.update(i, sq);
    if i == s.len() - 1 {
        assert(t.drop_last() =~= s.drop_last());
    } else {
        assert(t.drop_last() =~= s.drop_last().update(i, sq));
        lemma_count_open_update(s.drop_last(), i, sq);
    }
}

/// When no cell is visited the visited count is zero.
pub proof fn lemma_count_visited_zero(s: Seq<Square>)
    requires
        forall|i: int| 0 <= i < s.len() ==> !(#[trigger] s[i]).visited,
    ensures
        count_visited(s) == 0,
    decreases s.len(),
{
    if s.len() > 0 {
        lemma_count_visited_zero(s.drop_last());
    }
}

/// When every wall flag is closed the open count is zero.
pub proof fn lemma_count_open_zero(s: Seq<Square>)
    requires
        forall|i: int| 0 <= i < s.len() ==> !(#[trigger] s[i]).top_open && !s[i].left_open,
    ensures
        count_open(s) == 0,
    decreases s.len(),
{
    if s.len() > 0 {
        lemma_count_open_zero(s.drop_last());
    }
}

/// When every cell is visited the visited count is the whole length.
pub proof fn lemma_count_visited_full(s: Seq<Square>)
    requires
        forall|i: int| 0 <= i < s.len() ==> (#[trigger] s[i]).visited,
    ensures
        count_visited(s) == s.len(),
    decreases s.len(),
{
    if s.len() > 0 {
        lemma_count_visited_full(s.drop_last());
    }
}

} // verus!
