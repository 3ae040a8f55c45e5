use vstd::prelude::*;
use crate::grid::{Maze, Point, Square, count_open, count_visited, lemma_count_visited_bounds,
    lemma_count_visited_full, lemma_count_visited_update, lemma_count_visited_zero,
    lemma_idx_bounds};
use crate::rng::MazeRng;

verus! {

/// The cell at p carries the visited mark.
pub open spec fn visited_at(m: Maze, p: Point) -> bool {
    m.at(p.x as int, p.y as int).visited
}

/// Every in-bounds neighbor of p is visited.
pub open spec fn neighbors_visited(m: Maze, p: Point) -> bool {
    forall|n: int|
        0 <= n < 4 ==> match #[trigger] m.spec_neighbor(p, n) {
            Some(q) => visited_at(m, q),
            None => true,
        }
}

/// p is a walk through the maze: nonempty, in bounds, each step crossing an
/// open wall between adjacent cells.
pub open spec fn path_ok(m: Maze, p: Seq<Point>) -> bool {
    &&& p.len() >= 1
    &&& forall|i: int| 0 <= i < p.len() ==> m.in_bounds((#[trigger] p[i]).x as int, p[i].y as int)
    &&& forall|i: int|
        0 <= i < p.len() - 1 ==> Maze::spec_adjacent(#[trigger] p[i], p[i + 1]) && m.wall_open(
            p[i],
            p[i + 1],
        )
}

/// Some walk through open walls leads from a to b.
pub open spec fn connected(m: Maze, a: Point, b: Point) -> bool {
    exists|p: Seq<Point>| path_ok(m, p) && p.first() == a && p.last() == b
}

/// Every open wall joins two visited cells.
pub open spec fn open_implies_visited(m: Maze) -> bool {
    forall|a: Point, b: Point|
        m.in_bounds(a.x as int, a.y as int) && m.in_bounds(b.x as int, b.y as int)
            && Maze::spec_adjacent(a, b) && #[trigger] m.wall_open(a, b) ==> visited_at(m, a)
            && visited_at(m, b)
}

pub open spec fn stack_has(st: Seq<Point>, p: Point) -> bool {
    exists|i: int| 0 <= i < st.len() && st[i] == p
}

/// The carver's working invariant: the stack holds visited in-bounds cells
/// with the start at its bottom; every visited cell off the stack is fully
/// explored; open walls join visited cells; every visited cell is reachable
/// from the start; and the open-wall count runs one behind the visited count.
pub open spec fn carve_inv(m: Maze, st: Seq<Point>, start: Point) -> bool {
    &&& m.wf()
    &&& m.in_bounds(start.x as int, start.y as int)
    &&& visited_at(m, start)
    &&& st.len() >= 1 ==> st[0] == start
    &&& forall|i: int|
        0 <= i < st.len() ==> m.in_bounds((#[trigger] st[i]).x as int, st[i].y as int)
            && visited_at(m, st[i])
    &&& forall|p: Point|
        m.in_bounds(p.x as int, p.y as int) && #[trigger] visited_at(m, p) && !stack_has(st, p)
            ==> neighbors_visited(m, p)
    &&& open_implies_visited(m)
    &&& forall|p: Point|
        m.in_bounds(p.x as int, p.y as int) && #[trigger] visited_at(m, p) ==> connected(
            m,
            start,
            p,
        )
    &&& count_open(m.cells@) == count_visited(m.cells@) - 1
}

/// A cell alone is a walk from itself to itself.
pub proof fn lemma_connected_refl(m: Maze, a: Point)
    requires
        m.in_bounds(a.x as int, a.y as int),
    ensures
        connected(m, a, a),
{
    let p = seq![a];
    assert(path_ok(m, p) && p.first() == a && p.last() == a);
}

/// Opening more walls never breaks an existing walk.
pub proof fn lemma_connected_monotone(m1: Maze, m2: Maze, a: Point, b: Point)
    requires
        m1.width == m2.width,
        m1.height == m2.height,
        connected(m1, a, b),
        forall|p: Point, q: Point|
            m1.in_bounds(p.x as int, p.y as int) && m1.in_bounds(q.x as int, q.y as int)
                && Maze::spec_adjacent(p, q) && #[trigger] m1.wall_open(p, q) ==> m2.wall_open(
                p,
                q,
            ),
    ensures
        connected(m2, a, b),
{
    let p = choose|p: Seq<Point>| path_ok(m1, p) && p.first() == a && p.last() == b;
    assert(path_ok(m2, p));
}

/// A walk to b extends across an open wall to its neighbor c.
pub proof fn lemma_connected_step(m: Maze, a: Point, b: Point, c: Point)
    requires
        connected(m, a, b),
        m.in_bounds(c.x as int, c.y as int),
        Maze::spec_adjacent(b, c),
        m.wall_open(b, c),
    ensures
        connected(m, a, c),
{
    let p = choose|p: Seq<Point>| path_ok(m, p) && p.first() == a && p.last() == b;
    let q = p.push(c);
    assert forall|i: int| 0 <= i < q.len() - 1 implies Maze::spec_adjacent(#[trigger] q[i], q[i + 1])
        && m.wall_open(q[i], q[i + 1]) by {
        if i < p.len() - 1 {
            assert(Maze::spec_adjacent(p[i], p[i + 1]) && m.wall_open(p[i], p[i + 1]));
        }
    }
    assert(path_ok(m, q) && q.first() == a && q.last() == c);
}

/// In a grid where every visited cell has only visited neighbors, the visited
/// region spreads from any visited cell to the whole grid.
pub proof fn lemma_reach(m: Maze, s: Point, t: Point)
    requires
        m.wf(),
        m.in_bounds(s.x as int, s.y as int),
        m.in_bounds(t.x as int, t.y as int),
        visited_at(m, s),
        forall|p: Point|
            m.in_bounds(p.x as int, p.y as int) && #[trigger] visited_at(m, p)
                ==> neighbors_visited(m, p),
    ensures
        visited_at(m, t),
    decreases
            (if s.x <= t.x {
                t.x - s.x
            } else {
                s.x - t.x
            }) + (if s.y <= t.y {
                t.y - s.y
            } else {
                s.y - t.y
            }),
{
    if s.x < t.x {
        assert(m.spec_neighbor(s, 2) == Some(Point { x: (s.x + 1) as usize, y: s.y }));
        lemma_reach(m, Point { x: (s.x + 1) as usize, y: s.y }, t);
    } else if s.x > t.x {
        assert(m.spec_neighbor(s, 0) == Some(Point { x: (s.x - 1) as usize, y: s.y }));
        lemma_reach(m, Point { x: (s.x - 1) as usize, y: s.y }, t);
    } else if s.y < t.y {
        assert(m.spec_neighbor(s, 3) == Some(Point { x: s.x, y: (s.y + 1) as usize }));
        lemma_reach(m, Point { x: s.x, y: (s.y + 1) as usize }, t);
    } else if s.y > t.y {
        assert(m.spec_neighbor(s, 1) == Some(Point { x: s.x, y: (s.y - 1) as usize }));
        lemma_reach(m, Point { x: s.x, y: (s.y - 1) as usize }, t);
    }
}

/// The maze spans from start: every in-bounds cell is reachable from it
/// through open walls.
pub open spec fn spanning_from(m: Maze, start: Point) -> bool {
    &&& m.in_bounds(start.x as int, start.y as int)
    &&& forall|p: Point|
        m.in_bounds(p.x as int, p.y as int) ==> #[trigger] connected(m, start, p)
}

/// The first in-bounds unvisited neighbor of loc, scanning the compass
/// directions cyclically from k onward: (r + k) % 4, (r + k + 1) % 4, and so
/// on until all four have been tried.
pub open spec fn first_unvisited_from(m: Maze, loc: Point, r: int, k: int) -> Option<Point>
    decreases 4 - k,
{
    if k < 0 || k >= 4 {
        None
    } else {
        match m.spec_neighbor(loc, (r + k) % 4) {
            Some(q) => if !visited_at(m, q) {
                Some(q)
            } else {
                first_unvisited_from(m, loc, r, k + 1)
            },
            None => first_unvisited_from(m, loc, r, k + 1),
        }
    }
}

impl Maze {
    /// Scans the four compass directions cyclically, beginning at the drawn
    /// direction r, and returns the first in-bounds unvisited neighbor of loc
    /// in that order. None means every in-bounds neighbor is already visited.
    pub fn find_rand_unvisited_neighbor(&self, loc: Point, r: usize) -> (res: Option<Point>)
        requires
            self.wf(),
            self.in_bounds(loc.x as int, loc.y as int),
            r < 4,
        ensures
            res == first_unvisited_from(*self, loc, r as int, 0),
            res matches Some(q) ==> self.in_bounds(q.x as int, q.y as int) && Maze::spec_adjacent(
                loc,
                q,
            ) && !visited_at(*self, q),
            res is None ==> neighbors_visited(*self, loc),
    {
        let mut k: usize = 0;
        while k < 4
            invariant
                self.wf(),
                self.in_bounds(loc.x as int, loc.y as int),
                r < 4,
                k <= 4,
                first_unvisited_from(*self, loc, r as int, 0) == first_unvisited_from(
                    *self,
                    loc,
                    r as int,
                    k as int,
                ),
                forall|j: int|
                    0 <= j < k ==> match #[trigger] self.spec_neighbor(loc, (r + j) % 4) {
                        Some(q) => visited_at(*self, q),
                        None => true,
                    },
            decreases 4 - k,
        {
            let n = (r + k) % 4;
            match self.get_neighbor(loc, n) {
                Some(q) => {
                    if !self.cell(q).visited {
                        return Some(q);
                    }
                },
                None => {},
            }
            k = k + 1;
        }
        proof {
            assert forall|n: int| 0 <= n < 4 implies match #[trigger] self.spec_neighbor(loc, n) {
                Some(q) => visited_at(*self, q),
                None => true,
            } by {
                let j = if n >= r {
                    n - r as int
                } else {
                    n + 4 - r
                };
                assert(0 <= j < 4);
                assert((r + j) % 4 == n);
            }
        }
        None
    }

    /// The cell vector after one expanding step from c into q: the wall
    /// between them opened on its owner's flag, then q marked visited.
    pub open spec fn carve_step_grid(m: Maze, c: Point, q: Point) -> Seq<Square> {
        let h = m.height as int;
        let after_wall = m.cells@.update(Maze::owner_idx(c, q, h), Maze::owner_square(c, q, m));
        after_wall.update(
            q.x as int * h + q.y,
            Square { visited: true, ..after_wall[q.x as int * h + q.y] },
        )
    }

    /// One step of the carver: with the direction draw r, either opens the
    /// wall to the first unvisited neighbor of the stack's top and descends
    /// into it, or pops the fully explored top (the backtrack of the
    /// recursive formulation). The step is a function of the grid, the stack
    /// and the draw, so equal draw sequences carve equal mazes.
    pub fn carve_step(&mut self, stack: &mut Vec<Point>, r: usize)
        requires
            r < 4,
            old(stack)@.len() >= 1,
            carve_inv(*old(self), old(stack)@, old(stack)@[0]),
        ensures
            carve_inv(*final(self), final(stack)@, old(stack)@[0]),
            final(self).width == old(self).width,
            final(self).height == old(self).height,
            match first_unvisited_from(*old(self), old(stack)@.last(), r as int, 0) {
                Some(q) => final(self).cells@ == Self::carve_step_grid(
                    *old(self),
                    old(stack)@.last(),
                    q,
                ) && final(stack)@ == old(stack)@.push(q),
                None => *final(self) == *old(self) && final(stack)@ == old(stack)@.drop_last(),
            },
            (count_visited(final(self).cells@) == count_visited(old(self).cells@) + 1 && final(stack)@.len() == old(stack)@.len() + 1) || (count_visited(final(self).cells@)
                == count_visited(old(self).cells@) && final(stack)@.len() == old(stack)@.len() - 1),
    {
        let ghost m0 = *self;
        let ghost st0 = stack@;
        let ghost start = stack@[0];
        let c = stack[stack.len() - 1];
        match self.find_rand_unvisited_neighbor(c, r) {
            Some(q) => {
                proof {
                    // The wall toward the unvisited q must still be closed.
                    assert(!m0.wall_open(c, q));
                }
                self.remove_wall(c, q);
                let ghost m1 = *self;
                proof {
                    let h = m0.height as int;
                    let o = Maze::owner_of(c, q);
                    lemma_idx_bounds(o.x as int, o.y as int, m0.width as int, h);
                    lemma_count_visited_update(
                        m0.cells@,
                        Maze::owner_idx(c, q, h),
                        Maze::owner_square(c, q, m0),
                    );
                    assert(count_visited(m1.cells@) == count_visited(m0.cells@));
                }
                self.mark_visited(q);
                stack.push(q);
                let ghost m2 = *self;
                let ghost st2 = stack@;
                proof {
                    let h = m0.height as int;
                    lemma_idx_bounds(q.x as int, q.y as int, m0.width as int, h);
                    lemma_count_visited_update(
                        m1.cells@,
                        q.x as int * h + q.y,
                        Square { visited: true, ..m1.at(q.x as int, q.y as int) },
                    );
                    crate::grid::lemma_count_open_update(
                        m1.cells@,
                        q.x as int * h + q.y,
                        Square { visited: true, ..m1.at(q.x as int, q.y as int) },
                    );
                    assert(count_visited(m2.cells@) == count_visited(m0.cells@) + 1);
                    assert(count_open(m2.cells@) == count_open(m0.cells@) + 1);
                    // Wall flags survive both mutations unchanged except the one opened.
                    assert forall|p1: Point, p2: Point|
                        m0.in_bounds(p1.x as int, p1.y as int) && m0.in_bounds(
                            p2.x as int,
                            p2.y as int,
                        ) && Maze::spec_adjacent(p1, p2) implies (#[trigger] m2.wall_open(p1, p2)
                        <==> (m0.wall_open(p1, p2) || (p1 == c && p2 == q) || (p1 == q && p2
                        == c))) by {
                        assert(m2.at(p1.x as int, p1.y as int).top_open == m1.at(
                            p1.x as int,
                            p1.y as int,
                        ).top_open && m2.at(p1.x as int, p1.y as int).left_open == m1.at(
                            p1.x as int,
                            p1.y as int,
                        ).left_open);
                        assert(m2.at(p2.x as int, p2.y as int).top_open == m1.at(
                            p2.x as int,
                            p2.y as int,
                        ).top_open && m2.at(p2.x as int, p2.y as int).left_open == m1.at(
                            p2.x as int,
                            p2.y as int,
                        ).left_open);
                        assert(m1.wall_open(p1, p2) <==> (m0.wall_open(p1, p2) || (p1 == c && p2
                            == q) || (p1 == q && p2 == c)));
                    }
                    // Visited marks are monotone across the step.
                    assert forall|p: Point|
                        m0.in_bounds(p.x as int, p.y as int) && #[trigger] visited_at(
                            m0,
                            p,
                        ) implies visited_at(m2, p) by {
                        assert(m1.at(p.x as int, p.y as int).visited == m0.at(
                            p.x as int,
                            p.y as int,
                        ).visited);
                    }
                    // And the only newly visited cell is q.
                    assert forall|p: Point|
                        m0.in_bounds(p.x as int, p.y as int) && #[trigger] visited_at(m2, p) && p
                            != q implies visited_at(m0, p) by {
                        assert(m2.at(p.x as int, p.y as int).visited == m1.at(
                            p.x as int,
                            p.y as int,
                        ).visited);
                        assert(m1.at(p.x as int, p.y as int).visited == m0.at(
                            p.x as int,
                            p.y as int,
                        ).visited);
                    }
                    // Off-stack cells stay fully explored.
                    assert forall|p: Point|
                        m2.in_bounds(p.x as int, p.y as int) && #[trigger] visited_at(m2, p)
                            && !stack_has(st2, p) implies neighbors_visited(m2, p) by {
                        assert(st2[st2.len() - 1] == q);
                        assert(p != q);
                        assert(visited_at(m0, p));
                        if stack_has(st0, p) {
                            let i = choose|i: int| 0 <= i < st0.len() && st0[i] == p;
                            assert(st2[i] == p);
                        }
                        assert(neighbors_visited(m0, p));
                        assert forall|n: int| 0 <= n < 4 implies match #[trigger] m2.spec_neighbor(
                            p,
                            n,
                        ) {
                            Some(nb) => visited_at(m2, nb),
                            None => true,
                        } by {
                            assert(m2.spec_neighbor(p, n) == m0.spec_neighbor(p, n));
                            match m0.spec_neighbor(p, n) {
                                Some(nb) => {
                                    assert(visited_at(m0, nb));
                                },
                                None => {},
                            }
                        }
                    }
                    // Reachability from the start extends across the new wall.
                    assert forall|p: Point|
                        m2.in_bounds(p.x as int, p.y as int) && #[trigger] visited_at(
                            m2,
                            p,
                        ) implies connected(m2, start, p) by {
                        if p == q {
                            lemma_connected_monotone(m0, m2, start, c);
                            lemma_connected_step(m2, start, c, q);
                        } else {
                            lemma_connected_monotone(m0, m2, start, p);
                        }
                    }
                    assert(carve_inv(m2, st2, start));
                }
            },
            None => {
                let _ = stack.pop();
                proof {
                    let st2 = stack@;
                    assert(st2 =~= st0.take(st0.len() - 1));
                    assert forall|p: Point|
                        self.in_bounds(p.x as int, p.y as int) && #[trigger] visited_at(*self, p)
                            && !stack_has(st2, p) implies neighbors_visited(*self, p) by {
                        if stack_has(st0, p) {
                            let i = choose|i: int| 0 <= i < st0.len() && st0[i] == p;
                            if i < st0.len() - 1 {
                                assert(st2[i] == p);
                            } else {
                                assert(p == c);
                            }
                        }
                    }
                    assert(carve_inv(*self, st2, start));
                }
            },
        }
    }

    /// The randomized recursive-backtracker carve, run with an explicit stack
    /// that mirrors the recursion. Starting from `start` on a fresh grid it
    /// opens one wall per newly visited cell, and stops once every reachable
    /// branch is exhausted. The result is a spanning tree of the grid: every
    /// cell is visited and reachable from `start` through open walls, and
    /// exactly width * height - 1 walls stand open.
    pub fn carve_from(&mut self, start: Point, rng: &mut MazeRng)
        requires
            old(self).wf(),
            old(self).in_bounds(start.x as int, start.y as int),
            forall|x: int, y: int|
                old(self).in_bounds(x, y) ==> !(#[trigger] old(self).at(x, y)).visited && !old(
                    self,
                ).at(x, y).top_open && !old(self).at(x, y).left_open,
        ensures
            final(self).wf(),
            final(self).width == old(self).width,
            final(self).height == old(self).height,
            forall|p: Point|
                final(self).in_bounds(p.x as int, p.y as int) ==> #[trigger] visited_at(
                    *final(self),
                    p,
                ),
            forall|p: Point|
                final(self).in_bounds(p.x as int, p.y as int) ==> #[trigger] connected(
                    *final(self),
                    start,
                    p,
                ),
            count_open(final(self).cells@) == old(self).width * old(self).height - 1,
    {
        let ghost m0 = *self;
        proof {
            assert forall|i: int| 0 <= i < m0.cells@.len() implies !(
            #[trigger] m0.cells@[i]).visited && !m0.cells@[i].top_open
                && !m0.cells@[i].left_open by {
                lemma_flat_coords(m0, i);
            }
            lemma_count_visited_zero(m0.cells@);
            crate::grid::lemma_count_open_zero(m0.cells@);
        }
        self.mark_visited(start);
        let mut stack: Vec<Point> = Vec::new();
        stack.push(start);
        proof {
            let h = m0.height as int;
            lemma_idx_bounds(start.x as int, start.y as int, m0.width as int, h);
            lemma_count_visited_update(
                m0.cells@,
                start.x as int * h + start.y,
                Square { visited: true, ..m0.at(start.x as int, start.y as int) },
            );
            crate::grid::lemma_count_open_update(
                m0.cells@,
                start.x as int * h + start.y,
                Square { visited: true, ..m0.at(start.x as int, start.y as int) },
            );
            let m1 = *self;
            assert forall|a: Point, b: Point|
                m1.in_bounds(a.x as int, a.y as int) && m1.in_bounds(b.x as int, b.y as int)
                    && Maze::spec_adjacent(a, b) implies !(#[trigger] m1.wall_open(a, b)) by {
                lemma_idx_bounds(a.x as int, a.y as int, m1.width as int, h);
                lemma_idx_bounds(b.x as int, b.y as int, m1.width as int, h);
            }
            assert forall|p: Point|
                m1.in_bounds(p.x as int, p.y as int) && #[trigger] visited_at(m1, p) implies p
                == start || visited_at(m0, p) by {
                assert(m0.in_bounds(p.x as int, p.y as int));
            }
            lemma_connected_refl(m1, start);
            assert(stack@ =~= seq![start]);
            assert(stack@[0] == start);
            assert(stack_has(stack@, start));
            assert(carve_inv(m1, stack@, start));
        }
        while stack.len() > 0
            invariant
                carve_inv(*self, stack@, start),
                self.width == old(self).width,
                self.height == old(self).height,
                count_visited(self.cells@) <= self.cells@.len(),
            decreases self.width * self.height - count_visited(self.cells@), stack@.len(),
        {
            let r = rng.below(4);
            self.carve_step(&mut stack, r);
            proof {
                lemma_count_visited_bounds(self.cells@);
            }
        }
        proof {
            let m = *self;
            assert forall|p: Point| m.in_bounds(p.x as int, p.y as int) implies #[trigger]
            visited_at(m, p) by {
                lemma_reach(m, start, p);
            }
            assert forall|p: Point| m.in_bounds(p.x as int, p.y as int) implies #[trigger]
            connected(m, start, p) by {
                assert(visited_at(m, p));
            }
            assert forall|i: int| 0 <= i < m.cells@.len() implies (
            #[trigger] m.cells@[i]).visited by {
                lemma_flat_coords(m, i);
                let (x, y) = choose|x: int, y: int|
                    m.in_bounds(x, y) && i == x * m.height + y && m.cells@[i] == #[trigger] m.at(
                        x,
                        y,
                    );
                assert(visited_at(m, Point { x: x as usize, y: y as usize }));
            }
            lemma_count_visited_full(m.cells@);
        }
    }
}

/// Every flat index of a well-formed grid is the index of some in-bounds
/// coordinate pair, so a per-coordinate fact covers the whole cell vector.
proof fn lemma_flat_coords(m: Maze, i: int)
    requires
        m.wf(),
        0 <= i < m.cells@.len(),
    ensures
        exists|x: int, y: int|
            m.in_bounds(x, y) && i == x * m.height + y && m.cells@[i] == #[trigger] m.at(x, y),
{
    let h = m.height as int;
    let x = i / h;
    let y = i % h;
    vstd::arithmetic::div_mod::lemma_fundamental_div_mod(i, h);
    vstd::arithmetic::div_mod::lemma_mod_bound(i, h);
    vstd::arithmetic::div_mod::lemma_div_pos_is_pos(i, h);
    assert(x < m.width) by (nonlinear_arith)
        requires
            h * x + y == i,
            0 <= y < h,
            0 <= x,
            i < m.width * h,
    {}
    assert(m.in_bounds(x, y) && i == x * h + y && m.cells@[i] == m.at(x, y));
}

} // verus!
