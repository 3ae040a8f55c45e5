use vstd::prelude::*;
use crate::grid::Maze;
use crate::rng::MazeRng;

verus! {

/// One wall record in tile-adjacency convention: the wall lies between the
/// adjacent cells (x1, y1) and (x2, y2), with the second cell the farther one
/// from the origin.
#[derive(Clone, Copy, Debug, PartialEq, Eq, Structural)]
pub struct Wall {
    pub x1: usize,
    pub y1: usize,
    pub x2: usize,
    pub y2: usize,
}

/// The record names a genuine closed interior wall of m: its cells are
/// adjacent, both in bounds (so never a border edge of row 0 or column 0),
/// and the owning flag is still closed.
pub open spec fn wall_record_ok(m: Maze, w: Wall) -> bool {
    ||| (w.x1 == w.x2 && w.y1 + 1 == w.y2 && m.in_bounds(w.x2 as int, w.y2 as int) && !m.at(
        w.x2 as int,
        w.y2 as int,
    ).top_open)
    ||| (w.y1 == w.y2 && w.x1 + 1 == w.x2 && m.in_bounds(w.x2 as int, w.y2 as int) && !m.at(
        w.x2 as int,
        w.y2 as int,
    ).left_open)
}

/// The record joins two adjacent cells that both lie inside a width x height
/// grid; the farther cell from the origin comes second.
pub open spec fn wall_in_grid(w: Wall, width: int, height: int) -> bool {
    ||| (w.x1 == w.x2 && w.y1 + 1 == w.y2 && w.x2 < width && w.y2 < height)
    ||| (w.y1 == w.y2 && w.x1 + 1 == w.x2 && w.x2 < width && w.y2 < height)
}

/// The records that the cell at (x, y) contributes: its closed top wall when
/// it is not in row 0, then its closed left wall when it is not in column 0.
pub open spec fn cell_walls(m: Maze, x: int, y: int) -> Seq<Wall> {
    let top: Seq<Wall> = if !m.at(x, y).top_open && y > 0 {
        seq![
            Wall { x1: x as usize, y1: (y - 1) as usize, x2: x as usize, y2: y as usize },
        ]
    } else {
        Seq::empty()
    };
    let left: Seq<Wall> = if !m.at(x, y).left_open && x > 0 {
        seq![
            Wall { x1: (x - 1) as usize, y1: y as usize, x2: x as usize, y2: y as usize },
        ]
    } else {
        Seq::empty()
    };
    top + left
}

/// The wall list of the first k cells in traversal order: column by column,
/// each column top to bottom.
pub open spec fn emit_upto(m: Maze, k: int) -> Seq<Wall>
    decreases k,
{
    if k <= 0 {
        Seq::empty()
    } else {
        emit_upto(m, k - 1) + cell_walls(m, (k - 1) / (m.height as int), (k - 1) % (
        m.height as int))
    }
}

/// The full wall list of the grid: every closed interior wall, once, in
/// traversal order.
pub open spec fn emit_spec(m: Maze) -> Seq<Wall> {
    emit_upto(m, m.width * m.height)
}

/// Every record of the wall list names a closed interior wall; in particular
/// no record stands for row 0's top edge or column 0's left edge.
pub proof fn lemma_emit_upto_ok(m: Maze, k: int)
    requires
        m.wf(),
        0 <= k <= m.width * m.height,
    ensures
        forall|i: int| 0 <= i < emit_upto(m, k).len() ==> wall_record_ok(m, #[trigger] emit_upto(m, k)[i]),
    decreases k,
{
    if k > 0 {
        lemma_emit_upto_ok(m, k - 1);
        let h = m.height as int;
        let x = (k - 1) / h;
        let y = (k - 1) % h;
        vstd::arithmetic::div_mod::lemma_fundamental_div_mod(k - 1, h);
        vstd::arithmetic::div_mod::lemma_mod_bound(k - 1, h);
        vstd::arithmetic::div_mod::lemma_div_pos_is_pos(k - 1, h);
        assert(x < m.width) by (nonlinear_arith)
            requires
                h * x + y == k - 1,
                0 <= y < h,
                0 <= x,
                k - 1 < m.width * h,
        {}
        assert(forall|i: int|
            0 <= i < emit_upto(m, k - 1).len() ==> emit_upto(m, k)[i] == #[trigger] emit_upto(
                m,
                k - 1,
            )[i]);
    }
}

/// a is a subsequence of b: a's records appear in b, in order. The greedy
/// match: align equal heads, otherwise drop b's head.
pub open spec fn subseq_of(a: Seq<Wall>, b: Seq<Wall>) -> bool
    decreases a.len() + b.len(),
{
    if a.len() == 0 {
        true
    } else if b.len() == 0 {
        false
    } else if a.first() == b.first() {
        subseq_of(a.drop_first(), b.drop_first())
    } else {
        subseq_of(a, b.drop_first())
    }
}

/// A single record is a subsequence of any list ending in it.
proof fn lemma_subseq_single(x: Wall, b: Seq<Wall>)
    ensures
        subseq_of(seq![x], b.push(x)),
    decreases b.len(),
{
    assert(seq![x].drop_first() =~= Seq::<Wall>::empty());
    if b.len() == 0 {
        assert(b.push(x).drop_first() =~= Seq::<Wall>::empty());
        assert(subseq_of(Seq::<Wall>::empty(), Seq::<Wall>::empty()));
    } else {
        assert(b.push(x).drop_first() =~= b.drop_first().push(x));
        if b.first() != x {
            lemma_subseq_single(x, b.drop_first());
        } else {
            assert(subseq_of(Seq::<Wall>::empty(), b.drop_first().push(x)));
        }
    }
}

/// Appending to the longer list keeps a subsequence a subsequence.
pub proof fn lemma_subseq_push_b(a: Seq<Wall>, b: Seq<Wall>, x: Wall)
    requires
        subseq_of(a, b),
    ensures
        subseq_of(a, b.push(x)),
    decreases a.len() + b.len(),
{
    if a.len() == 0 {
    } else {
        assert(b.push(x).drop_first() =~= b.drop_first().push(x));
        if a.first() == b.first() {
            lemma_subseq_push_b(a.drop_first(), b.drop_first(), x);
        } else {
            lemma_subseq_push_b(a, b.drop_first(), x);
        }
    }
}

/// Appending the same record to both lists keeps a subsequence a subsequence.
pub proof fn lemma_subseq_push_both(a: Seq<Wall>, b: Seq<Wall>, x: Wall)
    requires
        subseq_of(a, b),
    ensures
        subseq_of(a.push(x), b.push(x)),
    decreases a.len() + b.len(),
{
    if a.len() == 0 {
        assert(a.push(x) =~= seq![x]);
        lemma_subseq_single(x, b);
    } else {
        assert(a.push(x).drop_first() =~= a.drop_first().push(x));
        assert(b.push(x).drop_first() =~= b.drop_first().push(x));
        if a.first() == b.first() {
            lemma_subseq_push_both(a.drop_first(), b.drop_first(), x);
        } else {
            lemma_subseq_push_both(a, b.drop_first(), x);
        }
    }
}

impl Maze {
    /// Walks the grid in traversal order and returns one record for every
    /// closed interior wall: the cell's top wall unless it sits in row 0,
    /// then its left wall unless it sits in column 0. Border walls are
    /// implicit and never emitted.
    pub fn emit_walls(&self) -> (out: Vec<Wall>)
        requires
            self.wf(),
        ensures
            out@ == emit_spec(*self),
            forall|i: int| 0 <= i < out@.len() ==> wall_record_ok(*self, #[trigger] out@[i]),
    {
        let mut out: Vec<Wall> = Vec::new();
        let mut x: usize = 0;
        while x < self.width
            invariant
                self.wf(),
                x <= self.width,
                out@ == emit_upto(*self, x as int * self.height),
            decreases self.width - x,
        {
            let mut y: usize = 0;
            while y < self.height
                invariant
                    self.wf(),
                    x < self.width,
                    y <= self.height,
                    out@ == emit_upto(*self, x as int * self.height + y),
                decreases self.height - y,
            {
                let ghost k = x as int * self.height + y;
                proof {
                    crate::grid::lemma_idx_bounds(
                        x as int,
                        y as int,
                        self.width as int,
                        self.height as int,
                    );
                    vstd::arithmetic::div_mod::lemma_fundamental_div_mod_converse(
                        k,
                        self.height as int,
                        x as int,
                        y as int,
                    );
                }
                let c = self.cell(crate::grid::Point { x, y });
                if !c.top_open && y > 0 {
                    out.push(Wall { x1: x, y1: y - 1, x2: x, y2: y });
                }
                if !c.left_open && x > 0 {
                    out.push(Wall { x1: x - 1, y1: y, x2: x, y2: y });
                }
                proof {
                    assert(out@ =~= emit_upto(*self, k + 1));
                }
                y = y + 1;
            }
            proof {
                assert((x + 1) * self.height == x as int * self.height + self.height)
                    by (nonlinear_arith);
            }
            x = x + 1;
        }
        proof {
            lemma_emit_upto_ok(*self, self.width as int * self.height);
        }
        out
    }

    /// The sampling emitter: walks the grid like `emit_walls`, but for each
    /// closed interior wall draws a random value in [0, range) and keeps the
    /// record only when the draw reaches `limit`; walls whose draw falls
    /// below are dropped from the output (opened), introducing shortcuts.
    /// With range or limit zero nothing is dropped. Every record kept names a
    /// closed interior wall, so no border wall ever appears.
    pub fn emit_walls_sampled(&self, range: usize, limit: usize, rng: &mut MazeRng) -> (out: Vec<
        Wall,
    >)
        requires
            self.wf(),
        ensures
            forall|i: int| 0 <= i < out@.len() ==> wall_record_ok(*self, #[trigger] out@[i]),
            subseq_of(out@, emit_spec(*self)),
            range == 0 || limit == 0 ==> out@ == emit_spec(*self),
            range > 0 && limit >= range ==> out@ == Seq::<Wall>::empty(),
    {
        let ghost keep_all = range == 0 || limit == 0;
        let ghost drop_all = range > 0 && limit >= range;
        let mut out: Vec<Wall> = Vec::new();
        let mut x: usize = 0;
        while x < self.width
            invariant
                self.wf(),
                x <= self.width,
                keep_all == (range == 0 || limit == 0),
                drop_all == (range > 0 && limit >= range),
                keep_all ==> out@ == emit_upto(*self, x as int * self.height),
                drop_all ==> out@ == Seq::<Wall>::empty(),
                subseq_of(out@, emit_upto(*self, x as int * self.height)),
                forall|i: int| 0 <= i < out@.len() ==> wall_record_ok(*self, #[trigger] out@[i]),
            decreases self.width - x,
        {
            let mut y: usize = 0;
            while y < self.height
                invariant
                    self.wf(),
                    x < self.width,
                    y <= self.height,
                    keep_all == (range == 0 || limit == 0),
                    drop_all == (range > 0 && limit >= range),
                    keep_all ==> out@ == emit_upto(*self, x as int * self.height + y),
                    drop_all ==> out@ == Seq::<Wall>::empty(),
                    subseq_of(out@, emit_upto(*self, x as int * self.height + y)),
                    forall|i: int|
                        0 <= i < out@.len() ==> wall_record_ok(*self, #[trigger] out@[i]),
                decreases self.height - y,
            {
                let ghost k = x as int * self.height + y;
                proof {
                    crate::grid::lemma_idx_bounds(
                        x as int,
                        y as int,
                        self.width as int,
                        self.height as int,
                    );
                    vstd::arithmetic::div_mod::lemma_fundamental_div_mod_converse(
                        k,
                        self.height as int,
                        x as int,
                        y as int,
                    );
                }
                let c = self.cell(crate::grid::Point { x, y });
                let ghost mut b = emit_upto(*self, k);
                if !c.top_open && y > 0 {
                    let rec = Wall { x1: x, y1: y - 1, x2: x, y2: y };
                    if self.keep_wall(range, limit, rng) {
                        proof {
                            lemma_subseq_push_both(out@, b, rec);
                        }
                        out.push(rec);
                    } else {
                        proof {
                            lemma_subseq_push_b(out@, b, rec);
                        }
                    }
                    proof {
                        b = b.push(rec);
                    }
                }
                if !c.left_open && x > 0 {
                    let rec = Wall { x1: x - 1, y1: y, x2: x, y2: y };
                    if self.keep_wall(range, limit, rng) {
                        proof {
                            lemma_subseq_push_both(out@, b, rec);
                        }
                        out.push(rec);
                    } else {
                        proof {
                            lemma_subseq_push_b(out@, b, rec);
                        }
                    }
                    proof {
                        b = b.push(rec);
                    }
                }
                proof {
                    assert(b =~= emit_upto(*self, k + 1));
                    if keep_all {
                        assert(out@ =~= emit_upto(*self, k + 1));
                    }
                }
                y = y + 1;
            }
            proof {
                assert((x + 1) * self.height == x as int * self.height + self.height)
                    by (nonlinear_arith);
            }
            x = x + 1;
        }
        out
    }

    /// One sampling decision: true keeps the wall in the output. A zero range
    /// or limit always keeps it; a limit at or past the range always drops
    /// it; otherwise the wall survives exactly when its draw reaches the
    /// limit.
    fn keep_wall(&self, range: usize, limit: usize, rng: &mut MazeRng) -> (keep: bool)
        ensures
            range == 0 || limit == 0 ==> keep,
            range > 0 && limit >= range ==> !keep,
    {
        if range == 0 || limit == 0 {
            return true;
        }
        let rndnum = rng.below(range);
        rndnum >= limit
    }
}

} // verus!
