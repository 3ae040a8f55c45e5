use vstd::prelude::*;
use crate::grid::{Maze, Point};
use crate::rng::MazeRng;

verus! {

impl Maze {
    /// Clears every wall flag of the cells in the size x size square anchored
    /// at (xs, ys): the block becomes fully open. Cells outside the square
    /// footprint are left exactly as they were, and no visited mark changes.
    pub fn carve_room(&mut self, xs: usize, ys: usize, size: usize)
        requires
            old(self).wf(),
            1 <= xs,
            1 <= ys,
            xs + size <= old(self).width,
            ys + size <= old(self).height,
        ensures
            final(self).wf(),
            final(self).width == old(self).width,
            final(self).height == old(self).height,
            forall|x: int, y: int|
                old(self).in_bounds(x, y) && xs <= x < xs + size && ys <= y < ys + size
                    ==> #[trigger] final(self).at(x, y) == (crate::grid::Square {
                    top_open: true,
                    left_open: true,
                    ..old(self).at(x, y)
                }),
            forall|x: int, y: int|
                old(self).in_bounds(x, y) && !(xs <= x < xs + size && ys <= y < ys + size)
                    ==> #[trigger] final(self).at(x, y) == old(self).at(x, y),
    {
        let ghost m0 = *self;
        let mut x = xs;
        while x < xs + size
            invariant
                self.wf(),
                self.width == m0.width,
                self.height == m0.height,
                xs <= x <= xs + size,
                1 <= xs,
                1 <= ys,
                xs + size <= m0.width,
                ys + size <= m0.height,
                forall|xx: int, yy: int|
                    m0.in_bounds(xx, yy) && xs <= xx < x && ys <= yy < ys + size
                        ==> #[trigger] self.at(xx, yy) == (crate::grid::Square {
                        top_open: true,
                        left_open: true,
                        ..m0.at(xx, yy)
                    }),
                forall|xx: int, yy: int|
                    m0.in_bounds(xx, yy) && !(xs <= xx < x && ys <= yy < ys + size)
                        ==> #[trigger] self.at(xx, yy) == m0.at(xx, yy),
            decreases xs + size - x,
        {
            let mut y = ys;
            while y < ys + size
                invariant
                    self.wf(),
                    self.width == m0.width,
                    self.height == m0.height,
                    xs <= x < xs + size,
                    ys <= y <= ys + size,
                    1 <= xs,
                    1 <= ys,
                    xs + size <= m0.width,
                    ys + size <= m0.height,
                    forall|xx: int, yy: int|
                        m0.in_bounds(xx, yy) && ((xs <= xx < x && ys <= yy < ys + size) || (xx == x
                            && ys <= yy < y)) ==> #[trigger] self.at(xx, yy) == (crate::grid::Square {
                            top_open: true,
                            left_open: true,
                            ..m0.at(xx, yy)
                        }),
                    forall|xx: int, yy: int|
                        m0.in_bounds(xx, yy) && !((xs <= xx < x && ys <= yy < ys + size) || (xx == x
                            && ys <= yy < y)) ==> #[trigger] self.at(xx, yy) == m0.at(xx, yy),
                decreases ys + size - y,
            {
                self.remove_all_walls_from_cell(Point { x, y });
                y = y + 1;
            }
            x = x + 1;
        }
    }

    /// Places `num_rooms` random square rooms of side `room_size`, each
    /// anchored so the square lies inside the grid away from the outer
    /// border, and clears all walls inside each. Rooms may overlap. Carving
    /// only opens walls: it never closes one and never touches a visited
    /// mark. With no rooms the grid is untouched; with at least one, some
    /// validly anchored square stands fully open afterwards.
    pub fn carve_rooms(&mut self, num_rooms: usize, room_size: usize, rng: &mut MazeRng)
        requires
            old(self).wf(),
            room_size + 1 <= old(self).width,
            room_size + 1 <= old(self).height,
        ensures
            final(self).wf(),
            final(self).width == old(self).width,
            final(self).height == old(self).height,
            forall|x: int, y: int|
                old(self).in_bounds(x, y) ==> ((#[trigger] final(self).at(x, y)).visited == old(
                    self,
                ).at(x, y).visited && (old(self).at(x, y).top_open ==> final(self).at(
                    x,
                    y,
                ).top_open) && (old(self).at(x, y).left_open ==> final(self).at(x, y).left_open)),
            num_rooms == 0 ==> *final(self) == *old(self),
            num_rooms >= 1 ==> exists|xs: int, ys: int|
                1 <= xs && xs + room_size <= old(self).width && 1 <= ys && ys + room_size <= old(
                    self,
                ).height && room_open(*final(self), xs, ys, room_size as int),
    {
        if num_rooms == 0 {
            return ;
        }
        let ghost m0 = *self;
        let mut k: usize = 0;
        while k < num_rooms
            invariant
                self.wf(),
                self.width == m0.width,
                self.height == m0.height,
                room_size + 1 <= m0.width,
                room_size + 1 <= m0.height,
                forall|x: int, y: int|
                    m0.in_bounds(x, y) ==> ((#[trigger] self.at(x, y)).visited == m0.at(
                        x,
                        y,
                    ).visited && (m0.at(x, y).top_open ==> self.at(x, y).top_open) && (m0.at(
                        x,
                        y,
                    ).left_open ==> self.at(x, y).left_open)),
                k >= 1 ==> exists|xs: int, ys: int|
                    1 <= xs && xs + room_size <= m0.width && 1 <= ys && ys + room_size <= m0.height
                        && room_open(*self, xs, ys, room_size as int),
            decreases num_rooms - k,
        {
            let xs = 1 + rng.below(self.width - room_size);
            let ys = 1 + rng.below(self.height - room_size);
            self.carve_room(xs, ys, room_size);
            proof {
                assert(room_open(*self, xs as int, ys as int, room_size as int));
            }
            k = k + 1;
        }
    }
}

/// Every cell of the size x size square anchored at (xs, ys) has both of its
/// wall flags open.
pub open spec fn room_open(m: Maze, xs: int, ys: int, size: int) -> bool {
    forall|x: int, y: int|
        xs <= x < xs + size && ys <= y < ys + size ==> (#[trigger] m.at(x, y)).top_open && m.at(
            x,
            y,
        ).left_open
}

} // verus!
