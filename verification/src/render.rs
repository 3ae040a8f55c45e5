use vstd::prelude::*;
use crate::MazeError;
use crate::emit::{Wall, wall_in_grid};
use crate::wire::spec_convert;

verus! {

/// The visualizer's model: two boolean grids. `walls_h[r][c]` marks the
/// horizontal wall segment above row r at column c (r runs 0..=height);
/// `walls_v[r][c]` marks the vertical wall segment left of column c in row r
/// (c runs 0..=width).
pub open spec fn deep(v: Seq<Vec<bool>>) -> Seq<Seq<bool>> {
    v.map_values(|row: Vec<bool>| row@)
}

pub open spec fn grids_wf(
    wh: Seq<Vec<bool>>,
    wv: Seq<Vec<bool>>,
    width: int,
    height: int,
) -> bool {
    &&& wh.len() == height + 1
    &&& forall|i: int| 0 <= i < wh.len() ==> (#[trigger] wh[i])@.len() == width
    &&& wv.len() == height
    &&& forall|i: int| 0 <= i < wv.len() ==> (#[trigger] wv[i])@.len() == width + 1
}

/// Which grid cell a record marks: (true, r, c) the horizontal grid at
/// [r][c], (false, r, c) the vertical grid. In the line convention the
/// record's cells are the segment's two endpoints; in the tile convention
/// they are the two cells the wall separates. None when the record's cells
/// are not adjacent.
pub open spec fn mark_target(line: bool, w: Wall) -> Option<(bool, int, int)> {
    if w.x1 == w.x2 && (w.y1 == w.y2 + 1 || w.y2 == w.y1 + 1) {
        let lo = if w.y1 <= w.y2 {
            w.y1 as int
        } else {
            w.y2 as int
        };
        let hi = if w.y1 <= w.y2 {
            w.y2 as int
        } else {
            w.y1 as int
        };
        if line {
            Some((false, lo, w.x1 as int))
        } else {
            Some((true, hi, w.x1 as int))
        }
    } else if w.y1 == w.y2 && (w.x1 == w.x2 + 1 || w.x2 == w.x1 + 1) {
        let lo = if w.x1 <= w.x2 {
            w.x1 as int
        } else {
            w.x2 as int
        };
        let hi = if w.x1 <= w.x2 {
            w.x2 as int
        } else {
            w.x1 as int
        };
        if line {
            Some((true, w.y1 as int, lo))
        } else {
            Some((false, w.y1 as int, hi))
        }
    } else {
        None
    }
}

/// The marked target lies inside grids of the given dimensions.
pub open spec fn target_in_range(t: (bool, int, int), width: int, height: int) -> bool {
    if t.0 {
        0 <= t.1 <= height && 0 <= t.2 < width
    } else {
        0 <= t.1 < height && 0 <= t.2 <= width
    }
}

/// The grids after marking every record in order, or None at the first
/// record that is not adjacent or does not fit the grid.
pub open spec fn mark_all(
    line: bool,
    ws: Seq<Wall>,
    gh: Seq<Seq<bool>>,
    gv: Seq<Seq<bool>>,
    width: int,
    height: int,
) -> Option<(Seq<Seq<bool>>, Seq<Seq<bool>>)>
    decreases ws.len(),
{
    if ws.len() == 0 {
        Some((gh, gv))
    } else {
        match mark_target(line, ws.first()) {
            None => None,
            Some(t) => {
                if target_in_range(t, width, height) {
                    if t.0 {
                        mark_all(
                            line,
                            ws.drop_first(),
                            gh.update(t.1, gh[t.1].update(t.2, true)),
                            gv,
                            width,
                            height,
                        )
                    } else {
                        mark_all(
                            line,
                            ws.drop_first(),
                            gh,
                            gv.update(t.1, gv[t.1].update(t.2, true)),
                            width,
                            height,
                        )
                    }
                } else {
                    None
                }
            },
        }
    }
}

/// A tile record that joins two in-bounds cells converts to a line record
/// that marks the very same grid cell: the converter changes only the
/// convention, never the picture.
pub proof fn lemma_tile_line_mark_equiv(w: Wall, width: int, height: int)
    requires
        wall_in_grid(w, width, height),
        width <= usize::MAX,
        height <= usize::MAX,
    ensures
        spec_convert(w) is Some,
        mark_target(true, spec_convert(w)->Some_0) == mark_target(false, w),
        mark_target(false, w) matches Some(t) && target_in_range(t, width, height),
{
}

/// The round trip of the wall list: marking a tile-convention list and
/// marking its converted line-convention list build identical grids, so the
/// visualizer renders identical pictures from both.
pub proof fn lemma_round_trip_marks(
    ws: Seq<Wall>,
    cs: Seq<Wall>,
    gh: Seq<Seq<bool>>,
    gv: Seq<Seq<bool>>,
    width: int,
    height: int,
)
    requires
        ws.len() == cs.len(),
        forall|i: int| 0 <= i < ws.len() ==> wall_in_grid(#[trigger] ws[i], width, height),
        forall|i: int| 0 <= i < ws.len() ==> spec_convert(#[trigger] ws[i]) == Some(cs[i]),
        width <= usize::MAX,
        height <= usize::MAX,
    ensures
        mark_all(false, ws, gh, gv, width, height) == mark_all(true, cs, gh, gv, width, height),
    decreases ws.len(),
{
    if ws.len() > 0 {
        assert(wall_in_grid(ws[0], width, height));
        assert(spec_convert(ws[0]) == Some(cs[0]));
        lemma_tile_line_mark_equiv(ws[0], width, height);
        let t = mark_target(false, ws.first())->Some_0;
        assert(forall|i: int|
            0 <= i < ws.drop_first().len() ==> #[trigger] ws.drop_first()[i] == ws[i + 1]
                && cs.drop_first()[i] == cs[i + 1]);
        if t.0 {
            lemma_round_trip_marks(
                ws.drop_first(),
                cs.drop_first(),
                gh.update(t.1, gh[t.1].update(t.2, true)),
                gv,
                width,
                height,
            );
        } else {
            lemma_round_trip_marks(
                ws.drop_first(),
                cs.drop_first(),
                gh,
                gv.update(t.1, gv[t.1].update(t.2, true)),
                width,
                height,
            );
        }
    }
}

/// The round trip at the picture level: a tile-convention wall list of
/// in-grid records and its converted line-convention list render the very
/// same ASCII text from the bordered grids.
pub proof fn lemma_round_trip_renders(ws: Seq<Wall>, cs: Seq<Wall>, width: int, height: int)
    requires
        ws.len() == cs.len(),
        forall|i: int| 0 <= i < ws.len() ==> wall_in_grid(#[trigger] ws[i], width, height),
        forall|i: int| 0 <= i < ws.len() ==> spec_convert(#[trigger] ws[i]) == Some(cs[i]),
        width <= usize::MAX,
        height <= usize::MAX,
        mark_all(false, ws, init_h(width, height), init_v(width, height), width, height) is Some,
    ensures
        mark_all(true, cs, init_h(width, height), init_v(width, height), width, height)
            == mark_all(false, ws, init_h(width, height), init_v(width, height), width, height),
        paint_spec(
            height,
            (mark_all(true, cs, init_h(width, height), init_v(width, height), width, height)->Some_0).1,
            (mark_all(true, cs, init_h(width, height), init_v(width, height), width, height)->Some_0).0,
        ) == paint_spec(
            height,
            (mark_all(false, ws, init_h(width, height), init_v(width, height), width, height)->Some_0).1,
            (mark_all(false, ws, init_h(width, height), init_v(width, height), width, height)->Some_0).0,
        ),
{
    lemma_round_trip_marks(ws, cs, init_h(width, height), init_v(width, height), width, height);
}

proof fn lemma_deep_update(v: Seq<Vec<bool>>, r: int, row: Vec<bool>)
    requires
        0 <= r < v.len(),
    ensures
        deep(v.update(r, row)) =~= deep(v).update(r, row@),
{
}

/// Marks the grid cell a record points at: the caller's grids must have the
/// declared dimensions, and the record must be adjacent in the chosen
/// convention and fit them, else the adjacency failure and untouched grids.
pub fn add_wall(
    line: bool,
    w: &Wall,
    walls_h: &mut Vec<Vec<bool>>,
    walls_v: &mut Vec<Vec<bool>>,
    width: usize,
    height: usize,
) -> (r: Result<(), MazeError>)
    requires
        grids_wf(old(walls_h)@, old(walls_v)@, width as int, height as int),
    ensures
        grids_wf(final(walls_h)@, final(walls_v)@, width as int, height as int),
        match mark_target(line, *w) {
            Some(t) => {
                if target_in_range(t, width as int, height as int) {
                    &&& r is Ok
                    &&& (t.0 ==> deep(final(walls_h)@) == deep(old(walls_h)@).update(
                        t.1,
                        deep(old(walls_h)@)[t.1].update(t.2, true),
                    ) && final(walls_v)@ == old(walls_v)@)
                    &&& (!t.0 ==> deep(final(walls_v)@) == deep(old(walls_v)@).update(
                        t.1,
                        deep(old(walls_v)@)[t.1].update(t.2, true),
                    ) && final(walls_h)@ == old(walls_h)@)
                } else {
                    r == Result::<(), MazeError>::Err(MazeError::Adjacency) && final(walls_h)@
                        == old(walls_h)@ && final(walls_v)@ == old(walls_v)@
                }
            },
            None => {
                r == Result::<(), MazeError>::Err(MazeError::Adjacency) && final(walls_h)@ == old(
                    walls_h,
                )@ && final(walls_v)@ == old(walls_v)@
            },
        },
{
    if w.x1 == w.x2 && ((w.y2 < w.y1 && w.y1 - w.y2 == 1) || (w.y1 < w.y2 && w.y2 - w.y1 == 1)) {
        let lo = if w.y1 <= w.y2 {
            w.y1
        } else {
            w.y2
        };
        let hi = if w.y1 <= w.y2 {
            w.y2
        } else {
            w.y1
        };
        if line {
            if lo < height && w.x1 <= width {
                let ghost v0 = walls_v@;
                walls_v[lo][w.x1] = true;
                proof {
                    assert(walls_v@ =~= v0.update(lo as int, walls_v@[lo as int]));
                    lemma_deep_update(v0, lo as int, walls_v@[lo as int]);
                }
                Ok(())
            } else {
                Err(MazeError::Adjacency)
            }
        } else {
            if hi <= height && w.x1 < width {
                let ghost h0 = walls_h@;
                walls_h[hi][w.x1] = true;
                proof {
                    assert(walls_h@ =~= h0.update(hi as int, walls_h@[hi as int]));
                    lemma_deep_update(h0, hi as int, walls_h@[hi as int]);
                }
                Ok(())
            } else {
                Err(MazeError::Adjacency)
            }
        }
    } else if w.y1 == w.y2 && ((w.x2 < w.x1 && w.x1 - w.x2 == 1) || (w.x1 < w.x2 && w.x2 - w.x1
        == 1)) {
        let lo = if w.x1 <= w.x2 {
            w.x1
        } else {
            w.x2
        };
        let hi = if w.x1 <= w.x2 {
            w.x2
        } else {
            w.x1
        };
        if line {
            if w.y1 <= height && lo < width {
                let ghost h0 = walls_h@;
                walls_h[w.y1][lo] = true;
                proof {
                    assert(walls_h@ =~= h0.update(w.y1 as int, walls_h@[w.y1 as int]));
                    lemma_deep_update(h0, w.y1 as int, walls_h@[w.y1 as int]);
                }
                Ok(())
            } else {
                Err(MazeError::Adjacency)
            }
        } else {
            if w.y1 < height && hi <= width {
                let ghost v0 = walls_v@;
                walls_v[w.y1][hi] = true;
                proof {
                    assert(walls_v@ =~= v0.update(w.y1 as int, walls_v@[w.y1 as int]));
                    lemma_deep_update(v0, w.y1 as int, walls_v@[w.y1 as int]);
                }
                Ok(())
            } else {
                Err(MazeError::Adjacency)
            }
        }
    } else {
        Err(MazeError::Adjacency)
    }
}

/// One wall cell's text: a horizontal cell is a corner and a dash run or a
/// gap; a vertical cell is a bar or a gap, then the cell's interior.
pub open spec fn wall_chars(is_horiz: bool, active: bool) -> Seq<char> {
    if is_horiz {
        if active {
            "+---"@
        } else {
            "+   "@
        }
    } else {
        if active {
            "|   "@
        } else {
            "    "@
        }
    }
}

/// What closes a row: the final corner of a horizontal row, then the line
/// break.
pub open spec fn close_chars(is_horiz: bool) -> Seq<char> {
    if is_horiz {
        "+\n"@
    } else {
        "\n"@
    }
}

pub open spec fn row_chars_upto(is_horiz: bool, row: Seq<bool>, k: int) -> Seq<char>
    decreases k,
{
    if k <= 0 {
        Seq::empty()
    } else {
        row_chars_upto(is_horiz, row, k - 1) + wall_chars(is_horiz, row[k - 1])
    }
}

/// The text of one whole row of wall cells.
pub open spec fn row_chars(is_horiz: bool, row: Seq<bool>) -> Seq<char> {
    row_chars_upto(is_horiz, row, row.len() as int) + close_chars(is_horiz)
}

pub open spec fn paint_rows(k: int, wv: Seq<Seq<bool>>, wh: Seq<Seq<bool>>) -> Seq<char>
    decreases k,
{
    if k <= 0 {
        Seq::empty()
    } else {
        paint_rows(k - 1, wv, wh) + row_chars(true, wh[k - 1]) + row_chars(false, wv[k - 1])
    }
}

/// The whole picture: height alternating horizontal and vertical rows, then
/// the closing horizontal row.
pub open spec fn paint_spec(height: int, wv: Seq<Seq<bool>>, wh: Seq<Seq<bool>>) -> Seq<char> {
    paint_rows(height, wv, wh) + row_chars(true, wh[height])
}

/// Displays a wall cell.
pub fn paint_wall(is_horiz: bool, active: bool) -> (r: String)
    ensures
        r@ == wall_chars(is_horiz, active),
{
    if is_horiz {
        if active {
            "+---".to_owned()
        } else {
            "+   ".to_owned()
        }
    } else {
        if active {
            "|   ".to_owned()
        } else {
            "    ".to_owned()
        }
    }
}

/// Displays the final wall of a row.
pub fn paint_close_wall(is_horiz: bool) -> (r: String)
    ensures
        r@ == close_chars(is_horiz),
{
    if is_horiz {
        "+\n".to_owned()
    } else {
        "\n".to_owned()
    }
}

/// Displays a whole row of walls.
pub fn paint_row(is_horiz: bool, idx: usize, walls: &Vec<Vec<bool>>) -> (r: String)
    requires
        idx < walls@.len(),
    ensures
        r@ == row_chars(is_horiz, walls@[idx as int]@),
{
    let mut out = String::new();
    let n = walls[idx].len();
    let mut j: usize = 0;
    while j < n
        invariant
            idx < walls@.len(),
            n == walls@[idx as int]@.len(),
            j <= n,
            out@ == row_chars_upto(is_horiz, walls@[idx as int]@, j as int),
        decreases n - j,
    {
        let piece = paint_wall(is_horiz, walls[idx][j]);
        out.append(piece.as_str());
        j = j + 1;
    }
    let close = paint_close_wall(is_horiz);
    out.append(close.as_str());
    out
}

/// Paints the maze: for each grid row its horizontal wall row then its
/// vertical wall row, and the closing horizontal row at the bottom.
pub fn paint(height: usize, wv: &Vec<Vec<bool>>, wh: &Vec<Vec<bool>>) -> (r: String)
    requires
        height + 1 <= wh@.len(),
        height <= wv@.len(),
    ensures
        r@ == paint_spec(height as int, deep(wv@), deep(wh@)),
{
    let mut out = String::new();
    let mut i: usize = 0;
    while i < height
        invariant
            height + 1 <= wh@.len(),
            height <= wv@.len(),
            i <= height,
            out@ == paint_rows(i as int, deep(wv@), deep(wh@)),
        decreases height - i,
    {
        let rh = paint_row(true, i, wh);
        out.append(rh.as_str());
        let rv = paint_row(false, i, wv);
        out.append(rv.as_str());
        proof {
            assert(deep(wh@)[i as int] == wh@[i as int]@);
            assert(deep(wv@)[i as int] == wv@[i as int]@);
        }
        i = i + 1;
    }
    let rh = paint_row(true, height, wh);
    out.append(rh.as_str());
    proof {
        assert(deep(wh@)[height as int] == wh@[height as int]@);
    }
    out
}

/// The grids before any record is read: a full synthetic border (top and
/// bottom horizontal rows, left and right vertical columns) and nothing else.
pub open spec fn init_h(width: int, height: int) -> Seq<Seq<bool>> {
    Seq::new((height + 1) as nat, |r: int| Seq::new(width as nat, |c: int| r == 0 || r == height))
}

pub open spec fn init_v(width: int, height: int) -> Seq<Seq<bool>> {
    Seq::new(height as nat, |r: int| Seq::new((width + 1) as nat, |c: int| c == 0 || c == width))
}

/// The visualizer's core: marks every record of the wall list (in the chosen
/// convention) onto bordered grids of the given dimensions and paints the
/// picture. Fails with the adjacency failure exactly when some record is not
/// adjacent or does not fit the grid, at the first such record.
pub fn render_from_walls(line: bool, walls: &Vec<Wall>, width: usize, height: usize) -> (r: Result<
    String,
    MazeError,
>)
    requires
        width < usize::MAX,
        height < usize::MAX,
    ensures
        r is Ok <==> mark_all(
            line,
            walls@,
            init_h(width as int, height as int),
            init_v(width as int, height as int),
            width as int,
            height as int,
        ) is Some,
        r matches Ok(text) ==> text@ == paint_spec(
            height as int,
            (mark_all(
                line,
                walls@,
                init_h(width as int, height as int),
                init_v(width as int, height as int),
                width as int,
                height as int,
            )->Some_0).1,
            (mark_all(
                line,
                walls@,
                init_h(width as int, height as int),
                init_v(width as int, height as int),
                width as int,
                height as int,
            )->Some_0).0,
        ),
        r matches Err(e) ==> e == MazeError::Adjacency,
{
    let ghost gh0 = init_h(width as int, height as int);
    let ghost gv0 = init_v(width as int, height as int);
    let mut wh: Vec<Vec<bool>> = Vec::new();
    let mut r: usize = 0;
    while r < height + 1
        invariant
            height < usize::MAX,
            r <= height + 1,
            wh@.len() == r,
            forall|rr: int|
                0 <= rr < r ==> (#[trigger] wh@[rr])@ == init_h(
                    width as int,
                    height as int,
                )[rr],
        decreases height + 1 - r,
    {
        let mut row: Vec<bool> = Vec::new();
        let border = r == 0 || r == height;
        let mut c: usize = 0;
        while c < width
            invariant
                c <= width,
                row@.len() == c,
                border == (r == 0 || r == height),
                r <= height,
                forall|cc: int| 0 <= cc < c ==> row@[cc] == border,
            decreases width - c,
        {
            row.push(border);
            c = c + 1;
        }
        wh.push(row);
        proof {
            assert(wh@[r as int]@ =~= init_h(width as int, height as int)[r as int]);
        }
        r = r + 1;
    }
    let mut wv: Vec<Vec<bool>> = Vec::new();
    let mut r2: usize = 0;
    while r2 < height
        invariant
            width < usize::MAX,
            r2 <= height,
            wv@.len() == r2,
            forall|rr: int|
                0 <= rr < r2 ==> (#[trigger] wv@[rr])@ == init_v(
                    width as int,
                    height as int,
                )[rr],
        decreases height - r2,
    {
        let mut row: Vec<bool> = Vec::new();
        let mut c: usize = 0;
        while c < width + 1
            invariant
                width < usize::MAX,
                c <= width + 1,
                row@.len() == c,
                forall|cc: int| 0 <= cc < c ==> row@[cc] == (cc == 0 || cc == width),
            decreases width + 1 - c,
        {
            row.push(c == 0 || c == width);
            c = c + 1;
        }
        wv.push(row);
        proof {
            assert(wv@[r2 as int]@ =~= init_v(width as int, height as int)[r2 as int]);
        }
        r2 = r2 + 1;
    }
    proof {
        assert(deep(wh@) =~~= gh0);
        assert(deep(wv@) =~~= gv0);
        assert(walls@.skip(0) =~= walls@);
    }
    let mut i: usize = 0;
    while i < walls.len()
        invariant
            width < usize::MAX,
            height < usize::MAX,
            i <= walls@.len(),
            gh0 == init_h(width as int, height as int),
            gv0 == init_v(width as int, height as int),
            grids_wf(wh@, wv@, width as int, height as int),
            mark_all(line, walls@, gh0, gv0, width as int, height as int) == mark_all(
                line,
                walls@.skip(i as int),
                deep(wh@),
                deep(wv@),
                width as int,
                height as int,
            ),
        decreases walls@.len() - i,
    {
        let w = walls[i];
        let ghost pre_h = deep(wh@);
        let ghost pre_v = deep(wv@);
        proof {
            assert(walls@.skip(i as int).first() == walls@[i as int]);
            assert(walls@.skip(i as int).drop_first() =~= walls@.skip(i as int + 1));
        }
        match add_wall(line, &w, &mut wh, &mut wv, width, height) {
            Ok(()) => {},
            Err(e) => {
                proof {
                    assert(mark_all(
                        line,
                        walls@.skip(i as int),
                        pre_h,
                        pre_v,
                        width as int,
                        height as int,
                    ) is None);
                }
                return Err(e);
            },
        }
        i = i + 1;
    }
    proof {
        assert(walls@.skip(walls@.len() as int) =~= Seq::<Wall>::empty());
        assert(mark_all(line, walls@, gh0, gv0, width as int, height as int) == Some(
            (deep(wh@), deep(wv@)),
        ));
    }
    let text = paint(height, &wv, &wh);
    Ok(text)
}

} // verus!
