use maze::emit::Wall;
use maze::grid::{Maze, Point};
use maze::rng::MazeRng;
use maze::{generate, sampling_params, ConfigFault, MazeConfig, MazeError};

fn fresh_maze(width: usize, height: usize) -> Maze {
    Maze::new(width, height).expect("valid dimensions")
}

#[test]
fn new_rejects_zero_dimensions() {
    assert_eq!(
        Maze::new(0, 5).err(),
        Some(MazeError::Config(ConfigFault::Dimensions))
    );
    assert_eq!(
        Maze::new(5, 0).err(),
        Some(MazeError::Config(ConfigFault::Dimensions))
    );
    assert!(Maze::new(1, 1).is_ok());
}

#[test]
fn new_grid_has_all_walls_and_coordinates() {
    let m = fresh_maze(4, 3);
    for x in 0..4 {
        for y in 0..3 {
            let sq = m.cell(Point { x, y });
            assert!(!sq.top_open);
            assert!(!sq.left_open);
            assert!(!sq.visited);
            assert_eq!(sq.loc.x, x);
            assert_eq!(sq.loc.y, y);
        }
    }
}

#[test]
fn neighbor_lookup_respects_edges() {
    let m = fresh_maze(3, 2);
    let corner = Point { x: 0, y: 0 };
    assert!(m.get_neighbor(corner, 0).is_none());
    assert!(m.get_neighbor(corner, 1).is_none());
    let r = m.get_neighbor(corner, 2).unwrap();
    assert_eq!((r.x, r.y), (1, 0));
    let d = m.get_neighbor(corner, 3).unwrap();
    assert_eq!((d.x, d.y), (0, 1));
    let far = Point { x: 2, y: 1 };
    assert!(m.get_neighbor(far, 2).is_none());
    assert!(m.get_neighbor(far, 3).is_none());
}

// Drives the carver exactly as the maze builder does, with a fixed direction
// draw instead of a random one: the scan order from draw 2 is right, down,
// left, up.
fn carve_fixed(m: &mut Maze, start: Point, draw: usize) {
    m.mark_visited(start);
    let mut stack = vec![start];
    while !stack.is_empty() {
        m.carve_step(&mut stack, draw);
    }
}

#[test]
fn three_by_one_fixed_order_opens_exactly_two_walls() {
    let mut m = fresh_maze(3, 1);
    carve_fixed(&mut m, Point { x: 0, y: 0 }, 2);
    // The two walls (0,0)-(1,0) and (1,0)-(2,0) are open: each is owned by the
    // right-hand cell's left flag.
    assert!(m.cell(Point { x: 1, y: 0 }).left_open);
    assert!(m.cell(Point { x: 2, y: 0 }).left_open);
    // No other flag was touched.
    for x in 0..3 {
        assert!(!m.cell(Point { x, y: 0 }).top_open);
    }
    assert!(!m.cell(Point { x: 0, y: 0 }).left_open);
    // Every interior wall is open, so the emitter prints no record at all.
    let walls = m.emit_walls();
    assert_eq!(walls.len(), 0);
}

fn count_open_flags(m: &Maze, width: usize, height: usize) -> usize {
    let mut n = 0;
    for x in 0..width {
        for y in 0..height {
            let sq = m.cell(Point { x, y });
            if sq.top_open {
                n += 1;
            }
            if sq.left_open {
                n += 1;
            }
        }
    }
    n
}

fn reachable_cells(m: &Maze, width: usize, height: usize, start: (usize, usize)) -> usize {
    let mut seen = vec![vec![false; height]; width];
    let mut queue = vec![start];
    seen[start.0][start.1] = true;
    let mut count = 0;
    while let Some((x, y)) = queue.pop() {
        count += 1;
        // Walk through every open wall around (x, y).
        if y > 0 && m.cell(Point { x, y }).top_open && !seen[x][y - 1] {
            seen[x][y - 1] = true;
            queue.push((x, y - 1));
        }
        if x > 0 && m.cell(Point { x, y }).left_open && !seen[x - 1][y] {
            seen[x - 1][y] = true;
            queue.push((x - 1, y));
        }
        if y + 1 < height && m.cell(Point { x, y: y + 1 }).top_open && !seen[x][y + 1] {
            seen[x][y + 1] = true;
            queue.push((x, y + 1));
        }
        if x + 1 < width && m.cell(Point { x: x + 1, y }).left_open && !seen[x + 1][y] {
            seen[x + 1][y] = true;
            queue.push((x + 1, y));
        }
    }
    count
}

#[test]
fn carve_builds_connected_spanning_tree() {
    let mut m = fresh_maze(6, 4);
    let mut rng = MazeRng::new();
    m.carve_from(Point { x: 2, y: 1 }, &mut rng);
    // Spanning tree: exactly width * height - 1 opened walls.
    assert_eq!(count_open_flags(&m, 6, 4), 6 * 4 - 1);
    // Connected: a traversal from the start reaches every cell.
    assert_eq!(reachable_cells(&m, 6, 4, (2, 1)), 6 * 4);
    // And every cell carries the visited mark.
    for x in 0..6 {
        for y in 0..4 {
            assert!(m.cell(Point { x, y }).visited);
        }
    }
}

#[test]
fn carve_works_on_degenerate_grids() {
    let mut m = fresh_maze(1, 1);
    let mut rng = MazeRng::new();
    m.carve_from(Point { x: 0, y: 0 }, &mut rng);
    assert_eq!(count_open_flags(&m, 1, 1), 0);
    let mut tall = fresh_maze(1, 7);
    tall.carve_from(Point { x: 0, y: 3 }, &mut rng);
    assert_eq!(count_open_flags(&tall, 1, 7), 6);
    assert_eq!(reachable_cells(&tall, 1, 7, (0, 3)), 7);
}

#[test]
fn room_carving_touches_only_the_footprint() {
    let mut m = fresh_maze(10, 10);
    m.carve_room(3, 3, 3);
    for x in 0..10 {
        for y in 0..10 {
            let sq = m.cell(Point { x, y });
            let inside = (3..6).contains(&x) && (3..6).contains(&y);
            assert_eq!(sq.top_open, inside, "top flag at ({x},{y})");
            assert_eq!(sq.left_open, inside, "left flag at ({x},{y})");
            assert!(!sq.visited);
        }
    }
}

#[test]
fn room_size_five_on_five_grid_fails_before_output() {
    let cfg = MazeConfig {
        width: 5,
        height: 5,
        num_rooms: 1,
        room_size: 5,
        remove_percentage: 0,
    };
    let mut rng = MazeRng::new();
    let err = generate(&cfg, &mut rng).unwrap_err();
    assert_eq!(err, MazeError::Config(ConfigFault::RoomSize));
    assert_eq!(err.message(), "room size too large for maze");
}

#[test]
fn generate_rejects_zero_dimensions() {
    let mut rng = MazeRng::new();
    for cfg in [
        MazeConfig { width: 0, height: 3, num_rooms: 0, room_size: 0, remove_percentage: 0 },
        MazeConfig { width: 3, height: 0, num_rooms: 0, room_size: 0, remove_percentage: 0 },
    ] {
        assert_eq!(
            generate(&cfg, &mut rng).unwrap_err(),
            MazeError::Config(ConfigFault::Dimensions)
        );
    }
}

#[test]
fn generate_without_post_processing_emits_all_closed_walls() {
    let cfg = MazeConfig {
        width: 6,
        height: 4,
        num_rooms: 0,
        room_size: 0,
        remove_percentage: 0,
    };
    let mut rng = MazeRng::new();
    let walls = generate(&cfg, &mut rng).expect("valid configuration");
    // A perfect maze on a 6 x 4 grid keeps (6-1) * (4-1) interior walls:
    // 2wh - w - h walls in all, minus the wh - 1 the carver opened.
    assert_eq!(walls.len(), (6 - 1) * (4 - 1));
    for w in &walls {
        let vertical = w.x1 == w.x2 && w.y2 == w.y1 + 1;
        let horizontal = w.y1 == w.y2 && w.x2 == w.x1 + 1;
        assert!(vertical || horizontal, "record must join adjacent cells");
        assert!(w.x2 < 6 && w.y2 < 4, "record must stay inside the grid");
        // Never a border wall: the owning cell is off row 0 / column 0.
        if vertical {
            assert!(w.y2 >= 1);
        } else {
            assert!(w.x2 >= 1);
        }
    }
}

#[test]
fn full_removal_percentage_drops_every_wall() {
    let cfg = MazeConfig {
        width: 8,
        height: 5,
        num_rooms: 0,
        room_size: 0,
        remove_percentage: 100,
    };
    let mut rng = MazeRng::new();
    let walls = generate(&cfg, &mut rng).expect("valid configuration");
    // limit == range: every draw falls below it, so nothing survives.
    assert_eq!(walls.len(), 0);
}

#[test]
fn sampling_params_match_the_estimate() {
    // Nine tenths of the cell count when there are no rooms, limit zero when
    // nothing is to be removed.
    assert_eq!(sampling_params(20, 10, 0, 0, 0), (180, 0));
    // The preset configuration: 9*121/10 = 108, minus 5 rooms of 2*2;
    // 8 percent of 88 is 7.
    assert_eq!(sampling_params(11, 11, 5, 2, 8), (88, 7));
    // Rooms can eat the whole estimate.
    assert_eq!(sampling_params(3, 3, 10, 2, 50), (0, 0));
}

#[test]
fn error_messages_are_descriptive() {
    assert_eq!(
        MazeError::Config(ConfigFault::Dimensions).message(),
        "invalid maze dimensions"
    );
    assert_eq!(
        MazeError::Config(ConfigFault::RoomSize).message(),
        "room size too large for maze"
    );
    assert_eq!(
        MazeError::Parse.message(),
        "bad input, expecting \"wall x1 y1 x2 y2\""
    );
    assert_eq!(MazeError::Adjacency.message(), "bad input, non-adjacent cells");
}

#[test]
fn equal_draw_sequences_carve_equal_mazes() {
    let mut first = fresh_maze(4, 3);
    let mut second = fresh_maze(4, 3);
    carve_fixed(&mut first, Point { x: 1, y: 2 }, 3);
    carve_fixed(&mut second, Point { x: 1, y: 2 }, 3);
    for x in 0..4 {
        for y in 0..3 {
            let a = first.cell(Point { x, y });
            let b = second.cell(Point { x, y });
            assert_eq!(a.top_open, b.top_open);
            assert_eq!(a.left_open, b.left_open);
            assert_eq!(a.visited, b.visited);
        }
    }
    assert_eq!(first.emit_walls(), second.emit_walls());
}

#[test]
fn emitted_records_are_the_closed_walls_in_order() {
    let mut m = fresh_maze(2, 2);
    // Open the wall between (0,0) and (1,0); the three other interior walls
    // stay closed.
    m.remove_wall(Point { x: 0, y: 0 }, Point { x: 1, y: 0 });
    let walls = m.emit_walls();
    assert_eq!(
        walls,
        vec![
            Wall { x1: 0, y1: 0, x2: 0, y2: 1 },
            Wall { x1: 1, y1: 0, x2: 1, y2: 1 },
            Wall { x1: 0, y1: 1, x2: 1, y2: 1 },
        ]
    );
}
