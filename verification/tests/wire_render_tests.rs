use maze::emit::Wall;
use maze::render::{add_wall, paint, paint_close_wall, paint_row, paint_wall, render_from_walls};
use maze::wire::{convert_line, convert_wall, format_wall_line, parse_wall_line};
use maze::MazeError;

#[test]
fn parse_accepts_the_protocol_line() {
    let w = parse_wall_line(b"wall 3 1 3 2").unwrap();
    assert_eq!(w, Wall { x1: 3, y1: 1, x2: 3, y2: 2 });
    let w = parse_wall_line(b"wall 0 0 1 0").unwrap();
    assert_eq!(w, Wall { x1: 0, y1: 0, x2: 1, y2: 0 });
}

#[test]
fn parse_rejects_malformed_lines() {
    // Wrong leading word.
    assert_eq!(parse_wall_line(b"mur 0 0 0 1"), Err(MazeError::Parse));
    // Wrong token count.
    assert_eq!(parse_wall_line(b"wall 0 0 1"), Err(MazeError::Parse));
    assert_eq!(parse_wall_line(b"wall 0 0 1 0 7"), Err(MazeError::Parse));
    // Non-numeric coordinate.
    assert_eq!(parse_wall_line(b"wall a 0 0 1"), Err(MazeError::Parse));
    // Empty token from a doubled space.
    assert_eq!(parse_wall_line(b"wall  0 0 1"), Err(MazeError::Parse));
    // Empty line, and a number too large for the machine.
    assert_eq!(parse_wall_line(b""), Err(MazeError::Parse));
    assert_eq!(
        parse_wall_line(b"wall 99999999999999999999999999 0 0 1"),
        Err(MazeError::Parse)
    );
}

#[test]
fn format_then_parse_gives_the_record_back() {
    for w in [
        Wall { x1: 0, y1: 0, x2: 0, y2: 1 },
        Wall { x1: 12, y1: 7, x2: 13, y2: 7 },
        Wall { x1: 100, y1: 205, x2: 100, y2: 206 },
    ] {
        let line = format_wall_line(&w);
        assert_eq!(parse_wall_line(&line), Ok(w));
    }
    assert_eq!(format_wall_line(&Wall { x1: 2, y1: 0, x2: 2, y2: 1 }), b"wall 2 0 2 1".to_vec());
}

#[test]
fn convert_rewrites_tile_records_to_segments() {
    // A vertical-neighbor pair becomes a horizontal segment.
    let c = convert_wall(&Wall { x1: 3, y1: 1, x2: 3, y2: 2 }).unwrap();
    assert_eq!(c, Wall { x1: 3, y1: 2, x2: 4, y2: 2 });
    // The reversed order names the same wall.
    let c = convert_wall(&Wall { x1: 3, y1: 2, x2: 3, y2: 1 }).unwrap();
    assert_eq!(c, Wall { x1: 3, y1: 2, x2: 4, y2: 2 });
    // A horizontal-neighbor pair becomes a vertical segment.
    let c = convert_wall(&Wall { x1: 0, y1: 0, x2: 1, y2: 0 }).unwrap();
    assert_eq!(c, Wall { x1: 1, y1: 0, x2: 1, y2: 1 });
    let c = convert_wall(&Wall { x1: 1, y1: 0, x2: 0, y2: 0 }).unwrap();
    assert_eq!(c, Wall { x1: 1, y1: 0, x2: 1, y2: 1 });
}

#[test]
fn convert_rejects_non_adjacent_cells() {
    assert_eq!(
        convert_wall(&Wall { x1: 0, y1: 0, x2: 2, y2: 0 }),
        Err(MazeError::Adjacency)
    );
    assert_eq!(
        convert_wall(&Wall { x1: 0, y1: 0, x2: 1, y2: 1 }),
        Err(MazeError::Adjacency)
    );
    assert_eq!(
        convert_wall(&Wall { x1: 5, y1: 5, x2: 5, y2: 5 }),
        Err(MazeError::Adjacency)
    );
}

#[test]
fn convert_line_round_trips_text() {
    assert_eq!(convert_line(b"wall 3 1 3 2").unwrap(), b"wall 3 2 4 2".to_vec());
    assert_eq!(convert_line(b"wall 0 0 1 0").unwrap(), b"wall 1 0 1 1".to_vec());
    assert_eq!(convert_line(b"wall 0 0 3 0"), Err(MazeError::Adjacency));
    assert_eq!(convert_line(b"nonsense"), Err(MazeError::Parse));
}

#[test]
fn painter_draws_the_expected_pieces() {
    assert_eq!(paint_wall(true, true), "+---");
    assert_eq!(paint_wall(true, false), "+   ");
    assert_eq!(paint_wall(false, true), "|   ");
    assert_eq!(paint_wall(false, false), "    ");
    assert_eq!(paint_close_wall(true), "+\n");
    assert_eq!(paint_close_wall(false), "\n");
}

#[test]
fn paint_renders_a_bordered_cell() {
    let wh = vec![vec![true], vec![true]];
    let wv = vec![vec![true, true]];
    assert_eq!(paint_row(true, 0, &wh), "+---+\n");
    assert_eq!(paint_row(false, 0, &wv), "|   |   \n");
    assert_eq!(paint(1, &wv, &wh), "+---+\n|   |   \n+---+\n");
}

#[test]
fn render_draws_the_synthetic_border_alone() {
    let out = render_from_walls(false, &vec![], 1, 1).unwrap();
    assert_eq!(out, "+---+\n|   |   \n+---+\n");
}

#[test]
fn add_wall_rejects_records_outside_the_grid() {
    let mut wh = vec![vec![false; 2], vec![false; 2], vec![false; 2]];
    let mut wv = vec![vec![false; 3], vec![false; 3]];
    // A wall record naming cells beyond a 2 x 2 grid.
    let r = add_wall(false, &Wall { x1: 5, y1: 0, x2: 6, y2: 0 }, &mut wh, &mut wv, 2, 2);
    assert_eq!(r, Err(MazeError::Adjacency));
    let r = add_wall(false, &Wall { x1: 0, y1: 0, x2: 2, y2: 0 }, &mut wh, &mut wv, 2, 2);
    assert_eq!(r, Err(MazeError::Adjacency));
}

#[test]
fn tile_and_line_renders_agree() {
    // The wall list of a small maze in tile convention.
    let tile_walls = vec![
        Wall { x1: 0, y1: 0, x2: 0, y2: 1 },
        Wall { x1: 1, y1: 0, x2: 1, y2: 1 },
        Wall { x1: 0, y1: 1, x2: 1, y2: 1 },
        Wall { x1: 1, y1: 1, x2: 2, y2: 1 },
        Wall { x1: 2, y1: 0, x2: 2, y2: 1 },
    ];
    let line_walls: Vec<Wall> = tile_walls
        .iter()
        .map(|w| convert_wall(w).expect("adjacent record"))
        .collect();
    let from_tiles = render_from_walls(false, &tile_walls, 3, 2).unwrap();
    let from_lines = render_from_walls(true, &line_walls, 3, 2).unwrap();
    assert_eq!(from_tiles, from_lines);
    // The picture marks the converted walls, not the borders alone.
    let bare = render_from_walls(false, &vec![], 3, 2).unwrap();
    assert_ne!(from_tiles, bare);
}

#[test]
fn generated_maze_round_trips_through_the_converter() {
    let cfg = maze::MazeConfig {
        width: 7,
        height: 5,
        num_rooms: 1,
        room_size: 2,
        remove_percentage: 10,
    };
    let mut rng = maze::rng::MazeRng::new();
    let walls = maze::generate(&cfg, &mut rng).expect("valid configuration");
    let converted: Vec<Wall> = walls
        .iter()
        .map(|w| convert_wall(w).expect("generator output is adjacent"))
        .collect();
    let from_tiles = render_from_walls(false, &walls, 7, 5).unwrap();
    let from_lines = render_from_walls(true, &converted, 7, 5).unwrap();
    assert_eq!(from_tiles, from_lines);
}
