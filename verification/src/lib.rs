use vstd::prelude::*;

pub mod carve;
pub mod emit;
pub mod grid;
pub mod render;
pub mod rng;
pub mod rooms;
pub mod wire;

verus! {

/// What made a configuration invalid: a zero (or unaddressable) dimension,
/// or a room too large to anchor inside the grid.
#[derive(Clone, Copy, Debug, PartialEq, Eq, Structural)]
pub enum ConfigFault {
    Dimensions,
    RoomSize,
}

/// The failure kinds of the maze toolset.
///
/// `Config` reports invalid generation parameters, with the fault named.
/// `Parse` reports a malformed wall-list line. `Adjacency` reports a wall
/// record whose two cells are not grid-adjacent.
#[derive(Clone, Copy, Debug, PartialEq, Eq, Structural)]
pub enum MazeError {
    Config(ConfigFault),
    Parse,
    Adjacency,
}

impl MazeError {
    /// A human-readable description of the failure.
    pub fn message(&self) -> (r: String)
        ensures
            r@ == self.spec_message(),
    {
        proof {
            reveal_strlit("invalid maze dimensions");
            reveal_strlit("room size too large for maze");
            reveal_strlit("bad input, expecting \"wall x1 y1 x2 y2\"");
            reveal_strlit("bad input, non-adjacent cells");
        }
        match self {
            MazeError::Config(ConfigFault::Dimensions) => "invalid maze dimensions".to_owned(),
            MazeError::Config(ConfigFault::RoomSize) => "room size too large for maze".to_owned(),
            MazeError::Parse => "bad input, expecting \"wall x1 y1 x2 y2\"".to_owned(),
            MazeError::Adjacency => "bad input, non-adjacent cells".to_owned(),
        }
    }

    pub open spec fn spec_message(self) -> Seq<char> {
        match self {
            MazeError::Config(ConfigFault::Dimensions) => "invalid maze dimensions"@,
            MazeError::Config(ConfigFault::RoomSize) => "room size too large for maze"@,
            MazeError::Parse => "bad input, expecting \"wall x1 y1 x2 y2\""@,
            MazeError::Adjacency => "bad input, non-adjacent cells"@,
        }
    }
}

/// Which configuration error `generate` reports, checks in order: the
/// dimensions first, then the room size.
pub open spec fn spec_config_error(cfg: MazeConfig) -> MazeError {
    if cfg.width == 0 || cfg.height == 0 {
        MazeError::Config(ConfigFault::Dimensions)
    } else if cfg.room_size + 1 > cfg.width || cfg.room_size + 1 > cfg.height {
        MazeError::Config(ConfigFault::RoomSize)
    } else {
        MazeError::Config(ConfigFault::Dimensions)
    }
}

/// The generator's parameters: grid dimensions, optional rooms, and the
/// percentage of remaining walls to drop from the output.
pub struct MazeConfig {
    pub width: usize,
    pub height: usize,
    pub num_rooms: usize,
    pub room_size: usize,
    pub remove_percentage: usize,
}

/// A configuration the generator accepts: both dimensions at least 1 (and the
/// grid addressable), and any room small enough that it can be anchored off
/// the border: at most width - 1 and height - 1 on a side.
pub open spec fn spec_config_ok(cfg: MazeConfig) -> bool {
    &&& 1 <= cfg.width
    &&& 1 <= cfg.height
    &&& cfg.width * cfg.height <= usize::MAX
    &&& cfg.room_size + 1 <= cfg.width
    &&& cfg.room_size + 1 <= cfg.height
}

/// The sampler's estimated count of closed walls: nine tenths of the cell
/// count, less the walls the rooms cleared. A deliberate approximation that
/// steers the per-wall drop probability, not an exact wall count.
pub open spec fn spec_range_est(width: int, height: int, num_rooms: int, room_size: int) -> int {
    let base = 9 * width * height / 10;
    let cleared = room_size * room_size * num_rooms;
    if base > cleared {
        base - cleared
    } else {
        0
    }
}

/// The sampler's threshold: the requested percentage of the estimated range,
/// capped at the range itself.
pub open spec fn spec_limit(range: int, pct: int) -> int {
    let l = range * pct / 100;
    if l > range {
        range
    } else {
        l
    }
}

/// Computes the sampling range and limit of the wall density pass.
pub fn sampling_params(
    width: usize,
    height: usize,
    num_rooms: usize,
    room_size: usize,
    remove_percentage: usize,
) -> (r: (usize, usize))
    requires
        width * height <= usize::MAX,
    ensures
        r.0 == spec_range_est(width as int, height as int, num_rooms as int, room_size as int),
        r.1 == spec_limit(r.0 as int, remove_percentage as int),
{
    let wh = (width as u128) * (height as u128);
    let base = 9 * wh / 10;
    proof {
        assert(9 * wh / 10 <= wh) by {
            vstd::arithmetic::div_mod::lemma_div_is_ordered(9 * wh, 10 * wh, 10);
            vstd::arithmetic::div_mod::lemma_div_by_multiple(wh as int, 10);
        }
    }
    let rs = room_size as u128;
    proof {
        assert(rs * rs <= u128::MAX) by (nonlinear_arith)
            requires
                rs <= u64::MAX,
        {}
    }
    let cleared = (rs * rs).checked_mul(num_rooms as u128);
    let range128: u128 = match cleared {
        Some(c) => {
            if base > c {
                base - c
            } else {
                0
            }
        },
        None => {
            proof {
                assert(rs * rs * (num_rooms as u128) > u128::MAX ==> rs * rs * (num_rooms as int)
                    >= base) by (nonlinear_arith)
                    requires
                        base <= u128::MAX,
                {}
            }
            0
        },
    };
    proof {
        vstd::arithmetic::mul::lemma_mul_is_associative(9, width as int, height as int);
    }
    let range = range128 as usize;
    proof {
        assert((range * (remove_percentage as int)) <= u128::MAX) by (nonlinear_arith)
            requires
                range <= u64::MAX,
                remove_percentage <= u64::MAX,
        {}
    }
    let l128 = (range as u128) * (remove_percentage as u128) / 100;
    let limit = if l128 > range as u128 {
        range
    } else {
        l128 as usize
    };
    (range, limit)
}

/// Runs the whole generation pipeline: validates the configuration, carves a
/// spanning-tree maze from a random start cell, carves the requested rooms,
/// and emits the surviving walls under the density sampler. Fails with the
/// configuration error exactly on the configurations `spec_config_ok`
/// rejects, before any carving. Every record returned names a pair of
/// adjacent in-bounds cells, so border walls never appear in the output.
/// With no removal percentage the output is exactly the closed-wall list of
/// a carved maze of the requested dimensions — a spanning tree when no rooms
/// were asked for; with the full percentage and a positive sampling estimate
/// the output is empty.
pub fn generate(cfg: &MazeConfig, rng: &mut rng::MazeRng) -> (r: Result<Vec<emit::Wall>, MazeError>)
    ensures
        r is Ok <==> spec_config_ok(*cfg),
        r matches Err(e) ==> e == spec_config_error(*cfg),
        r matches Ok(walls) ==> forall|i: int|
            0 <= i < walls@.len() ==> emit::wall_in_grid(
                #[trigger] walls@[i],
                cfg.width as int,
                cfg.height as int,
            ),
        r matches Ok(walls) ==> (cfg.remove_percentage == 0 ==> exists|m: grid::Maze|
            {
                &&& m.wf()
                &&& m.width == cfg.width
                &&& m.height == cfg.height
                &&& walls@ == #[trigger] emit::emit_spec(m)
                &&& (cfg.num_rooms == 0 ==> grid::count_open(m.cells@) == cfg.width * cfg.height
                    - 1 && exists|start: grid::Point| #[trigger] carve::spanning_from(m, start))
            }),
        r matches Ok(walls) ==> (cfg.remove_percentage >= 100 && spec_range_est(
            cfg.width as int,
            cfg.height as int,
            cfg.num_rooms as int,
            cfg.room_size as int,
        ) > 0 ==> walls@.len() == 0),
{
    if cfg.width == 0 || cfg.height == 0 {
        return Err(MazeError::Config(ConfigFault::Dimensions));
    }
    if cfg.room_size > cfg.height - 1 || cfg.room_size > cfg.width - 1 {
        return Err(MazeError::Config(ConfigFault::RoomSize));
    }
    let mut m = match grid::Maze::new(cfg.width, cfg.height) {
        Ok(m) => m,
        Err(e) => {
            return Err(e);
        },
    };
    let sx = rng.below(cfg.width);
    let sy = rng.below(cfg.height);
    let start = grid::Point { x: sx, y: sy };
    m.carve_from(start, rng);
    let ghost carved = m;
    m.carve_rooms(cfg.num_rooms, cfg.room_size, rng);
    let (range, limit) = sampling_params(
        cfg.width,
        cfg.height,
        cfg.num_rooms,
        cfg.room_size,
        cfg.remove_percentage,
    );
    let walls = m.emit_walls_sampled(range, limit, rng);
    proof {
        let est = spec_range_est(
            cfg.width as int,
            cfg.height as int,
            cfg.num_rooms as int,
            cfg.room_size as int,
        );
        if cfg.remove_percentage == 0 {
            assert(limit == 0) by {
                assert(range as int * 0 == 0);
                assert(0int / 100int == 0);
            }
            assert(walls@ == emit::emit_spec(m));
            if cfg.num_rooms == 0 {
                assert(m == carved);
                assert(carve::spanning_from(m, start));
            }
        }
        if cfg.remove_percentage >= 100 && est > 0 {
            assert(limit == range) by {
                vstd::arithmetic::mul::lemma_mul_inequality(
                    100,
                    cfg.remove_percentage as int,
                    range as int,
                );
                vstd::arithmetic::div_mod::lemma_div_is_ordered(
                    range as int * 100,
                    range as int * cfg.remove_percentage,
                    100,
                );
                vstd::arithmetic::div_mod::lemma_div_by_multiple(range as int, 100);
            }
        }
    }
    Ok(walls)
}

} // verus!
