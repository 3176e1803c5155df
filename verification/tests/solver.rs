use wfc::engine::{WFC, WfcError};
use wfc::tile::{Direction, WfcTile};
use wfc::tilesets::pipes;
use wfc::worldmap::Worldmap;

fn tile(index: u32, ct: [usize; 6], rotatable: bool) -> WfcTile {
    WfcTile { index, connection_types: ct, angle: 0, is_rotatable: rotatable }
}

#[test]
fn neighbour_lookup_respects_the_grid_edge() {
    let w = Worldmap::new3d(2, 2, 1);
    assert_eq!(w.move_([0, 0, 0], &Direction::NORTH), None);
    assert_eq!(w.move_([0, 0, 0], &Direction::SOUTH), Some([0, 1, 0]));
    assert_eq!(w.move_([0, 0, 0], &Direction::EAST), None);
    assert_eq!(w.move_([0, 0, 0], &Direction::WEST), Some([1, 0, 0]));
    assert_eq!(w.move_([0, 0, 0], &Direction::UP), None);
    assert_eq!(w.move_([0, 0, 0], &Direction::DOWN), None);
    assert_eq!(w.move_([1, 1, 0], &Direction::NORTH), Some([1, 0, 0]));
    assert_eq!(w.move_([1, 1, 0], &Direction::WEST), None);
}

#[test]
fn direction_flip_is_an_involution() {
    let dirs = [
        Direction::NORTH,
        Direction::EAST,
        Direction::SOUTH,
        Direction::WEST,
        Direction::UP,
        Direction::DOWN,
    ];
    for d in dirs {
        assert_eq!(d.flip().flip(), d);
        assert!(d.flip() != d);
        assert_eq!(d.flip().as_index(), Direction::from_index(d.as_index()).flip().as_index());
    }
}

#[test]
fn tmp_iter_walks_the_first_axis_outermost() {
    let w = Worldmap::new3d(2, 2, 1);
    let order = w.tmp_iter();
    assert_eq!(order, vec![[0, 0, 0], [0, 1, 0], [1, 0, 0], [1, 1, 0]]);
}

#[test]
fn exclude_tile_removes_exactly_the_failed_choice() {
    let a = tile(1, [1, 0, 0, 0, 0, 0], false);
    let b = tile(2, [2, 0, 0, 0, 0, 0], false);
    let c = tile(3, [3, 0, 0, 0, 0, 0], false);
    let w = Worldmap::new3d(2, 1, 1);
    let mut wfc = WFC::init(w, vec![a, b, c], 1);
    // the checkpoint-side backtrack operation: all but the failed tile stay
    wfc.worldmap.exclude_tile([0, 0, 0], b);
    let dom = wfc.worldmap.domain_at([0, 0, 0]);
    assert_eq!(dom.len(), 2);
    assert_eq!(dom[0], a);
    assert_eq!(dom[1], c);
    // the other cell is untouched
    assert_eq!(wfc.worldmap.domain_at([1, 0, 0]).len(), 3);
}

#[test]
fn two_cell_grid_never_mixes_line_and_empty() {
    // a vertical pair: "line" carries label 1 on the shared axis,
    // "empty" carries 0, so the two cells must agree
    let line = tile(1, [5, 0, 5, 0, 0, 0], false);
    let empty = tile(2, [0, 0, 0, 0, 0, 0], false);
    for seed in 0..20u64 {
        let w = Worldmap::new3d(1, 2, 1);
        let mut wfc = WFC::init(w, vec![line, empty], seed);
        let r = wfc.run();
        assert!(r.is_ok());
        // no backtrack decided a cell silently, so the consistency
        // guarantee of the contracts applies to this grid
        assert!(wfc.arc_clean);
        let top = wfc.worldmap.domain_at([0, 0, 0]);
        let bottom = wfc.worldmap.domain_at([0, 1, 0]);
        assert_eq!(top.len(), 1);
        assert_eq!(bottom.len(), 1);
        assert_eq!(top[0].index, bottom[0].index);
    }
}

#[test]
fn pinning_a_border_ring_leaves_the_interior_undecided() {
    let empty = tile(1, [0, 0, 0, 0, 0, 0], false);
    let blob = tile(2, [0, 0, 0, 0, 0, 0], false);
    let spark = tile(3, [1, 1, 1, 1, 0, 0], false);
    let w = Worldmap::new3d(5, 5, 1);
    let mut wfc = WFC::init(w, vec![empty, blob, spark], 7);
    let mut pinned = 0;
    for x in 0..5usize {
        for y in 0..5usize {
            if x == 0 || x == 4 || y == 0 || y == 4 {
                let r = wfc.add_tile([x, y, 0], empty);
                assert!(r.is_ok());
                pinned += 1;
            }
        }
    }
    assert_eq!(pinned, 16);
    for x in 0..5usize {
        for y in 0..5usize {
            let dom = wfc.worldmap.domain_at([x, y, 0]);
            if x == 0 || x == 4 || y == 0 || y == 4 {
                assert_eq!(dom.len(), 1);
                assert_eq!(dom[0], empty);
            } else {
                assert!(dom.len() > 1);
            }
        }
    }
}

#[test]
fn surround_border_pins_every_ring_cell() {
    let empty = tile(1, [0, 0, 0, 0, 0, 0], false);
    let blob = tile(2, [0, 0, 0, 0, 0, 0], false);
    let w = Worldmap::new3d(4, 3, 1);
    let mut wfc = WFC::init(w, vec![empty, blob], 7);
    let r = wfc.surround_border(empty);
    assert!(r.is_ok());
    for x in 0..4usize {
        for y in 0..3usize {
            let dom = wfc.worldmap.domain_at([x, y, 0]);
            if x == 0 || x == 3 || y == 0 || y == 2 {
                assert_eq!(dom.len(), 1);
                assert_eq!(dom[0], empty);
            }
        }
    }
}

#[test]
fn incompatible_catalog_is_unsolvable_for_every_seed() {
    // no two variants share a label on any side, and neither matches itself
    let a = tile(1, [1, 2, 3, 4, 0, 0], false);
    let b = tile(2, [5, 6, 7, 8, 0, 0], false);
    let w = Worldmap::new3d(2, 2, 1);
    let mut wfc = WFC::init(w, vec![a, b], 0);
    let r = wfc.run_until_success(25);
    match r {
        Err(WfcError::Unsolvable(_)) => {},
        _ => panic!("a catalog without any matching pair must exhaust every seed"),
    }
    // the failing attempt left a grid without the consistency guarantee
    assert!(!wfc.arc_clean);
}

#[test]
fn surround_border_pins_the_caps_of_a_deep_grid() {
    let empty = tile(1, [0, 0, 0, 0, 0, 0], false);
    let blob = tile(2, [0, 0, 0, 0, 0, 0], false);
    let w = Worldmap::new3d(3, 3, 3);
    let mut wfc = WFC::init(w, vec![empty, blob], 7);
    let r = wfc.surround_border(empty);
    assert!(r.is_ok());
    for x in 0..3usize {
        for y in 0..3usize {
            for z in 0..3usize {
                let dom = wfc.worldmap.domain_at([x, y, z]);
                let ring = x == 0 || x == 2 || y == 0 || y == 2;
                let cap = z == 0 || z == 2;
                if ring || cap {
                    assert_eq!(dom.len(), 1);
                    assert_eq!(dom[0], empty);
                } else {
                    // only the very centre is not on the boundary
                    assert_eq!((x, y, z), (1, 1, 1));
                    assert_eq!(dom.len(), 2);
                }
            }
        }
    }
}

#[test]
fn same_seed_gives_the_same_grid() {
    let (_, tiles, _) = pipes();
    let mut grids = Vec::new();
    for _ in 0..2 {
        let w = Worldmap::new3d(3, 3, 1);
        let mut wfc = WFC::init(w, tiles.clone(), 42);
        let r = wfc.run_until_success(50);
        assert!(r.is_ok());
        grids.push(wfc.decided_cells());
    }
    assert_eq!(grids[0], grids[1]);
}

#[test]
fn different_seeds_reproduce_independently() {
    let line = tile(1, [5, 0, 5, 0, 0, 0], false);
    let empty = tile(2, [0, 0, 0, 0, 0, 0], false);
    let mut first = Vec::new();
    for round in 0..2 {
        for seed in 0..10u64 {
            let w = Worldmap::new3d(2, 3, 1);
            let mut wfc = WFC::init(w, vec![line, empty], seed);
            assert!(wfc.run().is_ok());
            let cells = wfc.decided_cells();
            if round == 0 {
                first.push(cells);
            } else {
                assert_eq!(first[seed as usize], cells);
            }
        }
    }
}

#[test]
fn step_reports_done_once_everything_is_decided() {
    let a = tile(1, [0, 0, 0, 0, 0, 0], false);
    let b = tile(2, [0, 0, 0, 0, 0, 0], false);
    let w = Worldmap::new3d(1, 1, 1);
    let mut wfc = WFC::init(w, vec![a, b], 3);
    assert_eq!(wfc.wfc_step(), Ok(false));
    let dom = wfc.worldmap.domain_at([0, 0, 0]);
    assert_eq!(dom.len(), 1);
    assert!(dom[0] == a || dom[0] == b);
    assert_eq!(wfc.wfc_step(), Ok(true));
}

#[test]
fn contradictory_pin_is_rejected_and_rolled_back() {
    let line = tile(1, [5, 0, 5, 0, 0, 0], false);
    let empty = tile(2, [0, 0, 0, 0, 0, 0], false);
    let stranger = tile(9, [9, 9, 9, 9, 0, 0], false);
    let w = Worldmap::new3d(1, 2, 1);
    let mut wfc = WFC::init(w, vec![line, empty], 5);
    let r = wfc.add_tile([0, 0, 0], stranger);
    match r {
        Err(WfcError::Contradiction(_)) => {},
        _ => panic!("pinning an unmatchable tile must surface a contradiction"),
    }
    // the pin did not partially apply
    assert_eq!(wfc.worldmap.domain_at([0, 0, 0]).len(), 2);
    assert_eq!(wfc.worldmap.domain_at([0, 1, 0]).len(), 2);
}

#[test]
fn propagate_filters_the_neighbourhood() {
    let line = tile(1, [5, 0, 5, 0, 0, 0], false);
    let empty = tile(2, [0, 0, 0, 0, 0, 0], false);
    let w = Worldmap::new3d(1, 3, 1);
    let mut wfc = WFC::init(w, vec![line, empty], 5);
    let r = wfc.add_tile([0, 0, 0], line);
    assert!(r.is_ok());
    // the middle cell must now face the line with a matching label
    let mid = wfc.worldmap.domain_at([0, 1, 0]);
    assert_eq!(mid.len(), 1);
    assert_eq!(mid[0], line);
    // and the chain forces the far cell too
    let far = wfc.worldmap.domain_at([0, 2, 0]);
    assert_eq!(far.len(), 1);
    assert_eq!(far[0], line);
}

#[test]
fn propagate_runs_outward_from_a_shrunk_cell() {
    let line = tile(1, [5, 0, 5, 0, 0, 0], false);
    let empty = tile(2, [0, 0, 0, 0, 0, 0], false);
    let w = Worldmap::new3d(1, 2, 1);
    let mut wfc = WFC::init(w, vec![line, empty], 0);
    wfc.worldmap.exclude_tile([0, 0, 0], empty);
    let r = wfc.propagate([0, 0, 0]);
    assert!(r.is_ok());
    let other = wfc.worldmap.domain_at([0, 1, 0]);
    assert_eq!(other.len(), 1);
    assert_eq!(other[0], line);
    // a second pass finds nothing left to do
    let again = wfc.propagate([0, 0, 0]);
    assert!(again.is_ok());
    assert_eq!(wfc.worldmap.domain_at([0, 1, 0]).len(), 1);
}

#[test]
fn solved_grids_agree_across_every_shared_edge() {
    let (_, tiles, _) = pipes();
    let w = Worldmap::new3d(4, 4, 1);
    let mut wfc = WFC::init(w, tiles, 11);
    let r = wfc.run_until_success(100);
    assert!(r.is_ok());
    for x in 0..4usize {
        for y in 0..4usize {
            let here = wfc.worldmap.domain_at([x, y, 0]);
            assert_eq!(here.len(), 1);
            if x + 1 < 4 {
                // west neighbour in grid terms: one step along the first axis
                let there = wfc.worldmap.domain_at([x + 1, y, 0]);
                assert_eq!(here[0].connection_types[3], there[0].connection_types[1]);
            }
            if y + 1 < 4 {
                let there = wfc.worldmap.domain_at([x, y + 1, 0]);
                assert_eq!(here[0].connection_types[2], there[0].connection_types[0]);
            }
        }
    }
}

#[test]
fn propagation_never_grows_a_domain() {
    let line = tile(1, [5, 0, 5, 0, 0, 0], false);
    let empty = tile(2, [0, 0, 0, 0, 0, 0], false);
    let w = Worldmap::new3d(2, 3, 1);
    let mut wfc = WFC::init(w, vec![line, empty], 3);
    let mut before = Vec::new();
    for x in 0..2usize {
        for y in 0..3usize {
            before.push(wfc.worldmap.domain_at([x, y, 0]).len());
        }
    }
    let _ = wfc.add_tile([0, 1, 0], empty);
    let mut i = 0;
    for x in 0..2usize {
        for y in 0..3usize {
            assert!(wfc.worldmap.domain_at([x, y, 0]).len() <= before[i]);
            i += 1;
        }
    }
}

#[test]
fn decided_cells_lists_every_decided_position() {
    let line = tile(1, [5, 0, 5, 0, 0, 0], false);
    let empty = tile(2, [0, 0, 0, 0, 0, 0], false);
    let w = Worldmap::new3d(1, 2, 1);
    let mut wfc = WFC::init(w, vec![line, empty], 0);
    assert_eq!(wfc.decided_cells(), Vec::<(usize, usize, usize, u32, u32)>::new());
    assert!(wfc.run().is_ok());
    let cells = wfc.decided_cells();
    assert_eq!(cells.len(), 2);
    assert_eq!((cells[0].0, cells[0].1, cells[0].2), (0, 0, 0));
    assert_eq!((cells[1].0, cells[1].1, cells[1].2), (0, 1, 0));
    assert_eq!(cells[0].4, cells[1].4);
}

#[test]
fn reseeding_keeps_the_grid_and_changes_the_seed() {
    let a = tile(1, [0, 0, 0, 0, 0, 0], false);
    let w = Worldmap::new3d(2, 2, 1);
    let mut wfc = WFC::init(w, vec![a], 9);
    assert_eq!(wfc.seed, 9);
    wfc.init_rng(10);
    assert_eq!(wfc.seed, 10);
    assert_eq!(wfc.worldmap.len(), 4);
}

#[test]
fn reset_refills_every_domain() {
    let line = tile(1, [5, 0, 5, 0, 0, 0], false);
    let empty = tile(2, [0, 0, 0, 0, 0, 0], false);
    let w = Worldmap::new3d(1, 2, 1);
    let mut wfc = WFC::init(w, vec![line, empty], 1);
    assert!(wfc.run().is_ok());
    assert_eq!(wfc.worldmap.domain_at([0, 0, 0]).len(), 1);
    wfc.init_worldmap();
    assert_eq!(wfc.worldmap.domain_at([0, 0, 0]).len(), 2);
    assert_eq!(wfc.worldmap.domain_at([0, 1, 0]).len(), 2);
}

#[test]
fn vertical_axis_participates_in_matching() {
    // two layers: a shaft tile carries label 7 on its vertical sides,
    // a cap carries 0, so the two layers must agree
    let shaft = tile(1, [0, 0, 0, 0, 7, 7], false);
    let cap = tile(2, [0, 0, 0, 0, 0, 0], false);
    for seed in 0..10u64 {
        let w = Worldmap::new3d(1, 1, 2);
        let mut wfc = WFC::init(w, vec![shaft, cap], seed);
        assert!(wfc.run().is_ok());
        let below = wfc.worldmap.domain_at([0, 0, 0]);
        let above = wfc.worldmap.domain_at([0, 0, 1]);
        assert_eq!(below.len(), 1);
        assert_eq!(above.len(), 1);
        assert_eq!(below[0].index, above[0].index);
    }
}

#[test]
fn snapshots_are_independent_copies() {
    let a = tile(1, [1, 1, 1, 1, 0, 0], false);
    let b = tile(2, [0, 0, 0, 0, 0, 0], false);
    let w = Worldmap::new3d(2, 1, 1);
    let mut wfc = WFC::init(w, vec![a, b], 0);
    let snap = wfc.worldmap.snapshot();
    wfc.worldmap.exclude_tile([0, 0, 0], a);
    assert_eq!(wfc.worldmap.domain_at([0, 0, 0]).len(), 1);
    assert_eq!(snap.domain_at([0, 0, 0]).len(), 2);
}
