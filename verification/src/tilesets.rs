//! Author-supplied tile catalogs: each returns the path of its
//! texture atlas, the base tiles, and the atlas width in tiles.

use vstd::prelude::*;
use crate::bigtile::{create_big_tile, families, flatten_slots, seam_pass, slots_of};
use crate::tile::{WfcTile, tile_ok};

verus! {

/// Atlas column and row of a tile: its identity split by the atlas
/// width.
pub fn get_col_row(tile: &WfcTile, size: u32) -> (r: (u32, u32))
    requires
        size > 0,
    ensures
        r.0 == tile.index % size,
        r.1 == tile.index / size,
{
    let col = tile.index % size;
    let row = tile.index / size;
    (col, row)
}

/// The eight authored pipe tiles.
pub open spec fn pipes_base() -> Seq<WfcTile> {
    seq![
        WfcTile { index: 0, connection_types: [1, 1, 0, 1, 0, 0], angle: 0, is_rotatable: true },
        WfcTile { index: 2, connection_types: [0, 0, 0, 0, 0, 0], angle: 0, is_rotatable: true },
        WfcTile { index: 4, connection_types: [0, 1, 0, 1, 0, 0], angle: 0, is_rotatable: true },
        WfcTile { index: 1, connection_types: [1, 1, 1, 1, 0, 0], angle: 0, is_rotatable: true },
        WfcTile { index: 5, connection_types: [0, 1, 1, 0, 0, 0], angle: 0, is_rotatable: true },
        WfcTile { index: 6, connection_types: [0, 2, 0, 1, 0, 0], angle: 0, is_rotatable: true },
        WfcTile { index: 3, connection_types: [0, 2, 2, 0, 0, 0], angle: 0, is_rotatable: true },
        WfcTile { index: 7, connection_types: [0, 2, 0, 2, 0, 0], angle: 0, is_rotatable: true },
    ]
}

/// The first multi-cell pipe arrangement: a full 2-by-2 block.
pub open spec fn pipes_big1() -> Seq<Option<(u32, [usize; 6])>> {
    seq![
        Some((8u32, [0usize, 0, 0, 2, 0, 0])),
        Some((9u32, [0usize, 1, 0, 0, 0, 0])),
        Some((12u32, [0usize, 0, 0, 1, 0, 0])),
        Some((13u32, [0usize, 2, 0, 0, 0, 0])),
    ]
}

/// The second multi-cell pipe arrangement: an L of three cells.
pub open spec fn pipes_big2() -> Seq<Option<(u32, [usize; 6])>> {
    seq![
        Some((10u32, [0usize, 9, 9, 0, 0, 0])),
        Some((11u32, [0usize, 1, 0, 9, 0, 0])),
        Some((14u32, [9usize, 0, 2, 0, 0, 0])),
        None,
    ]
}

/// The full pipe catalog: the eight base tiles followed by the two
/// composed arrangements, welded with fresh seam labels from 1000 on.
pub open spec fn pipes_tiles() -> Seq<WfcTile> {
    let w1 = seam_pass(slots_of(pipes_big1()), 2, 0, 4, 1000);
    let w2 = seam_pass(slots_of(pipes_big2()), 2, 0, 4, w1.1);
    pipes_base() + families(flatten_slots(w1.0)) + families(flatten_slots(w2.0))
}

/// The pipe tile set.
pub fn pipes() -> (r: (String, Vec<WfcTile>, u32))
    ensures
        r.0@ == "./pipes_tileset.png"@,
        r.1@ == pipes_tiles(),
        r.2 == 4,
        forall|i: int| 0 <= i < r.1@.len() ==> tile_ok(#[trigger] r.1@[i]),
{
    let tilemap = "./pipes_tileset.png".to_owned();

    let mut tiles: Vec<WfcTile> = Vec::new();
    // T-junction
    tiles.push(WfcTile { index: 0, connection_types: [1, 1, 0, 1, 0, 0], angle: 0, is_rotatable: true });
    // empty
    tiles.push(WfcTile { index: 2, connection_types: [0, 0, 0, 0, 0, 0], angle: 0, is_rotatable: true });
    // line
    tiles.push(WfcTile { index: 4, connection_types: [0, 1, 0, 1, 0, 0], angle: 0, is_rotatable: true });
    // X-junction
    tiles.push(WfcTile { index: 1, connection_types: [1, 1, 1, 1, 0, 0], angle: 0, is_rotatable: true });
    // corner
    tiles.push(WfcTile { index: 5, connection_types: [0, 1, 1, 0, 0, 0], angle: 0, is_rotatable: true });
    // connecting pipe
    tiles.push(WfcTile { index: 6, connection_types: [0, 2, 0, 1, 0, 0], angle: 0, is_rotatable: true });
    // red corner
    tiles.push(WfcTile { index: 3, connection_types: [0, 2, 2, 0, 0, 0], angle: 0, is_rotatable: true });
    // red line
    tiles.push(WfcTile { index: 7, connection_types: [0, 2, 0, 2, 0, 0], angle: 0, is_rotatable: true });
    proof {
        assert(tiles@[0].connection_types =~= pipes_base()[0].connection_types);
        assert(tiles@[1].connection_types =~= pipes_base()[1].connection_types);
        assert(tiles@[2].connection_types =~= pipes_base()[2].connection_types);
        assert(tiles@[3].connection_types =~= pipes_base()[3].connection_types);
        assert(tiles@[4].connection_types =~= pipes_base()[4].connection_types);
        assert(tiles@[5].connection_types =~= pipes_base()[5].connection_types);
        assert(tiles@[6].connection_types =~= pipes_base()[6].connection_types);
        assert(tiles@[7].connection_types =~= pipes_base()[7].connection_types);
        assert(tiles@ =~= pipes_base());
        assert(forall|i: int| 0 <= i < tiles@.len() ==> tile_ok(#[trigger] tiles@[i]));
    }

    // multi-cell blocks, welded with synthetic seam labels
    let mut conn: usize = 1000;
    let mut big1: Vec<Option<(u32, [usize; 6])>> = Vec::new();
    big1.push(Some((8, [0, 0, 0, 2, 0, 0])));
    big1.push(Some((9, [0, 1, 0, 0, 0, 0])));
    big1.push(Some((12, [0, 0, 0, 1, 0, 0])));
    big1.push(Some((13, [0, 2, 0, 0, 0, 0])));
    proof {
        assert(big1@[0]->Some_0.1 =~= pipes_big1()[0]->Some_0.1);
        assert(big1@[1]->Some_0.1 =~= pipes_big1()[1]->Some_0.1);
        assert(big1@[2]->Some_0.1 =~= pipes_big1()[2]->Some_0.1);
        assert(big1@[3]->Some_0.1 =~= pipes_big1()[3]->Some_0.1);
        assert(big1@ =~= pipes_big1());
        assert(crate::bigtile::big_tile_input_ok(1000, 2, 2, big1@));
    }
    let mut part1 = create_big_tile(&mut conn, (2, 2, 1), big1);
    proof {
        crate::bigtile::lemma_seam_gen_bounds(slots_of(pipes_big1()), 2, 0, 4, 1000);
    }
    tiles.append(&mut part1);

    let mut big2: Vec<Option<(u32, [usize; 6])>> = Vec::new();
    big2.push(Some((10, [0, 9, 9, 0, 0, 0])));
    big2.push(Some((11, [0, 1, 0, 9, 0, 0])));
    big2.push(Some((14, [9, 0, 2, 0, 0, 0])));
    big2.push(None);
    proof {
        assert(big2@[0]->Some_0.1 =~= pipes_big2()[0]->Some_0.1);
        assert(big2@[1]->Some_0.1 =~= pipes_big2()[1]->Some_0.1);
        assert(big2@[2]->Some_0.1 =~= pipes_big2()[2]->Some_0.1);
        assert(big2@ =~= pipes_big2());
        assert(crate::bigtile::big_tile_input_ok(conn as int, 2, 2, big2@));
    }
    let mut part2 = create_big_tile(&mut conn, (2, 2, 1), big2);
    tiles.append(&mut part2);
    proof {
        assert(tiles@ =~= pipes_tiles());
    }
    (tilemap, tiles, 4)
}

/// The authored city tiles.
pub open spec fn flat_city_tiles() -> Seq<WfcTile> {
    seq![
        WfcTile { index: 0, connection_types: [1, 1, 1, 1, 0, 0], angle: 0, is_rotatable: true },
        WfcTile { index: 1, connection_types: [1, 1, 1, 1, 0, 0], angle: 0, is_rotatable: true },
        WfcTile { index: 2, connection_types: [1, 0, 1, 0, 0, 0], angle: 0, is_rotatable: true },
        WfcTile { index: 3, connection_types: [1, 0, 0, 1, 0, 0], angle: 0, is_rotatable: true },
        WfcTile { index: 4, connection_types: [1, 1, 1, 1, 0, 0], angle: 0, is_rotatable: true },
        WfcTile { index: 8, connection_types: [1, 2, 1, 2, 0, 0], angle: 0, is_rotatable: true },
        WfcTile { index: 9, connection_types: [1, 2, 2, 1, 0, 0], angle: 0, is_rotatable: true },
        WfcTile { index: 10, connection_types: [1, 3, 3, 1, 0, 0], angle: 0, is_rotatable: true },
        WfcTile { index: 12, connection_types: [3, 3, 3, 3, 0, 0], angle: 0, is_rotatable: true },
        WfcTile { index: 5, connection_types: [1, 1, 1, 0, 0, 0], angle: 0, is_rotatable: true },
        WfcTile { index: 13, connection_types: [1, 0, 0, 0, 0, 0], angle: 0, is_rotatable: true },
    ]
}

/// The city tile set: paths, walls and blocks.
pub fn flat_city() -> (r: (String, Vec<WfcTile>, u32))
    ensures
        r.0@ == "./flat-city.png"@,
        r.1@ == flat_city_tiles(),
        r.2 == 8,
        forall|i: int| 0 <= i < r.1@.len() ==> tile_ok(#[trigger] r.1@[i]),
{
    let tilemap = "./flat-city.png".to_owned();
    let mut tiles: Vec<WfcTile> = Vec::new();
    tiles.push(WfcTile { index: 0, connection_types: [1, 1, 1, 1, 0, 0], angle: 0, is_rotatable: true });
    tiles.push(WfcTile { index: 1, connection_types: [1, 1, 1, 1, 0, 0], angle: 0, is_rotatable: true });
    tiles.push(WfcTile { index: 2, connection_types: [1, 0, 1, 0, 0, 0], angle: 0, is_rotatable: true });
    tiles.push(WfcTile { index: 3, connection_types: [1, 0, 0, 1, 0, 0], angle: 0, is_rotatable: true });
    tiles.push(WfcTile { index: 4, connection_types: [1, 1, 1, 1, 0, 0], angle: 0, is_rotatable: true });
    // walls
    tiles.push(WfcTile { index: 8, connection_types: [1, 2, 1, 2, 0, 0], angle: 0, is_rotatable: true });
    tiles.push(WfcTile { index: 9, connection_types: [1, 2, 2, 1, 0, 0], angle: 0, is_rotatable: true });
    // fat blocks
    tiles.push(WfcTile { index: 10, connection_types: [1, 3, 3, 1, 0, 0], angle: 0, is_rotatable: true });
    tiles.push(WfcTile { index: 12, connection_types: [3, 3, 3, 3, 0, 0], angle: 0, is_rotatable: true });
    tiles.push(WfcTile { index: 5, connection_types: [1, 1, 1, 0, 0, 0], angle: 0, is_rotatable: true });
    tiles.push(WfcTile { index: 13, connection_types: [1, 0, 0, 0, 0, 0], angle: 0, is_rotatable: true });
    proof {
        assert(tiles@[0].connection_types =~= flat_city_tiles()[0].connection_types);
        assert(tiles@[1].connection_types =~= flat_city_tiles()[1].connection_types);
        assert(tiles@[2].connection_types =~= flat_city_tiles()[2].connection_types);
        assert(tiles@[3].connection_types =~= flat_city_tiles()[3].connection_types);
        assert(tiles@[4].connection_types =~= flat_city_tiles()[4].connection_types);
        assert(tiles@[5].connection_types =~= flat_city_tiles()[5].connection_types);
        assert(tiles@[6].connection_types =~= flat_city_tiles()[6].connection_types);
        assert(tiles@[7].connection_types =~= flat_city_tiles()[7].connection_types);
        assert(tiles@[8].connection_types =~= flat_city_tiles()[8].connection_types);
        assert(tiles@[9].connection_types =~= flat_city_tiles()[9].connection_types);
        assert(tiles@[10].connection_types =~= flat_city_tiles()[10].connection_types);
        assert(tiles@ =~= flat_city_tiles());
    }
    (tilemap, tiles, 8)
}

/// The city path tiles alone.
pub open spec fn flat_city_path_tiles() -> Seq<WfcTile> {
    seq![
        WfcTile { index: 0, connection_types: [1, 1, 1, 1, 0, 0], angle: 0, is_rotatable: true },
        WfcTile { index: 2, connection_types: [1, 0, 1, 0, 0, 0], angle: 0, is_rotatable: true },
        WfcTile { index: 3, connection_types: [1, 0, 0, 1, 0, 0], angle: 0, is_rotatable: true },
        WfcTile { index: 5, connection_types: [1, 1, 1, 0, 0, 0], angle: 0, is_rotatable: true },
    ]
}

/// The path-only city tile set.
pub fn flat_city_paths_only() -> (r: (String, Vec<WfcTile>, u32))
    ensures
        r.0@ == "./flat-city.png"@,
        r.1@ == flat_city_path_tiles(),
        r.2 == 8,
        forall|i: int| 0 <= i < r.1@.len() ==> tile_ok(#[trigger] r.1@[i]),
{
    let tilemap = "./flat-city.png".to_owned();
    let mut tiles: Vec<WfcTile> = Vec::new();
    tiles.push(WfcTile { index: 0, connection_types: [1, 1, 1, 1, 0, 0], angle: 0, is_rotatable: true });
    tiles.push(WfcTile { index: 2, connection_types: [1, 0, 1, 0, 0, 0], angle: 0, is_rotatable: true });
    tiles.push(WfcTile { index: 3, connection_types: [1, 0, 0, 1, 0, 0], angle: 0, is_rotatable: true });
    tiles.push(WfcTile { index: 5, connection_types: [1, 1, 1, 0, 0, 0], angle: 0, is_rotatable: true });
    proof {
        assert(tiles@[0].connection_types =~= flat_city_path_tiles()[0].connection_types);
        assert(tiles@[1].connection_types =~= flat_city_path_tiles()[1].connection_types);
        assert(tiles@[2].connection_types =~= flat_city_path_tiles()[2].connection_types);
        assert(tiles@[3].connection_types =~= flat_city_path_tiles()[3].connection_types);
        assert(tiles@ =~= flat_city_path_tiles());
    }
    (tilemap, tiles, 8)
}

/// The flat part of the staircase catalog.
pub open spec fn stairs_3d_base() -> Seq<WfcTile> {
    seq![
        WfcTile { index: 0, connection_types: [0, 0, 0, 0, 0, 0], angle: 0, is_rotatable: true },
        WfcTile { index: 2, connection_types: [1, 0, 1, 0, 0, 0], angle: 0, is_rotatable: true },
        WfcTile { index: 3, connection_types: [1, 0, 1, 1, 0, 0], angle: 0, is_rotatable: true },
        WfcTile { index: 4, connection_types: [1, 0, 0, 0, 0, 0], angle: 0, is_rotatable: true },
        WfcTile { index: 5, connection_types: [1, 0, 0, 1, 0, 0], angle: 0, is_rotatable: true },
    ]
}

/// The two-cell staircase arrangement: a stair below, empty above.
pub open spec fn stairs_big() -> Seq<Option<(u32, [usize; 6])>> {
    seq![Some((1u32, [1usize, 0, 0, 0, 0, 0])), Some((0u32, [0usize, 0, 1, 0, 0, 0]))]
}

/// The staircase catalog.
pub open spec fn stairs_3d_tiles() -> Seq<WfcTile> {
    let w = seam_pass(slots_of(stairs_big()), 1, 0, 1, 1000);
    stairs_3d_base() + families(flatten_slots(w.0))
}

/// The staircase tile set.
pub fn stairs_3d() -> (r: (String, Vec<WfcTile>, u32))
    ensures
        r.0@ == ""@,
        r.1@ == stairs_3d_tiles(),
        r.2 == 0,
        forall|i: int| 0 <= i < r.1@.len() ==> tile_ok(#[trigger] r.1@[i]),
{
    let tilemap = "".to_owned();
    let mut tiles: Vec<WfcTile> = Vec::new();
    // empty
    tiles.push(WfcTile { index: 0, connection_types: [0, 0, 0, 0, 0, 0], angle: 0, is_rotatable: true });
    // line
    tiles.push(WfcTile { index: 2, connection_types: [1, 0, 1, 0, 0, 0], angle: 0, is_rotatable: true });
    // T-junction
    tiles.push(WfcTile { index: 3, connection_types: [1, 0, 1, 1, 0, 0], angle: 0, is_rotatable: true });
    // dead end
    tiles.push(WfcTile { index: 4, connection_types: [1, 0, 0, 0, 0, 0], angle: 0, is_rotatable: true });
    // corner
    tiles.push(WfcTile { index: 5, connection_types: [1, 0, 0, 1, 0, 0], angle: 0, is_rotatable: true });
    proof {
        assert(tiles@[0].connection_types =~= stairs_3d_base()[0].connection_types);
        assert(tiles@[1].connection_types =~= stairs_3d_base()[1].connection_types);
        assert(tiles@[2].connection_types =~= stairs_3d_base()[2].connection_types);
        assert(tiles@[3].connection_types =~= stairs_3d_base()[3].connection_types);
        assert(tiles@[4].connection_types =~= stairs_3d_base()[4].connection_types);
        assert(tiles@ =~= stairs_3d_base());
    }
    let mut conn: usize = 1000;
    let mut big: Vec<Option<(u32, [usize; 6])>> = Vec::new();
    big.push(Some((1, [1, 0, 0, 0, 0, 0])));
    big.push(Some((0, [0, 0, 1, 0, 0, 0])));
    proof {
        assert(big@[0]->Some_0.1 =~= stairs_big()[0]->Some_0.1);
        assert(big@[1]->Some_0.1 =~= stairs_big()[1]->Some_0.1);
        assert(big@ =~= stairs_big());
        assert(crate::bigtile::big_tile_input_ok(1000, 1, 1, big@));
    }
    let mut part = create_big_tile(&mut conn, (1, 1, 2), big);
    tiles.append(&mut part);
    proof {
        assert(tiles@ =~= stairs_3d_tiles());
    }
    (tilemap, tiles, 0)
}

/// The path part of the staircase catalog.
pub open spec fn stairs_3d_path_base() -> Seq<WfcTile> {
    seq![
        WfcTile { index: 0, connection_types: [0, 0, 0, 0, 0, 0], angle: 0, is_rotatable: true },
        WfcTile { index: 2, connection_types: [1, 0, 1, 0, 0, 0], angle: 0, is_rotatable: true },
        WfcTile { index: 5, connection_types: [1, 0, 0, 1, 0, 0], angle: 0, is_rotatable: true },
    ]
}

/// The staircase path catalog.
pub open spec fn stairs_3d_path_tiles() -> Seq<WfcTile> {
    let w = seam_pass(slots_of(stairs_big()), 1, 0, 1, 1000);
    stairs_3d_path_base() + families(flatten_slots(w.0))
}

/// The dead-end tile handed out beside the staircase path catalog.
pub open spec fn stairs_deadend() -> WfcTile {
    WfcTile { index: 4, connection_types: [1, 0, 0, 0, 0, 0], angle: 0, is_rotatable: true }
}

/// The staircase path tile set, with the dead-end tile for pinning.
pub fn stairs_3d_path() -> (r: (String, Vec<WfcTile>, u32, WfcTile))
    ensures
        r.0@ == ""@,
        r.1@ == stairs_3d_path_tiles(),
        r.2 == 0,
        r.3 == stairs_deadend(),
        forall|i: int| 0 <= i < r.1@.len() ==> tile_ok(#[trigger] r.1@[i]),
        tile_ok(r.3),
{
    let tilemap = "".to_owned();
    let mut tiles: Vec<WfcTile> = Vec::new();
    // empty
    tiles.push(WfcTile { index: 0, connection_types: [0, 0, 0, 0, 0, 0], angle: 0, is_rotatable: true });
    // line
    tiles.push(WfcTile { index: 2, connection_types: [1, 0, 1, 0, 0, 0], angle: 0, is_rotatable: true });
    // corner
    tiles.push(WfcTile { index: 5, connection_types: [1, 0, 0, 1, 0, 0], angle: 0, is_rotatable: true });
    // dead end, for pinning path endpoints
    let deadend = WfcTile { index: 4, connection_types: [1, 0, 0, 0, 0, 0], angle: 0, is_rotatable: true };
    proof {
        assert(tiles@[0].connection_types =~= stairs_3d_path_base()[0].connection_types);
        assert(tiles@[1].connection_types =~= stairs_3d_path_base()[1].connection_types);
        assert(tiles@[2].connection_types =~= stairs_3d_path_base()[2].connection_types);
        assert(tiles@ =~= stairs_3d_path_base());
        assert(deadend.connection_types =~= stairs_deadend().connection_types);
    }
    let mut conn: usize = 1000;
    let mut big: Vec<Option<(u32, [usize; 6])>> = Vec::new();
    big.push(Some((1, [1, 0, 0, 0, 0, 0])));
    big.push(Some((0, [0, 0, 1, 0, 0, 0])));
    proof {
        assert(big@[0]->Some_0.1 =~= stairs_big()[0]->Some_0.1);
        assert(big@[1]->Some_0.1 =~= stairs_big()[1]->Some_0.1);
        assert(big@ =~= stairs_big());
        assert(crate::bigtile::big_tile_input_ok(1000, 1, 1, big@));
    }
    let mut part = create_big_tile(&mut conn, (1, 1, 2), big);
    tiles.append(&mut part);
    proof {
        assert(tiles@ =~= stairs_3d_path_tiles());
    }
    (tilemap, tiles, 0, deadend)
}

} // verus!
