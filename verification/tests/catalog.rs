use wfc::bigtile::create_big_tile;
use wfc::engine::WFC;
use wfc::tile::WfcTile;
use wfc::tilesets::{flat_city, flat_city_paths_only, get_col_row, pipes, stairs_3d, stairs_3d_path};

fn tile(index: u32, ct: [usize; 6], rotatable: bool) -> WfcTile {
    WfcTile { index, connection_types: ct, angle: 0, is_rotatable: rotatable }
}

#[test]
fn rotate_permutes_horizontal_labels() {
    let mut t = tile(1, [1, 2, 3, 4, 0, 0], true);
    t.rotate(1);
    assert_eq!(t.connection_types, [2, 3, 4, 1, 0, 0]);
    assert_eq!(t.angle, 90);
}

#[test]
fn rotate_scales_synthetic_vertical_labels() {
    let mut t = tile(1, [0, 0, 0, 0, 1000, 5], true);
    t.rotate(2);
    assert_eq!(t.connection_types, [0, 0, 0, 0, 3000, 5]);
    assert_eq!(t.angle, 180);
}

#[test]
fn rotate_wraps_the_angle() {
    let mut t = tile(1, [1, 2, 3, 4, 0, 0], true);
    t.angle = 270;
    t.rotate(2);
    assert_eq!(t.angle, 90);
}

#[test]
fn rotate_by_four_is_identity() {
    let mut t = tile(1, [1, 2, 3, 4, 0, 0], true);
    t.rotate(4);
    assert_eq!(t.connection_types, [1, 2, 3, 4, 0, 0]);
    assert_eq!(t.angle, 0);
}

#[test]
fn expand_fully_symmetric_tile_once() {
    let tiles = vec![tile(3, [7, 7, 7, 7, 0, 0], true)];
    let mut square = Vec::new();
    WFC::init_tile(&tiles, &mut square);
    assert_eq!(square.len(), 1);
    assert_eq!(square[0], tiles[0]);
}

#[test]
fn expand_two_fold_symmetric_tile_twice() {
    let tiles = vec![tile(3, [1, 2, 1, 2, 0, 0], true)];
    let mut square = Vec::new();
    WFC::init_tile(&tiles, &mut square);
    assert_eq!(square.len(), 2);
    assert_eq!(square[0].angle, 0);
    assert_eq!(square[1].angle, 90);
    assert_eq!(square[1].connection_types, [2, 1, 2, 1, 0, 0]);
}

#[test]
fn expand_asymmetric_tile_into_four_distinct_variants() {
    let tiles = vec![tile(3, [1, 1, 0, 0, 0, 0], true)];
    let mut square = Vec::new();
    WFC::init_tile(&tiles, &mut square);
    assert_eq!(square.len(), 4);
    for i in 0..4 {
        assert_eq!(square[i].angle as usize, 90 * i);
        for j in 0..i {
            assert!(square[i] != square[j]);
        }
    }
    assert_eq!(square[1].connection_types, [1, 0, 0, 1, 0, 0]);
    assert_eq!(square[2].connection_types, [0, 0, 1, 1, 0, 0]);
    assert_eq!(square[3].connection_types, [0, 1, 1, 0, 0, 0]);
}

#[test]
fn expand_keeps_non_rotatable_tiles_unchanged() {
    let tiles = vec![tile(3, [1, 2, 3, 4, 0, 0], false)];
    let mut square = Vec::new();
    WFC::init_tile(&tiles, &mut square);
    assert_eq!(square.len(), 1);
    assert_eq!(square[0], tiles[0]);
}

#[test]
fn get_col_row_splits_the_atlas_index() {
    let t = tile(7, [0; 6], true);
    assert_eq!(get_col_row(&t, 4), (3, 1));
    let t0 = tile(0, [0; 6], true);
    assert_eq!(get_col_row(&t0, 4), (0, 0));
}

#[test]
fn compose_two_cells_with_one_seam() {
    let mut conn: usize = 1000;
    let parts = create_big_tile(
        &mut conn,
        (2, 1, 1),
        vec![Some((0, [0; 6])), Some((1, [0; 6]))],
    );
    assert_eq!(conn, 1001);
    assert_eq!(parts.len(), 8);
    // left part, unrotated: the seam label sits on its west side
    assert_eq!(parts[0].connection_types, [0, 0, 0, 1000, 0, 0]);
    assert_eq!(parts[0].angle, 0);
    assert!(!parts[0].is_rotatable);
    // left part, one quarter turn: permuted and scaled by two
    assert_eq!(parts[1].connection_types, [0, 0, 2000, 0, 0, 0]);
    assert_eq!(parts[1].angle, 90);
    // right part, unrotated: the seam label sits on its east side
    assert_eq!(parts[4].connection_types, [0, 1000, 0, 0, 0, 0]);
}

#[test]
fn compose_skips_empty_slots() {
    let mut conn: usize = 1000;
    let parts = create_big_tile(
        &mut conn,
        (2, 1, 1),
        vec![Some((0, [0; 6])), None],
    );
    assert_eq!(conn, 1000);
    assert_eq!(parts.len(), 4);
    assert_eq!(parts[0].connection_types, [0, 0, 0, 0, 0, 0]);
}

#[test]
fn pipes_catalog_shape() {
    let (path, tiles, size) = pipes();
    assert_eq!(path, "./pipes_tileset.png");
    assert_eq!(size, 4);
    // 8 base tiles, a 4-cell block and a 3-cell block, 4 rotations each
    assert_eq!(tiles.len(), 8 + 16 + 12);
    assert_eq!(tiles[0].connection_types, [1, 1, 0, 1, 0, 0]);
    assert!(tiles[0].is_rotatable);
    // first composed part: seams toward its south and west neighbours
    assert_eq!(tiles[8].connection_types, [0, 0, 1001, 1000, 0, 0]);
    assert_eq!(tiles[8].index, 8);
    assert!(!tiles[8].is_rotatable);
    // its quarter turn scales both seam labels by two
    assert_eq!(tiles[9].connection_types, [0, 2002, 2000, 0, 0, 0]);
    assert_eq!(tiles[9].angle, 90);
}

#[test]
fn flat_city_catalog_shape() {
    let (path, tiles, size) = flat_city();
    assert_eq!(path, "./flat-city.png");
    assert_eq!(size, 8);
    assert_eq!(tiles.len(), 11);
    assert_eq!(tiles[10].connection_types, [1, 0, 0, 0, 0, 0]);
}

#[test]
fn flat_city_paths_only_catalog_shape() {
    let (path, tiles, size) = flat_city_paths_only();
    assert_eq!(path, "./flat-city.png");
    assert_eq!(size, 8);
    assert_eq!(tiles.len(), 4);
}

#[test]
fn stairs_catalogs_shape() {
    let (path, tiles, size) = stairs_3d();
    assert_eq!(path, "");
    assert_eq!(size, 0);
    // five flat tiles plus two staircase parts in four rotations each
    assert_eq!(tiles.len(), 5 + 8);

    let (_, ptiles, _, deadend) = stairs_3d_path();
    assert_eq!(ptiles.len(), 3 + 8);
    assert_eq!(deadend.index, 4);
    assert_eq!(deadend.connection_types, [1, 0, 0, 0, 0, 0]);
}
