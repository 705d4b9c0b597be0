use phtheirichthys::land::{decode_index, index_code_at, tile_corner, LandError, LandGrid, Tile, TILE_COUNT};

fn grid_with(p: usize, tile: Tile) -> LandGrid {
    let mut tiles: Vec<Tile> = (0..TILE_COUNT).map(|_| Tile::Sea).collect();
    tiles[p] = tile;
    LandGrid::new(tiles).unwrap()
}

#[test]
fn load_wraps_found_bytes() {
    match Tile::load(Some(vec![1, 2, 3])) {
        Ok(Tile::Mixed(b)) => assert_eq!(b, vec![1, 2, 3]),
        _ => panic!("expected a mixed tile"),
    }
    assert_eq!(Tile::load(None).err(), Some(LandError::NotFound));
}

#[test]
fn tile_codes() {
    assert!(matches!(Tile::from_code(0, None), Ok(Tile::Sea)));
    assert!(matches!(Tile::from_code(2, None), Ok(Tile::Land)));
    assert!(matches!(Tile::from_code(1, Some(vec![0])), Ok(Tile::Mixed(_))));
    assert_eq!(Tile::from_code(1, None).err(), Some(LandError::NotFound));
    assert_eq!(Tile::from_code(3, None).err(), Some(LandError::BadFormat));
}

#[test]
fn index_codes_two_bits_msb_first() {
    let index = vec![0b00_01_10_00u8, 0b10_00_00_01];
    assert_eq!(index_code_at(&index, 0), 0);
    assert_eq!(index_code_at(&index, 1), 1);
    assert_eq!(index_code_at(&index, 2), 2);
    assert_eq!(index_code_at(&index, 3), 0);
    assert_eq!(index_code_at(&index, 4), 2);
    assert_eq!(index_code_at(&index, 7), 1);
}

#[test]
fn decode_index_rejects_value_three() {
    let mut index = vec![0u8; TILE_COUNT / 4];
    index[5] = 0b00_00_00_10;
    let codes = decode_index(&index).unwrap();
    assert_eq!(codes.len(), TILE_COUNT);
    assert_eq!(codes[23], 2);
    assert_eq!(codes[22], 0);
    index[7] = 0b11_00_00_00;
    assert_eq!(decode_index(&index).err(), Some(LandError::BadFormat));
    assert_eq!(decode_index(&vec![0u8; 10]).err(), Some(LandError::BadFormat));
}

#[test]
fn tile_corners() {
    assert_eq!(tile_corner(0), (-89, -180));
    assert_eq!(tile_corner(361), (-88, -179));
    assert_eq!(tile_corner(TILE_COUNT - 1), (90, 179));
}

#[test]
fn land_and_sea_tiles() {
    // tile of north-west corner (1, 0): row 90, column 180
    let p = 90 * 360 + 180;
    let grid = grid_with(p, Tile::Land);
    assert!(grid.is_land_cell(1, 0, 0, 0));
    assert!(grid.is_land_cell(1, 360, 5, 5));
    assert!(grid.is_land_cell(1, -360, 5, 5));
    assert!(!grid.is_land_cell(1, 1, 0, 0));
    assert!(!grid.is_land_cell(-100, 0, 0, 0));
    assert!(!grid.is_land_cell(91, 0, 0, 0));
}

#[test]
fn mixed_tile_bits() {
    let p = 90 * 360 + 180;
    let mut mask = vec![0u8; 66613];
    // cell (0, 1): bit 1, second most significant bit of byte 0
    mask[0] = 0b0100_0000;
    // cell (1, 0): bit 730 = byte 91, bit 2
    mask[91] = 0b0010_0000;
    let grid = grid_with(p, Tile::Mixed(mask));
    assert!(!grid.is_land_cell(1, 0, 0, 0));
    assert!(grid.is_land_cell(1, 0, 0, 1));
    assert!(grid.is_land_cell(1, 0, 1, 0));
    assert!(!grid.is_land_cell(1, 0, 1, 1));
    let short = grid_with(p, Tile::Mixed(vec![0xff]));
    assert!(short.is_land_cell(1, 0, 0, 7));
    assert!(!short.is_land_cell(1, 0, 729, 729));
}

#[test]
fn grid_needs_every_tile() {
    assert!(LandGrid::new(vec![Tile::Sea]).is_none());
}

#[test]
fn near_land_from_tiles() {
    let p = 90 * 360 + 180;
    let open_sea = grid_with(p, Tile::Sea);
    assert_eq!(open_sea.near_land_tiles(10, 10), Some(false));
    let land = grid_with(p, Tile::Land);
    // land and sea around: the cells must be looked at
    assert_eq!(land.near_land_tiles(1, 0), None);
    assert_eq!(land.near_land_tiles(20, 20), Some(false));
    let mixed = grid_with(p, Tile::Mixed(vec![]));
    assert_eq!(mixed.near_land_tiles(2, 1), None);
    let all_land = LandGrid::new((0..TILE_COUNT).map(|_| Tile::Land).collect()).unwrap();
    assert_eq!(all_land.near_land_tiles(0, 0), Some(true));
    // the block wraps around the antimeridian
    let west = grid_with(90 * 360, Tile::Land);
    assert_eq!(west.near_land_tiles(1, 179), None);
}
