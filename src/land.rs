//! The land mask: a grid of one-degree tiles, sea, land or mixed, the
//! mixed ones holding a bit per cell.

use vstd::prelude::*;

verus! {

/// Latitude of the first row of one-degree tiles (its northern edge).
pub const LAT_0: i32 = -89;
/// Number of rows of tiles.
pub const LAT_N: i32 = 180;
/// Longitude of the first column of tiles (its western edge).
pub const LON_0: i32 = -180;
/// Number of columns of tiles.
pub const LON_N: i32 = 360;
/// Number of tiles in the grid.
pub const TILE_COUNT: usize = 64800;
/// Cells per degree, on each side, of a mixed tile.
pub const TILE_CELLS: usize = 730;

/// A one-degree tile of the land mask.
#[derive(Debug)]
pub enum Tile {
    Sea,
    Land,
    /// Part land, part sea: a 730 x 730 bit mask, one bit per cell, rows
    /// from north to south, most significant bit first.
    Mixed(Vec<u8>),
}

#[derive(Clone, Copy, Debug, PartialEq, Eq)]
pub enum LandError {
    /// A tile file or the tile index is missing.
    NotFound,
    /// The tile index holds a value other than 0, 1 or 2, or is too short.
    BadFormat,
}

/// The two-bit code of tile `p` in the index: 0 sea, 1 mixed, 2 land.
pub open spec fn index_code(index: Seq<u8>, p: nat) -> u8 {
    (index[(p / 4) as int] >> ((6 - 2 * (p % 4)) as u8)) & 3u8
}

/// Whether bit `p` of a mask is set, most significant bit of each byte
/// first; a bit past the end of the mask reads as sea.
pub open spec fn mask_bit(mask: Seq<u8>, p: nat) -> bool {
    (p / 8) < mask.len() && (mask[(p / 8) as int] >> ((7 - p % 8) as u8)) & 1u8 == 1u8
}

/// The position in the grid of the tile whose north-west corner is at
/// (`tile_lat`, `tile_lon`), longitudes wrapping around; none outside the
/// covered latitudes.
pub open spec fn tile_position(tile_lat: int, tile_lon: int) -> Option<nat> {
    let d_lat = tile_lat - LAT_0;
    if d_lat < 0 || d_lat >= LAT_N {
        None
    } else {
        Some((d_lat * LON_N + (tile_lon - LON_0) % (LON_N as int)) as nat)
    }
}

/// The kind of a tile: 0 sea, 1 mixed, 2 land.
pub open spec fn tile_kind(t: Tile) -> u8 {
    match t {
        Tile::Sea => 0,
        Tile::Mixed(_) => 1,
        Tile::Land => 2,
    }
}

pub open spec fn tile_is_land(t: Tile, cell: nat) -> bool {
    match t {
        Tile::Sea => false,
        Tile::Land => true,
        Tile::Mixed(mask) => mask_bit(mask@, cell),
    }
}

impl Tile {
    /// The tile for bytes found for a mixed tile, if any were.
    pub fn load(found: Option<Vec<u8>>) -> (r: Result<Tile, LandError>)
        ensures
            found is None ==> r == Err::<Tile, LandError>(LandError::NotFound),
            found matches Some(b) ==> r matches Ok(Tile::Mixed(m)) && m@ == b@,
    {
        match found {
            Some(buf) => Ok(Tile::Mixed(buf)),
            None => Err(LandError::NotFound),
        }
    }

    /// The tile for its code in the index; a mixed tile takes the bytes
    /// found for it.
    pub fn from_code(code: u8, found: Option<Vec<u8>>) -> (r: Result<Tile, LandError>)
        ensures
            code == 0 ==> r == Ok::<Tile, LandError>(Tile::Sea),
            code == 2 ==> r == Ok::<Tile, LandError>(Tile::Land),
            code > 2 ==> r == Err::<Tile, LandError>(LandError::BadFormat),
            code == 1 && found is None ==> r == Err::<Tile, LandError>(LandError::NotFound),
            code == 1 ==> (found matches Some(b) ==> r matches Ok(Tile::Mixed(m)) && m@ == b@),
    {
        if code == 0 {
            Ok(Tile::Sea)
        } else if code == 1 {
            Tile::load(found)
        } else if code == 2 {
            Ok(Tile::Land)
        } else {
            Err(LandError::BadFormat)
        }
    }
}

/// The code of tile `p` in the index.
pub fn index_code_at(index: &Vec<u8>, p: usize) -> (r: u8)
    requires
        p / 4 < index@.len(),
    ensures
        r == index_code(index@, p as nat),
        r <= 3,
{
    let shift = (6 - 2 * (p % 4)) as u8;
    let byte = index[p / 4];
    let r = (byte >> shift) & 3u8;
    assert(r <= 3) by (bit_vector)
        requires
            r == (byte >> shift) & 3u8,
    ;
    r
}

/// Decodes the tile index: one two-bit code per tile, four tiles a byte,
/// rows from south to north and columns from west to east.
pub fn decode_index(index: &Vec<u8>) -> (r: Result<Vec<u8>, LandError>)
    ensures
        r is Ok <==> index@.len() >= TILE_COUNT / 4 && forall|p: nat|
            p < TILE_COUNT ==> #[trigger] index_code(index@, p) <= 2,
        r matches Ok(codes) ==> codes@.len() == TILE_COUNT && forall|p: int|
            0 <= p < TILE_COUNT ==> #[trigger] codes@[p] == index_code(index@, p as nat),
        r matches Err(e) ==> e == LandError::BadFormat,
{
    if index.len() < TILE_COUNT / 4 {
        return Err(LandError::BadFormat);
    }
    let mut codes: Vec<u8> = Vec::new();
    let mut p: usize = 0;
    while p < TILE_COUNT
        invariant
            index@.len() >= TILE_COUNT / 4,
            p <= TILE_COUNT,
            codes@.len() == p,
            forall|q: int| 0 <= q < p ==> #[trigger] codes@[q] == index_code(index@, q as nat),
            forall|q: nat| q < p ==> #[trigger] index_code(index@, q) <= 2,
        decreases TILE_COUNT - p,
    {
        let code = index_code_at(index, p);
        if code > 2 {
            return Err(LandError::BadFormat);
        }
        codes.push(code);
        p = p + 1;
    }
    Ok(codes)
}

/// The grid coordinates of tile `p`: the latitude of its northern edge and
/// the longitude of its western edge, in whole degrees.
pub fn tile_corner(p: usize) -> (r: (i32, i32))
    requires
        p < TILE_COUNT,
    ensures
        r.0 == LAT_0 + p / 360,
        r.1 == LON_0 + p % 360,
        tile_position(r.0 as int, r.1 as int) == Some(p as nat),
{
    let lat = LAT_0 + (p / 360) as i32;
    let lon = LON_0 + (p % 360) as i32;
    proof {
        lemma_corner_position(p as nat);
    }
    (lat, lon)
}

/// The corner of tile `p` lies at position `p` of the grid.
pub proof fn lemma_corner_position(p: nat)
    requires
        p < TILE_COUNT,
    ensures
        tile_position(LAT_0 + p / 360, LON_0 + p % 360) == Some(p),
{
    let lon_off = (p % 360) as int;
    assert(0 <= lon_off < 360);
    vstd::arithmetic::div_mod::lemma_small_mod(lon_off as nat, 360);
    vstd::arithmetic::div_mod::lemma_fundamental_div_mod(p as int, 360);
}

fn lat_lon_position(lat: i64, lon: i64) -> (r: Option<usize>)
    requires
        i32::MIN - 1 <= lon <= i32::MAX + 1,
    ensures
        r == (match tile_position(lat as int, lon as int) {
            Some(x) => Some(x as usize),
            None => None::<usize>,
        }),
        r matches Some(x) ==> x < TILE_COUNT,
{
    if lat < LAT_0 as i64 || lat >= (LAT_0 + LAT_N) as i64 {
        return None;
    }
    let d_lat = lat - LAT_0 as i64;
    if d_lat < 0 || d_lat >= LAT_N as i64 {
        return None;
    }
    // shifted by a whole number of turns so that the remainder is taken on a
    // non-negative value
    let shifted = (lon - LON_0 as i64 + 360 * 6_000_000) as u64;
    let d_lon = shifted % 360;
    proof {
        let x = lon as int - LON_0 as int;
        assert(shifted as int == x + 360 * 6_000_000);
        vstd::arithmetic::div_mod::lemma_mod_add_multiples_vanish(x, 360);
        assert((x + 360 * 6_000_000) % 360 == x % 360) by {
            vstd::arithmetic::div_mod::lemma_mod_multiples_vanish(6_000_000, x, 360);
        }
    }
    Some((d_lat as usize) * 360 + d_lon as usize)
}

/// The land mask of the whole globe, tile by tile.
pub struct LandGrid {
    pub tiles: Vec<Tile>,
}

impl LandGrid {
    pub open spec fn wf(&self) -> bool {
        self.tiles@.len() == TILE_COUNT
    }

    /// Whether cell (`cell_lat`, `cell_lon`) of the tile with north-west
    /// corner (`tile_lat`, `tile_lon`) is land; cells count southwards and
    /// eastwards from that corner.
    pub open spec fn land_at(&self, tile_lat: int, tile_lon: int, cell_lat: nat, cell_lon: nat) -> bool {
        match tile_position(tile_lat, tile_lon) {
            None => false,
            Some(p) => tile_is_land(self.tiles@[p as int], cell_lat * 730 + cell_lon),
        }
    }

    /// The kind of the `q`-th tile (of nine, row by row) of the three by
    /// three block centred on (`tile_lat`, `tile_lon`); none off the grid.
    pub open spec fn neighbour_kind(&self, tile_lat: int, tile_lon: int, q: int) -> Option<u8> {
        match tile_position(tile_lat + q / 3 - 1, tile_lon + q % 3 - 1) {
            None => None,
            Some(p) => Some(tile_kind(self.tiles@[p as int])),
        }
    }

    pub open spec fn around_has(&self, tile_lat: int, tile_lon: int, kind: u8) -> bool {
        exists|q: int| 0 <= q < 9 && #[trigger] self.neighbour_kind(tile_lat, tile_lon, q) == Some(kind)
    }

    /// What the tiles around a point tell of its nearness to land: `None`
    /// when the block around its tile holds a mixed tile, or both sea and
    /// land, so that the cells must be looked at; otherwise whether the
    /// block holds land.
    pub fn near_land_tiles(&self, tile_lat: i32, tile_lon: i32) -> (r: Option<bool>)
        requires
            self.wf(),
        ensures
            ({
                let sea = self.around_has(tile_lat as int, tile_lon as int, 0);
                let mixed = self.around_has(tile_lat as int, tile_lon as int, 1);
                let land = self.around_has(tile_lat as int, tile_lon as int, 2);
                &&& (mixed || (sea && land)) <==> r is None
                &&& r matches Some(b) ==> b == land
            }),
    {
        let mut sea = false;
        let mut mixed = false;
        let mut land = false;
        let mut q: usize = 0;
        while q < 9
            invariant
                self.wf(),
                q <= 9,
                sea <==> exists|k: int| 0 <= k < q && #[trigger] self.neighbour_kind(tile_lat as int, tile_lon as int, k) == Some(0u8),
                mixed <==> exists|k: int| 0 <= k < q && #[trigger] self.neighbour_kind(tile_lat as int, tile_lon as int, k) == Some(1u8),
                land <==> exists|k: int| 0 <= k < q && #[trigger] self.neighbour_kind(tile_lat as int, tile_lon as int, k) == Some(2u8),
            decreases 9 - q,
        {
            let lat = tile_lat as i64 + (q / 3) as i64 - 1;
            let lon = tile_lon as i64 + (q % 3) as i64 - 1;
            match lat_lon_position(lat, lon) {
                None => {},
                Some(p) => match &self.tiles[p] {
                    Tile::Sea => {
                        sea = true;
                    },
                    Tile::Mixed(_) => {
                        mixed = true;
                    },
                    Tile::Land => {
                        land = true;
                    },
                },
            }
            proof {
                let k = q as int;
                let kind = self.neighbour_kind(tile_lat as int, tile_lon as int, k);
                assert(kind == Some(0u8) ==> sea);
                assert(kind == Some(1u8) ==> mixed);
                assert(kind == Some(2u8) ==> land);
            }
            q = q + 1;
        }
        if mixed || (sea && land) {
            None
        } else {
            Some(land)
        }
    }

    /// A grid made of the given tiles, when there is one per position.
    pub fn new(tiles: Vec<Tile>) -> (r: Option<LandGrid>)
        ensures
            r is Some <==> tiles@.len() == TILE_COUNT,
            r matches Some(g) ==> g.tiles@ == tiles@ && g.wf(),
    {
        if tiles.len() == TILE_COUNT {
            Some(LandGrid { tiles })
        } else {
            None
        }
    }

    /// Whether a cell of a tile is land, as `land_at` says.
    pub fn is_land_cell(&self, tile_lat: i32, tile_lon: i32, cell_lat: usize, cell_lon: usize) -> (r: bool)
        requires
            self.wf(),
            cell_lat < TILE_CELLS,
            cell_lon < TILE_CELLS,
        ensures
            r == self.land_at(tile_lat as int, tile_lon as int, cell_lat as nat, cell_lon as nat),
    {
        match lat_lon_position(tile_lat as i64, tile_lon as i64) {
            None => false,
            Some(i) => match &self.tiles[i] {
                Tile::Sea => false,
                Tile::Land => true,
                Tile::Mixed(mask) => {
                    let p = cell_lat * TILE_CELLS + cell_lon;
                    if p / 8 < mask.len() {
                        let shift = (7 - p % 8) as u8;
                        (mask[p / 8] >> shift) & 1u8 == 1u8
                    } else {
                        false
                    }
                },
            },
        }
    }
}

} // verus!
