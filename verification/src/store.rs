use crate::cells::{Cell, CellMap};
use crate::chunk::{cell_index, chunk_of, local_of, to_chunk_local, Chunk};
use crate::tiles::{default_tile, tile_code, tile_read, Tile};
use vstd::prelude::*;

verus! {

/// The tile codes of every chunk that exists, by chunk coordinate.
pub type Grid = Map<Cell, Seq<u8>>;

/// The codes held by a map of chunks.
pub open spec fn codes(chunks: Map<Cell, Chunk>) -> Grid {
    chunks.map_values(|c: Chunk| c@)
}

/// The chunk that holds a world cell.
pub open spec fn home_of(c: Cell) -> Cell {
    (chunk_of(c.0 as int) as i32, chunk_of(c.1 as int) as i32)
}

/// Where a world cell is stored inside its chunk.
pub open spec fn slot_of(c: Cell) -> int {
    cell_index(local_of(c.0 as int), local_of(c.1 as int))
}

/// A chunk as it is when first made: the default tile in every cell.
pub open spec fn fresh_codes() -> Seq<u8> {
    Seq::new(1024, |i: int| tile_code(default_tile()))
}

/// The tile of a world cell: what its chunk stores there, or the default
/// tile where no chunk exists.
pub open spec fn tile_at(grid: Grid, c: Cell) -> Tile {
    if grid.contains_key(home_of(c)) {
        tile_read(grid[home_of(c)][slot_of(c)])
    } else {
        default_tile()
    }
}

/// The grid after one tile has been written: the cell's chunk, made fresh if
/// it did not exist, with the tile's code in the cell's slot.
pub open spec fn grid_with(grid: Grid, c: Cell, t: Tile) -> Grid {
    let before = if grid.contains_key(home_of(c)) {
        grid[home_of(c)]
    } else {
        fresh_codes()
    };
    grid.insert(home_of(c), before.update(slot_of(c), tile_code(t)))
}

/// Every chunk has its full number of cells.
pub open spec fn grid_shaped(grid: Grid) -> bool {
    forall|h: Cell| #[trigger] grid.contains_key(h) ==> grid[h].len() == 1024
}

/// Every chunk has its full number of cells, each with the code of a tile.
pub open spec fn grid_sound(grid: Grid) -> bool {
    forall|h: Cell| #[trigger]
        grid.contains_key(h) ==> grid[h].len() == 1024 && forall|i: int|
            0 <= i < 1024 ==> #[trigger] grid[h][i] < 14
}

/// The codes of stored chunks always have the shape of a grid.
pub proof fn lemma_codes_shaped(chunks: Map<Cell, Chunk>)
    ensures
        grid_shaped(codes(chunks)),
{
}

/// Of two writes to one cell the later one decides: the store is as if the
/// earlier had not been made.
pub proof fn lemma_last_write_wins(grid: Grid, c: Cell, first: Tile, second: Tile)
    requires
        grid_shaped(grid),
    ensures
        grid_with(grid_with(grid, c, first), c, second) == grid_with(grid, c, second),
{
    assert(0 <= slot_of(c) < 1024);
    let before = if grid.contains_key(home_of(c)) {
        grid[home_of(c)]
    } else {
        fresh_codes()
    };
    assert(before.len() == 1024);
    assert(before.update(slot_of(c), tile_code(first)).update(slot_of(c), tile_code(second))
        =~= before.update(slot_of(c), tile_code(second)));
    assert(grid_with(grid_with(grid, c, first), c, second) =~= grid_with(grid, c, second));
}

/// Reads the tile of a world cell without making a chunk.
pub fn read_tile(chunks: &CellMap<Chunk>, p: Cell) -> (t: Tile)
    ensures
        t == tile_at(codes(chunks@), p),
{
    let (home, local) = to_chunk_local([p.0, p.1]);
    match chunks.get((home.position[0], home.position[1])) {
        Some(chunk) => match Tile::try_from(chunk.get_tile(local)) {
            Ok(t) => t,
            Err(_) => Tile::Down,
        },
        None => Tile::Down,
    }
}

/// Writes the tile of a world cell, making the cell's chunk if need be.
pub fn write_tile(chunks: &mut CellMap<Chunk>, p: Cell, tile: Tile)
    ensures
        codes(final(chunks)@) == grid_with(codes(old(chunks)@), p, tile),
{
    let (home, local) = to_chunk_local([p.0, p.1]);
    let at: Cell = (home.position[0], home.position[1]);
    let mut chunk = match chunks.get(at) {
        Some(chunk) => *chunk,
        None => Chunk::filled(u8::from(Tile::Down)),
    };
    chunk.set_tile(local, u8::from(tile));
    chunks.insert(at, chunk);
    assert(codes(chunks@) =~= grid_with(codes(old(chunks)@), p, tile));
}

/// A cell reads as the tile last written to it, and every other cell reads
/// as before. Writing keeps the grid's shape, and keeps its codes those of
/// tiles.
pub proof fn lemma_write_then_read(grid: Grid, c: Cell, t: Tile, d: Cell)
    requires
        grid_shaped(grid),
    ensures
        grid_shaped(grid_with(grid, c, t)),
        grid_sound(grid) ==> grid_sound(grid_with(grid, c, t)),
        tile_at(grid_with(grid, c, t), c) == t,
        d != c ==> tile_at(grid_with(grid, c, t), d) == tile_at(grid, d),
{
    crate::tiles::lemma_code_round_trip(t);
    crate::tiles::lemma_code_round_trip(default_tile());
    let after = grid_with(grid, c, t);
    assert(0 <= slot_of(c) < 1024);
    assert(0 <= slot_of(d) < 1024);
    assert forall|h: Cell| #[trigger] after.contains_key(h) implies after[h].len() == 1024 by {
        if h != home_of(c) {
            assert(grid.contains_key(h));
        } else if grid.contains_key(h) {
            assert(grid[h].len() == 1024);
        }
    }
    if grid_sound(grid) {
        assert forall|h: Cell| #[trigger] after.contains_key(h) implies after[h].len() == 1024
            && forall|i: int| 0 <= i < 1024 ==> #[trigger] after[h][i] < 14 by {
            if h != home_of(c) {
                assert(grid.contains_key(h));
            } else if grid.contains_key(h) {
                assert(grid[h].len() == 1024);
            }
        }
    }
    if d != c {
        if home_of(d) == home_of(c) {
            assert(slot_of(d) != slot_of(c));
            if !grid.contains_key(home_of(c)) {
                assert(fresh_codes()[slot_of(d)] == tile_code(default_tile()));
            } else {
                assert(grid[home_of(c)].len() == 1024);
            }
        }
    }
}

} // verus!
