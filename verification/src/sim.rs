use crate::ball::{BallPosition, Direction};
use crate::cells::{Cell, CellMap, CellSet};
use crate::chunk::{Chunk, ChunkPosition};
use crate::engine::{phase, tick, Tick};
use crate::moves::{run_phase, run_tick};
use crate::store::{
    codes, grid_shaped, grid_sound, grid_with, home_of, lemma_codes_shaped, lemma_write_then_read,
    read_tile, tile_at, write_tile, Grid,
};
use crate::tiles::{default_tile, Tile};
use crate::viewport::{lists_rect, scan_rect};
use vstd::prelude::*;

verus! {

/// What a click places: a ball in a given state, or a tile.
#[derive(Debug, PartialEq, Eq, Clone, Copy, Structural)]
pub enum Tool {
    BallTool(bool),
    TileTool(Tile),
}

/// The world: the chunks of tiles, the balls, and the tool in hand.
pub struct Simulation {
    chunks: CellMap<Chunk>,
    balls: CellMap<bool>,
    current_tool: Tool,
}

/// The cell that a position names.
pub open spec fn cell(pos: [i32; 2]) -> Cell {
    (pos[0], pos[1])
}

/// Chunks as they are handed out, by coordinate and codes.
pub open spec fn chunk_rows(out: Seq<(ChunkPosition, Chunk)>) -> Seq<(Cell, Seq<u8>)> {
    Seq::new(out.len(), |i: int| (out[i].0@, out[i].1@))
}

/// Balls as they are handed out, by cell and state.
pub open spec fn ball_rows(out: Seq<(BallPosition, bool)>) -> Seq<(Cell, bool)> {
    Seq::new(out.len(), |i: int| (out[i].0@, out[i].1))
}

impl Simulation {
    /// Every chunk holds its full number of cells, each with the code of a
    /// tile. A new world is sound, and every operation keeps a sound world
    /// sound.
    pub open spec fn sound(&self) -> bool {
        grid_sound(self.grid())
    }

    /// The tile codes of every chunk that exists.
    pub closed spec fn grid(&self) -> Grid {
        codes(self.chunks@)
    }

    /// The state of every ball, by cell.
    pub closed spec fn balls(&self) -> Map<Cell, bool> {
        self.balls@
    }

    /// The tool in hand.
    pub closed spec fn tool(&self) -> Tool {
        self.current_tool
    }

    /// A world with no chunk and no ball, and the block tile in hand. Every
    /// cell reads as the default tile until a tile is written.
    pub fn new() -> (s: Simulation)
        ensures
            s.grid() == Map::<Cell, Seq<u8>>::empty(),
            s.balls() == Map::<Cell, bool>::empty(),
            s.tool() == Tool::TileTool(Tile::Block),
            s.sound(),
            grid_shaped(s.grid()),
            forall|c: Cell| #[trigger] tile_at(s.grid(), c) == default_tile(),
    {
        let s = Simulation {
            chunks: CellMap::new(),
            balls: CellMap::new(),
            current_tool: Tool::TileTool(Tile::Block),
        };
        assert(s.grid() =~= Map::<Cell, Seq<u8>>::empty());
        s
    }

    /// Only finitely many chunks exist, and each has its full number of
    /// cells.
    pub proof fn lemma_grid_finite(&self)
        ensures
            self.grid().dom().finite(),
            grid_shaped(self.grid()),
    {
        self.chunks.lemma_finite();
        assert(self.grid().dom() =~= self.chunks@.dom());
        lemma_codes_shaped(self.chunks@);
    }

    /// Only finitely many cells hold a ball.
    pub proof fn lemma_balls_finite(&self)
        ensures
            self.balls().dom().finite(),
    {
        self.balls.lemma_finite();
    }

    /// Writes the tile of a cell; the cell's chunk is made if it did not
    /// exist.
    pub fn set_tile(&mut self, pos: [i32; 2], tile: Tile)
        ensures
            final(self).grid() == grid_with(old(self).grid(), cell(pos), tile),
            tile_at(final(self).grid(), cell(pos)) == tile,
            forall|c: Cell|
                c != cell(pos) ==> #[trigger] tile_at(final(self).grid(), c) == tile_at(
                    old(self).grid(),
                    c,
                ),
            old(self).sound() ==> final(self).sound(),
            grid_shaped(old(self).grid()),
            grid_shaped(final(self).grid()),
            final(self).balls() == old(self).balls(),
            final(self).tool() == old(self).tool(),
    {
        proof {
            lemma_codes_shaped(self.chunks@);
            assert forall|c: Cell|
                c != cell(pos) implies #[trigger] tile_at(grid_with(self.grid(), cell(pos), tile), c)
                == tile_at(self.grid(), c) by {
                lemma_write_then_read(self.grid(), cell(pos), tile, c);
            }
            lemma_write_then_read(self.grid(), cell(pos), tile, cell(pos));
        }
        write_tile(&mut self.chunks, (pos[0], pos[1]), tile);
    }

    /// The tile of a cell; a cell in a chunk that does not exist has the
    /// default tile, and no chunk is made.
    pub fn get_tile(&self, pos: [i32; 2]) -> (t: Tile)
        ensures
            t == tile_at(self.grid(), cell(pos)),
            grid_shaped(self.grid()),
    {
        proof {
            lemma_codes_shaped(self.chunks@);
        }
        read_tile(&self.chunks, (pos[0], pos[1]))
    }

    /// Puts a ball on a cell, in place of the ball that was there.
    pub fn set_ball(&mut self, pos: [i32; 2], on: bool)
        ensures
            final(self).balls() == old(self).balls().insert(cell(pos), on),
            final(self).grid() == old(self).grid(),
            final(self).tool() == old(self).tool(),
    {
        self.balls.insert((pos[0], pos[1]), on);
    }

    /// The state of the ball on a cell, if there is one.
    pub fn get_ball(&self, pos: [i32; 2]) -> (on: Option<bool>)
        ensures
            on == if self.balls().contains_key(cell(pos)) {
                Some(self.balls()[cell(pos)])
            } else {
                None
            },
    {
        match self.balls.get((pos[0], pos[1])) {
            Some(on) => Some(*on),
            None => None,
        }
    }

    /// Takes the ball off a cell, if there is one.
    pub fn remove_ball(&mut self, pos: [i32; 2])
        ensures
            final(self).balls() == old(self).balls().remove(cell(pos)),
            final(self).grid() == old(self).grid(),
            final(self).tool() == old(self).tool(),
    {
        let _ = self.balls.remove((pos[0], pos[1]));
    }

    /// Writes a tile, as the tile tool does.
    pub fn paint_tile(&mut self, pos: [i32; 2], tile: Tile)
        ensures
            final(self).grid() == grid_with(old(self).grid(), cell(pos), tile),
            tile_at(final(self).grid(), cell(pos)) == tile,
            old(self).sound() ==> final(self).sound(),
            grid_shaped(final(self).grid()),
            final(self).balls() == old(self).balls(),
            final(self).tool() == old(self).tool(),
    {
        self.set_tile(pos, tile);
    }

    /// Places a ball, as the ball tool does.
    pub fn paint_token(&mut self, pos: [i32; 2], on: bool)
        ensures
            final(self).balls() == old(self).balls().insert(cell(pos), on),
            final(self).grid() == old(self).grid(),
            final(self).tool() == old(self).tool(),
    {
        self.set_ball(pos, on);
    }

    /// Removes a ball by hand.
    pub fn erase_token(&mut self, pos: [i32; 2])
        ensures
            final(self).balls() == old(self).balls().remove(cell(pos)),
            final(self).grid() == old(self).grid(),
            final(self).tool() == old(self).tool(),
    {
        self.remove_ball(pos);
    }

    /// Takes a tool in hand.
    pub fn select_tool(&mut self, tool: Tool)
        ensures
            final(self).tool() == tool,
            final(self).grid() == old(self).grid(),
            final(self).balls() == old(self).balls(),
    {
        self.current_tool = tool;
    }

    /// The tool in hand.
    pub fn current_tool(&self) -> (tool: Tool)
        ensures
            tool == self.tool(),
    {
        self.current_tool
    }

    /// Uses the tool in hand on a cell: the ball tool places its ball, the
    /// tile tool writes its tile.
    pub fn handle_mouse(&mut self, pos: [i32; 2])
        ensures
            final(self).tool() == old(self).tool(),
            old(self).sound() ==> final(self).sound(),
            grid_shaped(final(self).grid()),
            match old(self).tool() {
                Tool::BallTool(on) => final(self).balls() == old(self).balls().insert(cell(pos), on)
                    && final(self).grid() == old(self).grid(),
                Tool::TileTool(tile) => final(self).grid() == grid_with(
                    old(self).grid(),
                    cell(pos),
                    tile,
                ) && final(self).balls() == old(self).balls(),
            },
    {
        match self.current_tool {
            Tool::BallTool(on) => self.set_ball(pos, on),
            Tool::TileTool(tile) => self.set_tile(pos, tile),
        }
    }

    /// Works one direction of a tick through. `dont_move` holds the cells
    /// that a ball has moved into during this tick, `duplicated` the
    /// duplicators that have made their copy.
    pub fn sim_step(&mut self, dir: Direction, dont_move: &mut CellSet, duplicated: &mut CellSet)
        ensures
            (Tick {
                balls: final(self).balls(),
                settled: final(dont_move)@,
                spent: final(duplicated)@,
            }) == phase(
                old(self).grid(),
                dir,
                (Tick { balls: old(self).balls(), settled: old(dont_move)@, spent: old(duplicated)@ }),
            ),
            final(self).grid() == old(self).grid(),
            final(self).tool() == old(self).tool(),
    {
        run_phase(&self.chunks, dir, &mut self.balls, dont_move, duplicated);
    }

    /// Works a whole tick through: up, right, left, down, with nothing
    /// settled and no duplicator spent at its start.
    pub fn step_tick(&mut self)
        ensures
            final(self).balls() == tick(old(self).grid(), old(self).balls()),
            final(self).grid() == old(self).grid(),
            final(self).tool() == old(self).tool(),
    {
        run_tick(&self.chunks, &mut self.balls);
    }

    /// The chunks that exist among those touched by the rectangle of world
    /// cells from `low` to `high`, each with a copy of its codes.
    pub fn get_visible_chunks(&self, low: [i32; 2], high: [i32; 2]) -> (out: Vec<
        (ChunkPosition, Chunk),
    >)
        ensures
            lists_rect(chunk_rows(out@), self.grid(), home_of(cell(low)), home_of(cell(high))),
            grid_shaped(self.grid()),
    {
        proof {
            lemma_codes_shaped(self.chunks@);
        }
        let a = crate::chunk::to_chunk_local(low).0;
        let b = crate::chunk::to_chunk_local(high).0;
        let found = scan_rect(
            &self.chunks,
            (a.position[0], a.position[1]),
            (b.position[0], b.position[1]),
        );
        let mut out: Vec<(ChunkPosition, Chunk)> = Vec::new();
        let mut i: usize = 0;
        while i < found.len()
            invariant
                i <= found.len(),
                out@.len() == i,
                forall|k: int|
                    0 <= k < i ==> (#[trigger] out@[k]).0@ == found@[k].0 && out@[k].1 == found@[k].1,
            decreases found.len() - i,
        {
            let at = found[i].0;
            out.push((ChunkPosition { position: [at.0, at.1] }, found[i].1));
            i += 1;
        }
        proof {
            let rows = chunk_rows(out@);
            assert forall|k: int| 0 <= k < rows.len() implies (#[trigger] rows[k]).0 == found@[k].0
                && rows[k].1 == found@[k].1@ by {
                assert(out@[k].0@ == found@[k].0);
            }
            assert forall|c: Cell|
                crate::viewport::within(c, home_of(cell(low)), home_of(cell(high)))
                    && #[trigger] self.grid().contains_key(c) implies exists|k: int|
                0 <= k < rows.len() && (#[trigger] rows[k]).0 == c by {
                assert(self.chunks@.contains_key(c));
                let k = choose|k: int| 0 <= k < found@.len() && (#[trigger] found@[k]).0 == c;
                assert(rows[k].0 == c);
            }
        }
        out
    }

    /// The balls on the cells of the rectangle from `low` to `high`.
    pub fn get_visible_balls(&self, low: [i32; 2], high: [i32; 2]) -> (out: Vec<
        (BallPosition, bool),
    >)
        ensures
            lists_rect(ball_rows(out@), self.balls(), cell(low), cell(high)),
    {
        let found = scan_rect(&self.balls, (low[0], low[1]), (high[0], high[1]));
        let mut out: Vec<(BallPosition, bool)> = Vec::new();
        let mut i: usize = 0;
        while i < found.len()
            invariant
                i <= found.len(),
                out@.len() == i,
                forall|k: int|
                    0 <= k < i ==> (#[trigger] out@[k]).0@ == found@[k].0 && out@[k].1 == found@[k].1,
            decreases found.len() - i,
        {
            let at = found[i].0;
            out.push((BallPosition { position: [at.0, at.1] }, found[i].1));
            i += 1;
        }
        proof {
            let rows = ball_rows(out@);
            assert forall|k: int| 0 <= k < rows.len() implies (#[trigger] rows[k]) == found@[k] by {
                assert(out@[k].0@ == found@[k].0);
            }
            assert(rows =~= found@);
        }
        out
    }
}

} // verus!
