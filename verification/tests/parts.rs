use conveyor::ball::Direction;
use conveyor::cells::{pack, unpack, CellMap, CellSet};
use conveyor::chunk::{split_axis, to_chunk_local, to_world, Chunk, ChunkPosition};
use conveyor::moves::{
    order, resolve_ball, run_movers, run_phase, run_tick, settle_ball, step_cell, tile_copies,
    tile_passes, waits_for,
};
use conveyor::store::{read_tile, write_tile};
use conveyor::tiles::Tile;
use conveyor::viewport::scan_rect;

#[test]
fn keys_and_cells_correspond() {
    assert_eq!(pack((i32::MIN, i32::MIN)), 0);
    assert_eq!(pack((0, 0)), 0x8000_0000_8000_0000);
    assert_eq!(pack((i32::MAX, i32::MAX)), u64::MAX);
    assert_eq!(pack((-1, 1)), 0x7fff_ffff_8000_0001);
    assert_eq!(unpack(0), (i32::MIN, i32::MIN));
    assert_eq!(unpack(u64::MAX), (i32::MAX, i32::MAX));
    for cell in [(0, 0), (-1, 1), (1, -1), (i32::MIN, 7), (7, i32::MAX), (-123456, 654321)] {
        assert_eq!(unpack(pack(cell)), cell);
    }
}

#[test]
fn axis_split_and_way_back() {
    assert_eq!(split_axis(0), (0, 0));
    assert_eq!(split_axis(-1), (-1, 31));
    assert_eq!(split_axis(-32), (-1, 0));
    assert_eq!(split_axis(-33), (-2, 31));
    assert_eq!(split_axis(63), (1, 31));
    assert_eq!(split_axis(i32::MIN), (-67108864, 0));
    assert_eq!(split_axis(i32::MAX), (67108863, 31));
    assert_eq!(to_world(ChunkPosition { position: [-1, -2] }, [31, 31]), [-1, -33]);
    assert_eq!(to_world(ChunkPosition { position: [0, 1] }, [31, 0]), [31, 32]);
    for world in [[0, 0], [-1, -1], [-32, 31], [1000, -1000], [i32::MIN, i32::MAX]] {
        let (chunk, local) = to_chunk_local(world);
        assert_eq!(to_world(chunk, local), world);
    }
}

#[test]
fn cell_set_holds_what_was_put_in() {
    let mut set = CellSet::new();
    assert!(!set.contains((0, 0)));
    assert!(set.insert((0, 0)));
    assert!(set.insert((0, 1)));
    assert!(!set.insert((0, 0)));
    assert!(set.contains((0, 0)));
    assert!(set.contains((0, 1)));
    assert!(!set.contains((1, 0)));
    assert!(!set.contains((0, -1)));
}

#[test]
fn cell_map_holds_one_value_per_cell() {
    let mut map: CellMap<u8> = CellMap::new();
    assert_eq!(map.get((3, -3)), None);
    assert_eq!(map.cells(), vec![]);
    map.insert((3, -3), 1);
    map.insert((-3, 3), 2);
    map.insert((3, -3), 9);
    assert_eq!(map.get((3, -3)), Some(&9));
    assert_eq!(map.get((-3, 3)), Some(&2));
    assert!(map.contains_key((3, -3)));
    assert!(!map.contains_key((3, 3)));
    let mut cells = map.cells();
    cells.sort();
    assert_eq!(cells, vec![(-3, 3), (3, -3)]);
    assert_eq!(map.remove((3, -3)), Some(9));
    assert_eq!(map.remove((3, -3)), None);
    assert_eq!(map.cells(), vec![(-3, 3)]);
}

#[test]
fn neighbours_and_the_edge() {
    assert_eq!(step_cell((0, 0), Direction::Up), Some((0, 1)));
    assert_eq!(step_cell((0, 0), Direction::Down), Some((0, -1)));
    assert_eq!(step_cell((0, 0), Direction::Left), Some((-1, 0)));
    assert_eq!(step_cell((0, 0), Direction::Right), Some((1, 0)));
    assert_eq!(step_cell((i32::MAX, 0), Direction::Right), None);
    assert_eq!(step_cell((i32::MIN, 0), Direction::Left), None);
    assert_eq!(step_cell((0, i32::MAX), Direction::Up), None);
    assert_eq!(step_cell((0, i32::MIN), Direction::Down), None);
    assert_eq!(step_cell((i32::MAX, 0), Direction::Left), Some((i32::MAX - 1, 0)));
}

#[test]
fn which_tile_sends_which_way() {
    let dirs = [Direction::Up, Direction::Down, Direction::Left, Direction::Right];
    let movers = [Tile::Up, Tile::Down, Tile::Left, Tile::Right];
    for (i, tile) in movers.iter().enumerate() {
        for (j, dir) in dirs.iter().enumerate() {
            assert_eq!(tile_passes(*tile, *dir, false), i == j);
            assert_eq!(tile_passes(*tile, *dir, true), i == j);
            assert!(!tile_copies(*tile, *dir));
        }
    }
    for tile in [Tile::Hold, Tile::Block, Tile::Destroy, Tile::Empty] {
        for dir in dirs.iter() {
            assert!(!tile_passes(tile, *dir, false) && !tile_passes(tile, *dir, true));
            assert!(!tile_copies(tile, *dir));
        }
    }
    assert!(tile_passes(Tile::FilterR, Direction::Right, false));
    assert!(tile_passes(Tile::FilterR, Direction::Left, true));
    assert!(!tile_passes(Tile::FilterR, Direction::Right, true));
    assert!(!tile_passes(Tile::FilterR, Direction::Left, false));
    assert!(!tile_passes(Tile::FilterR, Direction::Up, true));
    assert!(!tile_passes(Tile::FilterR, Direction::Down, false));
    assert!(tile_passes(Tile::FilterL, Direction::Left, false));
    assert!(tile_passes(Tile::FilterL, Direction::Right, true));
    assert!(!tile_passes(Tile::FilterL, Direction::Left, true));
    assert!(tile_passes(Tile::FilterU, Direction::Up, false));
    assert!(tile_passes(Tile::FilterU, Direction::Down, true));
    assert!(!tile_passes(Tile::FilterU, Direction::Up, true));
    assert!(tile_passes(Tile::FilterD, Direction::Down, false));
    assert!(tile_passes(Tile::FilterD, Direction::Up, true));
    assert!(!tile_passes(Tile::FilterD, Direction::Down, true));
    assert!(tile_passes(Tile::DuplicateH, Direction::Left, true));
    assert!(tile_passes(Tile::DuplicateH, Direction::Right, false));
    assert!(!tile_passes(Tile::DuplicateH, Direction::Up, false));
    assert!(tile_copies(Tile::DuplicateH, Direction::Left));
    assert!(!tile_copies(Tile::DuplicateH, Direction::Down));
    assert!(tile_copies(Tile::DuplicateV, Direction::Down));
    assert!(!tile_copies(Tile::DuplicateV, Direction::Right));
}

#[test]
fn order_puts_the_leader_last() {
    let cells = vec![(1, 5), (3, 0), (-2, 9), (3, -1), (0, 0)];
    assert_eq!(order(Direction::Right, cells.clone()), vec![(-2, 9), (0, 0), (1, 5), (3, -1), (3, 0)]);
    assert_eq!(order(Direction::Left, cells.clone()), vec![(3, -1), (3, 0), (1, 5), (0, 0), (-2, 9)]);
    assert_eq!(order(Direction::Up, cells.clone()), vec![(3, -1), (0, 0), (3, 0), (1, 5), (-2, 9)]);
    assert_eq!(order(Direction::Down, cells.clone()), vec![(-2, 9), (1, 5), (0, 0), (3, 0), (3, -1)]);
    assert_eq!(order(Direction::Up, Vec::new()), vec![]);
    let far = vec![(i32::MAX, i32::MIN), (i32::MIN, i32::MAX), (i32::MIN, i32::MIN), (i32::MAX, i32::MAX)];
    assert_eq!(
        order(Direction::Left, far),
        vec![(i32::MAX, i32::MIN), (i32::MAX, i32::MAX), (i32::MIN, i32::MIN), (i32::MIN, i32::MAX)]
    );
}

#[test]
fn store_reads_what_was_written() {
    let mut chunks: CellMap<Chunk> = CellMap::new();
    assert_eq!(read_tile(&chunks, (0, 0)), Tile::Down);
    assert_eq!(chunks.cells().len(), 0);
    write_tile(&mut chunks, (-1, -1), Tile::Hold);
    assert_eq!(read_tile(&chunks, (-1, -1)), Tile::Hold);
    assert_eq!(read_tile(&chunks, (-2, -1)), Tile::Down);
    assert_eq!(read_tile(&chunks, (0, 0)), Tile::Down);
    assert_eq!(chunks.cells(), vec![(-1, -1)]);
    chunks.insert((2, 2), Chunk::filled(77));
    assert_eq!(read_tile(&chunks, (64, 64)), Tile::Down);
    chunks.insert((3, 3), Chunk::filled(9));
    assert_eq!(read_tile(&chunks, (100, 100)), Tile::Empty);
}

#[test]
fn rectangle_walk_lists_column_by_column() {
    let mut map: CellMap<u8> = CellMap::new();
    map.insert((0, 0), 1);
    map.insert((0, 2), 2);
    map.insert((1, 1), 3);
    map.insert((2, 0), 4);
    map.insert((3, 3), 5);
    assert_eq!(
        scan_rect(&map, (0, 0), (2, 2)),
        vec![((0, 0), 1), ((0, 2), 2), ((1, 1), 3), ((2, 0), 4)]
    );
    assert_eq!(scan_rect(&map, (3, 3), (3, 3)), vec![((3, 3), 5)]);
    assert_eq!(scan_rect(&map, (2, 2), (0, 0)), vec![]);
    let mut edge: CellMap<bool> = CellMap::new();
    edge.insert((i32::MAX, i32::MAX), true);
    assert_eq!(
        scan_rect(&edge, (i32::MAX - 2, i32::MAX - 2), (i32::MAX, i32::MAX)),
        vec![((i32::MAX, i32::MAX), true)]
    );
}

fn board(tiles: &[((i32, i32), Tile)], balls: &[((i32, i32), bool)]) -> (CellMap<Chunk>, CellMap<bool>) {
    let mut chunks: CellMap<Chunk> = CellMap::new();
    for (at, tile) in tiles.iter() {
        write_tile(&mut chunks, *at, *tile);
    }
    let mut held: CellMap<bool> = CellMap::new();
    for (at, on) in balls.iter() {
        held.insert(*at, *on);
    }
    (chunks, held)
}

fn sorted(balls: &CellMap<bool>) -> Vec<((i32, i32), bool)> {
    let mut cells = balls.cells();
    cells.sort();
    cells.into_iter().map(|c| (c, *balls.get(c).unwrap())).collect()
}

#[test]
fn one_attempt_moves_or_marks() {
    let (chunks, mut balls) = board(
        &[((0, 0), Tile::Hold), ((1, 0), Tile::Empty), ((2, 0), Tile::Block), ((5, 5), Tile::Empty)],
        &[((0, 0), true), ((1, 0), false)],
    );
    let mut settled = CellSet::new();
    let mut failed = CellSet::new();
    settle_ball(&chunks, Direction::Right, &mut balls, &mut settled, &mut failed, (0, 0));
    assert_eq!(sorted(&balls), vec![((0, 0), true), ((1, 0), false)]);
    assert!(failed.contains((0, 0)));
    settle_ball(&chunks, Direction::Right, &mut balls, &mut settled, &mut failed, (1, 0));
    assert_eq!(sorted(&balls), vec![((0, 0), true), ((1, 0), false)]);
    assert!(!failed.contains((1, 0)));
    settle_ball(&chunks, Direction::Up, &mut balls, &mut settled, &mut failed, (1, 0));
    assert_eq!(sorted(&balls), vec![((0, 0), true), ((1, 1), false)]);
    assert!(settled.contains((1, 1)) && !settled.contains((1, 0)));
    settle_ball(&chunks, Direction::Up, &mut balls, &mut settled, &mut failed, (5, 5));
    assert_eq!(sorted(&balls), vec![((0, 0), true), ((1, 1), false)]);
}

#[test]
fn waiting_needs_an_occupied_hold_ahead() {
    let (chunks, balls) = board(
        &[((0, 0), Tile::Right), ((1, 0), Tile::Hold), ((2, 0), Tile::Empty), ((3, 0), Tile::Hold)],
        &[((0, 0), true), ((1, 0), false), ((2, 0), true)],
    );
    let settled = CellSet::new();
    let mut failed = CellSet::new();
    assert_eq!(waits_for(&chunks, Direction::Right, &balls, &settled, &failed, (0, 0)), Some((1, 0)));
    assert_eq!(waits_for(&chunks, Direction::Right, &balls, &settled, &failed, (1, 0)), None);
    assert_eq!(waits_for(&chunks, Direction::Right, &balls, &settled, &failed, (2, 0)), None);
    assert_eq!(waits_for(&chunks, Direction::Left, &balls, &settled, &failed, (2, 0)), Some((1, 0)));
    assert_eq!(waits_for(&chunks, Direction::Left, &balls, &settled, &failed, (4, 0)), None);
    failed.insert((1, 0));
    assert_eq!(waits_for(&chunks, Direction::Right, &balls, &settled, &failed, (0, 0)), None);
}

#[test]
fn resolving_goes_through_the_chain() {
    let (chunks, mut balls) = board(
        &[((0, 0), Tile::Right), ((1, 0), Tile::Hold), ((2, 0), Tile::Hold), ((3, 0), Tile::Empty)],
        &[((0, 0), true), ((1, 0), false), ((2, 0), true)],
    );
    let mut settled = CellSet::new();
    let mut failed = CellSet::new();
    resolve_ball(&chunks, Direction::Right, &mut balls, &mut settled, &mut failed, (0, 0));
    assert_eq!(sorted(&balls), vec![((1, 0), true), ((2, 0), false), ((3, 0), true)]);
    let (chunks, mut balls) = board(
        &[((0, 0), Tile::Hold), ((1, 0), Tile::Hold), ((2, 0), Tile::Hold), ((3, 0), Tile::Block)],
        &[((0, 0), true), ((1, 0), false), ((2, 0), true)],
    );
    let mut settled = CellSet::new();
    let mut failed = CellSet::new();
    resolve_ball(&chunks, Direction::Right, &mut balls, &mut settled, &mut failed, (0, 0));
    assert_eq!(sorted(&balls), vec![((0, 0), true), ((1, 0), false), ((2, 0), true)]);
    assert!(failed.contains((0, 0)) && failed.contains((1, 0)) && !failed.contains((2, 0)));
    assert!(!settled.contains((1, 0)));
}

#[test]
fn work_list_is_taken_from_its_end() {
    let (chunks, mut balls) = board(
        &[((0, 0), Tile::Right), ((1, 0), Tile::Right), ((2, 0), Tile::Empty)],
        &[((0, 0), true), ((1, 0), false)],
    );
    let mut settled = CellSet::new();
    let mut failed = CellSet::new();
    run_movers(&chunks, Direction::Right, &mut balls, &mut settled, &mut failed, vec![(0, 0), (1, 0)]);
    assert_eq!(sorted(&balls), vec![((1, 0), true), ((2, 0), false)]);
}

#[test]
fn phase_and_tick_on_bare_collections() {
    let (chunks, mut balls) = board(
        &[((0, 0), Tile::DuplicateV), ((0, 1), Tile::Empty), ((0, -1), Tile::Destroy), ((4, 4), Tile::Destroy)],
        &[((0, 0), true), ((4, 4), false)],
    );
    let mut settled = CellSet::new();
    let mut spent = CellSet::new();
    run_phase(&chunks, Direction::Up, &mut balls, &mut settled, &mut spent);
    assert_eq!(sorted(&balls), vec![((0, 0), true), ((0, 1), true)]);
    assert!(settled.contains((0, 1)) && spent.contains((0, 0)));
    let (chunks, mut balls) = board(
        &[((0, 0), Tile::DuplicateV), ((0, 1), Tile::Empty), ((0, -1), Tile::Destroy), ((4, 4), Tile::Destroy)],
        &[((0, 0), true), ((4, 4), false)],
    );
    run_tick(&chunks, &mut balls);
    assert_eq!(sorted(&balls), vec![((0, -1), true), ((0, 1), true)]);
    run_tick(&chunks, &mut balls);
    assert_eq!(sorted(&balls), vec![((0, 1), true)]);
}

fn native(words: &[u32]) -> Vec<u8> {
    words.iter().flat_map(|w| w.to_ne_bytes()).collect()
}

#[test]
fn ball_upload_holds_cells_and_states() {
    let pos = vec![
        conveyor::ball::BallPosition { position: [1, -1] },
        conveyor::ball::BallPosition { position: [i32::MIN, i32::MAX] },
    ];
    let data = vec![(true, Direction::Right), (false, Direction::Left)];
    let up = conveyor::upload::update_balls(pos, data);
    assert_eq!(up.instances, 2);
    assert_eq!(up.positions, native(&[1, 0xffff_ffff, 0x8000_0000, 0x7fff_ffff]));
    assert_eq!(up.states, native(&[1, 6]));
    let none = conveyor::upload::update_balls(Vec::new(), Vec::new());
    assert_eq!((none.instances, none.positions.len(), none.states.len()), (0, 0, 0));
}

#[test]
fn chunk_upload_holds_coordinates_and_codes() {
    let pos = vec![ChunkPosition { position: [0, 0] }, ChunkPosition { position: [-1, 2] }];
    let mut second = Chunk::filled(1);
    second.set_tile([0, 31], 9);
    let up = conveyor::upload::update_chunks(pos, vec![Chunk::filled(5), second]);
    assert_eq!(up.instances, 2);
    assert_eq!(up.positions, native(&[0, 0, 0xffff_ffff, 2]));
    assert_eq!(up.texels.len(), 2048);
    assert!(up.texels[..1024].iter().all(|&code| code == 5));
    assert_eq!(up.texels[1024], 9);
    assert!(up.texels[1025..].iter().all(|&code| code == 1));
    assert_eq!(conveyor::upload::MAX_CHUNKS, 256);
    assert_eq!(conveyor::upload::MAX_BALLS, 2 << 14);
}
