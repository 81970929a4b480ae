use game2048::game::Game;
use game2048::grid::{Cell, Direction, Grid};
use game2048::input::direction_for_key;
use game2048::line::slide_pass;
use game2048::rng::Rng;
use game2048::tile::{is_valid_tile_value, tile_color};

fn cell(col: usize, row: usize) -> Cell {
    Cell { col, row }
}

fn grid_with(size: usize, tiles: &[(usize, usize, u64)]) -> Grid {
    let mut g = Grid::new(size);
    for &(col, row, v) in tiles {
        g.set(cell(col, row), v);
    }
    g
}

fn tiles(g: &Grid) -> Vec<(usize, usize, u64)> {
    g.occupied_cells().into_iter().map(|(c, v)| (c.col, c.row, v)).collect()
}

#[test]
fn scenario_adjacent_pair_merges_left() {
    let g = grid_with(4, &[(0, 0, 2), (1, 0, 2)]);
    let r = g.apply_move(Direction::Left);
    assert!(r.changed);
    assert_eq!(tiles(&r.grid), vec![(0, 0, 4)]);

    let mut game = Game::with_grid(g, 7);
    let t = game.turn(Direction::Left);
    assert!(t.changed);
    let (c, v) = t.spawned.expect("a tile is spawned after a changed move");
    assert!(!(c.col == 0 && c.row == 0));
    assert!(v == 2 || v == 4);
    let after = tiles(game.grid());
    assert_eq!(after.len(), 2);
    assert!(after.contains(&(0, 0, 4)));
    assert!(after.contains(&(c.col, c.row, v)));
}

#[test]
fn scenario_distant_pair_slides_without_merge() {
    let g = grid_with(4, &[(0, 0, 2), (3, 0, 2)]);
    let r = g.apply_move(Direction::Left);
    assert!(r.changed);
    assert_eq!(tiles(&r.grid), vec![(0, 0, 2), (1, 0, 2)]);
}

#[test]
fn scenario_tile_at_wall_does_not_move() {
    let g = grid_with(4, &[(0, 0, 2)]);
    let r = g.apply_move(Direction::Up);
    assert!(!r.changed);
    assert_eq!(tiles(&r.grid), vec![(0, 0, 2)]);

    let mut game = Game::with_grid(g, 1);
    let t = game.turn(Direction::Up);
    assert!(!t.changed);
    assert!(t.spawned.is_none());
    assert_eq!(tiles(game.grid()), vec![(0, 0, 2)]);
}

#[test]
fn four_equal_tiles_merge_into_two() {
    let g = grid_with(4, &[(0, 1, 2), (1, 1, 2), (2, 1, 2), (3, 1, 2)]);
    let r = g.apply_move(Direction::Left);
    assert!(r.changed);
    assert_eq!(tiles(&r.grid), vec![(0, 1, 4), (1, 1, 4)]);
    let r = g.apply_move(Direction::Right);
    assert_eq!(tiles(&r.grid), vec![(2, 1, 4), (3, 1, 4)]);
}

#[test]
fn merged_tile_does_not_merge_again() {
    let line = vec![4u64, 2, 2, 0];
    assert_eq!(slide_pass(&line), vec![4, 4, 0, 0]);
    let line = vec![2u64, 2, 4, 4];
    assert_eq!(slide_pass(&line), vec![4, 8, 0, 0]);
    let line = vec![2u64, 0, 2, 0];
    assert_eq!(slide_pass(&line), vec![2, 2, 0, 0]);
}

#[test]
fn full_board_without_merges_does_not_change() {
    let mut list = Vec::new();
    let mut v: u64 = 2;
    for row in 0..4 {
        for col in 0..4 {
            list.push((col, row, v));
            v *= 2;
        }
    }
    let g = grid_with(4, &list);
    assert_eq!(g.count_empty(), 0);
    for dir in [Direction::Up, Direction::Down, Direction::Left, Direction::Right] {
        let r = g.apply_move(dir);
        assert!(!r.changed);
        assert_eq!(tiles(&r.grid), list);
    }
    let mut game = Game::with_grid(g, 3);
    for dir in [Direction::Up, Direction::Down, Direction::Left, Direction::Right] {
        let t = game.turn(dir);
        assert!(!t.changed);
        assert!(t.spawned.is_none());
    }
    assert_eq!(tiles(game.grid()), list);
}

#[test]
fn no_op_move_stays_a_no_op() {
    let g = grid_with(4, &[(0, 3, 8), (1, 3, 4), (0, 2, 2)]);
    let r = g.apply_move(Direction::Down);
    assert!(!r.changed);
    let r2 = r.grid.apply_move(Direction::Down);
    assert!(!r2.changed);
    assert_eq!(tiles(&r2.grid), tiles(&g));
}

#[test]
fn tiles_at_the_wall_stay_on_the_board() {
    let g = grid_with(4, &[(3, 1, 2), (0, 2, 4), (2, 0, 8), (1, 3, 16)]);
    assert_eq!(tiles(&g.apply_move(Direction::Right).grid), vec![(3, 0, 8), (3, 1, 2), (3, 2, 4), (3, 3, 16)]);
    assert_eq!(tiles(&g.apply_move(Direction::Left).grid), vec![(0, 0, 8), (0, 1, 2), (0, 2, 4), (0, 3, 16)]);
    assert_eq!(tiles(&g.apply_move(Direction::Up).grid), vec![(0, 0, 4), (1, 0, 16), (2, 0, 8), (3, 0, 2)]);
    assert_eq!(tiles(&g.apply_move(Direction::Down).grid), vec![(0, 3, 4), (1, 3, 16), (2, 3, 8), (3, 3, 2)]);
}

#[test]
fn columns_merge_toward_the_wall() {
    let g = grid_with(4, &[(0, 0, 2), (0, 1, 2), (0, 2, 4)]);
    assert_eq!(tiles(&g.apply_move(Direction::Up).grid), vec![(0, 0, 4), (0, 1, 4)]);
    assert_eq!(tiles(&g.apply_move(Direction::Down).grid), vec![(0, 2, 4), (0, 3, 4)]);
}

#[test]
fn values_stay_powers_of_two_over_many_turns() {
    let mut game = Game::new(4, 2024);
    let dirs = [Direction::Left, Direction::Up, Direction::Right, Direction::Down];
    for i in 0..500 {
        if !game.grid().can_merge_safely() {
            break;
        }
        game.turn(dirs[(i * 7 + i / 3) % 4]);
        let list = tiles(game.grid());
        assert!(list.len() <= 16);
        for (_, _, v) in list {
            assert!(is_valid_tile_value(v));
        }
    }
}

#[test]
fn new_game_starts_with_one_tile() {
    let game = Game::new(4, 99);
    let list = tiles(game.grid());
    assert_eq!(list.len(), 1);
    assert!(list[0].2 == 2 || list[0].2 == 4);
}

#[test]
fn spawn_picks_the_numbered_empty_cell() {
    let mut g = grid_with(4, &[(0, 0, 2)]);
    assert_eq!(g.count_empty(), 15);
    assert_eq!(g.spawn(1, 3), Some((cell(2, 0), 2)));
    let mut g = grid_with(4, &[(0, 0, 2)]);
    assert_eq!(g.spawn(15, 20), Some((cell(1, 0), 4)));
    let mut g = grid_with(4, &[(0, 0, 2)]);
    assert_eq!(g.spawn(14, 1), Some((cell(3, 3), 2)));
    assert_eq!(g.get(cell(3, 3)), Some(2));
    assert_eq!(g.count_empty(), 14);
}

#[test]
fn spawn_on_full_board_adds_nothing() {
    let mut list = Vec::new();
    for row in 0..2 {
        for col in 0..2 {
            list.push((col, row, 2u64 << (row * 2 + col)));
        }
    }
    let mut g = grid_with(2, &list);
    assert_eq!(g.spawn(5, 0), None);
    assert_eq!(tiles(&g), list);
}

#[test]
fn spawn_values_are_about_one_four_in_ten() {
    let mut rng = Rng::new(12345);
    let mut fours = 0;
    let total = 20000;
    for _ in 0..total {
        let mut g = Grid::new(4);
        let cell_draw = rng.next_u64();
        let value_draw = rng.next_u64();
        let (_, v) = g.spawn(cell_draw, value_draw).unwrap();
        assert!(v == 2 || v == 4);
        if v == 4 {
            fours += 1;
        }
    }
    let share = fours as f64 / total as f64;
    assert!((share - 0.1).abs() < 0.01, "share of fours: {}", share);
}

#[test]
fn spawn_value_follows_the_draw() {
    for d in 0..100u64 {
        let mut g = Grid::new(3);
        let (_, v) = g.spawn(0, d).unwrap();
        assert_eq!(v, if d % 10 == 0 { 4 } else { 2 });
    }
}

#[test]
fn rng_is_splitmix64() {
    let mut rng = Rng::new(0);
    assert_eq!(rng.next_u64(), 0xe220_a839_7b1d_cdaf);
    let mut a = Rng::new(42);
    let mut b = Rng::new(42);
    for _ in 0..10 {
        assert_eq!(a.next_u64(), b.next_u64());
    }
}

#[test]
fn same_seed_same_game() {
    let mut a = Game::new(4, 5);
    let mut b = Game::new(4, 5);
    for dir in [Direction::Left, Direction::Down, Direction::Right, Direction::Up] {
        let ta = a.turn(dir);
        let tb = b.turn(dir);
        assert_eq!(ta.changed, tb.changed);
        assert_eq!(ta.spawned, tb.spawned);
    }
    assert_eq!(tiles(a.grid()), tiles(b.grid()));
}

#[test]
fn grid_get_set_remove() {
    let mut g = Grid::new(4);
    assert_eq!(g.size(), 4);
    assert_eq!(g.get(cell(1, 2)), None);
    g.set(cell(1, 2), 8);
    assert_eq!(g.get(cell(1, 2)), Some(8));
    g.set(cell(1, 2), 16);
    assert_eq!(g.get(cell(1, 2)), Some(16));
    assert_eq!(g.get(cell(4, 0)), None);
    g.remove(cell(1, 2));
    assert_eq!(g.get(cell(1, 2)), None);
    g.remove(cell(1, 2));
    assert_eq!(g.count_empty(), 16);
}

#[test]
fn occupied_cells_is_a_snapshot() {
    let mut g = grid_with(3, &[(2, 0, 2), (0, 1, 4), (1, 0, 8)]);
    let snap = g.occupied_cells();
    assert_eq!(snap, vec![(cell(1, 0), 8), (cell(2, 0), 2), (cell(0, 1), 4)]);
    g.remove(cell(1, 0));
    assert_eq!(snap.len(), 3);
    assert_eq!(g.occupied_cells().len(), 2);
}

#[test]
fn merge_limit_is_checked() {
    let g = grid_with(2, &[(0, 0, 1u64 << 62)]);
    assert!(g.can_merge_safely());
    let g = grid_with(2, &[(0, 0, 1u64 << 63)]);
    assert!(!g.can_merge_safely());
}

#[test]
fn tile_values() {
    assert!(!is_valid_tile_value(0));
    assert!(!is_valid_tile_value(1));
    assert!(is_valid_tile_value(2));
    assert!(!is_valid_tile_value(6));
    assert!(is_valid_tile_value(2048));
    assert!(is_valid_tile_value(1u64 << 63));
    assert!(!is_valid_tile_value(u64::MAX));
}

#[test]
fn keys_map_to_directions() {
    assert_eq!(direction_for_key("ArrowUp"), Some(Direction::Up));
    assert_eq!(direction_for_key("ArrowDown"), Some(Direction::Down));
    assert_eq!(direction_for_key("ArrowLeft"), Some(Direction::Left));
    assert_eq!(direction_for_key("ArrowRight"), Some(Direction::Right));
    assert_eq!(direction_for_key("a"), None);
    assert_eq!(direction_for_key(""), None);
}

#[test]
fn directions_carry_unit_steps() {
    assert_eq!(Direction::Up.delta(), (0, -1));
    assert_eq!(Direction::Down.delta(), (0, 1));
    assert_eq!(Direction::Left.delta(), (-1, 0));
    assert_eq!(Direction::Right.delta(), (1, 0));
}

#[test]
fn tile_colors() {
    assert_eq!(tile_color(2), "#eee4da");
    assert_eq!(tile_color(4), "#ede0c8");
    assert_eq!(tile_color(8), "#f2b179");
    assert_eq!(tile_color(16), "#f59563");
    assert_eq!(tile_color(2048), "#edc22e");
    assert_eq!(tile_color(32), "#cdc1b4");
}
