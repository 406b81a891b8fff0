use game2048::grid::Direction;
use game2048::grid::Grid;
use game2048::grid::SpawnPolicy;
use game2048::rng::Rng;

fn board(cells: [[u32; 4]; 4]) -> Grid {
    Grid {
        dim: 4,
        grid: cells.iter().map(|r| r.to_vec()).collect(),
        score: 0,
    }
}

fn cells_of(g: &Grid) -> Vec<Vec<u32>> {
    g.grid.clone()
}

#[test]
fn slide_left_merges_each_pair_once() {
    let mut g = board([
        [2, 2, 2, 2],
        [0, 0, 0, 0],
        [0, 0, 0, 0],
        [0, 0, 0, 0],
    ]);
    let changed = g.left();
    assert!(changed);
    assert_eq!(g.grid[0], vec![4, 4, 0, 0]);
    assert_eq!(g.score, 8);
}

#[test]
fn merged_tile_does_not_merge_again_in_one_pass() {
    let mut g = board([
        [2, 2, 4, 0],
        [0, 0, 0, 0],
        [0, 0, 0, 0],
        [0, 0, 0, 0],
    ]);
    let changed = g.left();
    assert!(changed);
    assert_eq!(g.grid[0], vec![4, 4, 0, 0]);
    assert_eq!(g.score, 4);
}

#[test]
fn move_detection_reports_unchanged_board() {
    let mut g = board([
        [2, 0, 0, 0],
        [0, 0, 0, 0],
        [0, 0, 0, 0],
        [0, 0, 0, 0],
    ]);
    let changed = g.left();
    assert!(!changed);
    assert_eq!(g.grid[0], vec![2, 0, 0, 0]);
    assert_eq!(g.score, 0);
}

#[test]
fn move_detection_reports_changed_board() {
    let mut g = board([
        [0, 2, 0, 0],
        [0, 0, 0, 0],
        [0, 0, 0, 0],
        [0, 0, 0, 0],
    ]);
    let changed = g.left();
    assert!(changed);
    assert_eq!(g.grid[0], vec![2, 0, 0, 0]);
    assert_eq!(g.score, 0);
}

#[test]
fn scenario_left_on_right_edge_tile() {
    let mut g = board([
        [0, 0, 0, 2],
        [0, 0, 0, 0],
        [0, 0, 0, 0],
        [0, 0, 0, 0],
    ]);
    let changed = g.left();
    assert!(changed);
    assert_eq!(g.grid[0], vec![2, 0, 0, 0]);
    assert_eq!(g.score, 0);
}

#[test]
fn rotate_four_times_restores_the_board() {
    let mut g = board([
        [2, 4, 8, 16],
        [0, 2, 0, 4],
        [32, 0, 64, 0],
        [0, 128, 0, 256],
    ]);
    let before = cells_of(&g);
    g.rotate();
    assert_ne!(cells_of(&g), before);
    g.rotate();
    g.rotate();
    g.rotate();
    assert_eq!(cells_of(&g), before);
}

#[test]
fn slide_twice_equals_slide_once_without_remaining_pairs() {
    let mut g = board([
        [2, 0, 2, 0],
        [4, 8, 8, 0],
        [0, 16, 0, 16],
        [2, 4, 8, 16],
    ]);
    g.left();
    let once = cells_of(&g);
    let changed = g.left();
    assert!(!changed);
    assert_eq!(cells_of(&g), once);
}

#[test]
fn slide_conserves_the_tile_total() {
    let mut g = board([
        [2, 2, 4, 8],
        [0, 2, 2, 4],
        [16, 16, 16, 16],
        [2, 0, 0, 2],
    ]);
    let total_before: u32 = g.grid.iter().flatten().sum();
    g.left();
    let total_after: u32 = g.grid.iter().flatten().sum();
    assert_eq!(total_after, total_before);
    assert_eq!(g.score, 4 + 4 + 64 + 4);
}

#[test]
fn up_moves_a_column_tile_to_the_top() {
    let mut g = board([
        [0, 0, 0, 0],
        [0, 0, 0, 0],
        [0, 0, 0, 0],
        [0, 2, 0, 0],
    ]);
    let changed = g.up();
    assert!(changed);
    assert_eq!(g.grid[0], vec![0, 2, 0, 0]);
    assert_eq!(g.grid[3], vec![0, 0, 0, 0]);
}

#[test]
fn down_merges_a_column_pair_at_the_bottom() {
    let mut g = board([
        [0, 0, 2, 0],
        [0, 0, 2, 0],
        [0, 0, 0, 0],
        [0, 0, 0, 0],
    ]);
    let changed = g.down();
    assert!(changed);
    assert_eq!(g.grid[3], vec![0, 0, 4, 0]);
    assert_eq!(g.grid[0], vec![0, 0, 0, 0]);
    assert_eq!(g.grid[1], vec![0, 0, 0, 0]);
    assert_eq!(g.score, 4);
}

#[test]
fn right_moves_and_merges_toward_the_right_edge() {
    let mut g = board([
        [2, 0, 2, 0],
        [0, 0, 0, 0],
        [0, 0, 0, 0],
        [0, 0, 0, 0],
    ]);
    let changed = g.right();
    assert!(changed);
    assert_eq!(g.grid[0], vec![0, 0, 0, 4]);
    assert_eq!(g.score, 4);
}

#[test]
fn apply_move_matches_the_direction_methods() {
    let start = [
        [2, 0, 2, 0],
        [0, 4, 0, 0],
        [0, 0, 0, 8],
        [2, 0, 0, 0],
    ];
    for (dir, run) in [
        (Direction::Left, (|g: &mut Grid| g.left()) as fn(&mut Grid) -> bool),
        (Direction::Right, |g: &mut Grid| g.right()),
        (Direction::Up, |g: &mut Grid| g.up()),
        (Direction::Down, |g: &mut Grid| g.down()),
    ] {
        let mut a = board(start);
        let mut b = board(start);
        let ca = a.apply_move(dir);
        let cb = run(&mut b);
        assert_eq!(ca, cb);
        assert_eq!(cells_of(&a), cells_of(&b));
        assert_eq!(a.score, b.score);
    }
}

#[test]
fn full_board_without_pairs_is_game_over() {
    let g = board([
        [2, 4, 2, 4],
        [4, 2, 4, 2],
        [2, 4, 2, 4],
        [4, 2, 4, 2],
    ]);
    assert!(g.game_over());
    let lm = g.legal_moves();
    assert_eq!(lm, (false, false, false, false));
}

#[test]
fn full_board_with_a_vertical_pair_is_not_game_over() {
    let g = board([
        [2, 4, 2, 4],
        [2, 8, 4, 2],
        [4, 2, 8, 4],
        [2, 4, 2, 8],
    ]);
    assert!(!g.game_over());
    let lm = g.legal_moves();
    assert!(!lm.0);
    assert!(!lm.1);
    assert!(lm.2);
    assert!(lm.3);
}

#[test]
fn board_with_an_empty_cell_is_not_game_over() {
    let g = board([
        [2, 4, 2, 4],
        [4, 2, 4, 2],
        [2, 4, 2, 4],
        [4, 2, 4, 0],
    ]);
    assert!(!g.game_over());
}

#[test]
fn spawn_fills_exactly_one_empty_cell() {
    let start = [
        [2, 4, 2, 4],
        [4, 2, 4, 2],
        [2, 4, 2, 4],
        [4, 2, 0, 2],
    ];
    let mut g = board(start);
    let mut rng = Rng::new(12345);
    let placed = g.spawn_tile(&mut rng, SpawnPolicy::Constant);
    assert!(placed);
    assert_eq!(g.score, 0);
    let mut changed = Vec::new();
    for i in 0..4 {
        for j in 0..4 {
            if g.grid[i][j] != start[i][j] {
                changed.push((i, j, start[i][j], g.grid[i][j]));
            }
        }
    }
    assert_eq!(changed, vec![(3, 2, 0, 2)]);
}

#[test]
fn spawn_on_a_full_board_places_nothing() {
    let start = [
        [2, 4, 2, 4],
        [4, 2, 4, 2],
        [2, 4, 2, 4],
        [4, 2, 4, 2],
    ];
    let mut g = board(start);
    let mut rng = Rng::new(7);
    let placed = g.spawn_tile(&mut rng, SpawnPolicy::Scaled);
    assert!(!placed);
    assert_eq!(cells_of(&g), board(start).grid);
    assert_eq!(g.score, 0);
}

#[test]
fn scaled_spawn_grows_with_the_largest_tile() {
    let start = [
        [128, 0, 0, 0],
        [0, 0, 0, 0],
        [0, 0, 0, 0],
        [0, 0, 0, 0],
    ];
    let mut g = board(start);
    let mut rng = Rng::new(99);
    let placed = g.spawn_tile(&mut rng, SpawnPolicy::Scaled);
    assert!(placed);
    let mut spawned = Vec::new();
    for i in 0..4 {
        for j in 0..4 {
            if g.grid[i][j] != start[i][j] {
                spawned.push(g.grid[i][j]);
            }
        }
    }
    assert_eq!(spawned, vec![4]);
}

#[test]
fn scaled_spawn_falls_back_to_the_minimum_tile() {
    let start = [
        [32, 0, 0, 0],
        [0, 0, 0, 0],
        [0, 0, 0, 0],
        [0, 0, 0, 0],
    ];
    let mut g = board(start);
    let mut rng = Rng::new(99);
    assert!(g.spawn_tile(&mut rng, SpawnPolicy::Scaled));
    let mut spawned = Vec::new();
    for i in 0..4 {
        for j in 0..4 {
            if g.grid[i][j] != start[i][j] {
                spawned.push(g.grid[i][j]);
            }
        }
    }
    assert_eq!(spawned, vec![2]);
}

#[test]
fn add_spawns_only_after_a_valid_move() {
    let start = [
        [2, 0, 0, 0],
        [0, 0, 0, 0],
        [0, 0, 0, 0],
        [0, 0, 0, 0],
    ];
    let mut g = board(start);
    let mut rng = Rng::new(5);
    g.add(false, &mut rng);
    assert_eq!(cells_of(&g), board(start).grid);
    g.add(true, &mut rng);
    let filled: usize = g.grid.iter().flatten().filter(|&&v| v != 0).count();
    assert_eq!(filled, 2);
    assert_eq!(g.score, 0);
}

#[test]
fn new_game_starts_with_two_minimum_tiles_and_no_score() {
    let mut rng = Rng::new(31337);
    let g = Grid::new(4, &mut rng);
    assert_eq!(g.dim, 4);
    assert_eq!(g.score, 0);
    assert_eq!(g.grid.len(), 4);
    let mut tiles = 0;
    for row in &g.grid {
        assert_eq!(row.len(), 4);
        for &v in row {
            assert!(v == 0 || v == 2);
            if v != 0 {
                tiles += 1;
            }
        }
    }
    assert_eq!(tiles, 2);
}

#[test]
fn merging_the_largest_supported_tiles_stays_exact() {
    let mut g = board([
        [1073741824, 1073741824, 0, 0],
        [0, 0, 0, 0],
        [0, 0, 0, 0],
        [0, 0, 0, 0],
    ]);
    let changed = g.left();
    assert!(changed);
    assert_eq!(g.grid[0], vec![2147483648, 0, 0, 0]);
    assert_eq!(g.score, 2147483648);
}

#[test]
fn the_engine_handles_other_square_dimensions() {
    let mut g = Grid {
        dim: 2,
        grid: vec![vec![0, 2], vec![0, 2]],
        score: 0,
    };
    let changed = g.up();
    assert!(changed);
    assert_eq!(g.grid, vec![vec![0, 4], vec![0, 0]]);
    assert_eq!(g.score, 4);
    assert!(!g.game_over());
}

#[test]
fn new_games_with_one_seed_agree() {
    let a = Grid::new(4, &mut Rng::new(2024));
    let b = Grid::new(4, &mut Rng::new(2024));
    assert_eq!(a.grid, b.grid);
}
