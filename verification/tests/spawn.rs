use game_2048::board::App;

fn count(game: &App) -> usize {
    game.grid.iter().flatten().filter(|v| **v != 0).count()
}

#[test]
fn empty_cells_are_listed_row_by_row() {
    let mut game = App::default();
    assert_eq!(game.empty_cells().len(), 16);
    assert_eq!(game.empty_cells()[0], (0, 0));
    assert_eq!(game.empty_cells()[5], (1, 1));
    assert_eq!(game.empty_cells()[15], (3, 3));
    game.grid = [[2, 0, 2, 2], [2, 2, 2, 2], [0, 2, 2, 2], [2, 2, 2, 0]];
    assert_eq!(game.empty_cells(), vec![(0, 1), (2, 0), (3, 3)]);
}

#[test]
fn spawn_with_fills_the_chosen_empty_cell() {
    let mut game = App::default();
    game.grid = [[2, 0, 2, 2], [2, 2, 2, 2], [0, 2, 2, 2], [2, 2, 2, 0]];
    assert!(game.spawn_with(1, 0));
    assert_eq!(game.grid, [[2, 0, 2, 2], [2, 2, 2, 2], [2, 2, 2, 2], [2, 2, 2, 0]]);
    assert!(game.spawn_with(1, 4));
    assert_eq!(game.grid, [[2, 0, 2, 2], [2, 2, 2, 2], [2, 2, 2, 2], [2, 2, 2, 4]]);
    assert!(game.spawn_with(0, 9));
    assert_eq!(game.grid, [[2, 2, 2, 2], [2, 2, 2, 2], [2, 2, 2, 2], [2, 2, 2, 4]]);
}

#[test]
fn only_the_draw_four_gives_a_four() {
    for roll in 0..10 {
        let mut game = App::default();
        assert!(game.spawn_with(7, roll));
        let expected = if roll == 4 { 4 } else { 2 };
        assert_eq!(game.grid[1][3], expected);
        assert_eq!(count(&game), 1);
    }
}

#[test]
fn spawn_on_a_full_board_changes_nothing() {
    let full = [[2, 4, 2, 4], [4, 2, 4, 2], [2, 4, 2, 4], [4, 2, 4, 2]];
    let mut game = App::default();
    game.grid = full;
    assert!(!game.spawn());
    assert_eq!(game.grid, full);
    assert!(!game.exit);
    assert!(!game.spawn_with(0, 0));
    assert_eq!(game.grid, full);
}

#[test]
fn spawn_adds_exactly_one_tile() {
    let mut game = App::default();
    for placed in 1..=16 {
        let before = game.grid;
        assert!(game.spawn());
        assert_eq!(count(&game), placed);
        let mut changed = 0;
        for r in 0..4 {
            for c in 0..4 {
                if game.grid[r][c] != before[r][c] {
                    assert_eq!(before[r][c], 0);
                    assert!(game.grid[r][c] == 2 || game.grid[r][c] == 4);
                    changed += 1;
                }
            }
        }
        assert_eq!(changed, 1);
    }
    assert!(!game.spawn());
}

#[test]
fn spawn_fills_the_only_empty_cell() {
    for _ in 0..50 {
        let mut game = App::default();
        game.grid = [[2, 4, 2, 4], [4, 2, 4, 2], [2, 4, 0, 4], [4, 2, 4, 2]];
        assert!(game.spawn());
        assert!(game.grid[2][2] == 2 || game.grid[2][2] == 4);
        assert_eq!(count(&game), 16);
    }
}

#[test]
fn spawn_reaches_every_empty_cell_of_two() {
    let mut first = false;
    let mut second = false;
    for _ in 0..400 {
        let mut game = App::default();
        game.grid = [[0, 4, 2, 4], [4, 2, 4, 2], [2, 4, 2, 4], [4, 2, 4, 0]];
        assert!(game.spawn());
        assert_eq!(count(&game), 15);
        first = first || game.grid[0][0] != 0;
        second = second || game.grid[3][3] != 0;
    }
    assert!(first && second);
}

#[test]
fn a_new_game_has_one_tile() {
    for _ in 0..20 {
        let game = App::start();
        assert!(!game.exit_requested());
        assert_eq!(count(&game), 1);
        let tile: u32 = game.grid.iter().flatten().sum();
        assert!(tile == 2 || tile == 4);
    }
}
