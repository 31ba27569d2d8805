use game_2048::board::{App, Direction};
use game_2048::line::slide_line;

fn board(rows: [[u32; 4]; 4]) -> App {
    let mut game = App::default();
    game.grid = rows;
    game
}

#[test]
fn move_left_works() {
    let mut game = App::default();
    game.grid[2][1] = 4;
    game.grid[2][2] = 2;
    game.grid[2][3] = 2;
    game.move_left();
    assert_eq!(game.grid[2][1], 4);
    assert_eq!(game.grid[2][0], 4);
}

#[test]
fn move_right_works() {
    let mut game = App::default();
    game.grid[2][1] = 4;
    game.grid[2][2] = 2;
    game.grid[2][3] = 2;
    game.move_right();
    assert_eq!(game.grid[2][3], 4);
    assert_eq!(game.grid[2][2], 4);
}

#[test]
fn move_up_works() {
    let mut game = App::default();
    game.grid[0][2] = 4;
    game.grid[2][2] = 2;
    game.grid[3][2] = 2;
    println!("{:?}", game.grid);
    game.move_up();
    println!("{:?}", game.grid);
    assert_eq!(game.grid[0][2], 4);
    assert_eq!(game.grid[1][2], 4);
}

#[test]
fn move_down_works() {
    let mut game = App::default();
    game.grid[0][2] = 4;
    game.grid[2][2] = 2;
    game.grid[3][2] = 2;
    println!("{:?}", game.grid);
    game.move_down();
    println!("{:?}", game.grid);
    assert_eq!(game.grid[2][2], 4);
    assert_eq!(game.grid[3][2], 4);
}

#[test]
fn default_board_is_empty() {
    let game = App::default();
    assert_eq!(game.grid, [[0; 4]; 4]);
    assert!(!game.exit);
    assert!(!game.exit_requested());
    assert_eq!(game.value(3, 3), 0);
}

#[test]
fn row_slides_to_the_left_edge() {
    let mut game = App::default();
    game.grid[1] = [0, 4, 2, 2];
    game.move_left();
    assert_eq!(game.grid, [[0; 4], [4, 4, 0, 0], [0; 4], [0; 4]]);
}

#[test]
fn row_slides_to_the_right_edge() {
    let mut game = App::default();
    game.grid[1] = [0, 4, 2, 2];
    game.move_right();
    assert_eq!(game.grid, [[0; 4], [0, 0, 4, 4], [0; 4], [0; 4]]);
}

#[test]
fn column_slides_to_the_top_edge() {
    let mut game = board([[0, 4, 0, 0], [0, 0, 0, 0], [0, 2, 0, 0], [0, 2, 0, 0]]);
    game.move_up();
    assert_eq!(game.grid, [[0, 4, 0, 0], [0, 4, 0, 0], [0, 0, 0, 0], [0, 0, 0, 0]]);
}

#[test]
fn column_slides_to_the_bottom_edge() {
    let mut game = board([[0, 4, 0, 0], [0, 0, 0, 0], [0, 2, 0, 0], [0, 2, 0, 0]]);
    game.move_down();
    assert_eq!(game.grid, [[0, 0, 0, 0], [0, 0, 0, 0], [0, 4, 0, 0], [0, 4, 0, 0]]);
}

#[test]
fn triple_does_not_cascade() {
    let mut game = App::default();
    game.grid[0] = [2, 2, 2, 0];
    game.move_left();
    assert_eq!(game.grid[0], [4, 2, 0, 0]);
    assert_ne!(game.grid[0], [8, 0, 0, 0]);
}

#[test]
fn each_direction_merges_from_its_own_edge() {
    let mut game = App::default();
    game.grid[0] = [2, 2, 2, 0];
    game.move_right();
    assert_eq!(game.grid[0], [0, 0, 2, 4]);

    let mut game = board([[2, 0, 0, 0], [2, 0, 0, 0], [2, 0, 0, 0], [0, 0, 0, 0]]);
    game.move_up();
    assert_eq!(game.grid, [[4, 0, 0, 0], [2, 0, 0, 0], [0; 4], [0; 4]]);

    let mut game = board([[2, 0, 0, 0], [2, 0, 0, 0], [2, 0, 0, 0], [0, 0, 0, 0]]);
    game.move_down();
    assert_eq!(game.grid, [[0; 4], [0; 4], [2, 0, 0, 0], [4, 0, 0, 0]]);
}

#[test]
fn pair_across_a_gap_merges_at_the_edge() {
    let mut game = App::default();
    game.grid[3] = [0, 8, 0, 8];
    game.move_left();
    assert_eq!(game.grid[3], [16, 0, 0, 0]);
    game.grid[3] = [8, 0, 0, 8];
    game.move_right();
    assert_eq!(game.grid[3], [0, 0, 0, 16]);
}

#[test]
fn two_pairs_merge_once_each() {
    assert_eq!(slide_line([2, 2, 2, 2]), Some([4, 4, 0, 0]));
    assert_eq!(slide_line([4, 4, 8, 8]), Some([8, 16, 0, 0]));
    assert_eq!(slide_line([2, 2, 4, 0]), Some([4, 4, 0, 0]));
    assert_eq!(slide_line([4, 2, 2, 0]), Some([4, 4, 0, 0]));
}

#[test]
fn line_without_equal_neighbours_only_packs() {
    assert_eq!(slide_line([0, 0, 0, 0]), Some([0, 0, 0, 0]));
    assert_eq!(slide_line([0, 2, 0, 4]), Some([2, 4, 0, 0]));
    assert_eq!(slide_line([2, 4, 2, 4]), Some([2, 4, 2, 4]));
    assert_eq!(slide_line([0, 0, 0, 2]), Some([2, 0, 0, 0]));
    assert_eq!(slide_line([2, 0, 4, 2]), Some([2, 4, 2, 0]));
}

#[test]
fn slide_keeps_the_sum_and_loses_one_tile_for_each_merge() {
    let lines: [[u32; 4]; 6] = [
        [0, 4, 2, 2],
        [2, 2, 2, 0],
        [2, 2, 2, 2],
        [8, 0, 8, 16],
        [2, 4, 8, 16],
        [0, 0, 0, 0],
    ];
    let merges: [usize; 6] = [1, 1, 2, 1, 0, 0];
    for (line, joined) in lines.iter().zip(merges.iter()) {
        let out = slide_line(*line).unwrap();
        let sum_before: u32 = line.iter().sum();
        let sum_after: u32 = out.iter().sum();
        assert_eq!(sum_before, sum_after);
        let tiles_before = line.iter().filter(|v| **v != 0).count();
        let tiles_after = out.iter().filter(|v| **v != 0).count();
        assert_eq!(tiles_after + joined, tiles_before);
    }
}

#[test]
fn moves_keep_powers_of_two() {
    let start = board([[2, 2, 4, 4], [0, 8, 8, 16], [1024, 1024, 2, 0], [4, 0, 4, 2]]);
    for dir in [Direction::Left, Direction::Right, Direction::Up, Direction::Down] {
        let mut game = start;
        assert!(game.movable(dir));
        game.make_move(dir);
        for r in 0..4 {
            for c in 0..4 {
                let v = game.value(r, c);
                assert!(v == 0 || (v >= 2 && v.is_power_of_two()));
            }
        }
    }
}

#[test]
fn make_move_tells_whether_the_board_changed() {
    let mut game = App::default();
    game.grid[0] = [2, 4, 0, 0];
    assert!(!game.make_move(Direction::Left));
    assert_eq!(game.grid[0], [2, 4, 0, 0]);
    assert!(game.make_move(Direction::Right));
    assert_eq!(game.grid[0], [0, 0, 2, 4]);
    assert!(!game.make_move(Direction::Up));
    assert!(game.make_move(Direction::Down));
    assert_eq!(game.grid[3], [0, 0, 2, 4]);
    assert_eq!(game.grid[0], [0, 0, 0, 0]);
}

#[test]
fn differs_compares_the_cells() {
    let a = App::default();
    let mut b = App::default();
    assert!(!a.differs(&b));
    b.exit = true;
    assert!(!a.differs(&b));
    b.grid[3][3] = 2;
    assert!(a.differs(&b));
}

#[test]
fn slid_leaves_the_board_and_gives_the_next() {
    let game = board([[2, 2, 0, 0], [0; 4], [0; 4], [4, 0, 0, 4]]);
    let next = game.slid(Direction::Right).unwrap();
    assert_eq!(game.grid[0], [2, 2, 0, 0]);
    assert_eq!(next.grid, [[0, 0, 0, 4], [0; 4], [0; 4], [0, 0, 0, 8]]);
    assert_eq!(next.exit, game.exit);
}

#[test]
fn largest_tiles_cannot_merge() {
    let top: u32 = 1 << 31;
    assert_eq!(slide_line([top, top, 0, 0]), None);
    assert_eq!(slide_line([top, 2, top, 0]), Some([top, 2, top, 0]));
    assert_eq!(slide_line([1 << 30, 1 << 30, 0, 0]), Some([top, 0, 0, 0]));
    assert_eq!(slide_line([top, top, top, 0]), None);
    assert_eq!(slide_line([2, top, top, 0]), None);

    let game = board([[top, 0, 0, top], [0; 4], [0; 4], [0; 4]]);
    assert!(!game.movable(Direction::Left));
    assert!(!game.movable(Direction::Right));
    assert!(game.movable(Direction::Up));
    assert!(game.movable(Direction::Down));
    assert!(game.slid(Direction::Left).is_none());
}
