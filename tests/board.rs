use board2048::board::{is_tile_value_exec, Board, BoardError};
use board2048::game::{ContextPage, Game};
use board2048::grid::{pair_to_index, Direction};

fn board(cells: Vec<Option<usize>>) -> Board {
    Board::from_cells(cells).expect("tile values")
}

fn occupied(b: &Board) -> usize {
    b.cells().iter().filter(|c| c.is_some()).count()
}

#[test]
fn merge_pairs_once_per_move() {
    let mut b = board(vec![Some(2), Some(2), Some(2), Some(2)]);
    let changed = b.slide(Direction::Left, 1, 4);
    assert!(changed);
    assert_eq!(b.cells(), &vec![Some(4), Some(4), None, None]);
}

#[test]
fn merge_pairs_once_toward_high_column() {
    let mut b = board(vec![Some(2), Some(2), Some(2), Some(2)]);
    assert!(b.slide(Direction::Right, 1, 4));
    assert_eq!(b.cells(), &vec![None, None, Some(4), Some(4)]);
}

#[test]
fn pair_merges_left_then_spawns() {
    let mut b = board(vec![Some(2), Some(2), None, None]);
    assert!(b.slide(Direction::Left, 1, 4));
    assert_eq!(b.cells(), &vec![Some(4), None, None, None]);

    let mut b = board(vec![Some(2), Some(2), None, None]);
    b.move_tile_content(Direction::Left, 1, 4);
    let cells = b.cells();
    assert_eq!(cells[0], Some(4));
    let new_tiles: Vec<usize> = cells[1..].iter().filter_map(|c| *c).collect();
    assert_eq!(new_tiles.len(), 1);
    assert!(new_tiles[0] == 2 || new_tiles[0] == 4);
}

#[test]
fn merged_tiles_do_not_merge_again() {
    let mut b = board(vec![Some(2), None, Some(2), Some(4)]);
    assert!(b.slide(Direction::Left, 1, 4));
    assert_eq!(b.cells(), &vec![Some(4), Some(4), None, None]);
}

#[test]
fn pair_merges_right() {
    let mut b = board(vec![Some(2), Some(2)]);
    assert!(b.slide(Direction::Right, 1, 2));
    assert_eq!(b.cells(), &vec![None, Some(4)]);
}

#[test]
fn packed_line_without_pairs_is_unchanged() {
    for d in [Direction::Left, Direction::Right] {
        let mut b = board(vec![Some(2), Some(4), Some(2), Some(4)]);
        assert!(!b.slide(d, 1, 4));
        assert_eq!(b.cells(), &vec![Some(2), Some(4), Some(2), Some(4)]);
        b.move_tile_content(d, 1, 4);
        assert_eq!(b.cells(), &vec![Some(2), Some(4), Some(2), Some(4)]);
    }
}

#[test]
fn unchanged_move_spawns_nothing() {
    let mut b = board(vec![Some(2), None, None, None]);
    b.move_tile_content(Direction::Left, 2, 2);
    assert_eq!(b.cells(), &vec![Some(2), None, None, None]);
    b.move_tile_content(Direction::Up, 2, 2);
    assert_eq!(b.cells(), &vec![Some(2), None, None, None]);
}

#[test]
fn changed_move_spawns_one_tile_in_an_emptied_cell() {
    let mut b = board(vec![Some(2), Some(4), Some(8), Some(8)]);
    b.move_tile_content(Direction::Left, 1, 4);
    let cells = b.cells();
    assert_eq!(&cells[..2], &[Some(2), Some(4)]);
    assert_eq!(cells[2], Some(16));
    assert!(cells[3] == Some(2) || cells[3] == Some(4));
}

#[test]
fn other_input_changes_nothing() {
    let mut b = board(vec![Some(2), None, Some(2), None]);
    assert!(!b.slide(Direction::Other, 2, 2));
    b.move_tile_content(Direction::Other, 2, 2);
    assert_eq!(b.cells(), &vec![Some(2), None, Some(2), None]);
}

#[test]
fn vertical_moves_use_columns() {
    // 3 rows, 2 columns
    let cells = vec![Some(2), None, None, Some(4), Some(2), Some(4)];
    let mut up = board(cells.clone());
    assert!(up.slide(Direction::Up, 3, 2));
    assert_eq!(up.cells(), &vec![Some(4), Some(8), None, None, None, None]);

    let mut down = board(cells);
    assert!(down.slide(Direction::Down, 3, 2));
    assert_eq!(down.cells(), &vec![None, None, None, None, Some(4), Some(8)]);
}

#[test]
fn three_equal_tiles_merge_the_pair_nearest_the_anchor() {
    let mut b = board(vec![Some(2), Some(2), Some(2)]);
    assert!(b.slide(Direction::Left, 1, 3));
    assert_eq!(b.cells(), &vec![Some(4), Some(2), None]);

    let mut b = board(vec![Some(2), Some(2), Some(2)]);
    assert!(b.slide(Direction::Right, 1, 3));
    assert_eq!(b.cells(), &vec![None, Some(2), Some(4)]);
}

#[test]
fn collapse_in_each_direction() {
    // 2 rows, 3 columns
    let cells = vec![None, Some(2), None, Some(4), None, Some(8)];
    let mut b = board(cells.clone());
    b.collapse_left(2, 3);
    assert_eq!(b.cells(), &vec![Some(2), None, None, Some(4), Some(8), None]);

    let mut b = board(cells.clone());
    b.collapse_right(2, 3);
    assert_eq!(b.cells(), &vec![None, None, Some(2), None, Some(4), Some(8)]);

    let mut b = board(cells.clone());
    b.collapse_up(2, 3);
    assert_eq!(b.cells(), &vec![Some(4), Some(2), Some(8), None, None, None]);

    let mut b = board(cells);
    b.collapse_down(2, 3);
    assert_eq!(b.cells(), &vec![None, None, None, Some(4), Some(2), Some(8)]);
}

#[test]
fn collapse_keeps_values_and_order() {
    let mut b = board(vec![None, Some(8), None, Some(2), Some(8)]);
    b.collapse_left(1, 5);
    assert_eq!(b.cells(), &vec![Some(8), Some(2), Some(8), None, None]);
}

#[test]
fn collapse_twice_is_collapse_once() {
    let mut b = board(vec![None, Some(2), None, Some(4), Some(4), None, None, Some(2)]);
    b.collapse_right(2, 4);
    let once = b.cells().clone();
    b.collapse_right(2, 4);
    assert_eq!(b.cells(), &once);
}

#[test]
fn collapse_does_not_merge() {
    let mut b = board(vec![Some(2), None, Some(2)]);
    b.collapse_left(1, 3);
    assert_eq!(b.cells(), &vec![Some(2), Some(2), None]);
}

#[test]
fn moves_keep_tile_values() {
    let mut b = board(vec![Some(2), Some(2), Some(4), Some(4), Some(8), None, Some(8), Some(16), None]);
    for d in [Direction::Left, Direction::Up, Direction::Right, Direction::Down, Direction::Left] {
        b.move_tile_content(d, 3, 3);
        for v in b.cells().iter().flatten() {
            assert!(*v >= 2 && v.is_power_of_two());
        }
    }
}

#[test]
fn new_board_has_two_start_tiles() {
    let b = Board::new(4, 4).expect("valid");
    assert_eq!(b.cells().len(), 16);
    assert_eq!(occupied(&b), 2);
    for v in b.cells().iter().flatten() {
        assert!(*v == 2 || *v == 4);
    }

    let b = Board::new(1, 2).expect("valid");
    assert_eq!(b.cells().len(), 2);
    assert_eq!(occupied(&b), 2);
}

#[test]
fn new_board_places_start_tiles_at_random() {
    let mut positions = std::collections::HashSet::new();
    for _ in 0..200 {
        let b = Board::new(4, 4).expect("valid");
        let cells: Vec<usize> = (0..16).filter(|&i| b.cells()[i].is_some()).collect();
        positions.insert(cells);
    }
    assert!(positions.len() > 1);
}

#[test]
fn new_board_refuses_bad_dimensions() {
    assert_eq!(Board::new(0, 4).err(), Some(BoardError::InvalidDimensions));
    assert_eq!(Board::new(4, 0).err(), Some(BoardError::InvalidDimensions));
    assert_eq!(Board::new(1, 1).err(), Some(BoardError::InvalidDimensions));
}

#[test]
fn start_tiles_are_placed_as_given() {
    let b = Board::with_start_tiles(2, 3, 4, 2, 1, 4);
    assert_eq!(b.cells(), &vec![None, Some(4), None, None, Some(2), None]);
}

#[test]
fn spawn_fills_one_empty_cell() {
    let mut b = board(vec![Some(2), None, Some(4), Some(8)]);
    assert_eq!(b.spawn_tile(), Ok(()));
    let cells = b.cells();
    assert_eq!(cells[0], Some(2));
    assert!(cells[1] == Some(2) || cells[1] == Some(4));
    assert_eq!(&cells[2..], &[Some(4), Some(8)]);
}

#[test]
fn spawn_on_full_board_fails() {
    let mut b = board(vec![Some(2), Some(4)]);
    assert_eq!(b.spawn_tile(), Err(BoardError::NoEmptyCellForSpawn));
    assert_eq!(b.cells(), &vec![Some(2), Some(4)]);
}

#[test]
fn spawn_draws_both_values_and_mostly_twos() {
    let mut twos = 0;
    let mut fours = 0;
    for _ in 0..2000 {
        let mut b = board(vec![None]);
        b.spawn_tile().expect("empty cell");
        match b.cells()[0] {
            Some(2) => twos += 1,
            Some(4) => fours += 1,
            other => panic!("unexpected {:?}", other),
        }
    }
    assert!(fours > 0);
    assert!(twos > fours * 4);
}

#[test]
fn spawn_picks_cells_at_random() {
    let mut seen = std::collections::HashSet::new();
    for _ in 0..200 {
        let mut b = board(vec![None, None, None, None]);
        b.spawn_tile().expect("empty cell");
        seen.insert(b.cells().iter().position(|c| c.is_some()).unwrap());
    }
    assert!(seen.len() > 1);
}

#[test]
fn from_cells_checks_values() {
    assert!(Board::from_cells(vec![Some(2), None, Some(1024)]).is_some());
    assert!(Board::from_cells(vec![Some(3)]).is_none());
    assert!(Board::from_cells(vec![Some(1)]).is_none());
    assert!(Board::from_cells(vec![Some(0)]).is_none());
    assert!(Board::from_cells(vec![]).is_some());
}

#[test]
fn tile_value_check() {
    assert!(is_tile_value_exec(2));
    assert!(is_tile_value_exec(4));
    assert!(is_tile_value_exec(1 << 40));
    assert!(!is_tile_value_exec(0));
    assert!(!is_tile_value_exec(1));
    assert!(!is_tile_value_exec(6));
    assert!(!is_tile_value_exec(12));
}

#[test]
fn doubling_check() {
    assert!(board(vec![Some(2), None]).tiles_can_double());
    let big = 1usize << (usize::BITS - 1);
    assert!(!board(vec![Some(big)]).tiles_can_double());
    assert!(board(vec![Some(big >> 1)]).tiles_can_double());
}

#[test]
fn index_is_column_plus_row_times_width() {
    assert_eq!(pair_to_index(0, 0, 4), 0);
    assert_eq!(pair_to_index(2, 3, 4), 11);
    assert_eq!(pair_to_index(1, 0, 5), 5);
}

#[test]
fn new_game_is_four_by_four_in_the_menu() {
    let g = Game::new();
    assert_eq!(g.menu.width, 4);
    assert_eq!(g.menu.height, 4);
    assert_eq!(g.menu.width_input, "4");
    assert_eq!(g.menu.height_input, "4");
    assert!(!g.menu.start_pressed);
    assert!(!g.has_ended);
    assert_eq!(g.board.cells().len(), 16);
    assert_eq!(occupied(&g.board), 2);
}

#[test]
fn game_start_reset_and_play() {
    let mut g = Game::new();
    assert_eq!(g.start(3, 0), Err(BoardError::InvalidDimensions));
    assert!(!g.menu.start_pressed);
    assert_eq!(g.start(3, 2), Ok(()));
    assert!(g.menu.start_pressed);
    assert_eq!((g.menu.width, g.menu.height), (3, 2));
    assert_eq!(g.board.cells().len(), 6);
    assert_eq!(occupied(&g.board), 2);

    g.has_ended = true;
    assert_eq!(g.reset(), Ok(()));
    assert!(!g.has_ended);
    assert_eq!(occupied(&g.board), 2);

    let before = occupied(&g.board);
    g.play(Direction::Left);
    assert!(occupied(&g.board) <= before + 1);
}

#[test]
fn context_page_title() {
    assert_eq!(ContextPage::About.title(), "About");
    assert_eq!(ContextPage::default(), ContextPage::About);
}
