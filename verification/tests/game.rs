use tetris::catalog::TetriminoTypes;
use tetris::game::{empty_row, Tetris, LEVEL_LINES, LEVEL_TIMES};

fn empty_map() -> Vec<Vec<u8>> {
    vec![vec![0u8; 10]; 16]
}

fn with_piece(kind: TetriminoTypes, state: u8, x: isize, y: usize) -> Tetris {
    let mut tetris = Tetris::new();
    let mut piece = kind.generate();
    piece.current_state = state;
    piece.x = x;
    piece.y = y;
    tetris.current_piece = Some(piece);
    tetris
}

#[test]
fn new_game_starts_empty() {
    let tetris = Tetris::new();
    assert_eq!(tetris.game_map, empty_map());
    assert_eq!(tetris.current_level, 1);
    assert_eq!(tetris.score, 0);
    assert_eq!(tetris.nb_lines, 0);
    assert!(tetris.current_piece.is_none());
    assert!(tetris.last_piece.is_none());
}

#[test]
fn empty_row_has_ten_empty_cells() {
    assert_eq!(empty_row(), vec![0u8; 10]);
}

#[test]
fn level_tables_hold_ten_entries() {
    assert_eq!(LEVEL_TIMES, [1000, 850, 700, 600, 500, 400, 300, 250, 221, 190]);
    assert_eq!(LEVEL_LINES, [20, 40, 60, 80, 100, 120, 140, 160, 180, 200]);
}

#[test]
fn update_score_adds() {
    let mut tetris = Tetris::new();
    tetris.update_score(7);
    tetris.update_score(0);
    tetris.update_score(35);
    assert_eq!(tetris.score, 42);
}

#[test]
fn write_cell_sets_one_cell() {
    let mut tetris = Tetris::new();
    tetris.write_cell(3, 12, 6);
    let mut expected = empty_map();
    expected[12][3] = 6;
    assert_eq!(tetris.game_map, expected);
}

#[test]
fn increase_line_goes_up_a_level_past_the_threshold() {
    let mut tetris = Tetris::new();
    tetris.nb_lines = 19;
    tetris.increase_line();
    assert_eq!((tetris.nb_lines, tetris.current_level), (20, 1));
    tetris.increase_line();
    assert_eq!((tetris.nb_lines, tetris.current_level), (21, 2));
    tetris.increase_line();
    assert_eq!((tetris.nb_lines, tetris.current_level), (22, 2));
}

#[test]
fn increase_line_follows_the_table_at_every_level() {
    for level in 1..10u32 {
        let mut tetris = Tetris::new();
        tetris.current_level = level;
        tetris.nb_lines = 20 * level - 1;
        tetris.increase_line();
        assert_eq!(tetris.current_level, level);
        tetris.increase_line();
        assert_eq!(tetris.current_level, level + 1);
    }
}

#[test]
fn the_last_level_is_never_left() {
    let mut tetris = Tetris::new();
    tetris.current_level = 10;
    tetris.nb_lines = 200;
    tetris.increase_line();
    assert_eq!((tetris.nb_lines, tetris.current_level), (201, 10));
    tetris.nb_lines = 4000;
    tetris.increase_line();
    assert_eq!((tetris.nb_lines, tetris.current_level), (4001, 10));
}

#[test]
fn locking_a_square_on_an_empty_board() {
    let mut tetris = with_piece(TetriminoTypes::TetriminoO, 0, 4, 0);
    tetris.make_permanent();
    let mut expected = empty_map();
    expected[0][4] = 4;
    expected[0][5] = 4;
    expected[1][4] = 4;
    expected[1][5] = 4;
    assert_eq!(tetris.game_map, expected);
    let filled: usize =
        tetris.game_map.iter().map(|row| row.iter().filter(|c| **c != 0).count()).sum();
    assert_eq!(filled, 4);
    assert_eq!(tetris.score, 1);
    assert_eq!(tetris.nb_lines, 0);
    assert_eq!(tetris.current_level, 1);
    assert!(tetris.current_piece.is_none());
}

#[test]
fn locking_scores_the_current_level() {
    let mut tetris = with_piece(TetriminoTypes::TetriminoO, 0, 4, 14);
    tetris.current_level = 7;
    tetris.nb_lines = 130;
    tetris.score = 100;
    tetris.make_permanent();
    assert_eq!(tetris.score, 107);
    assert_eq!(tetris.nb_lines, 130);
    assert_eq!(tetris.current_level, 7);
}

#[test]
fn completing_a_row_clears_it() {
    let mut tetris = with_piece(TetriminoTypes::TetriminoI, 1, 8, 12);
    for x in 0..9 {
        tetris.game_map[15][x] = 2;
    }
    tetris.game_map[14][0] = 5;
    tetris.make_permanent();
    let mut expected = empty_map();
    expected[13][9] = 1;
    expected[14][9] = 1;
    expected[15][9] = 1;
    expected[15][0] = 5;
    assert_eq!(tetris.game_map, expected);
    assert_eq!(tetris.game_map.len(), 16);
    assert_eq!(tetris.game_map[0], vec![0u8; 10]);
    assert_eq!(tetris.score, 2);
    assert_eq!(tetris.nb_lines, 1);
    assert_eq!(tetris.current_level, 1);
    assert!(tetris.current_piece.is_none());
}

#[test]
fn locking_without_a_piece_only_clears() {
    let mut tetris = Tetris::new();
    tetris.game_map[15] = vec![3u8; 10];
    tetris.game_map[14][2] = 1;
    tetris.make_permanent();
    let mut expected = empty_map();
    expected[15][2] = 1;
    assert_eq!(tetris.game_map, expected);
    assert_eq!(tetris.score, 1);
    assert_eq!(tetris.nb_lines, 1);
}

#[test]
fn cells_outside_the_board_are_not_written() {
    let mut tetris = with_piece(TetriminoTypes::TetriminoI, 0, 8, 3);
    tetris.make_permanent();
    let mut expected = empty_map();
    expected[3][8] = 1;
    expected[3][9] = 1;
    assert_eq!(tetris.game_map, expected);
    assert_eq!(tetris.score, 1);

    let mut left = with_piece(TetriminoTypes::TetriminoI, 0, -2, 3);
    left.make_permanent();
    let mut expected = empty_map();
    expected[3][0] = 1;
    expected[3][1] = 1;
    assert_eq!(left.game_map, expected);

    let mut low = with_piece(TetriminoTypes::TetriminoI, 1, 4, 14);
    low.make_permanent();
    let mut expected = empty_map();
    expected[14][5] = 1;
    expected[15][5] = 1;
    assert_eq!(low.game_map, expected);

    let mut far = with_piece(TetriminoTypes::TetriminoI, 0, 40, 30);
    far.make_permanent();
    assert_eq!(far.game_map, empty_map());
    assert_eq!(far.score, 1);
}

#[test]
fn check_lines_keeps_the_other_rows_in_order() {
    let mut tetris = Tetris::new();
    tetris.game_map[3][1] = 1;
    tetris.game_map[7] = vec![2u8; 10];
    tetris.game_map[9][4] = 3;
    tetris.game_map[10] = vec![4u8; 10];
    tetris.game_map[11] = vec![5u8; 10];
    tetris.game_map[15][9] = 6;
    tetris.check_lines();
    let mut expected = empty_map();
    expected[6][1] = 1;
    expected[11][4] = 3;
    expected[15][9] = 6;
    assert_eq!(tetris.game_map, expected);
    assert_eq!(tetris.score, 3);
    assert_eq!(tetris.nb_lines, 3);
    assert_eq!(tetris.current_level, 1);
}

#[test]
fn check_lines_on_a_board_without_full_rows_changes_nothing() {
    let mut tetris = Tetris::new();
    for x in 0..9 {
        tetris.game_map[15][x] = 1;
    }
    let before = tetris.game_map.clone();
    tetris.check_lines();
    assert_eq!(tetris.game_map, before);
    assert_eq!(tetris.score, 0);
    assert_eq!(tetris.nb_lines, 0);
}

#[test]
fn cleared_rows_score_the_level_before_the_clear() {
    let mut tetris = Tetris::new();
    tetris.nb_lines = 19;
    tetris.game_map[14] = vec![1u8; 10];
    tetris.game_map[15] = vec![1u8; 10];
    tetris.check_lines();
    assert_eq!(tetris.score, 2);
    assert_eq!(tetris.nb_lines, 21);
    assert_eq!(tetris.current_level, 2);

    let mut later = Tetris::new();
    later.current_level = 3;
    later.nb_lines = 60;
    later.score = 10;
    later.game_map[15] = vec![7u8; 10];
    later.check_lines();
    assert_eq!(later.score, 13);
    assert_eq!(later.nb_lines, 61);
    assert_eq!(later.current_level, 4);
}

#[test]
fn clearing_the_whole_board_brings_the_bonus() {
    let mut tetris = Tetris::new();
    tetris.game_map = vec![vec![1u8; 10]; 16];
    tetris.check_lines();
    assert_eq!(tetris.game_map, empty_map());
    assert_eq!(tetris.score, 16 + 1000);
    assert_eq!(tetris.nb_lines, 16);
    assert_eq!(tetris.current_level, 1);

    let mut later = Tetris::new();
    later.current_level = 2;
    later.nb_lines = 30;
    later.game_map = vec![vec![1u8; 10]; 16];
    later.check_lines();
    assert_eq!(later.score, 2 * 16 + 1000);
    assert_eq!(later.nb_lines, 46);
    assert_eq!(later.current_level, 3);
}

#[test]
fn the_board_keeps_its_shape_through_locks() {
    let mut tetris = Tetris::new();
    let kinds = [
        TetriminoTypes::TetriminoS,
        TetriminoTypes::TetriminoT,
        TetriminoTypes::TetriminoZ,
        TetriminoTypes::TetriminoJ,
        TetriminoTypes::TetriminoL,
        TetriminoTypes::TetriminoI,
        TetriminoTypes::TetriminoO,
    ];
    let mut score = 0;
    let mut lines = 0;
    let mut level = 1;
    for round in 0..40usize {
        let mut piece = kinds[round % 7].generate();
        piece.x = (round * 3 % 9) as isize - 1;
        piece.drop_down(&tetris.game_map);
        tetris.current_piece = Some(piece);
        tetris.make_permanent();
        assert_eq!(tetris.game_map.len(), 16);
        for row in &tetris.game_map {
            assert_eq!(row.len(), 10);
            assert!(row.iter().all(|cell| *cell <= 7));
        }
        assert!(tetris.score >= score);
        assert!(tetris.nb_lines >= lines);
        assert!(tetris.current_level >= level);
        score = tetris.score;
        lines = tetris.nb_lines;
        level = tetris.current_level;
    }
}

#[test]
fn clearing_the_board_alone_leaves_the_counters() {
    let mut tetris = Tetris::new();
    tetris.score = u32::MAX;
    tetris.nb_lines = u32::MAX;
    tetris.current_level = 9;
    tetris.game_map[2][3] = 7;
    tetris.game_map[4] = vec![1u8; 10];
    tetris.game_map[5][0] = 2;
    tetris.game_map[15] = vec![3u8; 10];
    assert_eq!(tetris.clear_full_rows_and_compact(), 2);
    let mut expected = empty_map();
    expected[4][3] = 7;
    expected[6][0] = 2;
    assert_eq!(tetris.game_map, expected);
    assert_eq!((tetris.score, tetris.nb_lines, tetris.current_level), (u32::MAX, u32::MAX, 9));
    assert_eq!(tetris.clear_full_rows_and_compact(), 0);
    assert_eq!(tetris.game_map, expected);
    tetris.game_map = vec![vec![5u8; 10]; 16];
    assert_eq!(tetris.clear_full_rows_and_compact(), 16);
    assert_eq!(tetris.game_map, empty_map());
}

#[test]
fn writing_a_piece_alone_leaves_the_counters() {
    let mut tetris = Tetris::new();
    tetris.score = u32::MAX;
    tetris.nb_lines = u32::MAX;
    tetris.game_map[15] = vec![1u8; 10];
    let mut piece = TetriminoTypes::TetriminoZ.generate();
    piece.x = 8;
    piece.y = 13;
    tetris.write_piece(&piece);
    let mut expected = empty_map();
    expected[15] = vec![1u8; 10];
    expected[13][8] = 7;
    expected[13][9] = 7;
    expected[14][9] = 7;
    assert_eq!(tetris.game_map, expected);
    assert_eq!((tetris.score, tetris.nb_lines, tetris.current_level), (u32::MAX, u32::MAX, 1));
    assert!(tetris.current_piece.is_none());
}

#[test]
fn a_game_knows_whether_it_is_well_formed() {
    let mut tetris = with_piece(TetriminoTypes::TetriminoJ, 3, -40, 90);
    assert!(tetris.is_well_formed());
    tetris.game_map[15][9] = 8;
    assert!(!tetris.is_well_formed());
    tetris.game_map[15][9] = 7;
    assert!(tetris.is_well_formed());
    tetris.game_map[3].push(0);
    assert!(!tetris.is_well_formed());
    tetris.game_map[3].pop();
    tetris.game_map.pop();
    assert!(!tetris.is_well_formed());
    tetris.game_map.push(vec![0u8; 10]);
    assert!(tetris.is_well_formed());
    tetris.current_level = 0;
    assert!(!tetris.is_well_formed());
    tetris.current_level = 11;
    assert!(!tetris.is_well_formed());
    tetris.current_level = 10;
    assert!(tetris.is_well_formed());
    tetris.current_piece.as_mut().unwrap().current_state = 4;
    assert!(!tetris.is_well_formed());
}
