use nonogram_bits::board::{col_diff, generate_board, get_bad_cols, get_bad_rows, Board};
use nonogram_bits::encode::row_as_nums;
use nonogram_bits::random::{Lcg, DEFAULT_SEED};
use nonogram_bits::solver::{choose_repair_target, fix_col, fix_row, improvement, play, SolveState};

fn column(board: &Board, c: usize) -> Vec<bool> {
    board.iter().map(|row| row[c]).collect()
}

fn signatures_of(truth: &Board) -> (Vec<Vec<usize>>, Vec<Vec<usize>>) {
    let rows = truth.iter().map(|r| row_as_nums(r)).collect();
    let cols = (0..truth[0].len()).map(|c| row_as_nums(&column(truth, c))).collect();
    (rows, cols)
}

fn parse(lines: &[&str]) -> Board {
    lines.iter().map(|l| l.chars().map(|c| c == '#').collect()).collect()
}

#[test]
fn generator_follows_the_linear_congruence() {
    let mut rng = Lcg::new(DEFAULT_SEED);
    assert_eq!(rng.next_random(), 231794730);
    assert_eq!(rng.next_random(), 1126946331);
    assert_eq!(rng.next_random(), 1757975480);
}

#[test]
fn generated_board_has_the_requested_shape() {
    let mut rng = Lcg::new(DEFAULT_SEED);
    let board = generate_board(2, 3, &mut rng);
    assert_eq!(board.len(), 2);
    assert!(board.iter().all(|r| r.len() == 3));
    let mut again = Lcg::new(DEFAULT_SEED);
    let first = again.next_random();
    assert_eq!(board[0][0], first % 2 == 0);
    assert_eq!(board[0][1], again.next_random() % 2 == 0);
}

#[test]
fn single_cell_converges_to_filled() {
    let mut board = vec![vec![false]];
    let mut rng = Lcg::new(DEFAULT_SEED);
    let state = play(&mut board, &vec![vec![1]], &vec![vec![1]], &mut rng, 10);
    assert_eq!(state, SolveState::Converged);
    assert_eq!(board, vec![vec![true]]);
}

#[test]
fn single_cell_from_generated_board() {
    let mut rng = Lcg::new(DEFAULT_SEED);
    let mut board = generate_board(1, 1, &mut rng);
    let state = play(&mut board, &vec![vec![1]], &vec![vec![1]], &mut rng, 10);
    assert_eq!(state, SolveState::Converged);
    assert_eq!(board, vec![vec![true]]);
}

#[test]
fn consistent_puzzle_converges_to_matching_board() {
    let truth = parse(&["#.##.", "###..", "..#.#", ".####", "#...#"]);
    let (rows, cols) = signatures_of(&truth);
    let mut rng = Lcg::new(DEFAULT_SEED);
    let mut board = generate_board(5, 5, &mut rng);
    let state = play(&mut board, &rows, &cols, &mut rng, 100_000);
    assert_eq!(state, SolveState::Converged);
    assert!(get_bad_rows(&board, &rows).is_empty());
    assert!(get_bad_cols(&board, &cols).is_empty());
    let (got_rows, got_cols) = signatures_of(&board);
    assert_eq!(got_rows, rows);
    assert_eq!(got_cols, cols);
}

#[test]
fn three_by_three_puzzle_converges() {
    let truth = parse(&["##.", ".##", "#.#"]);
    let (rows, cols) = signatures_of(&truth);
    let mut rng = Lcg::new(DEFAULT_SEED);
    let mut board = generate_board(3, 3, &mut rng);
    assert_eq!(play(&mut board, &rows, &cols, &mut rng, 1000), SolveState::Converged);
    assert_eq!(board, truth);
}

#[test]
fn solved_board_is_left_alone() {
    let mut board = parse(&["#.", ".#"]);
    let targets = vec![vec![1], vec![1]];
    let mut rng = Lcg::new(5);
    let state = play(&mut board, &targets, &targets, &mut rng, 10);
    assert_eq!(state, SolveState::Converged);
    assert_eq!(board, parse(&["#.", ".#"]));
    // no number was drawn
    let mut fresh = Lcg::new(5);
    assert_eq!(rng.next_random(), fresh.next_random());
}

#[test]
fn zero_budget_does_nothing() {
    let mut board = parse(&["..", ".."]);
    let targets = vec![vec![1], vec![1]];
    let mut rng = Lcg::new(5);
    assert_eq!(play(&mut board, &targets, &targets, &mut rng, 0), SolveState::Searching);
    assert_eq!(board, parse(&["..", ".."]));
}

#[test]
fn bad_lines_are_listed_in_order() {
    let board = parse(&["#..", "...", "###"]);
    let rows = vec![vec![1], vec![1], vec![3]];
    let cols = vec![vec![2], vec![1], vec![1]];
    assert_eq!(get_bad_rows(&board, &rows), vec![1]);
    assert_eq!(get_bad_cols(&board, &cols), vec![0]);
}

#[test]
fn column_penalty() {
    let board = parse(&["#.", "#.", ".#"]);
    assert_eq!(col_diff(&board, 0, &vec![2]), 0);
    assert_eq!(col_diff(&board, 0, &vec![1, 1]), 2);
    assert_eq!(col_diff(&board, 1, &vec![3]), 4);
}

#[test]
fn improvement_measures_without_changing_the_board() {
    let mut board = parse(&["..", ".."]);
    // flipping (0, 0) turns both its row and its column from [] into [1]
    let imp = improvement(&mut board, 0, 0, &vec![1], &vec![1]);
    assert_eq!(imp, 2);
    assert_eq!(board, parse(&["..", ".."]));
    let worse = improvement(&mut board, 0, 1, &vec![], &vec![]);
    assert_eq!(worse, -2);
}

#[test]
fn override_choice_follows_the_draws() {
    // with a chance of a thousand in a thousand the second draw decides
    let mut rng = Lcg::new(DEFAULT_SEED);
    let pick = choose_repair_target(&mut rng, 0, 7, 1000);
    assert_eq!(pick, 1126946331 % 7);
    // with no chance the default stands and one number is drawn
    let mut rng = Lcg::new(DEFAULT_SEED);
    assert_eq!(choose_repair_target(&mut rng, 3, 7, 0), 3);
    assert_eq!(rng.next_random(), 1126946331);
}

#[test]
fn row_repair_flips_one_cell_of_the_row() {
    let mut board = parse(&["..", ".."]);
    let rows = vec![vec![1], vec![]];
    let cols = vec![vec![1], vec![]];
    let mut rng = Lcg::new(DEFAULT_SEED);
    fix_row(&mut board, 0, &rows, &cols, &mut rng);
    assert_eq!(board, parse(&["#.", ".."]));
}

#[test]
fn column_repair_flips_one_cell_of_the_column() {
    let mut board = parse(&["..", ".."]);
    let rows = vec![vec![], vec![1]];
    let cols = vec![vec![], vec![1]];
    let mut rng = Lcg::new(DEFAULT_SEED);
    fix_col(&mut board, 1, &rows, &cols, &mut rng);
    assert_eq!(board, parse(&["..", ".#"]));
}
