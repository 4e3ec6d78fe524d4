use board_puzzles::queens::{is_valid, search};

/// All the boards of eight queens of which none attacks another.
fn peaceful_boards() -> Vec<Vec<usize>> {
    let mut boards = Vec::new();
    let mut row = vec![0usize; 8];
    place(&mut row, 0, &mut boards);
    boards
}

fn place(row: &mut Vec<usize>, r: usize, boards: &mut Vec<Vec<usize>>) {
    if r == 8 {
        boards.push(row.clone());
        return;
    }
    for c in 0..8 {
        let mut free = true;
        for i in 0..r {
            let across = if row[i] > c { row[i] - c } else { c - row[i] };
            if across == 0 || across == r - i {
                free = false;
            }
        }
        if free {
            row[r] = c;
            place(row, r + 1, boards);
        }
    }
}

/// The least number of rows from `r` downward in which a peaceful board with the same
/// queens above row `r` differs from `queens`.
fn least_by_listing(prefix: &[usize], queens: &[usize], r: usize) -> usize {
    let mut least = usize::MAX;
    for board in peaceful_boards() {
        if board[..r] == prefix[..r] {
            let moved = (r..8).filter(|&j| board[j] != queens[j]).count();
            if moved < least {
                least = moved;
            }
        }
    }
    least
}

#[test]
fn first_row_is_always_free() {
    assert!(is_valid(&[], 0, 5));
    assert!(is_valid(&[7, 7, 7], 0, 7));
}

#[test]
fn same_column_is_attacked() {
    assert!(!is_valid(&[3], 1, 3));
    assert!(!is_valid(&[0, 4, 7], 3, 0));
}

#[test]
fn diagonals_are_attacked() {
    assert!(!is_valid(&[0], 1, 1));
    assert!(!is_valid(&[4], 1, 3));
    assert!(!is_valid(&[0, 4], 2, 2));
    assert!(!is_valid(&[7, 0], 7, 0));
}

#[test]
fn free_squares_are_valid() {
    assert!(is_valid(&[0, 4], 2, 7));
    assert!(is_valid(&[0], 1, 2));
    assert!(is_valid(&[0, 4, 7, 5, 2, 6, 1], 7, 3));
}

#[test]
fn only_rows_above_count() {
    assert!(is_valid(&[0, 4, 4, 4], 1, 4));
    assert!(is_valid(&[0], 5, 6));
    assert!(!is_valid(&[0], 5, 5));
}

#[test]
fn there_are_ninety_two_peaceful_boards() {
    assert_eq!(peaceful_boards().len(), 92);
}

#[test]
fn a_peaceful_board_needs_no_move() {
    let queens = vec![0, 4, 7, 5, 2, 6, 1, 3];
    let mut row = queens.clone();
    assert_eq!(search(&mut row, &queens, 0), 0);
}

#[test]
fn one_misplaced_queen_needs_one_move() {
    let queens = vec![0, 4, 7, 5, 2, 6, 1, 4];
    let mut row = queens.clone();
    assert_eq!(search(&mut row, &queens, 0), 1);
}

#[test]
fn queens_in_a_line_need_seven_moves() {
    let queens = vec![0, 0, 0, 0, 0, 0, 0, 0];
    let mut row = queens.clone();
    assert_eq!(search(&mut row, &queens, 0), 7);
    let queens = vec![0, 1, 2, 3, 4, 5, 6, 7];
    let mut row = queens.clone();
    assert_eq!(search(&mut row, &queens, 0), 7);
}

#[test]
fn search_agrees_with_listing_all_boards() {
    let cases: [[usize; 8]; 6] = [
        [0, 4, 7, 5, 2, 6, 1, 3],
        [1, 2, 3, 4, 5, 6, 7, 8],
        [1, 1, 1, 1, 1, 1, 1, 1],
        [3, 1, 6, 2, 5, 7, 4, 0],
        [7, 6, 5, 4, 3, 2, 1, 0],
        [2, 5, 1, 6, 0, 3, 7, 4],
    ];
    for queens in cases {
        let mut row = queens.to_vec();
        assert_eq!(search(&mut row, &queens, 0), least_by_listing(&queens, &queens, 0));
    }
}

#[test]
fn search_from_a_lower_row_keeps_the_rows_above() {
    let queens = vec![0, 4, 7, 5, 1, 1, 1, 1];
    let mut row = queens.clone();
    let least = search(&mut row, &queens, 4);
    assert_eq!(least, least_by_listing(&queens, &queens, 4));
    assert_eq!(least, 3);
    assert_eq!(row[..4], queens[..4]);
    assert_eq!(row.len(), 8);
}

#[test]
fn search_at_the_last_row_counts_nothing() {
    let queens = vec![0, 0, 0, 0, 0, 0, 0, 0];
    let mut row = queens.clone();
    assert_eq!(search(&mut row, &queens, 8), 0);
    assert_eq!(row, queens);
}

#[test]
fn search_gives_max_where_no_square_is_free() {
    let queens = vec![0, 1, 2, 3, 4, 5, 6, 0];
    let mut row = queens.clone();
    assert_eq!(search(&mut row, &queens, 7), usize::MAX);
    let queens = vec![0, 2, 0, 0, 0, 0, 0, 0];
    let mut row = queens.clone();
    assert_eq!(search(&mut row, &queens, 2), least_by_listing(&queens, &queens, 2));
}

#[test]
fn search_leaves_the_last_placements_in_the_working_rows() {
    let queens = vec![0, 4, 7, 5, 2, 6, 1, 3];
    let mut row = queens.clone();
    assert_eq!(search(&mut row, &queens, 0), 0);
    assert_eq!(row, vec![7, 5, 3, 6, 4, 4, 2, 4]);
    let queens = vec![0, 4, 7, 5, 1, 1, 1, 1];
    let mut row = queens.clone();
    assert_eq!(search(&mut row, &queens, 4), 3);
    assert_eq!(row, vec![0, 4, 7, 5, 3, 6, 1, 3]);
    let queens = vec![0, 2, 0, 0, 0, 0, 0, 0];
    let mut row = queens.clone();
    assert_eq!(search(&mut row, &queens, 2), usize::MAX);
    assert_eq!(row, vec![0, 2, 7, 5, 3, 1, 4, 0]);
}

#[test]
fn queens_numbered_from_one_are_compared_as_they_stand() {
    let queens = vec![1, 2, 3, 4, 5, 6, 7, 8];
    let mut row = queens.clone();
    assert_eq!(search(&mut row, &queens, 0), 7);
}

#[test]
fn longer_rows_keep_what_lies_beyond_the_board() {
    let queens = vec![0, 4, 7, 5, 2, 6, 1, 3, 9, 9];
    let mut row = vec![0, 4, 7, 5, 2, 6, 1, 3, 11, 12];
    assert_eq!(search(&mut row, &queens, 0), 0);
    assert_eq!(row.len(), 10);
    assert_eq!(row[8..], [11, 12]);
}

#[test]
fn search_at_the_last_row_reads_nothing() {
    let queens: Vec<usize> = vec![];
    let mut row: Vec<usize> = vec![];
    assert_eq!(search(&mut row, &queens, 8), 0);
    assert_eq!(row, Vec::<usize>::new());
    let mut row = vec![3, 1];
    assert_eq!(search(&mut row, &[5], 8), 0);
    assert_eq!(row, vec![3, 1]);
}
