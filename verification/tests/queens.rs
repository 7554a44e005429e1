use backtrack::Config;
use backtrack::queen::QueensConfig;
use backtrack::solve;

#[test]
fn queen_is_valid() {
    let mut config = QueensConfig::new(8, 1, 0);

    assert!(config.is_valid(), "starting config is valid");

    config.map[0][0] = true;
    assert!(!config.is_valid(), "conflicting queens is invalid");

    config.map[0][0] = false;
    config.map[3][1] = true;
    assert!(config.is_valid(), "non-conflicting queens is valid");
}

#[test]
fn test_is_valid() {
    let mut config = QueensConfig::new(8, 1, 0);

    assert!(config.is_valid(), "starting config is valid");

    config.map[0][0] = true;
    assert!(!config.is_valid(), "conflicting queens is invalid");

    config.map[0][0] = false;
    config.map[3][1] = true;
    assert!(config.is_valid(), "non-conflicting queens is valid");
}

fn assert_full_solution(solution: &QueensConfig, n: usize) {
    assert_eq!(solution.map.len(), n);
    for r in 0..n {
        let mut count = 0;
        for c in 0..n {
            if solution.map[r][c] {
                count += 1;
            }
        }
        assert_eq!(count, 1, "every row holds exactly one queen");
    }
    for c in 0..n {
        let mut count = 0;
        for r in 0..n {
            if solution.map[r][c] {
                count += 1;
            }
        }
        assert_eq!(count, 1, "every column holds exactly one queen");
    }
    let mut queens: Vec<(usize, usize)> = Vec::new();
    for r in 0..n {
        for c in 0..n {
            if solution.map[r][c] {
                queens.push((r, c));
            }
        }
    }
    for i in 0..queens.len() {
        for j in 0..queens.len() {
            if i != j {
                let (r1, c1) = queens[i];
                let (r2, c2) = queens[j];
                assert_ne!(r1 + c1, r2 + c2, "no two queens share a rising diagonal");
                assert_ne!(
                    r1 as isize - c1 as isize,
                    r2 as isize - c2 as isize,
                    "no two queens share a falling diagonal"
                );
            }
        }
    }
}

#[test]
fn queens_eight_by_eight_solves() {
    let solution = solve(QueensConfig::new(8, 0, 0)).expect("an 8x8 board has a solution");
    assert!(solution.map[0][0], "the seeded queen stays on the board");
    assert!(solution.is_goal());
    assert_full_solution(&solution, 8);
}

#[test]
fn queens_larger_boards_solve() {
    // A full solution always has a queen in column 0; seeded from that
    // row, the search must find one. A corner seed can genuinely fail
    // (no 4x4 solution has a corner queen), so try every row.
    for n in [4usize, 5, 6, 7] {
        let mut solved = false;
        for row in 0..n {
            if let Some(solution) = solve(QueensConfig::new(n, row, 0)) {
                assert_full_solution(&solution, n);
                solved = true;
            }
        }
        assert!(solved, "boards of side four and up solve from some seed");
    }
}

#[test]
fn queens_small_boards_fail() {
    for n in [2usize, 3] {
        for row in 0..n {
            for col in 0..n {
                assert!(
                    solve(QueensConfig::new(n, row, col)).is_none(),
                    "sides two and three are unsolvable"
                );
            }
        }
    }
}

#[test]
fn queens_trivial_board_solves() {
    let solution = solve(QueensConfig::new(1, 0, 0)).expect("a single cell is its own solution");
    assert!(solution.map[0][0]);
}

#[test]
fn queens_checks_are_idempotent() {
    let config = QueensConfig::new(8, 2, 3);
    assert_eq!(config.is_valid(), config.is_valid());
    assert_eq!(config.is_goal(), config.is_goal());
    assert!(config.is_valid());
    assert!(!config.is_goal());
}

#[test]
fn queens_successors_advance_one_column() {
    let config = QueensConfig::new(8, 0, 0);
    let succs = config.successors();
    assert_eq!(succs.len(), 8, "one successor per row of the next column");
    for (row, succ) in succs.iter().enumerate() {
        assert_eq!(succ.row, row);
        assert_eq!(succ.col, 1);
        assert!(succ.map[row][1], "the new queen stands in the next column");
        assert!(succ.map[0][0], "the old queens are kept");
    }
}

#[test]
fn queens_wrap_blocked_by_used_column() {
    let mut config = QueensConfig::new(8, 0, 7);
    config.map[3][0] = true;
    assert!(
        config.successors().is_empty(),
        "no wrap to column 0 while it holds a queen"
    );

    let open_config = QueensConfig::new(8, 0, 7);
    let succs = open_config.successors();
    assert_eq!(succs.len(), 8, "with column 0 free the generation wraps to it");
    for (row, succ) in succs.iter().enumerate() {
        assert_eq!((succ.row, succ.col), (row, 0));
    }
}

#[test]
fn queens_render_shows_the_board() {
    let config = QueensConfig::new(2, 0, 0);
    let text: String = config.render().into_iter().collect();
    assert_eq!(text, "Q - \n- - \n");
}
