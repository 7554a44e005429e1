use backtrack::Config;
use backtrack::solve;
use backtrack::trunks::Suitcase;
use backtrack::trunks::Trunk;

fn suitcase(name: char, width: usize, height: usize) -> Suitcase {
    Suitcase { width, height, name }
}

fn label_count(trunk: &Trunk, name: char) -> usize {
    let mut count = 0;
    for row in &trunk.grid {
        for cell in row {
            if *cell == name {
                count += 1;
            }
        }
    }
    count
}

#[test]
fn trunk_default_config_tiles_fully() {
    let trunk = Trunk::new(
        3,
        3,
        &[
            suitcase('A', 1, 3),
            suitcase('B', 2, 1),
            suitcase('C', 1, 2),
            suitcase('D', 1, 1),
            suitcase('E', 1, 1),
        ],
    );
    let solution = solve(trunk).expect("the default config fills the trunk");
    assert!(solution.is_goal());
    assert!(solution.suitcases_remaining.is_empty());
    assert_eq!(label_count(&solution, '-'), 0, "no empty cell remains");
    assert_eq!(label_count(&solution, 'A'), 3);
    assert_eq!(label_count(&solution, 'B'), 2);
    assert_eq!(label_count(&solution, 'C'), 2);
    assert_eq!(label_count(&solution, 'D'), 1);
    assert_eq!(label_count(&solution, 'E'), 1);
}

#[test]
fn trunk_oversized_load_has_no_solution() {
    let trunk = Trunk::new(2, 2, &[suitcase('A', 2, 2), suitcase('B', 1, 1)]);
    assert!(
        solve(trunk).is_none(),
        "items larger than the grid cannot be packed"
    );
}

#[test]
fn trunk_partial_cover_is_a_goal() {
    let trunk = Trunk::new(3, 3, &[suitcase('A', 2, 2), suitcase('B', 1, 1)]);
    let solution = solve(trunk).expect("five cells fit in nine");
    assert!(solution.is_goal(), "a goal may leave gaps");
    assert_eq!(label_count(&solution, 'A'), 4, "no two placed items overlap");
    assert_eq!(label_count(&solution, 'B'), 1);
    assert_eq!(label_count(&solution, '-'), 4);
}

#[test]
fn trunk_square_item_is_never_flipped() {
    let square = Trunk::new(2, 2, &[suitcase('S', 1, 1)]);
    assert_eq!(
        square.successors().len(),
        4,
        "one successor per cell, no rotated duplicates"
    );
    let tall = Trunk::new(2, 2, &[suitcase('T', 1, 2)]);
    assert_eq!(
        tall.successors().len(),
        4,
        "a non-square item is tried in both orientations"
    );
}

#[test]
fn trunk_items_sorted_ascending_stable() {
    let trunk = Trunk::new(
        4,
        4,
        &[
            suitcase('D', 1, 1),
            suitcase('A', 1, 3),
            suitcase('E', 1, 1),
            suitcase('C', 1, 2),
        ],
    );
    let names: Vec<char> = trunk.suitcases_remaining.iter().map(|s| s.name).collect();
    assert_eq!(
        names,
        vec!['D', 'E', 'C', 'A'],
        "ascending by area, equal areas in input order"
    );
}

#[test]
fn trunk_checks_are_idempotent() {
    let trunk = Trunk::new(2, 2, &[suitcase('A', 1, 1)]);
    assert_eq!(trunk.is_goal(), trunk.is_goal());
    assert_eq!(trunk.is_valid(), trunk.is_valid());
    assert!(trunk.is_valid(), "a trunk state is always valid");
    assert!(!trunk.is_goal());
}

#[test]
fn trunk_without_items_is_already_solved() {
    let trunk = Trunk::new(2, 2, &[]);
    assert!(trunk.is_goal());
    let solution = solve(trunk).expect("nothing to place");
    assert_eq!(label_count(&solution, '-'), 4);
}

#[test]
fn trunk_render_shows_labels() {
    let trunk = Trunk::new(2, 1, &[suitcase('A', 2, 1)]);
    let solution = solve(trunk).expect("one wide item fills the row");
    let text: String = solution.render().into_iter().collect();
    assert_eq!(text, "AA\n");
}

#[test]
fn trunk_exact_fit_fills_the_grid() {
    let trunk = Trunk::new(2, 2, &[suitcase('A', 2, 2)]);
    assert_eq!(trunk.successors().len(), 1, "only the top-left corner fits");
    let solution = solve(trunk).expect("the item fills the grid exactly");
    let text: String = solution.render().into_iter().collect();
    assert_eq!(text, "AA\nAA\n");
}

#[test]
fn trunk_rotation_enables_a_fit() {
    let trunk = Trunk::new(3, 1, &[suitcase('R', 1, 3)]);
    let solution = solve(trunk).expect("the item fits only rotated");
    assert_eq!(label_count(&solution, 'R'), 3);
    assert_eq!(label_count(&solution, '-'), 0);
}

#[test]
fn trunk_first_solution_follows_scan_order() {
    let trunk = Trunk::new(2, 1, &[suitcase('X', 1, 1), suitcase('Y', 1, 1)]);
    let solution = solve(trunk).expect("two unit items fill two cells");
    assert_eq!(
        solution.grid,
        vec![vec!['Y', 'X']],
        "the later of two equal-area items is placed first, at the first free cell"
    );
}
