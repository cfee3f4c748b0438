use unequal::puzzle::nonadjacent_allowed;
use unequal::{LatinSquare, UnequalLatinSquare};

fn base(size: u8) -> LatinSquare {
    LatinSquare::base(size)
}

fn all_given(size: u8) -> UnequalLatinSquare {
    let ls = base(size);
    let n2 = size as usize * size as usize;
    let mut givens: Vec<usize> = Vec::new();
    let mut i: usize = 0;
    while i < n2 {
        givens.push(i);
        i += 1;
    }
    UnequalLatinSquare::with_givens(&ls, &givens)
}

#[test]
fn base_square_matches_known_values() {
    let ls = base(3);
    let expected = [[0u8, 1, 2], [1, 2, 0], [2, 0, 1]];
    for y in 0..3u8 {
        for x in 0..3u8 {
            assert_eq!(ls.square(x, y), expected[y as usize][x as usize]);
        }
    }
}

#[test]
fn random_square_is_latin() {
    let ls = LatinSquare::random(7);
    for y in 0..7u8 {
        let mut seen_row = [false; 7];
        let mut seen_col = [false; 7];
        for x in 0..7u8 {
            let rv = ls.square(x, y) as usize;
            let cv = ls.square(y, x) as usize;
            assert!(rv < 7 && cv < 7);
            assert!(!seen_row[rv], "value repeated in a row");
            assert!(!seen_col[cv], "value repeated in a column");
            seen_row[rv] = true;
            seen_col[cv] = true;
        }
        assert!(seen_row.iter().all(|&b| b));
        assert!(seen_col.iter().all(|&b| b));
    }
}

#[test]
fn adjacency_flags_of_base_three() {
    let p = UnequalLatinSquare::with_givens(&base(3), &vec![0]);
    // (0,0)=0 and (1,0)=1 differ by 1
    assert!(p.square_adjacents(0, 0).right);
    assert!(p.square_adjacents(1, 0).left);
    // (0,0)=0 and (0,1)=1 differ by 1
    assert!(p.square_adjacents(0, 0).below);
    assert!(p.square_adjacents(0, 1).above);
    // (1,0)=1 and (2,0)=2 differ by 1
    assert!(p.square_adjacents(1, 0).right);
    assert!(p.square_adjacents(2, 0).left);
    // border directions stay false
    assert!(!p.square_adjacents(0, 0).above);
    assert!(!p.square_adjacents(0, 0).left);
    assert!(!p.square_adjacents(2, 2).below);
    assert!(!p.square_adjacents(2, 2).right);
}

#[test]
fn adjacency_flags_are_symmetric() {
    let ls = LatinSquare::random(6);
    let p = UnequalLatinSquare::from_latin_square(ls);
    for y in 0..6u8 {
        for x in 0..6u8 {
            let a = p.square_adjacents(x, y);
            if x + 1 < 6 {
                assert_eq!(a.right, p.square_adjacents(x + 1, y).left);
            }
            if y + 1 < 6 {
                assert_eq!(a.below, p.square_adjacents(x, y + 1).above);
            }
        }
    }
}

#[test]
fn givens_get_singleton_masks() {
    let p = UnequalLatinSquare::with_givens(&base(3), &vec![0]);
    assert_eq!(p.square_bitmask(0, 0), 0b001);
    for y in 0..3u8 {
        for x in 0..3u8 {
            if (x, y) != (0, 0) {
                assert_eq!(p.square_bitmask(x, y), 0b111);
            }
        }
    }
}

#[test]
fn first_step_excludes_resolved_value_in_row_and_column() {
    let mut p = UnequalLatinSquare::with_givens(&base(3), &vec![0]);
    p.solve_step();
    for &(x, y) in &[(1u8, 0u8), (2, 0), (0, 1), (0, 2)] {
        assert_eq!(
            p.square_bitmask(x, y) & 1,
            0,
            "value 0 still possible at ({}, {})",
            x,
            y
        );
    }
    // the given cell keeps its value
    assert_eq!(p.square_bitmask(0, 0), 0b001);
}

#[test]
fn nonadjacent_rule_excludes_whole_window() {
    // a false flag toward a neighbor resolved to 1 rules out 0, 1 and 2
    let allowed = nonadjacent_allowed(0b010, 3);
    assert_eq!(allowed & 0b111, 0);
    // a cell holding {1, 2} is left with an empty mask, which must be
    // surfaced rather than treated as solved
    assert_eq!(0b110 & allowed, 0);
}

#[test]
fn nonadjacent_rule_keeps_far_values() {
    // neighbor resolved to 0 with a false flag: values 2.. stay possible
    let allowed = nonadjacent_allowed(0b001, 4);
    assert_eq!(allowed & 0b0001, 0);
    assert_eq!(allowed & 0b0010, 0);
    assert_ne!(allowed & 0b0100, 0);
    assert_ne!(allowed & 0b1000, 0);
}

#[test]
fn step_never_increases_candidate_counts() {
    let mut p = UnequalLatinSquare::with_givens(&base(5), &vec![0, 7, 13]);
    for _ in 0..20 {
        if p.solved() || !p.can_step() {
            break;
        }
        let before: Vec<u32> = collect_counts(&p, 5);
        p.solve_step();
        let after: Vec<u32> = collect_counts(&p, 5);
        for i in 0..before.len() {
            assert!(after[i] <= before[i], "candidate count grew at cell {}", i);
        }
    }
}

fn collect_counts(p: &UnequalLatinSquare, size: u8) -> Vec<u32> {
    let mut counts = Vec::new();
    for y in 0..size {
        for x in 0..size {
            counts.push(p.square_bitmask(x, y).count_ones());
        }
    }
    counts
}

#[test]
fn step_is_deterministic() {
    // two puzzles built the same way compute the same next masks
    let mut p1 = UnequalLatinSquare::with_givens(&base(4), &vec![0, 5]);
    let mut p2 = UnequalLatinSquare::with_givens(&base(4), &vec![0, 5]);
    p1.solve_step();
    p2.solve_step();
    for y in 0..4u8 {
        for x in 0..4u8 {
            assert_eq!(p1.square_bitmask(x, y), p2.square_bitmask(x, y));
        }
    }
}

#[test]
fn solved_accepts_full_grid_and_state_is_consistent() {
    let p = all_given(3);
    assert!(p.solved());
    // rows and columns hold each value exactly once, flags match values
    for y in 0..3u8 {
        for x in 0..3u8 {
            let v = p.square_value(x, y).unwrap();
            if x + 1 < 3 {
                let w = p.square_value(x + 1, y).unwrap();
                assert_ne!(v, w);
                let marked = p.square_adjacents(x, y).right;
                assert_eq!(marked, v + 1 == w || w + 1 == v);
            }
            if y + 1 < 3 {
                let w = p.square_value(x, y + 1).unwrap();
                assert_ne!(v, w);
                let marked = p.square_adjacents(x, y).below;
                assert_eq!(marked, v + 1 == w || w + 1 == v);
            }
        }
    }
}

#[test]
fn solved_rejects_open_and_empty_cells() {
    let p = UnequalLatinSquare::with_givens(&base(3), &vec![0]);
    assert!(!p.solved());
    // an empty mask is not passed off as solved
    let mut q = all_given(2);
    q.squares[3] = 0;
    assert!(!q.solved());
}

#[test]
fn square_value_and_possible() {
    let p = UnequalLatinSquare::with_givens(&base(3), &vec![0]);
    assert_eq!(p.square_value(0, 0), Some(0));
    assert_eq!(p.square_value(1, 0), None);
    assert_eq!(p.square_possible(0, 0), vec![0]);
    assert_eq!(p.square_possible(1, 0), vec![0, 1, 2]);
}

#[test]
fn can_step_tracks_snapshots() {
    let mut p = UnequalLatinSquare::with_givens(&base(3), &vec![0]);
    assert!(p.can_step());
    p.solve_step();
    // the first step made progress, so another step is allowed
    assert!(p.can_step());
}

#[test]
fn latin_square_pprint_two() {
    assert_eq!(base(2).pprint(), "01\n10\n");
}

#[test]
fn puzzle_pprint_two_all_given() {
    let p = all_given(2);
    let expected = "/---\\\n|1|2|\n|- -|\n|2|1|\n\\---/\n\n0,0 possible values: [1]\n1,0 possible values: [2]\n\n0,1 possible values: [2]\n1,1 possible values: [1]\n\n";
    assert_eq!(p.pprint(), expected);
}

#[test]
fn tatham_puzzle_id_two_all_given() {
    let p = all_given(2);
    assert_eq!(p.tatham_puzzle_id(), "2a:1DR,2DL,2UR,1UL,");
}

#[test]
fn tatham_save_two_all_given() {
    let p = all_given(2);
    let mut expected = String::new();
    expected.push_str("SAVEFILE:41:Simon Tatham's Portable Puzzle Collection\n");
    expected.push_str("VERSION :1:1\n");
    expected.push_str("GAME    :7:Unequal\n");
    expected.push_str("PARAMS  :4:2adk\n");
    expected.push_str("CPARAMS :4:2adk\n");
    expected.push_str("DESC    :16:1DR,2DL,2UR,1UL,\n");
    expected.push_str("NSTATES :1:2\n");
    expected.push_str("STATEPOS:1:2\n");
    expected.push_str("MOVE    :9:F1,1,2048\n");
    expected.push_str("MOVE    :9:F1,1,2048\n");
    assert_eq!(p.to_tatham_save(), expected);
}

#[test]
fn tatham_save_lists_open_candidates() {
    let p = UnequalLatinSquare::with_givens(&base(2), &vec![0, 1, 2]);
    let save = p.to_tatham_save();
    // cell (1,1) is the only open one, with candidates {0, 1} shown as 1, 2
    assert!(save.contains("MOVE    :6:P1,1,1\n"));
    assert!(save.contains("MOVE    :6:P1,1,2\n"));
    assert!(save.contains("NSTATES :1:4\n"));
}

#[test]
fn full_solve_of_nearly_complete_puzzle() {
    // three of four cells given: one step resolves the last cell
    let mut p = UnequalLatinSquare::with_givens(&base(2), &vec![0, 1, 2]);
    let mut steps = 0;
    while !p.solved() && p.can_step() && steps < 10 {
        p.solve_step();
        steps += 1;
    }
    assert!(p.solved());
    assert_eq!(p.square_value(1, 1), Some(0));
}

#[test]
fn from_latin_square_gives_one_to_five_clues() {
    let p = UnequalLatinSquare::from_latin_square(LatinSquare::random(5));
    let mut clues = 0;
    for y in 0..5u8 {
        for x in 0..5u8 {
            let n = p.square_possible(x, y).len();
            assert!(n == 1 || n == 5);
            if n == 1 {
                clues += 1;
            }
        }
    }
    assert!(1 <= clues && clues <= 5);
}
