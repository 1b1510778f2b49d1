use picross::board::Board;
use picross::hint::Hint;
use picross::solver::Picross;

fn hints(blocks: Vec<Vec<usize>>) -> Vec<Hint> {
    blocks.into_iter().map(Hint::new).collect()
}

fn grid(sol: &Board<bool>) -> Vec<Vec<bool>> {
    let mut rows = Vec::new();
    let mut y = 0;
    while y < sol.height() {
        rows.push(sol.row(y));
        y += 1;
    }
    rows
}

#[test]
fn one_by_one_filled() {
    let mut p = Picross::new(hints(vec![vec![1]]), hints(vec![vec![1]]));
    let sol = p.find_solution().expect("the single cell must be filled");
    assert_eq!(grid(&sol), vec![vec![true]]);
    assert_eq!(p.num_backtracks, 0);
    assert!(p.find_solution().is_none());
}

#[test]
fn two_by_two_has_two_diagonal_solutions() {
    let mut p = Picross::new(
        hints(vec![vec![1], vec![1]]),
        hints(vec![vec![1], vec![1]]),
    );
    let first = p.find_solution().expect("first diagonal");
    let second = p.find_solution().expect("second diagonal");
    assert!(p.find_solution().is_none());
    let a = grid(&first);
    let b = grid(&second);
    // the first guessed cell is explored filled-branch-first
    assert_eq!(a, vec![vec![true, false], vec![false, true]]);
    assert_eq!(b, vec![vec![false, true], vec![true, false]]);
}

#[test]
fn get_solutions_enumerates_all() {
    let mut p = Picross::new(
        hints(vec![vec![1], vec![1]]),
        hints(vec![vec![1], vec![1]]),
    );
    let sols = p.get_solutions();
    assert_eq!(sols.len(), 2);
    assert_ne!(grid(&sols[0]), grid(&sols[1]));
}

#[test]
fn rerunning_the_solve_gives_the_same_solutions_in_order() {
    let rows = vec![vec![1], vec![1]];
    let cols = vec![vec![1], vec![1]];
    let mut p1 = Picross::new(hints(rows.clone()), hints(cols.clone()));
    let mut p2 = Picross::new(hints(rows), hints(cols));
    let sols1: Vec<Vec<Vec<bool>>> = p1.get_solutions().iter().map(grid).collect();
    let sols2: Vec<Vec<Vec<bool>>> = p2.get_solutions().iter().map(grid).collect();
    assert_eq!(sols1, sols2);
}

#[test]
fn unsolvable_puzzle_yields_nothing() {
    // the row wants the cell filled, the column wants it blank
    let mut p = Picross::new(hints(vec![vec![1]]), hints(vec![vec![]]));
    assert!(p.find_solution().is_none());
    let mut q = Picross::new(hints(vec![vec![1]]), hints(vec![vec![]]));
    assert!(q.get_solutions().is_empty());
}

#[test]
fn solved_rows_and_columns_match_their_hints() {
    // a 5x5 picture solved purely by propagation
    let rows = vec![vec![5], vec![1, 1], vec![5], vec![1], vec![5]];
    let cols = vec![
        vec![3, 1],
        vec![1, 1, 1],
        vec![1, 1, 1],
        vec![1, 1, 1],
        vec![5],
    ];
    let mut p = Picross::new(hints(rows.clone()), hints(cols.clone()));
    let sol = p.find_solution().expect("this puzzle has a solution");
    let g = grid(&sol);
    for (y, row) in g.iter().enumerate() {
        assert!(Hint::new(rows[y].clone()).satisfies(row));
    }
    for (x, col) in cols.iter().enumerate() {
        let column: Vec<bool> = (0..g.len()).map(|y| g[y][x]).collect();
        assert!(Hint::new(col.clone()).satisfies(&column));
    }
    assert!(p.find_solution().is_none());
}

#[test]
fn guessing_puzzle_counts_branch_points() {
    let mut p = Picross::new(
        hints(vec![vec![1], vec![1]]),
        hints(vec![vec![1], vec![1]]),
    );
    assert_eq!(p.num_backtracks, 0);
    assert_eq!(p.branch_points(), 0);
    p.find_solution().expect("ambiguous puzzle still has solutions");
    assert!(p.num_backtracks > 0);
    assert_eq!(p.branch_points(), p.num_backtracks);
}

#[test]
fn three_by_three_permutation_grids_in_search_order() {
    // one filled cell per row and per column: all six placements, explored
    // depth-first with the filled branch first
    let mut p = Picross::new(
        hints(vec![vec![1], vec![1], vec![1]]),
        hints(vec![vec![1], vec![1], vec![1]]),
    );
    let sols: Vec<Vec<Vec<bool>>> = p.get_solutions().iter().map(grid).collect();
    let t = true;
    let f = false;
    let expected = vec![
        vec![vec![t, f, f], vec![f, t, f], vec![f, f, t]],
        vec![vec![t, f, f], vec![f, f, t], vec![f, t, f]],
        vec![vec![f, t, f], vec![t, f, f], vec![f, f, t]],
        vec![vec![f, t, f], vec![f, f, t], vec![t, f, f]],
        vec![vec![f, f, t], vec![t, f, f], vec![f, t, f]],
        vec![vec![f, f, t], vec![f, t, f], vec![t, f, f]],
    ];
    assert_eq!(sols, expected);
}

#[test]
fn five_by_five_solved_without_guessing() {
    let rows = vec![vec![3], vec![4], vec![3], vec![4], vec![4]];
    let cols = vec![vec![2, 1], vec![4], vec![5], vec![2, 2], vec![1, 1]];
    let mut p = Picross::new(hints(rows), hints(cols));
    let sol = p.find_solution().expect("unique solution");
    let t = true;
    let f = false;
    assert_eq!(
        grid(&sol),
        vec![
            vec![f, f, t, t, t],
            vec![t, t, t, t, f],
            vec![t, t, t, f, f],
            vec![f, t, t, t, t],
            vec![t, t, t, t, f],
        ]
    );
    assert_eq!(p.num_backtracks, 0);
    assert!(p.find_solution().is_none());
}

#[test]
fn four_by_four_enumeration_order() {
    let rows = vec![vec![1, 1], vec![2], vec![1], vec![1, 1]];
    let cols = vec![vec![1, 1], vec![1], vec![2], vec![1, 1]];
    let mut p = Picross::new(hints(rows), hints(cols));
    let sols: Vec<Vec<Vec<bool>>> = p.get_solutions().iter().map(grid).collect();
    let t = true;
    let f = false;
    let expected = vec![
        vec![vec![t, f, t, f], vec![f, f, t, t], vec![t, f, f, f], vec![f, t, f, t]],
        vec![vec![t, f, t, f], vec![f, f, t, t], vec![f, t, f, f], vec![t, f, f, t]],
        vec![vec![t, f, f, t], vec![f, t, t, f], vec![f, f, t, f], vec![t, f, f, t]],
    ];
    assert_eq!(sols, expected);
}

#[test]
fn fifteen_by_fifteen_picture() {
    let parse = |s: &str| -> Vec<Hint> {
        s.split(',')
            .map(|part| {
                Hint::new(
                    part.split_whitespace()
                        .map(|n| n.parse::<usize>().unwrap())
                        .collect(),
                )
            })
            .collect()
    };
    let rows = parse(
        "2 2, 3 4, 3 6, 3 7, 3 5, 3 3, 1 4, 2 3, 8, 4 3, 4 6, 4 4, 3 1 2, 3 2 2, 2 1 1",
    );
    let cols = parse(
        "2 2, 3 4, 3 6, 3 7, 3 5, 3 3, 1 4, 2 3, 8, 4 3, 4 6, 4 2 1, 3 3, 3 4, 2 1 2",
    );
    let mut p = Picross::new(rows, cols);
    let sol = p.find_solution().expect("the picture has a solution");
    let picture = [
        "XX...........XX",
        "XXX........XXXX",
        ".XXX....XXXXXX.",
        "..XXX.XXXXXXX..",
        "...XXX.XXXXX...",
        "....XXX.XXX....",
        "...X.XXXX......",
        "...XX.XXX......",
        "..XXXXXXXX.....",
        "..XXXX..XXX....",
        "..XXXX...XXXXXX",
        ".XXXX.....XXXX.",
        ".XXX......X.XX.",
        "XXX.......XX.XX",
        "XX........X...X",
    ];
    let expected: Vec<Vec<bool>> = picture
        .iter()
        .map(|row| row.chars().map(|c| c == 'X').collect())
        .collect();
    assert_eq!(grid(&sol), expected);
    assert_eq!(p.num_backtracks, 0);
    assert!(p.find_solution().is_none());
}
