use picross::hint::{overlay, perm_matches, sum_perms, Hint};

#[test]
fn basic_perms() {
    let h = Hint::new(vec![3]);
    let empty: Vec<Vec<bool>> = vec![];
    assert_eq!(h.permutations(0), empty);
    assert_eq!(h.permutations(1), empty);
    assert_eq!(h.permutations(2), empty);
    assert_eq!(h.permutations(3), vec![vec![true, true, true]]);
    assert_eq!(
        h.permutations(4),
        vec![vec![true, true, true, false], vec![false, true, true, true]]
    );
    assert_eq!(
        h.permutations(5),
        vec![
            vec![true, true, true, false, false],
            vec![false, true, true, true, false],
            vec![false, false, true, true, true]
        ]
    );
    assert_eq!(
        h.permutations(6),
        vec![
            vec![true, true, true, false, false, false],
            vec![false, true, true, true, false, false],
            vec![false, false, true, true, true, false],
            vec![false, false, false, true, true, true]
        ]
    );
}

#[test]
fn two_line_perms() {
    let h = Hint::new(vec![2, 3]);
    let empty: Vec<Vec<bool>> = vec![];
    assert_eq!(h.permutations(5), empty);
    assert_eq!(
        h.permutations(6),
        vec![vec![true, true, false, true, true, true]]
    );
    assert_eq!(
        h.permutations(7),
        vec![
            vec![true, true, false, true, true, true, false],
            vec![true, true, false, false, true, true, true],
            vec![false, true, true, false, true, true, true]
        ]
    );
    assert_eq!(
        h.permutations(8),
        vec![
            vec![true, true, false, true, true, true, false, false],
            vec![true, true, false, false, true, true, true, false],
            vec![true, true, false, false, false, true, true, true],
            vec![false, true, true, false, true, true, true, false],
            vec![false, true, true, false, false, true, true, true],
            vec![false, false, true, true, false, true, true, true]
        ]
    );
}

#[test]
fn basic_progress() {
    let h = Hint::new(vec![3]);
    let section: Vec<Option<bool>> = vec![None; 6];
    let first3: Vec<Option<bool>> = section[..3].to_vec();
    let first4: Vec<Option<bool>> = section[..4].to_vec();
    let first5: Vec<Option<bool>> = section[..5].to_vec();
    assert_eq!(
        h.brute_progress(&first3).unwrap(),
        vec![Some(true), Some(true), Some(true)]
    );
    assert_eq!(
        h.brute_progress(&first4).unwrap(),
        vec![None, Some(true), Some(true), None]
    );
    assert_eq!(
        h.brute_progress(&first5).unwrap(),
        vec![None, None, Some(true), None, None]
    );
    assert_eq!(
        h.brute_progress(&section).unwrap(),
        vec![None, None, None, None, None, None]
    );
}

#[test]
fn empty_hint_is_one_blank_pattern() {
    let h = Hint::new(vec![]);
    assert_eq!(h.permutations(0), vec![Vec::<bool>::new()]);
    assert_eq!(h.permutations(4), vec![vec![false, false, false, false]]);
}

#[test]
fn progress_on_determined_line_changes_nothing() {
    // a fully determined line that realises its hint is left exactly as it is
    let h = Hint::new(vec![2]);
    let line = vec![Some(true), Some(true), Some(false)];
    assert_eq!(h.brute_progress(&line).unwrap(), line);
    let h2 = Hint::new(vec![1, 1]);
    let line2 = vec![Some(true), Some(false), Some(true)];
    assert_eq!(h2.brute_progress(&line2).unwrap(), line2);
}

#[test]
fn progress_signals_contradiction() {
    // no placement of a 3-run fits a line whose middle is known blank
    let h = Hint::new(vec![3]);
    let line = vec![None, None, Some(false), None];
    assert_eq!(h.brute_progress(&line), None);
    // a hint too long for the line is contradictory as well
    let h2 = Hint::new(vec![2, 2]);
    let line2 = vec![None; 4];
    assert_eq!(h2.brute_progress(&line2), None);
}

#[test]
fn progress_narrows_with_known_cells() {
    // a filled cell at the edge pins the whole run
    let h = Hint::new(vec![3]);
    let line = vec![Some(true), None, None, None];
    assert_eq!(
        h.brute_progress(&line).unwrap(),
        vec![Some(true), Some(true), Some(true), Some(false)]
    );
}

#[test]
fn perm_matches_respects_known_cells() {
    let pat = vec![true, false, true];
    assert!(perm_matches(&pat, &vec![None, None, None]));
    assert!(perm_matches(&pat, &vec![Some(true), Some(false), None]));
    assert!(!perm_matches(&pat, &vec![Some(false), None, None]));
    assert!(!perm_matches(&pat, &vec![None, Some(true), None]));
}

#[test]
fn overlay_keeps_only_agreement() {
    let dst = vec![Some(true), Some(false), None, Some(true)];
    let src = vec![true, true, true, false];
    assert_eq!(overlay(dst, &src), vec![Some(true), None, None, None]);
}

#[test]
fn sum_perms_merges_patterns() {
    assert_eq!(sum_perms(&vec![]), None);
    let one = vec![vec![true, false]];
    assert_eq!(sum_perms(&one).unwrap(), vec![Some(true), Some(false)]);
    let two = vec![vec![true, true, true, false], vec![false, true, true, true]];
    assert_eq!(
        sum_perms(&two).unwrap(),
        vec![None, Some(true), Some(true), None]
    );
}

#[test]
fn satisfies_checks_run_lengths() {
    let h = Hint::new(vec![2, 1]);
    assert!(h.satisfies(&vec![true, true, false, true]));
    assert!(h.satisfies(&vec![true, true, false, true, false]));
    assert!(!h.satisfies(&vec![true, true, true, false, true]));
    assert!(!h.satisfies(&vec![true, false, false, true]));
    let blank = Hint::new(vec![]);
    assert!(blank.satisfies(&vec![false, false]));
    assert!(!blank.satisfies(&vec![false, true]));
}

#[test]
fn single_candidate_determines_the_whole_line() {
    // [2],[3] over six cells leaves exactly one pattern, so the merge pins
    // every cell; with several patterns at least one cell stays open
    let h = Hint::new(vec![2, 3]);
    let line = vec![None; 6];
    assert_eq!(
        h.brute_progress(&line).unwrap(),
        vec![Some(true), Some(true), Some(false), Some(true), Some(true), Some(true)]
    );
    let h2 = Hint::new(vec![2, 3]);
    let line7 = vec![None; 7];
    let merged = h2.brute_progress(&line7).unwrap();
    assert!(merged.iter().any(|c| c.is_none()));
}

#[test]
fn three_block_perms() {
    let h = Hint::new(vec![1, 2, 1]);
    let t = true;
    let f = false;
    assert_eq!(h.permutations(6), vec![vec![t, f, t, t, f, t]]);
    assert_eq!(
        h.permutations(7),
        vec![
            vec![t, f, t, t, f, t, f],
            vec![t, f, t, t, f, f, t],
            vec![t, f, f, t, t, f, t],
            vec![f, t, f, t, t, f, t]
        ]
    );
    assert_eq!(
        h.permutations(8),
        vec![
            vec![t, f, t, t, f, t, f, f],
            vec![t, f, t, t, f, f, t, f],
            vec![t, f, t, t, f, f, f, t],
            vec![t, f, f, t, t, f, t, f],
            vec![t, f, f, t, t, f, f, t],
            vec![f, t, f, t, t, f, t, f],
            vec![f, t, f, t, t, f, f, t],
            vec![t, f, f, f, t, t, f, t],
            vec![f, t, f, f, t, t, f, t],
            vec![f, f, t, f, t, t, f, t]
        ]
    );
}
