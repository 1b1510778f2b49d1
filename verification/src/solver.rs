//! The whole-puzzle solver.
//!
//! `Picross` keeps the partially determined board together with one cached
//! candidate-pattern list per row and per column. Solving alternates row
//! and column passes until the board stabilises; when propagation stalls
//! it guesses the first undetermined cell, saving the opposite branch on a
//! backtrack stack. Whenever the search arrives at a newly completed
//! board, that board is returned only after it has been checked against
//! every row and column hint; a failed check backtracks like any other
//! contradiction.

use vstd::prelude::*;
use vstd::arithmetic::power::{
    pow, lemma_pow_increases, lemma_pow_positive, lemma_pow_strictly_increases,
};

use crate::board::Board;
use crate::Cell;
use crate::grids::{
    grid_col, grids_conflict, lemma_conflict_monotone, lemma_conflict_sym,
    lemma_no_self_conflict, lemma_unknowns_grid_nonneg, lemma_unknowns_grid_pointwise,
    lift_grid, unknowns_in_grid,
};
use crate::hint::{copy_pattern, fits_pred, retain_fitting, sum_perms, Hint};
use crate::lines::{hint_ints, merged_cell, pattern_fits, run_lengths, views_of};

verus! {

/// One saved branch point: board and candidate caches to come back to.
struct SearchState {
    board: Board<Option<bool>>,
    rows_perms: Vec<Vec<Vec<bool>>>,
    cols_perms: Vec<Vec<Vec<bool>>>,
}

/// One candidate-pattern list per line, each pattern as long as its line.
spec fn perms_wf(ps: Seq<Vec<Vec<bool>>>, count: int, linelen: int) -> bool {
    &&& ps.len() == count
    &&& forall|y: int, j: int|
        0 <= y < ps.len() && 0 <= j < ps[y]@.len() ==> (#[trigger] ps[y]@[j]@).len() == linelen
}

spec fn state_wf(s: SearchState, w: int, h: int) -> bool {
    &&& s.board.wf()
    &&& s.board.spec_width() == w
    &&& s.board.spec_height() == h
    &&& perms_wf(s.rows_perms@, h, w)
    &&& perms_wf(s.cols_perms@, w, h)
}

spec fn pow3(u: int) -> int {
    pow(3, (if u >= 0 { u } else { 0 }) as nat)
}

proof fn lemma_pow3_pos(u: int)
    ensures
        pow3(u) >= 1,
{
    lemma_pow_positive(3, (if u >= 0 { u } else { 0 }) as nat);
}

proof fn lemma_pow3_le(u1: int, u2: int)
    requires
        u1 <= u2,
    ensures
        pow3(u1) <= pow3(u2),
{
    if u1 < 0 {
        lemma_pow3_pos(u2);
        assert(pow3(u1) == pow(3, 0));
        if u2 >= 0 {
            lemma_pow_increases(3, 0, u2 as nat);
        }
    } else if u1 < u2 {
        lemma_pow_increases(3, u1 as nat, u2 as nat);
    }
}

proof fn lemma_pow3_lt(u1: int, u2: int)
    requires
        0 <= u1 < u2,
    ensures
        pow3(u1) < pow3(u2),
{
    lemma_pow_strictly_increases(3, u1 as nat, u2 as nat);
}

proof fn lemma_pow3_step(u: int)
    requires
        u >= 1,
    ensures
        pow3(u) == 3 * pow3(u - 1),
{
    reveal(pow);
    assert(pow(3, u as nat) == 3 * pow(3, (u as nat - 1) as nat));
}

spec fn stack_phi(es: Seq<SearchState>) -> int
    decreases es.len(),
{
    if es.len() == 0 {
        0
    } else {
        stack_phi(es.drop_last()) + 3 * pow3(unknowns_in_grid(es.last().board@))
    }
}

proof fn lemma_stack_phi_nonneg(es: Seq<SearchState>)
    ensures
        stack_phi(es) >= 0,
    decreases es.len(),
{
    if es.len() > 0 {
        lemma_stack_phi_nonneg(es.drop_last());
        lemma_pow3_pos(unknowns_in_grid(es.last().board@));
    }
}

proof fn lemma_phi_nonneg(p: Picross)
    ensures
        p.phi() >= 0,
{
    lemma_unknowns_grid_nonneg(p.board@);
    lemma_pow3_pos(unknowns_in_grid(p.board@));
    lemma_stack_phi_nonneg(p.backtrack@);
}

proof fn lemma_stack_phi_push(es: Seq<SearchState>, s: SearchState)
    ensures
        stack_phi(es.push(s)) == stack_phi(es) + 3 * pow3(unknowns_in_grid(s.board@)),
{
    assert(es.push(s).drop_last() =~= es);
    assert(es.push(s).last() == s);
}

/// A saved branch point still consistent with the finished grid `g`.
spec fn entry_covers(e: SearchState, g: Seq<Seq<bool>>, w: int, h: int) -> bool {
    &&& g.len() == h
    &&& forall|y: int| 0 <= y < g.len() ==> (#[trigger] g[y]).len() == w
    &&& forall|y: int, x: int|
        0 <= y < e.board@.len() && 0 <= x < e.board@[y].len() && (
        #[trigger] e.board@[y][x]) is Some ==> e.board@[y][x] == Some(g[y][x])
    &&& forall|y: int|
        0 <= y < e.rows_perms@.len() ==> views_of((#[trigger] e.rows_perms@[y])@).contains(
            g[y],
        )
    &&& forall|x: int|
        0 <= x < e.cols_perms@.len() ==> views_of((#[trigger] e.cols_perms@[x])@).contains(
            grid_col(g, x),
        )
}

/// A fully determined board is left alone by a step that keeps every
/// determined cell.
proof fn lemma_total_board_fixed(
    a: Seq<Seq<Option<bool>>>,
    b: Seq<Seq<Option<bool>>>,
    g: Seq<Seq<bool>>,
)
    requires
        a == lift_grid(g),
        b.len() == a.len(),
        forall|y: int| 0 <= y < a.len() ==> (#[trigger] b[y]).len() == a[y].len(),
        forall|y: int, x: int|
            0 <= y < a.len() && 0 <= x < a[y].len() && (#[trigger] a[y][x]) is Some ==> b[y][x]
                == a[y][x],
    ensures
        b == a,
{
    assert forall|y: int| 0 <= y < a.len() implies b[y] =~= a[y] by {
        assert forall|x: int| 0 <= x < a[y].len() implies b[y][x] == a[y][x] by {
            assert(a[y][x] == Some(g[y][x]));
        }
    }
    assert(b =~= a);
}

/// A grid the search can still reach is never an excluded one.
proof fn lemma_covers_not_excludes(p: Picross, g: Seq<Seq<bool>>)
    requires
        p.covers(g),
    ensures
        !p.excludes(g),
{
    if p.live_covers(g) && p.board@ != lift_grid(g) {
        if grids_conflict(p.board@, lift_grid(g)) {
            let (y, x) = choose|y: int, x: int|
                #![trigger p.board@[y][x], lift_grid(g)[y][x]]
                0 <= y < p.board@.len() && 0 <= y < lift_grid(g).len() && 0 <= x
                    < p.board@[y].len() && 0 <= x < lift_grid(g)[y].len()
                    && p.board@[y][x] is Some && lift_grid(g)[y][x] is Some
                    && p.board@[y][x] != lift_grid(g)[y][x];
            assert(p.board@[y][x] == Some(g[y][x]));
        }
    } else {
        let e = choose|e: int|
            0 <= e < p.backtrack@.len() && entry_covers(
                #[trigger] p.backtrack@[e],
                g,
                p.spec_width() as int,
                p.spec_height() as int,
            );
        if p.excludes(g) {
            assert(grids_conflict(p.backtrack@[e].board@, lift_grid(g)));
            let eb = p.backtrack@[e].board@;
            let (y, x) = choose|y: int, x: int|
                #![trigger eb[y][x], lift_grid(g)[y][x]]
                0 <= y < eb.len() && 0 <= y < lift_grid(g).len() && 0 <= x < eb[y].len() && 0
                    <= x < lift_grid(g)[y].len() && eb[y][x] is Some && lift_grid(
                    g,
                )[y][x] is Some && eb[y][x] != lift_grid(g)[y][x];
            assert(eb[y][x] == Some(g[y][x]));
        }
    }
}

/// What one row or column pass reports.
enum PassResult {
    /// At least one cell was newly determined.
    Progressed,
    /// Nothing changed.
    Quiet,
    /// Some line has no candidate pattern left.
    Contradiction,
}

/// The solver for one puzzle.
pub struct Picross {
    board: Board<Option<bool>>,
    rows_perms: Vec<Vec<Vec<bool>>>,
    cols_perms: Vec<Vec<Vec<bool>>>,
    row_hints: Vec<Hint>,
    col_hints: Vec<Hint>,
    backtrack: Vec<SearchState>,
    /// How many branch points the search has taken so far.
    pub num_backtracks: usize,
}

impl Picross {
    /// Number of columns of the puzzle.
    pub closed spec fn spec_width(self) -> usize {
        self.board.spec_width()
    }

    /// How many branch points the search has taken so far; the value of
    /// the `num_backtracks` field.
    pub closed spec fn backtracks(self) -> usize {
        self.num_backtracks
    }

    /// The live, possibly still ambiguous board.
    pub closed spec fn board_view(self) -> Seq<Seq<Option<bool>>> {
        self.board@
    }

    /// Number of rows of the puzzle.
    pub closed spec fn spec_height(self) -> usize {
        self.board.spec_height()
    }

    /// The row hints the solver was built from, top to bottom.
    pub closed spec fn row_hint_seq(self) -> Seq<Seq<usize>> {
        Seq::new(self.row_hints@.len() as nat, |y: int| self.row_hints@[y]@)
    }

    /// The column hints the solver was built from, left to right.
    pub closed spec fn col_hint_seq(self) -> Seq<Seq<usize>> {
        Seq::new(self.col_hints@.len() as nat, |x: int| self.col_hints@[x]@)
    }

    /// Everything is sized consistently and every saved branch point
    /// clashes with the live board and with every other branch point.
    pub closed spec fn wf(self) -> bool {
        let w = self.spec_width() as int;
        let h = self.spec_height() as int;
        &&& self.board.wf()
        &&& perms_wf(self.rows_perms@, h, w)
        &&& perms_wf(self.cols_perms@, w, h)
        &&& self.row_hints@.len() == h
        &&& self.col_hints@.len() == w
        &&& forall|y: int| 0 <= y < h ==> (#[trigger] self.row_hints@[y]).wf()
        &&& forall|x: int| 0 <= x < w ==> (#[trigger] self.col_hints@[x]).wf()
        &&& forall|e: int|
            0 <= e < self.backtrack@.len() ==> state_wf(#[trigger] self.backtrack@[e], w, h)
        &&& forall|e: int|
            0 <= e < self.backtrack@.len() ==> grids_conflict(
                (#[trigger] self.backtrack@[e]).board@,
                self.board@,
            )
        &&& forall|e1: int, e2: int|
            0 <= e1 < e2 < self.backtrack@.len() ==> grids_conflict(
                (#[trigger] self.backtrack@[e1]).board@,
                (#[trigger] self.backtrack@[e2]).board@,
            )
    }

    /// The live board and its candidate caches are still consistent with
    /// the finished grid `g`: every determined cell agrees with `g`, and
    /// every line's candidate list still holds `g`'s line.
    spec fn live_covers(self, g: Seq<Seq<bool>>) -> bool {
        &&& g.len() == self.spec_height()
        &&& forall|y: int| 0 <= y < g.len() ==> (#[trigger] g[y]).len() == self.spec_width()
        &&& forall|y: int, x: int|
            0 <= y < self.board@.len() && 0 <= x < self.board@[y].len() && (
            #[trigger] self.board@[y][x]) is Some ==> self.board@[y][x] == Some(g[y][x])
        &&& forall|y: int|
            0 <= y < self.rows_perms@.len() ==> views_of(
                (#[trigger] self.rows_perms@[y])@,
            ).contains(g[y])
        &&& forall|x: int|
            0 <= x < self.cols_perms@.len() ==> views_of(
                (#[trigger] self.cols_perms@[x])@,
            ).contains(grid_col(g, x))
    }

    /// The live branch has reached exactly the finished grid `g`.
    spec fn pending(self, g: Seq<Seq<bool>>) -> bool {
        self.live_covers(g) && self.board@ == lift_grid(g)
    }

    /// A finished grid that this state can never return any more: it
    /// clashes with the live board (or is the live board itself) and with
    /// every saved branch point.
    pub closed spec fn excludes(self, g: Seq<Seq<bool>>) -> bool {
        &&& forall|e: int|
            0 <= e < self.backtrack@.len() ==> grids_conflict(
                (#[trigger] self.backtrack@[e]).board@,
                lift_grid(g),
            )
        &&& (grids_conflict(self.board@, lift_grid(g)) || self.board@ == lift_grid(g))
    }

    /// The search can still reach the finished grid `g`: either the live
    /// branch is consistent with it and short of it, or some saved branch
    /// point is consistent with it.
    pub closed spec fn covers(self, g: Seq<Seq<bool>>) -> bool {
        ||| (self.live_covers(g) && self.board@ != lift_grid(g))
        ||| exists|e: int|
            0 <= e < self.backtrack@.len() && entry_covers(#[trigger] self.backtrack@[e], g, self.spec_width() as int, self.spec_height() as int)
    }

    /// No saved branch point is left: the search space is used up.
    pub closed spec fn exhausted(self) -> bool {
        self.backtrack@.len() == 0
    }

    /// Termination measure of the search: how much work can still happen.
    pub closed spec fn phi(self) -> int {
        2 * pow3(unknowns_in_grid(self.board@)) + stack_phi(self.backtrack@)
    }

    /// Number of columns of the puzzle.
    pub fn width(&self) -> (w: usize)
        ensures
            w == self.spec_width(),
    {
        self.board.width()
    }

    /// Number of rows of the puzzle.
    pub fn height(&self) -> (h: usize)
        ensures
            h == self.spec_height(),
    {
        self.board.height()
    }

    /// How many branch points the search has taken so far.
    pub fn branch_points(&self) -> (n: usize)
        ensures
            n == self.backtracks(),
    {
        self.num_backtracks
    }

    /// A fresh solver: an all-unknown board and, for every line, the full
    /// pattern list of its hint.
    pub fn new(row_hints: Vec<Hint>, col_hints: Vec<Hint>) -> (p: Picross)
        requires
            forall|y: int| 0 <= y < row_hints@.len() ==> (#[trigger] row_hints@[y]).wf(),
            forall|x: int| 0 <= x < col_hints@.len() ==> (#[trigger] col_hints@[x]).wf(),
        ensures
            p.wf(),
            p.spec_width() == col_hints@.len(),
            p.spec_height() == row_hints@.len(),
            forall|y: int|
                0 <= y < row_hints@.len() ==> #[trigger] p.row_hint_seq()[y] == row_hints@[y]@,
            forall|x: int|
                0 <= x < col_hints@.len() ==> #[trigger] p.col_hint_seq()[x] == col_hints@[x]@,
            p.backtracks() == 0,
            p.exhausted(),
            p.board_view().len() == row_hints@.len(),
            forall|y: int|
                0 <= y < row_hints@.len() ==> (#[trigger] p.board_view()[y]).len()
                    == col_hints@.len(),
            forall|y: int, x: int|
                0 <= y < row_hints@.len() && 0 <= x < col_hints@.len() ==> (
                #[trigger] p.board_view()[y][x]) is None,
            forall|g: Seq<Seq<bool>>|
                #[trigger] p.is_solution(g) ==> p.covers(g) || p.excludes(g),
    {
        let w = col_hints.len();
        let h = row_hints.len();
        let board = Board::new(w, h, None);
        let mut rows_perms: Vec<Vec<Vec<bool>>> = Vec::new();
        for y in 0..h
            invariant
                h == row_hints@.len(),
                forall|y2: int| 0 <= y2 < h ==> (#[trigger] row_hints@[y2]).wf(),
                rows_perms@.len() == y,
                forall|y2: int, j: int|
                    0 <= y2 < y && 0 <= j < rows_perms@[y2]@.len() ==> (
                    #[trigger] rows_perms@[y2]@[j]@).len() == w,
                forall|y2: int, s: Seq<bool>|
                    #![trigger run_lengths(s), hint_ints(row_hints@[y2]@)]
                    0 <= y2 < y && s.len() == w && run_lengths(s) == hint_ints(
                        row_hints@[y2]@,
                    ) ==> views_of(rows_perms@[y2]@).contains(s),
        {
            let ps = row_hints[y].permutations(w);
            rows_perms.push(ps);
            proof {
                assert forall|y2: int, s: Seq<bool>|
                    #![trigger run_lengths(s), hint_ints(row_hints@[y2]@)]
                    0 <= y2 < y + 1 && s.len() == w && run_lengths(s) == hint_ints(
                        row_hints@[y2]@,
                    ) implies views_of(rows_perms@[y2]@).contains(s) by {
                    if y2 == y {
                        assert(rows_perms@[y as int] == ps);
                        let j = choose|j: int| 0 <= j < ps@.len() && ps@[j]@ == s;
                        assert(views_of(ps@)[j] == s);
                    }
                }
            }
        }
        let mut cols_perms: Vec<Vec<Vec<bool>>> = Vec::new();
        for x in 0..w
            invariant
                w == col_hints@.len(),
                forall|x2: int| 0 <= x2 < w ==> (#[trigger] col_hints@[x2]).wf(),
                cols_perms@.len() == x,
                forall|x2: int, j: int|
                    0 <= x2 < x && 0 <= j < cols_perms@[x2]@.len() ==> (
                    #[trigger] cols_perms@[x2]@[j]@).len() == h,
                forall|x2: int, s: Seq<bool>|
                    #![trigger run_lengths(s), hint_ints(col_hints@[x2]@)]
                    0 <= x2 < x && s.len() == h && run_lengths(s) == hint_ints(
                        col_hints@[x2]@,
                    ) ==> views_of(cols_perms@[x2]@).contains(s),
        {
            let ps = col_hints[x].permutations(h);
            cols_perms.push(ps);
            proof {
                assert forall|x2: int, s: Seq<bool>|
                    #![trigger run_lengths(s), hint_ints(col_hints@[x2]@)]
                    0 <= x2 < x + 1 && s.len() == h && run_lengths(s) == hint_ints(
                        col_hints@[x2]@,
                    ) implies views_of(cols_perms@[x2]@).contains(s) by {
                    if x2 == x {
                        assert(cols_perms@[x as int] == ps);
                        let j = choose|j: int| 0 <= j < ps@.len() && ps@[j]@ == s;
                        assert(views_of(ps@)[j] == s);
                    }
                }
            }
        }
        let p = Picross {
            board,
            rows_perms,
            cols_perms,
            row_hints,
            col_hints,
            backtrack: Vec::new(),
            num_backtracks: 0,
        };
        proof {
            assert forall|g: Seq<Seq<bool>>| #[trigger] p.is_solution(g)
                implies p.covers(g) || p.excludes(g) by {
                if p.board@ == lift_grid(g) {
                    assert(p.excludes(g));
                } else {
                    assert(p.live_covers(g)) by {
                        assert forall|y2: int|
                            0 <= y2 < p.rows_perms@.len() implies views_of(
                            (#[trigger] p.rows_perms@[y2])@,
                        ).contains(g[y2]) by {
                            assert(p.row_hint_seq()[y2] == p.row_hints@[y2]@);
                            assert(run_lengths(g[y2]) == hint_ints(p.row_hints@[y2]@));
                        }
                        assert forall|x2: int|
                            0 <= x2 < p.cols_perms@.len() implies views_of(
                            (#[trigger] p.cols_perms@[x2])@,
                        ).contains(grid_col(g, x2)) by {
                            assert(p.col_hint_seq()[x2] == p.col_hints@[x2]@);
                            assert(run_lengths(grid_col(g, x2)) == hint_ints(
                                p.col_hints@[x2]@,
                            ));
                            assert(grid_col(g, x2).len() == h);
                        }
                    }
                    assert(p.covers(g));
                }
            }
        }
        p
    }
}

/// Are two partially known lines different anywhere?
fn lines_differ(a: &Vec<Option<bool>>, b: &Vec<Option<bool>>) -> (r: bool)
    requires
        a@.len() == b@.len(),
    ensures
        r == (a@ != b@),
{
    let n = a.len();
    for i in 0..n
        invariant
            n == a@.len(),
            a@.len() == b@.len(),
            forall|j: int| 0 <= j < i ==> #[trigger] a@[j] == b@[j],
    {
        let same = match (a[i], b[i]) {
            (None, None) => true,
            (Some(u), Some(v)) => u == v,
            _ => false,
        };
        if !same {
            proof {
                assert(a@[i as int] != b@[i as int]);
            }
            return true;
        }
    }
    proof {
        assert(a@ =~= b@);
    }
    false
}

/// An independent copy of the candidate lists of all lines.
fn clone_perm_sets(src: &Vec<Vec<Vec<bool>>>) -> (r: Vec<Vec<Vec<bool>>>)
    ensures
        r@.len() == src@.len(),
        forall|y: int| 0 <= y < src@.len() ==> (#[trigger] r@[y]@).len() == src@[y]@.len(),
        forall|y: int, j: int|
            0 <= y < src@.len() && 0 <= j < src@[y]@.len() ==> #[trigger] r@[y]@[j]@
                == src@[y]@[j]@,
{
    let n = src.len();
    let mut out: Vec<Vec<Vec<bool>>> = Vec::new();
    for y in 0..n
        invariant
            n == src@.len(),
            out@.len() == y,
            forall|y2: int| 0 <= y2 < y ==> (#[trigger] out@[y2]@).len() == src@[y2]@.len(),
            forall|y2: int, j: int|
                0 <= y2 < y && 0 <= j < src@[y2]@.len() ==> #[trigger] out@[y2]@[j]@
                    == src@[y2]@[j]@,
    {
        let line = &src[y];
        let m = line.len();
        let mut cl: Vec<Vec<bool>> = Vec::new();
        for j in 0..m
            invariant
                m == line@.len(),
                cl@.len() == j,
                forall|j2: int| 0 <= j2 < j ==> #[trigger] cl@[j2]@ == line@[j2]@,
        {
            cl.push(copy_pattern(&line[j]));
        }
        out.push(cl);
    }
    out
}

impl Picross {
    /// The first undetermined cell in row-major order, if any.
    fn first_unknown(&self) -> (r: Option<(usize, usize)>)
        requires
            self.wf(),
        ensures
            r matches Some(p) ==> p.1 < self.spec_height() && p.0 < self.spec_width()
                && self.board@[p.1 as int][p.0 as int] is None && (forall|y: int, x: int|
                0 <= y < p.1 && 0 <= x < self.spec_width() ==> (
                #[trigger] self.board@[y][x]) is Some) && (forall|x: int|
                0 <= x < p.0 ==> (#[trigger] self.board@[p.1 as int][x]) is Some),
            r is None ==> forall|y: int, x: int|
                0 <= y < self.spec_height() && 0 <= x < self.spec_width() ==> (
                #[trigger] self.board@[y][x]) is Some,
    {
        let h = self.board.height();
        let w = self.board.width();
        for y in 0..h
            invariant
                self.wf(),
                h == self.spec_height(),
                w == self.spec_width(),
                forall|y2: int, x: int|
                    0 <= y2 < y && 0 <= x < w ==> (#[trigger] self.board@[y2][x]) is Some,
        {
            for x in 0..w
                invariant
                    self.wf(),
                    h == self.spec_height(),
                    w == self.spec_width(),
                    y < h,
                    forall|y2: int, x2: int|
                        0 <= y2 < y && 0 <= x2 < w ==> (#[trigger] self.board@[y2][x2]) is Some,
                    forall|x2: int|
                        0 <= x2 < x ==> (#[trigger] self.board@[y as int][x2]) is Some,
            {
                let cell = self.board.pos(x, y);
                if cell.is_none() {
                    return Some((x, y));
                }
            }
        }
        None
    }

    /// The finished board once every cell is determined.
    fn extract_solution(&self) -> (sol: Board<Cell>)
        requires
            self.wf(),
            forall|y: int, x: int|
                0 <= y < self.spec_height() && 0 <= x < self.spec_width() ==> (
                #[trigger] self.board@[y][x]) is Some,
        ensures
            sol.wf(),
            sol.spec_width() == self.spec_width(),
            sol.spec_height() == self.spec_height(),
            lift_grid(sol@) == self.board@,
    {
        let h = self.board.height();
        let w = self.board.width();
        let mut sol: Board<Cell> = Board::new(w, h, false);
        for y in 0..h
            invariant
                self.wf(),
                h == self.spec_height(),
                w == self.spec_width(),
                forall|y2: int, x: int|
                    0 <= y2 < h && 0 <= x < w ==> (#[trigger] self.board@[y2][x]) is Some,
                sol.wf(),
                sol.spec_width() == w,
                sol.spec_height() == h,
                forall|y2: int, x: int|
                    0 <= y2 < y && 0 <= x < w ==> #[trigger] self.board@[y2][x] == Some(
                        sol@[y2][x],
                    ),
        {
            let row = self.board.row(y);
            let mut brow: Vec<bool> = Vec::new();
            for x in 0..w
                invariant
                    self.wf(),
                    h == self.spec_height(),
                    w == self.spec_width(),
                    y < h,
                    row@ == self.board@[y as int],
                    forall|y2: int, x2: int|
                        0 <= y2 < h && 0 <= x2 < w ==> (#[trigger] self.board@[y2][x2]) is Some,
                    brow@.len() == x,
                    forall|x2: int|
                        0 <= x2 < x ==> #[trigger] self.board@[y as int][x2] == Some(
                            brow@[x2],
                        ),
            {
                let v = match row[x] {
                    Some(v) => v,
                    None => {
                        proof {
                            assert(false);
                        }
                        false
                    },
                };
                brow.push(v);
            }
            sol.set_row(y, brow);
        }
        proof {
            assert(lift_grid(sol@) =~~= self.board@);
        }
        sol
    }

    /// Does a finished board realise every row and column hint?
    pub open spec fn solution_ok(self, g: Seq<Seq<bool>>) -> bool {
        &&& forall|y: int|
            0 <= y < self.spec_height() ==> run_lengths(#[trigger] g[y]) == hint_ints(
                self.row_hint_seq()[y],
            )
        &&& forall|x: int|
            0 <= x < self.spec_width() ==> run_lengths(#[trigger] grid_col(g, x)) == hint_ints(
                self.col_hint_seq()[x],
            )
    }

    /// A finished grid of this puzzle's size that realises every hint.
    pub open spec fn is_solution(self, g: Seq<Seq<bool>>) -> bool {
        &&& g.len() == self.spec_height()
        &&& forall|y: int| 0 <= y < g.len() ==> (#[trigger] g[y]).len() == self.spec_width()
        &&& self.solution_ok(g)
    }

    /// Check a completed board against every hint.
    fn check_solution(&self, sol: &Board<Cell>) -> (ok: bool)
        requires
            self.wf(),
            sol.wf(),
            sol.spec_width() == self.spec_width(),
            sol.spec_height() == self.spec_height(),
        ensures
            ok == self.solution_ok(sol@),
    {
        let h = self.board.height();
        let w = self.board.width();
        for y in 0..h
            invariant
                self.wf(),
                sol.wf(),
                sol.spec_width() == w,
                sol.spec_height() == h,
                h == self.spec_height(),
                w == self.spec_width(),
                forall|y2: int|
                    0 <= y2 < y ==> run_lengths(#[trigger] sol@[y2]) == hint_ints(
                        self.row_hint_seq()[y2],
                    ),
        {
            let row = sol.row(y);
            if !self.row_hints[y].satisfies(&row) {
                return false;
            }
        }
        for x in 0..w
            invariant
                self.wf(),
                sol.wf(),
                sol.spec_width() == w,
                sol.spec_height() == h,
                h == self.spec_height(),
                w == self.spec_width(),
                forall|y2: int|
                    0 <= y2 < h ==> run_lengths(#[trigger] sol@[y2]) == hint_ints(
                        self.row_hint_seq()[y2],
                    ),
                forall|x2: int|
                    0 <= x2 < x ==> run_lengths(#[trigger] grid_col(sol@, x2)) == hint_ints(
                        self.col_hint_seq()[x2],
                    ),
        {
            let col = sol.col(x);
            proof {
                assert(col@ =~= grid_col(sol@, x as int));
            }
            if !self.col_hints[x].satisfies(&col) {
                return false;
            }
        }
        true
    }

    /// One pass over all rows: filter each row's candidates against the
    /// current board and write back every newly determined cell.
    #[verifier::loop_isolation(false)]
    #[verifier::rlimit(80)]
    fn pass_rows(&mut self, first_run: bool) -> (res: PassResult)
        requires
            old(self).wf(),
        ensures
            final(self).wf(),
            final(self).spec_width() == old(self).spec_width(),
            final(self).spec_height() == old(self).spec_height(),
            final(self).row_hints == old(self).row_hints,
            final(self).col_hints == old(self).col_hints,
            final(self).cols_perms == old(self).cols_perms,
            final(self).backtrack == old(self).backtrack,
            final(self).num_backtracks == old(self).num_backtracks,
            final(self).board@.len() == old(self).board@.len(),
            forall|y: int|
                0 <= y < old(self).board@.len() ==> (#[trigger] final(self).board@[y]).len()
                    == old(self).board@[y].len(),
            forall|y: int, x: int|
                0 <= y < old(self).board@.len() && 0 <= x < old(self).board@[y].len() && (
                #[trigger] old(self).board@[y][x]) is Some ==> final(self).board@[y][x] == old(
                    self,
                ).board@[y][x],
            unknowns_in_grid(final(self).board@) <= unknowns_in_grid(old(self).board@),
            res is Progressed ==> unknowns_in_grid(final(self).board@) < unknowns_in_grid(
                old(self).board@,
            ),
            res is Quiet ==> final(self).board@ == old(self).board@,
            forall|g: Seq<Seq<bool>>|
                #[trigger] old(self).live_covers(g)
                    ==> !(res is Contradiction) && final(self).live_covers(g),
    {
        let h = self.board.height();
        let w = self.board.width();
        let mut progressed = false;
        proof {
            lemma_unknowns_grid_nonneg(self.board@);
        }
        for y in 0..h
            invariant
                self.wf(),
                h == self.spec_height(),
                w == self.spec_width(),
                self.row_hints == old(self).row_hints,
                self.col_hints == old(self).col_hints,
                self.cols_perms == old(self).cols_perms,
                forall|g: Seq<Seq<bool>>|
                    #[trigger] old(self).live_covers(g) ==> self.live_covers(g),
                self.backtrack == old(self).backtrack,
                self.num_backtracks == old(self).num_backtracks,
                self.board@.len() == old(self).board@.len(),
                forall|y2: int|
                    0 <= y2 < old(self).board@.len() ==> (#[trigger] self.board@[y2]).len()
                        == old(self).board@[y2].len(),
                forall|y2: int, x: int|
                    0 <= y2 < old(self).board@.len() && 0 <= x < old(self).board@[y2].len()
                        && (#[trigger] old(self).board@[y2][x]) is Some ==> self.board@[y2][x]
                        == old(self).board@[y2][x],
                unknowns_in_grid(self.board@) <= unknowns_in_grid(old(self).board@),
                progressed ==> unknowns_in_grid(self.board@) < unknowns_in_grid(
                    old(self).board@,
                ),
                !progressed ==> self.board@ == old(self).board@,
        {
            let ghost pre_self = *self;
            let row = self.board.row(y);
            let old_len = self.rows_perms[y].len();
            let filtered = retain_fitting(&self.rows_perms[y], &row);
            let new_len = filtered.len();
            let ghost filt = views_of(filtered@);
            self.rows_perms.set(y, filtered);
            proof {
                assert forall|y2: int, j: int|
                    0 <= y2 < self.rows_perms@.len() && 0 <= j < self.rows_perms@[y2]@.len()
                    implies (#[trigger] self.rows_perms@[y2]@[j]@).len() == w by {
                    if y2 != y {
                        assert(self.rows_perms@[y2] == old(self).rows_perms@[y2]
                            || self.rows_perms@[y2]@[j]@.len() == w);
                    }
                }
                assert forall|g: Seq<Seq<bool>>| #[trigger] pre_self.live_covers(g)
                    implies self.live_covers(g) && views_of(
                    self.rows_perms@[y as int]@,
                ).contains(g[y as int]) by {
                    assert(row@ == pre_self.board@[y as int]);
                    assert(pattern_fits(g[y as int], row@)) by {
                        assert(g[y as int].len() == row@.len());
                        assert forall|x: int|
                            0 <= x < row@.len() implies (#[trigger] row@[x] matches Some(v)
                                ==> g[y as int][x] == v) by {
                            if row@[x] is Some {
                                assert(pre_self.board@[y as int][x] == Some(g[y as int][x]));
                            }
                        }
                    }
                    let ov = views_of(pre_self.rows_perms@[y as int]@);
                    assert(ov.contains(g[y as int]));
                    let k = ov.lemma_contains_to_index(g[y as int]);
                    assert(fits_pred(row@)(ov[k]));
                    ov.lemma_filter_contains(fits_pred(row@), k);
                    assert(filt.contains(g[y as int]));
                    assert forall|y2: int|
                        0 <= y2 < self.rows_perms@.len() implies views_of(
                        (#[trigger] self.rows_perms@[y2])@,
                    ).contains(g[y2]) by {
                        if y2 != y {
                            assert(self.rows_perms@[y2] == pre_self.rows_perms@[y2]);
                        }
                    }
                }
            }
            let ghost mid_self = *self;
            if new_len < old_len || first_run {
                match sum_perms(&self.rows_perms[y]) {
                    None => {
                        proof {
                            assert forall|g: Seq<Seq<bool>>|
                                #[trigger] old(self).live_covers(g) implies false by {
                                assert(pre_self.live_covers(g));
                                assert(views_of(self.rows_perms@[y as int]@).contains(
                                    g[y as int],
                                ));
                            }
                        }
                        return PassResult::Contradiction;
                    },
                    Some(new_row) => {
                        if lines_differ(&new_row, &row) {
                            let ghost pre = self.board@;
                            proof {
                                assert(filt.len() > 0);
                                assert forall|x: int|
                                    0 <= x < row@.len() && (#[trigger] row@[x]) is Some
                                    implies new_row@[x] == row@[x] by {
                                    assert forall|k: int|
                                        0 <= k < filt.len() implies (#[trigger] filt[k])[x]
                                            == filt[0][x] by {
                                        assert(pattern_fits(filt[k], row@));
                                        assert(pattern_fits(filt[0], row@));
                                    }
                                    assert(pattern_fits(filt[0], row@));
                                    assert(new_row@[x] == merged_cell(filt, x));
                                }
                            }
                            self.board.set_row(y, new_row);
                            progressed = true;
                            proof {
                                assert forall|g: Seq<Seq<bool>>| #[trigger] mid_self.live_covers(
                                    g,
                                ) implies self.live_covers(g) by {
                                    assert(views_of(mid_self.rows_perms@[y as int]@).contains(
                                        g[y as int],
                                    ));
                                    let kk = views_of(
                                        mid_self.rows_perms@[y as int]@,
                                    ).lemma_contains_to_index(g[y as int]);
                                    assert(filt[kk] == g[y as int]);
                                    assert forall|y2: int, x: int|
                                        0 <= y2 < self.board@.len() && 0 <= x
                                            < self.board@[y2].len() && (
                                        #[trigger] self.board@[y2][x]) is Some
                                        implies self.board@[y2][x] == Some(g[y2][x]) by {
                                        if y2 == y {
                                            assert(self.board@[y as int][x] == new_row@[x]);
                                            assert(new_row@[x] == merged_cell(filt, x));
                                            if merged_cell(filt, x) is Some {
                                                assert(filt[kk][x] == filt[0][x]);
                                                assert(g[y as int][x] == filt[0][x]);
                                            }
                                        } else {
                                            assert(mid_self.board@[y2][x] == Some(g[y2][x]));
                                        }
                                    }
                                }
                                assert forall|y2: int, x: int|
                                    0 <= y2 < pre.len() && 0 <= x < pre[y2].len() && (
                                    #[trigger] pre[y2][x]) is Some
                                    implies self.board@[y2][x] == pre[y2][x] by {}
                                assert(self.board@[y as int] != pre[y as int]);
                                assert(self.board@ != pre);
                                lemma_unknowns_grid_pointwise(pre, self.board@);
                                assert forall|e: int|
                                    0 <= e < self.backtrack@.len() implies grids_conflict(
                                    (#[trigger] self.backtrack@[e]).board@,
                                    self.board@,
                                ) by {
                                    lemma_conflict_monotone(
                                        self.backtrack@[e].board@,
                                        pre,
                                        self.board@,
                                    );
                                }
                            }
                        }
                    },
                }
            }
        }
        if progressed {
            PassResult::Progressed
        } else {
            PassResult::Quiet
        }
    }

    /// One pass over all columns, symmetric to the row pass.
    #[verifier::loop_isolation(false)]
    #[verifier::rlimit(80)]
    fn pass_cols(&mut self, first_run: bool) -> (res: PassResult)
        requires
            old(self).wf(),
        ensures
            final(self).wf(),
            final(self).spec_width() == old(self).spec_width(),
            final(self).spec_height() == old(self).spec_height(),
            final(self).row_hints == old(self).row_hints,
            final(self).col_hints == old(self).col_hints,
            final(self).rows_perms == old(self).rows_perms,
            final(self).backtrack == old(self).backtrack,
            final(self).num_backtracks == old(self).num_backtracks,
            final(self).board@.len() == old(self).board@.len(),
            forall|y: int|
                0 <= y < old(self).board@.len() ==> (#[trigger] final(self).board@[y]).len()
                    == old(self).board@[y].len(),
            forall|y: int, x: int|
                0 <= y < old(self).board@.len() && 0 <= x < old(self).board@[y].len() && (
                #[trigger] old(self).board@[y][x]) is Some ==> final(self).board@[y][x] == old(
                    self,
                ).board@[y][x],
            unknowns_in_grid(final(self).board@) <= unknowns_in_grid(old(self).board@),
            res is Progressed ==> unknowns_in_grid(final(self).board@) < unknowns_in_grid(
                old(self).board@,
            ),
            res is Quiet ==> final(self).board@ == old(self).board@,
            forall|g: Seq<Seq<bool>>|
                #[trigger] old(self).live_covers(g)
                    ==> !(res is Contradiction) && final(self).live_covers(g),
    {
        let h = self.board.height();
        let w = self.board.width();
        let mut progressed = false;
        proof {
            lemma_unknowns_grid_nonneg(self.board@);
        }
        for x in 0..w
            invariant
                self.wf(),
                h == self.spec_height(),
                w == self.spec_width(),
                self.row_hints == old(self).row_hints,
                self.col_hints == old(self).col_hints,
                self.rows_perms == old(self).rows_perms,
                forall|g: Seq<Seq<bool>>|
                    #[trigger] old(self).live_covers(g) ==> self.live_covers(g),
                self.backtrack == old(self).backtrack,
                self.num_backtracks == old(self).num_backtracks,
                self.board@.len() == old(self).board@.len(),
                forall|y2: int|
                    0 <= y2 < old(self).board@.len() ==> (#[trigger] self.board@[y2]).len()
                        == old(self).board@[y2].len(),
                forall|y2: int, x2: int|
                    0 <= y2 < old(self).board@.len() && 0 <= x2 < old(self).board@[y2].len()
                        && (#[trigger] old(self).board@[y2][x2]) is Some ==> self.board@[y2][x2]
                        == old(self).board@[y2][x2],
                unknowns_in_grid(self.board@) <= unknowns_in_grid(old(self).board@),
                progressed ==> unknowns_in_grid(self.board@) < unknowns_in_grid(
                    old(self).board@,
                ),
                !progressed ==> self.board@ == old(self).board@,
        {
            let ghost pre_self = *self;
            let col = self.board.col(x);
            let old_len = self.cols_perms[x].len();
            let filtered = retain_fitting(&self.cols_perms[x], &col);
            let new_len = filtered.len();
            let ghost filt = views_of(filtered@);
            self.cols_perms.set(x, filtered);
            proof {
                assert forall|x2: int, j: int|
                    0 <= x2 < self.cols_perms@.len() && 0 <= j < self.cols_perms@[x2]@.len()
                    implies (#[trigger] self.cols_perms@[x2]@[j]@).len() == h by {
                    if x2 != x {
                        assert(self.cols_perms@[x2] == old(self).cols_perms@[x2]
                            || self.cols_perms@[x2]@[j]@.len() == h);
                    }
                }
                assert forall|g: Seq<Seq<bool>>| #[trigger] pre_self.live_covers(g)
                    implies self.live_covers(g) && views_of(
                    self.cols_perms@[x as int]@,
                ).contains(grid_col(g, x as int)) by {
                    let gc = grid_col(g, x as int);
                    assert(pattern_fits(gc, col@)) by {
                        assert(gc.len() == col@.len());
                        assert forall|y2: int|
                            0 <= y2 < col@.len() implies (#[trigger] col@[y2] matches Some(v)
                                ==> gc[y2] == v) by {
                            if col@[y2] is Some {
                                assert(col@[y2] == pre_self.board@[y2][x as int]);
                                assert(pre_self.board@[y2][x as int] == Some(g[y2][x as int]));
                            }
                        }
                    }
                    let ov = views_of(pre_self.cols_perms@[x as int]@);
                    assert(ov.contains(gc));
                    let k = ov.lemma_contains_to_index(gc);
                    assert(fits_pred(col@)(ov[k]));
                    ov.lemma_filter_contains(fits_pred(col@), k);
                    assert(filt.contains(gc));
                    assert forall|x2: int|
                        0 <= x2 < self.cols_perms@.len() implies views_of(
                        (#[trigger] self.cols_perms@[x2])@,
                    ).contains(grid_col(g, x2)) by {
                        if x2 != x {
                            assert(self.cols_perms@[x2] == pre_self.cols_perms@[x2]);
                        }
                    }
                }
            }
            let ghost mid_self = *self;
            if new_len < old_len || first_run {
                match sum_perms(&self.cols_perms[x]) {
                    None => {
                        proof {
                            assert forall|g: Seq<Seq<bool>>|
                                #[trigger] old(self).live_covers(g) implies false by {
                                assert(pre_self.live_covers(g));
                                assert(views_of(self.cols_perms@[x as int]@).contains(
                                    grid_col(g, x as int),
                                ));
                            }
                        }
                        return PassResult::Contradiction;
                    },
                    Some(new_col) => {
                        if lines_differ(&new_col, &col) {
                            let ghost pre = self.board@;
                            proof {
                                assert(filt.len() > 0);
                                assert forall|y2: int|
                                    0 <= y2 < col@.len() && (#[trigger] col@[y2]) is Some
                                    implies new_col@[y2] == col@[y2] by {
                                    assert forall|k: int|
                                        0 <= k < filt.len() implies (#[trigger] filt[k])[y2]
                                            == filt[0][y2] by {
                                        assert(pattern_fits(filt[k], col@));
                                        assert(pattern_fits(filt[0], col@));
                                    }
                                    assert(pattern_fits(filt[0], col@));
                                    assert(new_col@[y2] == merged_cell(filt, y2));
                                }
                            }
                            self.board.set_col(x, new_col);
                            progressed = true;
                            proof {
                                assert forall|g: Seq<Seq<bool>>| #[trigger] mid_self.live_covers(
                                    g,
                                ) implies self.live_covers(g) by {
                                    let gc = grid_col(g, x as int);
                                    assert(views_of(mid_self.cols_perms@[x as int]@).contains(
                                        gc,
                                    ));
                                    let kk = views_of(
                                        mid_self.cols_perms@[x as int]@,
                                    ).lemma_contains_to_index(gc);
                                    assert(filt[kk] == gc);
                                    assert forall|y2: int, x2: int|
                                        0 <= y2 < self.board@.len() && 0 <= x2
                                            < self.board@[y2].len() && (
                                        #[trigger] self.board@[y2][x2]) is Some
                                        implies self.board@[y2][x2] == Some(g[y2][x2]) by {
                                        assert(self.board@[y2] == mid_self.board@[y2].update(
                                            x as int,
                                            new_col@[y2],
                                        ));
                                        if x2 == x {
                                            assert(self.board@[y2][x2] == new_col@[y2]);
                                            assert(new_col@[y2] == merged_cell(filt, y2));
                                            if merged_cell(filt, y2) is Some {
                                                assert(filt[kk][y2] == filt[0][y2]);
                                                assert(gc[y2] == filt[0][y2]);
                                                assert(gc[y2] == g[y2][x as int]);
                                            }
                                        } else {
                                            assert(mid_self.board@[y2][x2] == Some(g[y2][x2]));
                                        }
                                    }
                                }
                                assert forall|y2: int, x2: int|
                                    0 <= y2 < pre.len() && 0 <= x2 < pre[y2].len() && (
                                    #[trigger] pre[y2][x2]) is Some
                                    implies self.board@[y2][x2] == pre[y2][x2] by {
                                    assert(self.board@[y2] == pre[y2].update(
                                        x as int,
                                        new_col@[y2],
                                    ));
                                    if x2 == x {
                                        assert(col@[y2] == pre[y2][x as int]);
                                        assert(new_col@[y2] == col@[y2]);
                                    }
                                }
                                assert(self.board@ != pre) by {
                                    assert(new_col@ != col@);
                                    if self.board@ == pre {
                                        assert forall|y2: int|
                                            0 <= y2 < col@.len() implies new_col@[y2]
                                                == col@[y2] by {
                                            assert(self.board@[y2] == pre[y2].update(
                                                x as int,
                                                new_col@[y2],
                                            ));
                                            assert(pre[y2][x as int] == col@[y2]);
                                        }
                                        assert(new_col@ =~= col@);
                                    }
                                }
                                assert forall|y2: int|
                                    0 <= y2 < pre.len() implies (#[trigger] self.board@[y2]).len()
                                        == pre[y2].len() by {
                                    assert(self.board@[y2] == pre[y2].update(
                                        x as int,
                                        new_col@[y2],
                                    ));
                                }
                                lemma_unknowns_grid_pointwise(pre, self.board@);
                                assert forall|e: int|
                                    0 <= e < self.backtrack@.len() implies grids_conflict(
                                    (#[trigger] self.backtrack@[e]).board@,
                                    self.board@,
                                ) by {
                                    lemma_conflict_monotone(
                                        self.backtrack@[e].board@,
                                        pre,
                                        self.board@,
                                    );
                                }
                            }
                        }
                    },
                }
            }
        }
        if progressed {
            PassResult::Progressed
        } else {
            PassResult::Quiet
        }
    }
}


impl Picross {
    /// Restore the most recent branch point, if any.
    fn pop_state(&mut self) -> (ok: bool)
        requires
            old(self).wf(),
        ensures
            final(self).wf(),
            final(self).spec_width() == old(self).spec_width(),
            final(self).spec_height() == old(self).spec_height(),
            final(self).row_hints == old(self).row_hints,
            final(self).col_hints == old(self).col_hints,
            final(self).num_backtracks == old(self).num_backtracks,
            !ok ==> old(self).backtrack@.len() == 0 && final(self).board == old(self).board
                && final(self).rows_perms == old(self).rows_perms && final(self).cols_perms
                == old(self).cols_perms && final(self).backtrack@ == old(self).backtrack@
                && final(self).phi() == old(self).phi(),
            ok ==> final(self).phi() < old(self).phi(),
            forall|g: Seq<Seq<bool>>|
                #[trigger] old(self).excludes(g) ==> final(self).excludes(g) && (ok
                    ==> grids_conflict(final(self).board@, lift_grid(g))),
            ok ==> (forall|g: Seq<Seq<bool>>|
                #![trigger lift_grid(g)]
                (exists|e: int|
                    0 <= e < old(self).backtrack@.len() && entry_covers(
                        #[trigger] old(self).backtrack@[e],
                        g,
                        old(self).spec_width() as int,
                        old(self).spec_height() as int,
                    )) ==> final(self).covers(g)
                    || (final(self).live_covers(g) && final(self).board@ == lift_grid(g))),
    {
        let ghost pre = *self;
        match self.backtrack.pop() {
            None => {
                proof {
                    assert(pre.backtrack@.len() == 0);
                }
                false
            },
            Some(state) => {
                let SearchState { board, rows_perms, cols_perms } = state;
                self.board = board;
                self.rows_perms = rows_perms;
                self.cols_perms = cols_perms;
                proof {
                    let top = pre.backtrack@.len() - 1;
                    assert(state_wf(pre.backtrack@[top], pre.spec_width() as int,
                        pre.spec_height() as int));
                    assert(self.backtrack@ == pre.backtrack@.drop_last());
                    assert forall|e: int|
                        0 <= e < self.backtrack@.len() implies grids_conflict(
                        (#[trigger] self.backtrack@[e]).board@,
                        self.board@,
                    ) by {
                        assert(self.backtrack@[e] == pre.backtrack@[e]);
                        assert(grids_conflict(pre.backtrack@[e].board@,
                            pre.backtrack@[top].board@));
                    }
                    assert forall|e1: int, e2: int|
                        0 <= e1 < e2 < self.backtrack@.len() implies grids_conflict(
                        (#[trigger] self.backtrack@[e1]).board@,
                        (#[trigger] self.backtrack@[e2]).board@,
                    ) by {
                        assert(self.backtrack@[e1] == pre.backtrack@[e1]);
                        assert(self.backtrack@[e2] == pre.backtrack@[e2]);
                    }
                    assert forall|e: int|
                        0 <= e < self.backtrack@.len() implies state_wf(
                        #[trigger] self.backtrack@[e],
                        self.spec_width() as int,
                        self.spec_height() as int,
                    ) by {
                        assert(self.backtrack@[e] == pre.backtrack@[e]);
                    }
                    // the measure loses the whole weight of the popped entry
                    let utop = unknowns_in_grid(self.board@);
                    let ulive = unknowns_in_grid(pre.board@);
                    assert(pre.backtrack@.drop_last() =~= self.backtrack@);
                    assert(stack_phi(pre.backtrack@) == stack_phi(self.backtrack@) + 3 * pow3(
                        utop,
                    )) by {
                        assert(pre.backtrack@.last() == pre.backtrack@[top]);
                    }
                    lemma_pow3_pos(utop);
                    lemma_pow3_pos(ulive);
                    assert forall|g: Seq<Seq<bool>>| #[trigger] pre.excludes(g)
                        implies self.excludes(g) && grids_conflict(
                        self.board@,
                        lift_grid(g),
                    ) by {
                        assert(grids_conflict(pre.backtrack@[top].board@, lift_grid(g)));
                        assert forall|e: int|
                            0 <= e < self.backtrack@.len() implies grids_conflict(
                            (#[trigger] self.backtrack@[e]).board@,
                            lift_grid(g),
                        ) by {
                            assert(self.backtrack@[e] == pre.backtrack@[e]);
                        }
                    }
                    assert forall|e: int, g: Seq<Seq<bool>>|
                        0 <= e < pre.backtrack@.len() && #[trigger] entry_covers(
                            pre.backtrack@[e],
                            g,
                            pre.spec_width() as int,
                            pre.spec_height() as int,
                        ) implies self.covers(g) || (self.live_covers(g) && self.board@
                        == lift_grid(g)) by {
                        if e == top {
                            assert(self.board@ == pre.backtrack@[top].board@);
                            assert(self.rows_perms == pre.backtrack@[top].rows_perms);
                            assert(self.cols_perms == pre.backtrack@[top].cols_perms);
                            assert(self.live_covers(g));
                            if self.board@ != lift_grid(g) {
                                assert(self.covers(g));
                            }
                        } else {
                            assert(self.backtrack@[e] == pre.backtrack@[e]);
                            assert(self.covers(g));
                        }
                    }
                }
                true
            },
        }
    }

    /// Branch on an undetermined cell: save a copy with the cell blank and
    /// continue with the cell filled.
    fn guess(&mut self, x: usize, y: usize)
        requires
            old(self).wf(),
            x < old(self).spec_width(),
            y < old(self).spec_height(),
            old(self).board@[y as int][x as int] is None,
        ensures
            final(self).wf(),
            final(self).spec_width() == old(self).spec_width(),
            final(self).spec_height() == old(self).spec_height(),
            final(self).row_hints == old(self).row_hints,
            final(self).col_hints == old(self).col_hints,
            final(self).phi() < old(self).phi(),
            final(self).num_backtracks == (if old(self).num_backtracks < usize::MAX {
                (old(self).num_backtracks + 1) as usize
            } else {
                old(self).num_backtracks
            }),
            forall|g: Seq<Seq<bool>>|
                #[trigger] old(self).excludes(g) ==> final(self).excludes(g)
                    && grids_conflict(final(self).board@, lift_grid(g)),
            forall|g: Seq<Seq<bool>>|
                #[trigger] old(self).covers(g) ==> final(self).covers(g)
                    || (final(self).live_covers(g) && final(self).board@ == lift_grid(g)),
    {
        let ghost pre = *self;
        let mut alt_board = self.board.clone();
        alt_board.set_pos(x, y, Some(false));
        let alt = SearchState {
            board: alt_board,
            rows_perms: clone_perm_sets(&self.rows_perms),
            cols_perms: clone_perm_sets(&self.cols_perms),
        };
        let ghost altg = alt.board@;
        self.board.set_pos(x, y, Some(true));
        self.backtrack.push(alt);
        if self.num_backtracks < usize::MAX {
            self.num_backtracks = self.num_backtracks + 1;
        }
        proof {
            let live0 = pre.board@;
            let live1 = self.board@;
            // both branches keep every determined cell and settle one more
            assert(live1 == live0.update(y as int, live0[y as int].update(x as int, Some(
                true,
            ))));
            assert(altg == live0.update(y as int, live0[y as int].update(x as int, Some(
                false,
            ))));
            assert forall|y2: int, x2: int|
                0 <= y2 < live0.len() && 0 <= x2 < live0[y2].len() && (
                #[trigger] live0[y2][x2]) is Some implies live1[y2][x2] == live0[y2][x2]
                && altg[y2][x2] == live0[y2][x2] by {}
            assert(live1 != live0) by {
                assert(live1[y as int][x as int] == Some(true));
            }
            assert(altg != live0) by {
                assert(altg[y as int][x as int] == Some(false));
            }
            lemma_unknowns_grid_pointwise(live0, live1);
            lemma_unknowns_grid_pointwise(live0, altg);
            lemma_unknowns_grid_nonneg(live1);
            lemma_unknowns_grid_nonneg(altg);
            let u0 = unknowns_in_grid(live0);
            let u1 = unknowns_in_grid(live1);
            let ua = unknowns_in_grid(altg);
            assert(u0 >= 1);
            lemma_pow3_le(u1, u0 - 1);
            lemma_pow3_le(ua, u0 - 1);
            lemma_pow3_step(u0);
            lemma_pow3_pos(u0 - 1);
            assert(self.backtrack@ == pre.backtrack@.push(alt));
            lemma_stack_phi_push(pre.backtrack@, alt);
            lemma_stack_phi_nonneg(pre.backtrack@);
            assert(self.phi() == 2 * pow3(u1) + stack_phi(pre.backtrack@) + 3 * pow3(ua));
            assert(self.phi() < pre.phi());
            // the saved branch clashes with the live branch on the guessed cell
            assert forall|e: int|
                0 <= e < self.backtrack@.len() implies grids_conflict(
                (#[trigger] self.backtrack@[e]).board@,
                self.board@,
            ) by {
                if e < pre.backtrack@.len() {
                    assert(self.backtrack@[e] == pre.backtrack@[e]);
                    lemma_conflict_monotone(pre.backtrack@[e].board@, live0, live1);
                } else {
                    assert(self.backtrack@[e] == alt);
                    assert(altg[y as int][x as int] == Some(false));
                    assert(live1[y as int][x as int] == Some(true));
                }
            }
            assert forall|e1: int, e2: int|
                0 <= e1 < e2 < self.backtrack@.len() implies grids_conflict(
                (#[trigger] self.backtrack@[e1]).board@,
                (#[trigger] self.backtrack@[e2]).board@,
            ) by {
                if e2 < pre.backtrack@.len() {
                    assert(self.backtrack@[e1] == pre.backtrack@[e1]);
                    assert(self.backtrack@[e2] == pre.backtrack@[e2]);
                } else {
                    assert(self.backtrack@[e1] == pre.backtrack@[e1]);
                    assert(self.backtrack@[e2] == alt);
                    lemma_conflict_monotone(pre.backtrack@[e1].board@, live0, altg);
                }
            }
            assert forall|e: int|
                0 <= e < self.backtrack@.len() implies state_wf(
                #[trigger] self.backtrack@[e],
                self.spec_width() as int,
                self.spec_height() as int,
            ) by {
                if e < pre.backtrack@.len() {
                    assert(self.backtrack@[e] == pre.backtrack@[e]);
                } else {
                    assert(self.backtrack@[e] == alt);
                }
            }
            assert forall|g: Seq<Seq<bool>>| #[trigger] pre.excludes(g)
                implies self.excludes(g) && grids_conflict(self.board@, lift_grid(g)) by {
                // a fully determined grid cannot equal a board with a blank cell
                assert(grids_conflict(live0, lift_grid(g))) by {
                    if live0 == lift_grid(g) {
                        assert(lift_grid(g)[y as int][x as int] is Some);
                    }
                }
                lemma_conflict_monotone(lift_grid(g), live0, live1);
                lemma_conflict_monotone(lift_grid(g), live0, altg);
                assert(grids_conflict(live1, lift_grid(g))) by {
                    let (yc, xc) = choose|yc: int, xc: int|
                        #![trigger live0[yc][xc], lift_grid(g)[yc][xc]]
                        0 <= yc < live0.len() && 0 <= yc < lift_grid(g).len() && 0 <= xc
                            < live0[yc].len() && 0 <= xc < lift_grid(g)[yc].len()
                            && live0[yc][xc] is Some && lift_grid(g)[yc][xc] is Some
                            && live0[yc][xc] != lift_grid(g)[yc][xc];
                    assert(live1[yc][xc] == live0[yc][xc]);
                }
                assert(grids_conflict(altg, lift_grid(g))) by {
                    let (yc, xc) = choose|yc: int, xc: int|
                        #![trigger live0[yc][xc], lift_grid(g)[yc][xc]]
                        0 <= yc < live0.len() && 0 <= yc < lift_grid(g).len() && 0 <= xc
                            < live0[yc].len() && 0 <= xc < lift_grid(g)[yc].len()
                            && live0[yc][xc] is Some && lift_grid(g)[yc][xc] is Some
                            && live0[yc][xc] != lift_grid(g)[yc][xc];
                    assert(altg[yc][xc] == live0[yc][xc]);
                }
                assert forall|e: int|
                    0 <= e < self.backtrack@.len() implies grids_conflict(
                    (#[trigger] self.backtrack@[e]).board@,
                    lift_grid(g),
                ) by {
                    if e < pre.backtrack@.len() {
                        assert(self.backtrack@[e] == pre.backtrack@[e]);
                    } else {
                        assert(self.backtrack@[e] == alt);
                    }
                }
            }
            assert forall|g: Seq<Seq<bool>>| #[trigger] pre.covers(g)
                implies self.covers(g) || (self.live_covers(g) && self.board@ == lift_grid(
                g,
            )) by {
                if pre.live_covers(g) && pre.board@ != lift_grid(g) {
                    if g[y as int][x as int] {
                        assert(self.live_covers(g)) by {
                            assert forall|y2: int, x2: int|
                                0 <= y2 < self.board@.len() && 0 <= x2 < self.board@[y2].len()
                                    && (#[trigger] self.board@[y2][x2]) is Some
                                implies self.board@[y2][x2] == Some(g[y2][x2]) by {
                                if !(y2 == y && x2 == x) {
                                    assert(self.board@[y2][x2] == pre.board@[y2][x2]);
                                }
                            }
                        }
                        if self.board@ != lift_grid(g) {
                            assert(self.covers(g));
                        }
                    } else {
                        let wd = self.spec_width() as int;
                        let ht = self.spec_height() as int;
                        assert(entry_covers(alt, g, wd, ht)) by {
                            assert forall|y2: int|
                                0 <= y2 < alt.rows_perms@.len() implies views_of(
                                (#[trigger] alt.rows_perms@[y2])@,
                            ).contains(g[y2]) by {
                                assert(views_of(alt.rows_perms@[y2]@) =~= views_of(
                                    pre.rows_perms@[y2]@,
                                ));
                            }
                            assert forall|x2: int|
                                0 <= x2 < alt.cols_perms@.len() implies views_of(
                                (#[trigger] alt.cols_perms@[x2])@,
                            ).contains(grid_col(g, x2)) by {
                                assert(views_of(alt.cols_perms@[x2]@) =~= views_of(
                                    pre.cols_perms@[x2]@,
                                ));
                            }
                            assert forall|y2: int, x2: int|
                                0 <= y2 < altg.len() && 0 <= x2 < altg[y2].len() && (
                                #[trigger] altg[y2][x2]) is Some
                                implies altg[y2][x2] == Some(g[y2][x2]) by {
                                if !(y2 == y && x2 == x) {
                                    assert(altg[y2][x2] == pre.board@[y2][x2]);
                                }
                            }
                        }
                        assert(self.backtrack@[self.backtrack@.len() - 1] == alt);
                        assert(self.covers(g));
                    }
                } else {
                    let e = choose|e: int|
                        0 <= e < pre.backtrack@.len() && entry_covers(
                            #[trigger] pre.backtrack@[e],
                            g,
                            pre.spec_width() as int,
                            pre.spec_height() as int,
                        );
                    assert(self.backtrack@[e] == pre.backtrack@[e]);
                    assert(self.covers(g));
                }
            }
        }
    }
}


/// One propagation step keeps a grid shut out: the saved branch points are
/// untouched and the live board only became more determined.
proof fn lemma_step_keeps_excluded(
    pre: Picross,
    post: Picross,
    anchor: Seq<Seq<Option<bool>>>,
    g: Seq<Seq<bool>>,
)
    requires
        post.backtrack@ == pre.backtrack@,
        post.board@.len() == pre.board@.len(),
        forall|y: int|
            0 <= y < pre.board@.len() ==> (#[trigger] post.board@[y]).len()
                == pre.board@[y].len(),
        forall|y: int, x: int|
            0 <= y < pre.board@.len() && 0 <= x < pre.board@[y].len() && (
            #[trigger] pre.board@[y][x]) is Some ==> post.board@[y][x] == pre.board@[y][x],
        pre.excludes(g),
        grids_conflict(pre.board@, lift_grid(g)) || (pre.board@ == lift_grid(g) && pre.board@
            == anchor),
    ensures
        post.excludes(g),
        grids_conflict(post.board@, lift_grid(g)) || (post.board@ == lift_grid(g)
            && post.board@ == anchor),
{
    if grids_conflict(pre.board@, lift_grid(g)) {
        lemma_conflict_sym(pre.board@, lift_grid(g));
        lemma_conflict_monotone(lift_grid(g), pre.board@, post.board@);
        lemma_conflict_sym(post.board@, lift_grid(g));
    } else {
        // the live board was already fully determined, so nothing changed
        assert forall|y: int, x: int|
            0 <= y < pre.board@.len() && 0 <= x < pre.board@[y].len()
            implies post.board@[y][x] == pre.board@[y][x] by {
            assert(pre.board@[y] == lift_grid(g)[y]);
            assert(pre.board@[y][x] is Some);
        }
        assert(post.board@ =~~= pre.board@);
    }
}

impl Picross {
    /// Search for the next solution: propagate, guess and backtrack until a
    /// completed board passes the check against every hint, or the search
    /// space is exhausted.
    pub fn find_solution(&mut self) -> (r: Option<Board<Cell>>)
        requires
            old(self).wf(),
            forall|g: Seq<Seq<bool>>|
                #[trigger] old(self).is_solution(g) ==> old(self).covers(g) || old(
                    self,
                ).excludes(g),
        ensures
            final(self).wf(),
            final(self).spec_width() == old(self).spec_width(),
            final(self).spec_height() == old(self).spec_height(),
            final(self).row_hint_seq() == old(self).row_hint_seq(),
            final(self).col_hint_seq() == old(self).col_hint_seq(),
            r matches Some(sol) ==> sol.wf() && sol.spec_width() == old(self).spec_width()
                && sol.spec_height() == old(self).spec_height() && final(self).solution_ok(
                sol@,
            ) && final(self).excludes(sol@) && final(self).phi() < old(self).phi(),
            forall|g: Seq<Seq<bool>>|
                #[trigger] old(self).excludes(g) ==> final(self).excludes(g),
            r matches Some(sol) ==> (forall|g: Seq<Seq<bool>>|
                #[trigger] old(self).excludes(g) ==> sol@ != g),
            r is None ==> final(self).exhausted(),
            r matches Some(sol) ==> lift_grid(sol@) == final(self).board_view(),
            final(self).backtracks() >= old(self).backtracks(),
            r is None ==> (forall|g: Seq<Seq<bool>>|
                #[trigger] old(self).is_solution(g) ==> old(self).excludes(g)),
            forall|g: Seq<Seq<bool>>|
                #[trigger] old(self).is_solution(g) && old(self).covers(g) ==> (
                r matches Some(sol2) && (sol2@ == g || final(self).covers(g))),
            forall|g: Seq<Seq<bool>>|
                #[trigger] old(self).is_solution(g) ==> final(self).covers(g) || final(self).excludes(g),
    {
        let mut first_run = true;
        let mut dirty = false;
        loop
            invariant
                self.wf(),
                self.spec_width() == old(self).spec_width(),
                self.spec_height() == old(self).spec_height(),
                self.row_hints == old(self).row_hints,
                self.col_hints == old(self).col_hints,
                self.phi() <= old(self).phi(),
                self.backtracks() >= old(self).backtracks(),
                dirty ==> self.phi() < old(self).phi(),
                forall|g: Seq<Seq<bool>>|
                    #[trigger] old(self).excludes(g) ==> self.excludes(g) && (grids_conflict(
                        self.board@,
                        lift_grid(g),
                    ) || (self.board@ == lift_grid(g) && self.board@ == old(self).board@
                        && !dirty)),
                forall|g: Seq<Seq<bool>>|
                    #[trigger] old(self).covers(g) && old(self).is_solution(g) ==> self.covers(
                        g,
                    ) || (self.pending(g) && dirty),
                forall|g: Seq<Seq<bool>>|
                    #[trigger] old(self).is_solution(g) ==> old(self).covers(g) || old(
                        self,
                    ).excludes(g),
            decreases self.phi(),
        {
            proof {
                lemma_unknowns_grid_nonneg(self.board@);
                lemma_stack_phi_nonneg(self.backtrack@);
                lemma_pow3_pos(unknowns_in_grid(self.board@));
            }
            let ghost iter0 = *self;
            let ghost dirty0 = dirty;
            let row_res = self.pass_rows(first_run);
            let ghost mid = *self;
            proof {
                assert forall|g: Seq<Seq<bool>>| #[trigger] old(self).excludes(g)
                    implies self.excludes(g) && (grids_conflict(self.board@, lift_grid(g)) || (
                    self.board@ == lift_grid(g) && self.board@ == old(self).board@
                        && !dirty)) by {
                    lemma_step_keeps_excluded(iter0, *self, old(self).board@, g);
                    if !grids_conflict(self.board@, lift_grid(g)) {
                        if grids_conflict(iter0.board@, lift_grid(g)) {
                            lemma_conflict_sym(iter0.board@, lift_grid(g));
                            lemma_conflict_monotone(lift_grid(g), iter0.board@, self.board@);
                            lemma_conflict_sym(self.board@, lift_grid(g));
                        }
                    }
                }
                lemma_pow3_le(unknowns_in_grid(self.board@), unknowns_in_grid(iter0.board@));
                assert(self.phi() <= iter0.phi());
            }
            let row_contradiction = match row_res {
                PassResult::Contradiction => true,
                _ => false,
            };
            let mut progressed = match row_res {
                PassResult::Progressed => true,
                _ => false,
            };
            let mut contradicted = row_contradiction;
            if !contradicted {
                let col_res = self.pass_cols(first_run);
                proof {
                    assert forall|g: Seq<Seq<bool>>| #[trigger] old(self).excludes(g)
                        implies self.excludes(g) && (grids_conflict(self.board@, lift_grid(g))
                        || (self.board@ == lift_grid(g) && self.board@ == old(self).board@
                            && !dirty)) by {
                        lemma_step_keeps_excluded(mid, *self, old(self).board@, g);
                        if !grids_conflict(self.board@, lift_grid(g)) {
                            if grids_conflict(mid.board@, lift_grid(g)) {
                                lemma_conflict_sym(mid.board@, lift_grid(g));
                                lemma_conflict_monotone(lift_grid(g), mid.board@, self.board@);
                                lemma_conflict_sym(self.board@, lift_grid(g));
                            }
                        }
                    }
                    lemma_pow3_le(unknowns_in_grid(self.board@), unknowns_in_grid(mid.board@));
                    assert(self.phi() <= iter0.phi());
                }
                match col_res {
                    PassResult::Contradiction => {
                        contradicted = true;
                    },
                    PassResult::Progressed => {
                        progressed = true;
                    },
                    PassResult::Quiet => {},
                }
            }
            if contradicted {
                let ghost before_pop = *self;
                proof {
                    // a grid the live branch still covered cannot run into a
                    // contradiction, so only saved branch points cover one
                    assert forall|g: Seq<Seq<bool>>|
                        #[trigger] old(self).covers(g) && old(self).is_solution(g)
                        implies (exists|e: int|
                        0 <= e < before_pop.backtrack@.len() && entry_covers(
                            #[trigger] before_pop.backtrack@[e],
                            g,
                            before_pop.spec_width() as int,
                            before_pop.spec_height() as int,
                        )) by {
                        if iter0.live_covers(g) {
                            assert(!(row_res is Contradiction));
                            assert(mid.live_covers(g));
                            assert(false);
                        }
                        let e = choose|e: int|
                            0 <= e < iter0.backtrack@.len() && entry_covers(
                                #[trigger] iter0.backtrack@[e],
                                g,
                                iter0.spec_width() as int,
                                iter0.spec_height() as int,
                            );
                        assert(before_pop.backtrack@[e] == iter0.backtrack@[e]);
                    }
                }
                if !self.pop_state() {
                    proof {
                        assert forall|g: Seq<Seq<bool>>| #[trigger] old(self).is_solution(g)
                            implies old(self).excludes(g) by {
                            if old(self).covers(g) {
                                assert(self.backtrack@ == before_pop.backtrack@);
                                assert(before_pop.backtrack@.len() == 0);
                            }
                        }
                    }
                    return None;
                }
                dirty = true;
                proof {
                    assert(self.phi() < iter0.phi());
                    assert forall|g: Seq<Seq<bool>>|
                        #[trigger] old(self).covers(g) && old(self).is_solution(g)
                        implies self.covers(g) || self.pending(g) by {
                        // mention the lifted grid so the restored-branch
                        // fact from the pop applies to it
                        let lg = lift_grid(g);
                        assert(exists|e: int|
                            0 <= e < before_pop.backtrack@.len() && entry_covers(
                                #[trigger] before_pop.backtrack@[e],
                                g,
                                before_pop.spec_width() as int,
                                before_pop.spec_height() as int,
                            ));
                    }
                }
            } else {
                first_run = false;
                proof {
                    if progressed {
                        lemma_unknowns_grid_nonneg(self.board@);
                        lemma_pow3_lt(
                            unknowns_in_grid(self.board@),
                            unknowns_in_grid(iter0.board@),
                        );
                        assert(self.phi() < iter0.phi());
                    }
                }
                if progressed {
                    dirty = true;
                    proof {
                        // what was covered is still covered, or the live
                        // branch has just reached it
                        assert forall|g: Seq<Seq<bool>>|
                            #[trigger] old(self).covers(g) && old(self).is_solution(g)
                            implies self.covers(g) || self.pending(g) by {
                            if iter0.pending(g) {
                                lemma_total_board_fixed(iter0.board@, mid.board@, g);
                                lemma_total_board_fixed(mid.board@, self.board@, g);
                                assert(!(row_res is Progressed));
                                assert(false);
                            }
                            if iter0.live_covers(g) && iter0.board@ != lift_grid(g) {
                                assert(mid.live_covers(g));
                                assert(self.live_covers(g));
                                if self.board@ != lift_grid(g) {
                                    assert(self.covers(g));
                                }
                            } else {
                                let e = choose|e: int|
                                    0 <= e < iter0.backtrack@.len() && entry_covers(
                                        #[trigger] iter0.backtrack@[e],
                                        g,
                                        iter0.spec_width() as int,
                                        iter0.spec_height() as int,
                                    );
                                assert(self.backtrack@[e] == iter0.backtrack@[e]);
                                assert(self.covers(g));
                            }
                        }
                    }
                    match self.first_unknown() {
                        None => {
                            let sol = self.extract_solution();
                            if self.check_solution(&sol) {
                                proof {
                                    assert(final(self).row_hint_seq() =~= old(
                                        self,
                                    ).row_hint_seq());
                                    assert(final(self).col_hint_seq() =~= old(
                                        self,
                                    ).col_hint_seq());
                                    assert(self.excludes(sol@)) by {
                                        assert(self.board@ =~~= lift_grid(sol@));
                                    }
                                    assert forall|g: Seq<Seq<bool>>|
                                        #[trigger] old(self).excludes(g) implies sol@ != g by {
                                        if sol@ == g {
                                            assert(lift_grid(sol@) =~~= lift_grid(g));
                                            assert(self.board@ == lift_grid(g));
                                            lemma_no_self_conflict(lift_grid(g));
                                        }
                                    }
                                    assert forall|g: Seq<Seq<bool>>|
                                        #[trigger] old(self).is_solution(g) && old(
                                            self,
                                        ).covers(g) implies sol@ == g || self.covers(g) by {
                                        if !self.covers(g) {
                                            assert(self.pending(g));
                                            assert(lift_grid(sol@) == lift_grid(g)) by {
                                                assert(self.board@ =~~= lift_grid(sol@));
                                            }
                                            assert forall|yy: int|
                                                0 <= yy < g.len() implies sol@[yy] =~= g[yy] by {
                                                assert forall|xx: int|
                                                    0 <= xx < g[yy].len()
                                                    implies sol@[yy][xx] == g[yy][xx] by {
                                                    assert(lift_grid(sol@)[yy][xx] == lift_grid(
                                                        g,
                                                    )[yy][xx]);
                                                }
                                            }
                                            assert(sol@ =~= g);
                                        }
                                    }
                                    assert forall|g: Seq<Seq<bool>>|
                                        #[trigger] old(self).is_solution(g)
                                        implies self.covers(g) || self.excludes(g) by {
                                        if old(self).covers(g) {
                                            if !self.covers(g) {
                                                assert(self.pending(g));
                                                assert(lift_grid(sol@) == lift_grid(g)) by {
                                                    assert(self.board@ =~~= lift_grid(sol@));
                                                }
                                                assert forall|yy: int|
                                                    0 <= yy < g.len() implies sol@[yy] =~= g[yy] by {
                                                    assert forall|xx: int|
                                                        0 <= xx < g[yy].len()
                                                        implies sol@[yy][xx] == g[yy][xx] by {
                                                        assert(lift_grid(sol@)[yy][xx]
                                                            == lift_grid(g)[yy][xx]);
                                                    }
                                                }
                                                assert(sol@ =~= g);
                                                assert(self.excludes(sol@));
                                            }
                                        } else {
                                            assert(old(self).excludes(g));
                                        }
                                    }
                                }
                                return Some(sol);
                            }
                            let ghost before_pop = *self;
                            proof {
                                // a completed board that fails the check is
                                // no covered solution, so only saved branch
                                // points can cover one
                                assert forall|g: Seq<Seq<bool>>|
                                    #[trigger] old(self).covers(g) && old(self).is_solution(g)
                                    implies (exists|e: int|
                                    0 <= e < before_pop.backtrack@.len() && entry_covers(
                                        #[trigger] before_pop.backtrack@[e],
                                        g,
                                        before_pop.spec_width() as int,
                                        before_pop.spec_height() as int,
                                    )) by {
                                    assert(self.solution_ok(g) == old(self).solution_ok(g)) by {
                                        assert(self.row_hint_seq() =~= old(
                                            self,
                                        ).row_hint_seq());
                                        assert(self.col_hint_seq() =~= old(
                                            self,
                                        ).col_hint_seq());
                                    }
                                    if self.pending(g) {
                                        assert(lift_grid(sol@) == lift_grid(g)) by {
                                            assert(self.board@ =~~= lift_grid(sol@));
                                        }
                                        assert forall|yy: int|
                                            0 <= yy < g.len() implies sol@[yy] =~= g[yy] by {
                                            assert forall|xx: int|
                                                0 <= xx < g[yy].len() implies sol@[yy][xx]
                                                    == g[yy][xx] by {
                                                assert(lift_grid(sol@)[yy][xx] == lift_grid(
                                                    g,
                                                )[yy][xx]);
                                            }
                                        }
                                        assert(sol@ =~= g);
                                        assert(false);
                                    }
                                    if self.live_covers(g) && self.board@ != lift_grid(g) {
                                        assert(self.board@ =~~= lift_grid(g));
                                        assert(false);
                                    }
                                    assert(self.covers(g));
                                    let e = choose|e: int|
                                        0 <= e < self.backtrack@.len() && entry_covers(
                                            #[trigger] self.backtrack@[e],
                                            g,
                                            self.spec_width() as int,
                                            self.spec_height() as int,
                                        );
                                    assert(before_pop.backtrack@[e] == self.backtrack@[e]);
                                }
                            }
                            if !self.pop_state() {
                                proof {
                                    assert forall|g: Seq<Seq<bool>>|
                                        #[trigger] old(self).is_solution(g)
                                        implies old(self).excludes(g) by {
                                        if old(self).covers(g) {
                                            assert(self.backtrack@ == before_pop.backtrack@);
                                            assert(before_pop.backtrack@.len() == 0);
                                        }
                                    }
                                }
                                return None;
                            }
                            dirty = true;
                            proof {
                                assert forall|g: Seq<Seq<bool>>|
                                    #[trigger] old(self).covers(g) && old(self).is_solution(g)
                                    implies self.covers(g) || self.pending(g) by {
                                    // mention the lifted grid so the
                                    // restored-branch fact from the pop
                                    // applies to it
                                    let lg = lift_grid(g);
                                    assert(exists|e: int|
                                        0 <= e < before_pop.backtrack@.len() && entry_covers(
                                            #[trigger] before_pop.backtrack@[e],
                                            g,
                                            before_pop.spec_width() as int,
                                            before_pop.spec_height() as int,
                                        ));
                                }
                            }
                        },
                        Some(_) => {},
                    }
                } else {
                    match self.first_unknown() {
                        Some(p) => {
                            let (x, y) = p;
                            let ghost before_guess = *self;
                            self.guess(x, y);
                            dirty = true;
                            proof {
                                assert(self.phi() < iter0.phi());
                                assert forall|g: Seq<Seq<bool>>|
                                    #[trigger] old(self).covers(g) && old(self).is_solution(g)
                                    implies self.covers(g) || self.pending(g) by {
                                    assert(before_guess.board@ == iter0.board@);
                                    if iter0.pending(g) {
                                        assert(lift_grid(g)[p.1 as int][p.0 as int] is Some);
                                        assert(false);
                                    }
                                    assert(before_guess.covers(g)) by {
                                        if iter0.live_covers(g) && iter0.board@ != lift_grid(
                                            g,
                                        ) {
                                            assert(before_guess.live_covers(g));
                                        } else {
                                            let e = choose|e: int|
                                                0 <= e < iter0.backtrack@.len() && entry_covers(
                                                    #[trigger] iter0.backtrack@[e],
                                                    g,
                                                    iter0.spec_width() as int,
                                                    iter0.spec_height() as int,
                                                );
                                            assert(before_guess.backtrack@[e]
                                                == iter0.backtrack@[e]);
                                        }
                                    }
                                }
                            }
                        },
                        None => {
                            proof {
                                // what was covered is still covered, or the
                                // live branch has reached it
                                assert forall|g: Seq<Seq<bool>>|
                                    #[trigger] old(self).covers(g) && old(self).is_solution(g)
                                    implies self.covers(g) || self.pending(g) by {
                                    if iter0.pending(g) {
                                        assert(self.board@ == iter0.board@);
                                        assert(self.live_covers(g));
                                    } else if iter0.live_covers(g) && iter0.board@ != lift_grid(
                                        g,
                                    ) {
                                        assert(self.live_covers(g));
                                        if self.board@ != lift_grid(g) {
                                            assert(self.covers(g));
                                        }
                                    } else {
                                        let e = choose|e: int|
                                            0 <= e < iter0.backtrack@.len() && entry_covers(
                                                #[trigger] iter0.backtrack@[e],
                                                g,
                                                iter0.spec_width() as int,
                                                iter0.spec_height() as int,
                                            );
                                        assert(self.backtrack@[e] == iter0.backtrack@[e]);
                                        assert(self.covers(g));
                                    }
                                }
                            }
                            if dirty {
                                let sol = self.extract_solution();
                                if self.check_solution(&sol) {
                                    proof {
                                        assert(final(self).row_hint_seq() =~= old(self).row_hint_seq());
                                        assert(final(self).col_hint_seq() =~= old(self).col_hint_seq());
                                        assert(self.excludes(sol@)) by {
                                            assert(self.board@ =~~= lift_grid(sol@));
                                        }
                                        assert forall|g: Seq<Seq<bool>>|
                                            #[trigger] old(self).excludes(g) implies sol@ != g by {
                                            if sol@ == g {
                                                assert(lift_grid(sol@) =~~= lift_grid(g));
                                                assert(self.board@ == lift_grid(g));
                                                lemma_no_self_conflict(lift_grid(g));
                                            }
                                        }
                                        assert forall|g: Seq<Seq<bool>>|
                                            #[trigger] old(self).is_solution(g) && old(self).covers(g)
                                            implies sol@ == g || self.covers(g) by {
                                            if !self.covers(g) {
                                                assert(self.pending(g));
                                                assert(lift_grid(sol@) == lift_grid(g)) by {
                                                    assert(self.board@ =~~= lift_grid(sol@));
                                                }
                                                assert forall|yy: int|
                                                    0 <= yy < g.len() implies sol@[yy] =~= g[yy] by {
                                                    assert forall|xx: int|
                                                        0 <= xx < g[yy].len()
                                                        implies sol@[yy][xx] == g[yy][xx] by {
                                                        assert(lift_grid(sol@)[yy][xx] == lift_grid(g)[yy][xx]);
                                                    }
                                                }
                                                assert(sol@ =~= g);
                                            }
                                        }
                                        assert forall|g: Seq<Seq<bool>>|
                                            #[trigger] old(self).is_solution(g)
                                            implies self.covers(g) || self.excludes(g) by {
                                            if old(self).covers(g) {
                                                if !self.covers(g) {
                                                    assert(self.pending(g));
                                                    assert(lift_grid(sol@) == lift_grid(g)) by {
                                                        assert(self.board@ =~~= lift_grid(sol@));
                                                    }
                                                    assert forall|yy: int|
                                                        0 <= yy < g.len() implies sol@[yy] =~= g[yy] by {
                                                        assert forall|xx: int|
                                                            0 <= xx < g[yy].len()
                                                            implies sol@[yy][xx] == g[yy][xx] by {
                                                            assert(lift_grid(sol@)[yy][xx] == lift_grid(g)[yy][xx]);
                                                        }
                                                    }
                                                    assert(sol@ =~= g);
                                                    assert(self.excludes(sol@));
                                                }
                                            } else {
                                                assert(old(self).excludes(g));
                                            }
                                        }
                                    }
                                    return Some(sol);
                                }
                                let ghost before_pop = *self;
                                proof {
                                    // a completed board that fails the check is no
                                    // covered solution, so only saved branch points
                                    // can cover one
                                    assert forall|g: Seq<Seq<bool>>|
                                        #[trigger] old(self).covers(g) && old(self).is_solution(g)
                                        implies (exists|e: int|
                                        0 <= e < before_pop.backtrack@.len() && entry_covers(
                                            #[trigger] before_pop.backtrack@[e],
                                            g,
                                            before_pop.spec_width() as int,
                                            before_pop.spec_height() as int,
                                        )) by {
                                        assert(self.solution_ok(g) == old(self).solution_ok(g)) by {
                                            assert(self.row_hint_seq() =~= old(self).row_hint_seq());
                                            assert(self.col_hint_seq() =~= old(self).col_hint_seq());
                                        }
                                        if self.pending(g) {
                                            assert(lift_grid(sol@) == lift_grid(g)) by {
                                                assert(self.board@ =~~= lift_grid(sol@));
                                            }
                                            assert forall|yy: int|
                                                0 <= yy < g.len() implies sol@[yy] =~= g[yy] by {
                                                assert forall|xx: int|
                                                    0 <= xx < g[yy].len()
                                                    implies sol@[yy][xx] == g[yy][xx] by {
                                                    assert(lift_grid(sol@)[yy][xx] == lift_grid(g)[yy][xx]);
                                                }
                                            }
                                            assert(sol@ =~= g);
                                            assert(false);
                                        }
                                        if self.live_covers(g) && self.board@ != lift_grid(g) {
                                            assert(self.board@ =~~= lift_grid(g));
                                            assert(false);
                                        }
                                        assert(self.covers(g));
                                        let e = choose|e: int|
                                            0 <= e < self.backtrack@.len() && entry_covers(
                                                #[trigger] self.backtrack@[e],
                                                g,
                                                self.spec_width() as int,
                                                self.spec_height() as int,
                                            );
                                        assert(before_pop.backtrack@[e] == self.backtrack@[e]);
                                    }
                                }
                                if !self.pop_state() {
                                    proof {
                                        assert forall|g: Seq<Seq<bool>>|
                                            #[trigger] old(self).is_solution(g)
                                            implies old(self).excludes(g) by {
                                            if old(self).covers(g) {
                                                assert(before_pop.backtrack@.len() == 0);
                                            }
                                        }
                                    }
                                    return None;
                                }
                                dirty = true;
                                proof {
                                    assert forall|g: Seq<Seq<bool>>|
                                        #[trigger] old(self).covers(g) && old(self).is_solution(g)
                                        implies self.covers(g) || self.pending(g) by {
                                        // mention the lifted grid so the
                                        // restored-branch fact from the pop
                                        // applies to it
                                        let lg = lift_grid(g);
                                        assert(exists|e: int|
                                            0 <= e < before_pop.backtrack@.len() && entry_covers(
                                                #[trigger] before_pop.backtrack@[e],
                                                g,
                                                before_pop.spec_width() as int,
                                                before_pop.spec_height() as int,
                                            ));
                                    }
                                }
                            } else {
                                let ghost before_pop = *self;
                                proof {
                                    // nothing has happened yet in this call, so a
                                    // still-covered grid sits in a saved branch point
                                    assert forall|g: Seq<Seq<bool>>|
                                        #[trigger] old(self).covers(g) && old(self).is_solution(g)
                                        implies (exists|e: int|
                                        0 <= e < before_pop.backtrack@.len() && entry_covers(
                                            #[trigger] before_pop.backtrack@[e],
                                            g,
                                            before_pop.spec_width() as int,
                                            before_pop.spec_height() as int,
                                        )) by {
                                        assert(dirty0 == dirty);
                                        assert(iter0.covers(g));
                                        if iter0.live_covers(g) && iter0.board@ != lift_grid(g) {
                                            assert(self.board@ == iter0.board@);
                                            assert(self.board@ =~~= lift_grid(g));
                                            assert(false);
                                        }
                                        let e = choose|e: int|
                                            0 <= e < iter0.backtrack@.len() && entry_covers(
                                                #[trigger] iter0.backtrack@[e],
                                                g,
                                                iter0.spec_width() as int,
                                                iter0.spec_height() as int,
                                            );
                                        assert(before_pop.backtrack@[e] == iter0.backtrack@[e]);
                                    }
                                }
                                if !self.pop_state() {
                                    proof {
                                        assert forall|g: Seq<Seq<bool>>|
                                            #[trigger] old(self).is_solution(g)
                                            implies old(self).excludes(g) by {
                                            if old(self).covers(g) {
                                                assert(before_pop.backtrack@.len() == 0);
                                            }
                                        }
                                    }
                                    return None;
                                }
                                dirty = true;
                                proof {
                                    assert forall|g: Seq<Seq<bool>>|
                                        #[trigger] old(self).covers(g) && old(self).is_solution(g)
                                        implies self.covers(g) || self.pending(g) by {
                                        // mention the lifted grid so the
                                        // restored-branch fact from the pop
                                        // applies to it
                                        let lg = lift_grid(g);
                                        assert(exists|e: int|
                                            0 <= e < before_pop.backtrack@.len() && entry_covers(
                                                #[trigger] before_pop.backtrack@[e],
                                                g,
                                                before_pop.spec_width() as int,
                                                before_pop.spec_height() as int,
                                            ));
                                    }
                                }
                            }
                        },
                    }
                }
            }
            proof {
                lemma_phi_nonneg(*self);
            }
        }
    }

    pub fn partial_board(&self) -> (b: Board<Option<bool>>)
        requires
            self.wf(),
        ensures
            b.wf(),
            b.spec_width() == self.spec_width(),
            b.spec_height() == self.spec_height(),
            b@ == self.board_view(),
    {
        self.board.clone()
    }

    /// Every remaining solution of the puzzle, in search order.
    pub fn get_solutions(&mut self) -> (sols: Vec<Board<Cell>>)
        requires
            old(self).wf(),
            forall|g: Seq<Seq<bool>>|
                #[trigger] old(self).is_solution(g) ==> old(self).covers(g) || old(
                    self,
                ).excludes(g),
        ensures
            final(self).wf(),
            final(self).spec_width() == old(self).spec_width(),
            final(self).spec_height() == old(self).spec_height(),
            final(self).row_hint_seq() == old(self).row_hint_seq(),
            final(self).col_hint_seq() == old(self).col_hint_seq(),
            forall|i: int|
                0 <= i < sols@.len() ==> (#[trigger] sols@[i]).wf() && sols@[i].spec_width()
                    == old(self).spec_width() && sols@[i].spec_height() == old(
                    self,
                ).spec_height() && final(self).solution_ok(sols@[i]@),
            forall|i: int, j: int| 0 <= i < j < sols@.len() ==> sols@[i]@ != sols@[j]@,
            final(self).exhausted(),
            final(self).backtracks() >= old(self).backtracks(),
            forall|g: Seq<Seq<bool>>|
                #[trigger] old(self).is_solution(g) && !old(self).excludes(g) ==> (exists|i: int|
                    0 <= i < sols@.len() && sols@[i]@ == g),
    {
        let mut sols: Vec<Board<Cell>> = Vec::new();
        loop
            invariant
                self.wf(),
                self.spec_width() == old(self).spec_width(),
                self.spec_height() == old(self).spec_height(),
                self.row_hint_seq() == old(self).row_hint_seq(),
                self.col_hint_seq() == old(self).col_hint_seq(),
                self.backtracks() >= old(self).backtracks(),
                forall|i: int|
                    0 <= i < sols@.len() ==> (#[trigger] sols@[i]).wf()
                        && sols@[i].spec_width() == old(self).spec_width()
                        && sols@[i].spec_height() == old(self).spec_height()
                        && self.solution_ok(sols@[i]@) && self.excludes(sols@[i]@),
                forall|i: int, j: int| 0 <= i < j < sols@.len() ==> sols@[i]@ != sols@[j]@,
                forall|g: Seq<Seq<bool>>|
                    #[trigger] old(self).is_solution(g) ==> self.is_solution(g),
                forall|g: Seq<Seq<bool>>|
                    #[trigger] self.is_solution(g) ==> old(self).is_solution(g),
                forall|g: Seq<Seq<bool>>|
                    #[trigger] self.is_solution(g) ==> self.covers(g) || self.excludes(g),
                forall|g: Seq<Seq<bool>>|
                    #[trigger] old(self).is_solution(g) && !old(self).excludes(g) ==> (exists|
                        i: int,
                    |
                        0 <= i < sols@.len() && sols@[i]@ == g) || self.covers(g),
            decreases self.phi(),
        {
            proof {
                lemma_unknowns_grid_nonneg(self.board@);
                lemma_stack_phi_nonneg(self.backtrack@);
                lemma_pow3_pos(unknowns_in_grid(self.board@));
            }
            let ghost before = *self;
            match self.find_solution() {
                Some(sol) => {
                    proof {
                        assert forall|i: int| 0 <= i < sols@.len() implies self.excludes(
                            #[trigger] sols@[i]@,
                        ) && sol@ != sols@[i]@ by {
                            assert(before.excludes(sols@[i]@));
                        }
                        assert(self.solution_ok(sol@)) by {
                            assert(self.spec_width() == before.spec_width());
                        }
                        assert forall|i: int| 0 <= i < sols@.len() + 1 implies self.solution_ok(
                            (#[trigger] sols@.push(sol)[i])@,
                        ) by {
                            if i < sols@.len() {
                                assert(sols@.push(sol)[i] == sols@[i]);
                                assert(before.solution_ok(sols@[i]@));
                                assert(before.row_hint_seq() == self.row_hint_seq());
                                assert(before.col_hint_seq() == self.col_hint_seq());
                            } else {
                                assert(sols@.push(sol)[i] == sol);
                            }
                        }
                        // `is_solution` does not change across the call
                        assert forall|g: Seq<Seq<bool>>| #[trigger] before.is_solution(g)
                            implies self.is_solution(g) by {
                            assert(self.solution_ok(g) == before.solution_ok(g)) by {
                                assert(self.row_hint_seq() =~= before.row_hint_seq());
                                assert(self.col_hint_seq() =~= before.col_hint_seq());
                            }
                        }
                        assert forall|g: Seq<Seq<bool>>| #[trigger] self.is_solution(g)
                            implies before.is_solution(g) by {
                            assert(self.solution_ok(g) == before.solution_ok(g)) by {
                                assert(self.row_hint_seq() =~= before.row_hint_seq());
                                assert(self.col_hint_seq() =~= before.col_hint_seq());
                            }
                        }
                        // every not-yet-returned solution is either this one
                        // or still reachable
                        assert forall|g: Seq<Seq<bool>>|
                            #[trigger] old(self).is_solution(g) && !old(self).excludes(g)
                            implies (exists|i: int|
                            0 <= i < sols@.push(sol).len() && sols@.push(sol)[i]@ == g)
                            || self.covers(g) by {
                            if !(exists|i: int| 0 <= i < sols@.len() && sols@[i]@ == g) {
                                assert(before.covers(g));
                                assert(before.is_solution(g));
                                if sol@ == g {
                                    assert(sols@.push(sol)[sols@.len() as int]@ == g);
                                } else {
                                    assert(self.covers(g));
                                }
                            } else {
                                let i = choose|i: int|
                                    0 <= i < sols@.len() && sols@[i]@ == g;
                                assert(sols@.push(sol)[i]@ == g);
                            }
                        }
                    }
                    sols.push(sol);
                    proof {
                        lemma_phi_nonneg(*self);
                    }
                },
                None => {
                    proof {
                        // the search is used up: everything that was still
                        // reachable has been returned
                        assert forall|g: Seq<Seq<bool>>|
                            #[trigger] old(self).is_solution(g) && !old(self).excludes(g)
                            implies (exists|i: int|
                            0 <= i < sols@.len() && sols@[i]@ == g) by {
                            if !(exists|i: int| 0 <= i < sols@.len() && sols@[i]@ == g) {
                                assert(before.covers(g));
                                assert(before.is_solution(g));
                                lemma_covers_not_excludes(before, g);
                                assert(before.excludes(g));
                                assert(false);
                            }
                        }
                    }
                    return sols;
                },
            }
        }
    }
}


} // verus!
