//! Ghost model of whole boards during solving: how many cells are still
//! undetermined, and when two partial boards contradict each other.

use vstd::prelude::*;

verus! {

/// Number of undetermined cells in one line.
pub open spec fn unknowns_in_row(row: Seq<Option<bool>>) -> int
    decreases row.len(),
{
    if row.len() == 0 {
        0
    } else {
        unknowns_in_row(row.drop_last()) + if row.last() is None {
            1int
        } else {
            0int
        }
    }
}

/// Number of undetermined cells on the whole board.
pub open spec fn unknowns_in_grid(g: Seq<Seq<Option<bool>>>) -> int
    decreases g.len(),
{
    if g.len() == 0 {
        0
    } else {
        unknowns_in_grid(g.drop_last()) + unknowns_in_row(g.last())
    }
}

/// A line has between zero and its length many undetermined cells.
pub proof fn lemma_unknowns_row_bounds(row: Seq<Option<bool>>)
    ensures
        0 <= unknowns_in_row(row) <= row.len(),
    decreases row.len(),
{
    if row.len() > 0 {
        lemma_unknowns_row_bounds(row.drop_last());
    }
}

/// A board never has a negative number of undetermined cells.
pub proof fn lemma_unknowns_grid_nonneg(g: Seq<Seq<Option<bool>>>)
    ensures
        0 <= unknowns_in_grid(g),
    decreases g.len(),
{
    if g.len() > 0 {
        lemma_unknowns_grid_nonneg(g.drop_last());
        lemma_unknowns_row_bounds(g.last());
    }
}

/// Keeping every determined cell can only reduce the number of unknowns,
/// and strictly reduces it when anything changed.
pub proof fn lemma_unknowns_row_pointwise(a: Seq<Option<bool>>, b: Seq<Option<bool>>)
    requires
        a.len() == b.len(),
        forall|i: int| 0 <= i < a.len() && #[trigger] a[i] is Some ==> b[i] == a[i],
    ensures
        unknowns_in_row(b) <= unknowns_in_row(a),
        b != a ==> unknowns_in_row(b) < unknowns_in_row(a),
    decreases a.len(),
{
    if a.len() == 0 {
        assert(a =~= b);
    } else {
        let a2 = a.drop_last();
        let b2 = b.drop_last();
        assert forall|i: int| 0 <= i < a2.len() && #[trigger] a2[i] is Some
            implies b2[i] == a2[i] by {
            assert(a2[i] == a[i]);
            assert(b2[i] == b[i]);
        }
        lemma_unknowns_row_pointwise(a2, b2);
        lemma_unknowns_row_bounds(a2);
        lemma_unknowns_row_bounds(b2);
        if a.last() is Some {
            assert(b.last() == a.last());
            if b != a {
                assert(b2 != a2) by {
                    if b2 == a2 {
                        assert forall|i: int| 0 <= i < a.len() implies a[i] == b[i] by {
                            if i < a.len() - 1 {
                                assert(a2[i] == a[i]);
                                assert(b2[i] == b[i]);
                            }
                        }
                        assert(a =~= b);
                    }
                }
            }
        } else {
            if b != a {
                if b.last() is None {
                    assert(b2 != a2) by {
                        if b2 == a2 {
                            assert forall|i: int| 0 <= i < a.len() implies a[i] == b[i] by {
                                if i < a.len() - 1 {
                                    assert(a2[i] == a[i]);
                                    assert(b2[i] == b[i]);
                                }
                            }
                            assert(a =~= b);
                        }
                    }
                }
            }
        }
    }
}

/// The board-level version of the statement above.
pub proof fn lemma_unknowns_grid_pointwise(a: Seq<Seq<Option<bool>>>, b: Seq<Seq<Option<bool>>>)
    requires
        a.len() == b.len(),
        forall|y: int| 0 <= y < a.len() ==> (#[trigger] a[y]).len() == b[y].len(),
        forall|y: int, x: int|
            0 <= y < a.len() && 0 <= x < a[y].len() && (#[trigger] a[y][x]) is Some ==> b[y][x]
                == a[y][x],
    ensures
        unknowns_in_grid(b) <= unknowns_in_grid(a),
        b != a ==> unknowns_in_grid(b) < unknowns_in_grid(a),
    decreases a.len(),
{
    if a.len() == 0 {
        assert(a =~= b);
    } else {
        let a2 = a.drop_last();
        let b2 = b.drop_last();
        assert forall|y: int, x: int|
            0 <= y < a2.len() && 0 <= x < a2[y].len() && (#[trigger] a2[y][x]) is Some
            implies b2[y][x] == a2[y][x] by {
            assert(a2[y] == a[y]);
            assert(b2[y] == b[y]);
        }
        assert forall|y: int| 0 <= y < a2.len() implies (#[trigger] a2[y]).len()
            == b2[y].len() by {
            assert(a2[y] == a[y]);
            assert(b2[y] == b[y]);
        }
        lemma_unknowns_grid_pointwise(a2, b2);
        assert forall|x: int|
            0 <= x < a.last().len() && (#[trigger] a.last()[x]) is Some
            implies b.last()[x] == a.last()[x] by {
            assert(a.last() == a[a.len() - 1]);
            assert(b.last() == b[b.len() - 1]);
        }
        assert(a.last().len() == b.last().len());
        lemma_unknowns_row_pointwise(a.last(), b.last());
        if b != a {
            if b.last() == a.last() {
                assert(b2 != a2) by {
                    if b2 == a2 {
                        assert forall|i: int| 0 <= i < a.len() implies a[i] == b[i] by {
                            if i < a.len() - 1 {
                                assert(a2[i] == a[i]);
                                assert(b2[i] == b[i]);
                            }
                        }
                        assert(a =~= b);
                    }
                }
            }
        }
    }
}

/// Two partial boards disagree on a cell that both have determined.
pub open spec fn grids_conflict(a: Seq<Seq<Option<bool>>>, b: Seq<Seq<Option<bool>>>) -> bool {
    exists|y: int, x: int|
        #![trigger a[y][x], b[y][x]]
        0 <= y < a.len() && 0 <= y < b.len() && 0 <= x < a[y].len() && 0 <= x < b[y].len()
            && a[y][x] is Some && b[y][x] is Some && a[y][x] != b[y][x]
}

/// A finished board seen as a board with every cell determined.
pub open spec fn lift_grid(g: Seq<Seq<bool>>) -> Seq<Seq<Option<bool>>> {
    Seq::new(g.len(), |y: int| Seq::new(g[y].len(), |x: int| Some(g[y][x])))
}

/// One column of a finished board.
pub open spec fn grid_col(g: Seq<Seq<bool>>, x: int) -> Seq<bool> {
    Seq::new(g.len(), |y: int| g[y][x])
}

/// Conflicting is mutual.
pub proof fn lemma_conflict_sym(a: Seq<Seq<Option<bool>>>, b: Seq<Seq<Option<bool>>>)
    ensures
        grids_conflict(a, b) == grids_conflict(b, a),
{
    if grids_conflict(a, b) {
        let (y, x) = choose|y: int, x: int|
            #![trigger a[y][x], b[y][x]]
            0 <= y < a.len() && 0 <= y < b.len() && 0 <= x < a[y].len() && 0 <= x < b[y].len()
                && a[y][x] is Some && b[y][x] is Some && a[y][x] != b[y][x];
        assert(b[y][x] is Some && a[y][x] is Some && b[y][x] != a[y][x]);
    }
    if grids_conflict(b, a) {
        let (y, x) = choose|y: int, x: int|
            #![trigger b[y][x], a[y][x]]
            0 <= y < b.len() && 0 <= y < a.len() && 0 <= x < b[y].len() && 0 <= x < a[y].len()
                && b[y][x] is Some && a[y][x] is Some && b[y][x] != a[y][x];
        assert(a[y][x] is Some && b[y][x] is Some && a[y][x] != b[y][x]);
    }
}

/// No board conflicts with itself.
pub proof fn lemma_no_self_conflict(a: Seq<Seq<Option<bool>>>)
    ensures
        !grids_conflict(a, a),
{
}

/// A conflict with a partial board survives any step that only fills in
/// undetermined cells.
pub proof fn lemma_conflict_monotone(
    e: Seq<Seq<Option<bool>>>,
    a: Seq<Seq<Option<bool>>>,
    b: Seq<Seq<Option<bool>>>,
)
    requires
        grids_conflict(e, a),
        a.len() == b.len(),
        forall|y: int| 0 <= y < a.len() ==> (#[trigger] a[y]).len() == b[y].len(),
        forall|y: int, x: int|
            0 <= y < a.len() && 0 <= x < a[y].len() && (#[trigger] a[y][x]) is Some ==> b[y][x]
                == a[y][x],
    ensures
        grids_conflict(e, b),
{
    let (y, x) = choose|y: int, x: int|
        #![trigger e[y][x], a[y][x]]
        0 <= y < e.len() && 0 <= y < a.len() && 0 <= x < e[y].len() && 0 <= x < a[y].len()
            && e[y][x] is Some && a[y][x] is Some && e[y][x] != a[y][x];
    assert(b[y][x] == a[y][x]);
    assert(e[y][x] is Some && b[y][x] is Some && e[y][x] != b[y][x]);
}

} // verus!
