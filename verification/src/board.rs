//! Dense rectangular grid of cells.
//!
//! The board owns one vector per row; its view is the sequence of row
//! contents. Every accessor is bounds-checked by contract: callers must
//! stay inside `width() x height()`.

use vstd::prelude::*;

verus! {

/// A rectangular grid of cells of type `T`.
pub struct Board<T> {
    rows: Vec<Vec<T>>,
    width: usize,
    height: usize,
}

impl<T> View for Board<T> {
    type V = Seq<Seq<T>>;

    closed spec fn view(&self) -> Seq<Seq<T>> {
        Seq::new(self.rows@.len(), |j: int| self.rows@[j]@)
    }
}

/// Relates the view to the stored rows; used throughout this module.
proof fn view_facts<T>(b: Board<T>)
    ensures
        b@.len() == b.rows@.len(),
        forall|j: int| 0 <= j < b.rows@.len() ==> #[trigger] b@[j] == b.rows@[j]@,
{
}

/// The same relation, instantiated for one row.
proof fn row_view_fact<T>(b: Board<T>, y: int)
    requires
        0 <= y < b.rows@.len(),
    ensures
        b@.len() == b.rows@.len(),
        b@[y] == b.rows@[y]@,
{
}

impl<T> Board<T> {
    /// Number of columns.
    pub closed spec fn spec_width(self) -> usize {
        self.width
    }

    /// Number of rows.
    pub closed spec fn spec_height(self) -> usize {
        self.height
    }

    /// The stored rows fill the announced rectangle exactly.
    pub open spec fn wf(self) -> bool {
        &&& self@.len() == self.spec_height()
        &&& forall|y: int|
            0 <= y < self@.len() ==> (#[trigger] self@[y]).len() == self.spec_width()
    }

    /// Number of columns.
    pub fn width(&self) -> (w: usize)
        ensures
            w == self.spec_width(),
    {
        self.width
    }

    /// Number of rows.
    pub fn height(&self) -> (h: usize)
        ensures
            h == self.spec_height(),
    {
        self.height
    }
}

impl<T: Copy> Board<T> {
    /// A `width x height` board with every cell set to `value`.
    pub fn new(width: usize, height: usize, value: T) -> (r: Self)
        ensures
            r.wf(),
            r.spec_width() == width,
            r.spec_height() == height,
            forall|y: int, x: int|
                0 <= y < height && 0 <= x < width ==> #[trigger] r@[y][x] == value,
    {
        let mut rows: Vec<Vec<T>> = Vec::new();
        for y in 0..height
            invariant
                rows@.len() == y,
                forall|j: int| 0 <= j < y ==> (#[trigger] rows@[j]@).len() == width,
                forall|j: int, x: int|
                    0 <= j < y && 0 <= x < width ==> #[trigger] rows@[j]@[x] == value,
        {
            let mut row: Vec<T> = Vec::new();
            for x in 0..width
                invariant
                    row@.len() == x,
                    forall|i: int| 0 <= i < x ==> #[trigger] row@[i] == value,
            {
                row.push(value);
            }
            rows.push(row);
        }
        let r = Board { rows, width, height };
        proof {
            view_facts(r);
        }
        r
    }

    /// A board with every cell set to the element type's default value.
    pub fn new_default(width: usize, height: usize) -> (r: Self) where T: Default
        ensures
            r.wf(),
            r.spec_width() == width,
            r.spec_height() == height,
            forall|y: int, x: int|
                0 <= y < height && 0 <= x < width ==> call_ensures(
                    <T as Default>::default,
                    (),
                    #[trigger] r@[y][x],
                ),
            forall|y: int, x: int, y2: int, x2: int|
                0 <= y < height && 0 <= x < width && 0 <= y2 < height && 0 <= x2 < width
                    ==> #[trigger] r@[y][x] == #[trigger] r@[y2][x2],
    {
        let value: T = T::default();
        Self::new(width, height, value)
    }

    /// One cell.
    pub fn pos(&self, x: usize, y: usize) -> (r: T)
        requires
            self.wf(),
            x < self.spec_width(),
            y < self.spec_height(),
        ensures
            r == self@[y as int][x as int],
    {
        proof {
            view_facts(*self);
            row_view_fact(*self, y as int);
        }
        self.rows[y][x]
    }

    /// A mutable handle on one cell.
    pub fn pos_mut(&mut self, x: usize, y: usize) -> (r: &mut T)
        requires
            old(self).wf(),
            x < old(self).spec_width(),
            y < old(self).spec_height(),
        ensures
            *r == old(self)@[y as int][x as int],
            final(self).spec_width() == old(self).spec_width(),
            final(self).spec_height() == old(self).spec_height(),
            final(self)@.len() == old(self)@.len(),
            forall|j: int|
                0 <= j < old(self)@.len() ==> (#[trigger] final(self)@[j]).len() == old(
                    self,
                )@[j].len(),
            forall|j: int|
                0 <= j < old(self)@.len() && j != y
                    ==> #[trigger] final(self)@[j] == old(self)@[j],
            final(self)@[y as int].len() == old(self)@[y as int].len(),
            forall|i: int|
                0 <= i < old(self)@[y as int].len() && i != x
                    ==> #[trigger] final(self)@[y as int][i] == old(self)@[y as int][i],
            final(self)@[y as int][x as int] == *final(r),
    {
        proof {
            view_facts(*self);
            row_view_fact(*self, y as int);
        }
        &mut self.rows[y][x]
    }

    /// Replace one cell.
    pub fn set_pos(&mut self, x: usize, y: usize, value: T)
        requires
            old(self).wf(),
            x < old(self).spec_width(),
            y < old(self).spec_height(),
        ensures
            final(self).wf(),
            final(self).spec_width() == old(self).spec_width(),
            final(self).spec_height() == old(self).spec_height(),
            final(self)@ == old(self)@.update(
                y as int,
                old(self)@[y as int].update(x as int, value),
            ),
    {
        proof {
            view_facts(*self);
            row_view_fact(*self, y as int);
        }
        let ghost prev = *self;
        self.rows[y][x] = value;
        proof {
            view_facts(*self);
            row_view_fact(*self, y as int);
            let target = prev@.update(y as int, prev@[y as int].update(x as int, value));
            assert forall|j: int| 0 <= j < self@.len() implies self@[j] == target[j] by {
                row_view_fact(*self, j);
                row_view_fact(prev, j);
            }
            assert(self@ =~= target);
        }
    }

    /// The contents of row `i`, left to right.
    pub fn row(&self, i: usize) -> (r: Vec<T>)
        requires
            self.wf(),
            i < self.spec_height(),
        ensures
            r@ == self@[i as int],
    {
        let width = self.width;
        let mut out: Vec<T> = Vec::new();
        for x in 0..width
            invariant
                self.wf(),
                i < self.spec_height(),
                width == self.spec_width(),
                out@.len() == x,
                forall|j: int| 0 <= j < x ==> #[trigger] out@[j] == self@[i as int][j],
        {
            proof {
                view_facts(*self);
                row_view_fact(*self, i as int);
            }
            out.push(self.rows[i][x]);
        }
        proof {
            assert(out@ =~= self@[i as int]);
        }
        out
    }

    /// The contents of column `x`, top to bottom.
    pub fn col(&self, x: usize) -> (r: Vec<T>)
        requires
            self.wf(),
            x < self.spec_width(),
        ensures
            r@.len() == self.spec_height(),
            forall|y: int| 0 <= y < self@.len() ==> #[trigger] r@[y] == self@[y][x as int],
    {
        let height = self.height;
        let mut out: Vec<T> = Vec::new();
        for y in 0..height
            invariant
                self.wf(),
                x < self.spec_width(),
                height == self.spec_height(),
                out@.len() == y,
                forall|j: int| 0 <= j < y ==> #[trigger] out@[j] == self@[j][x as int],
        {
            proof {
                view_facts(*self);
                row_view_fact(*self, y as int);
            }
            out.push(self.rows[y][x]);
        }
        out
    }

    /// Replace row `i` with the given values.
    pub fn set_row(&mut self, i: usize, vec: Vec<T>)
        requires
            old(self).wf(),
            i < old(self).spec_height(),
            vec@.len() == old(self).spec_width(),
        ensures
            final(self).wf(),
            final(self).spec_width() == old(self).spec_width(),
            final(self).spec_height() == old(self).spec_height(),
            final(self)@ == old(self)@.update(i as int, vec@),
    {
        self.set_row_slice(i, &vec);
    }

    /// Replace row `i`, borrowing the source values.
    pub fn set_row_slice(&mut self, i: usize, src: &Vec<T>)
        requires
            old(self).wf(),
            i < old(self).spec_height(),
            src@.len() == old(self).spec_width(),
        ensures
            final(self).wf(),
            final(self).spec_width() == old(self).spec_width(),
            final(self).spec_height() == old(self).spec_height(),
            final(self)@ == old(self)@.update(i as int, src@),
    {
        let width = self.width;
        let ghost orig = self@;
        for x in 0..width
            invariant
                self.wf(),
                i < self.spec_height(),
                width == self.spec_width(),
                self.spec_height() == old(self).spec_height(),
                src@.len() == width,
                self@.len() == orig.len(),
                forall|j: int| 0 <= j < orig.len() && j != i ==> #[trigger] self@[j] == orig[j],
                self@[i as int].len() == width,
                forall|j: int| 0 <= j < x ==> #[trigger] self@[i as int][j] == src@[j],
                forall|j: int|
                    x <= j < width ==> #[trigger] self@[i as int][j] == orig[i as int][j],
        {
            let ghost before = *self;
            proof {
                view_facts(*self);
                row_view_fact(*self, i as int);
            }
            self.rows[i][x] = src[x];
            proof {
                view_facts(*self);
                row_view_fact(*self, i as int);
                assert forall|j: int| 0 <= j < self@.len() && j != i
                    implies self@[j] == orig[j] by {
                    row_view_fact(*self, j);
                    row_view_fact(before, j);
                    assert(before@[j] == orig[j]);
                }
                assert(self@[i as int] == before@[i as int].update(x as int, src@[x as int]));
                assert forall|j: int| 0 <= j < self@.len()
                    implies (#[trigger] self@[j]).len() == width by {
                    if j != i {
                        row_view_fact(*self, j);
                        row_view_fact(before, j);
                        assert(before@[j] == orig[j]);
                        assert(self@[j] == orig[j]);
                    }
                }
            }
        }
        proof {
            assert(self@[i as int] =~= src@);
            assert(self@ =~= orig.update(i as int, src@));
        }
    }

    /// Replace column `x` with the given values.
    pub fn set_col(&mut self, x: usize, vec: Vec<T>)
        requires
            old(self).wf(),
            x < old(self).spec_width(),
            vec@.len() == old(self).spec_height(),
        ensures
            final(self).wf(),
            final(self).spec_width() == old(self).spec_width(),
            final(self).spec_height() == old(self).spec_height(),
            final(self)@.len() == old(self)@.len(),
            forall|y: int|
                0 <= y < old(self)@.len() ==> #[trigger] final(self)@[y] == old(self)@[y].update(
                    x as int,
                    vec@[y],
                ),
    {
        let height = self.height;
        for y in 0..height
            invariant
                self.wf(),
                x < self.spec_width(),
                height == self.spec_height(),
                self.spec_width() == old(self).spec_width(),
                self.spec_height() == old(self).spec_height(),
                vec@.len() == height,
                self@.len() == old(self)@.len(),
                forall|j: int|
                    0 <= j < y ==> #[trigger] self@[j] == old(self)@[j].update(
                        x as int,
                        vec@[j],
                    ),
                forall|j: int| y <= j < height ==> #[trigger] self@[j] == old(self)@[j],
        {
            let ghost before = *self;
            proof {
                view_facts(*self);
                row_view_fact(*self, y as int);
            }
            self.rows[y][x] = vec[y];
            proof {
                view_facts(*self);
                row_view_fact(*self, y as int);
                assert(self@[y as int] == before@[y as int].update(x as int, vec@[y as int]));
                assert(before@[y as int] == old(self)@[y as int]);
                assert forall|j: int| 0 <= j < y + 1
                    implies #[trigger] self@[j] == old(self)@[j].update(x as int, vec@[j]) by {
                    row_view_fact(*self, j);
                    row_view_fact(before, j);
                    if j < y {
                        assert(before@[j] == old(self)@[j].update(x as int, vec@[j]));
                    } else {
                        assert(before@[j] == old(self)@[j]);
                    }
                }
                assert forall|j: int| y + 1 <= j < height
                    implies #[trigger] self@[j] == old(self)@[j] by {
                    row_view_fact(*self, j);
                    row_view_fact(before, j);
                }
                assert forall|j: int| 0 <= j < self@.len()
                    implies (#[trigger] self@[j]).len() == self.spec_width() by {
                    row_view_fact(*self, j);
                    row_view_fact(before, j);
                }
            }
        }
    }
}

impl<T: Copy> Clone for Board<T> {
    /// An independent deep copy, used for backtracking snapshots.
    fn clone(&self) -> (r: Self)
        ensures
            r@ == self@,
            r.spec_width() == self.spec_width(),
            r.spec_height() == self.spec_height(),
    {
        proof {
            view_facts(*self);
        }
        let mut rows: Vec<Vec<T>> = Vec::new();
        let height = self.rows.len();
        for y in 0..height
            invariant
                height == self.rows@.len(),
                rows@.len() == y,
                forall|j: int| 0 <= j < y ==> #[trigger] rows@[j]@ == self.rows@[j]@,
        {
            let src = &self.rows[y];
            let mut row: Vec<T> = Vec::new();
            let width = src.len();
            for x in 0..width
                invariant
                    width == src@.len(),
                    row@.len() == x,
                    forall|i: int| 0 <= i < x ==> #[trigger] row@[i] == src@[i],
            {
                row.push(src[x]);
            }
            proof {
                assert(row@ =~= src@);
            }
            rows.push(row);
        }
        let r = Board { rows, width: self.width, height: self.height };
        proof {
            view_facts(r);
            view_facts(*self);
            assert(r@ =~= self@);
        }
        r
    }
}

/// The character a finished cell is drawn as.
pub fn display_bool(x: bool) -> (c: char)
    ensures
        c == (if x {
            'X'
        } else {
            '.'
        }),
{
    if x {
        'X'
    } else {
        '.'
    }
}

/// The character a cell under solving is drawn as.
pub fn display_option_bool(x: Option<bool>) -> (c: char)
    ensures
        c == (match x {
            Some(y) => if y {
                'X'
            } else {
                '.'
            },
            None => '?',
        }),
{
    match x {
        Some(y) => display_bool(y),
        None => '?',
    }
}

impl<T> Default for Board<T> {
    /// An empty board with no rows and no columns.
    fn default() -> (r: Self)
        ensures
            r.wf(),
            r.spec_width() == 0,
            r.spec_height() == 0,
    {
        let r = Board { rows: Vec::new(), width: 0, height: 0 };
        proof {
            view_facts(r);
        }
        r
    }
}



} // verus!
