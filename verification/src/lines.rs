//! Mathematical model of a single line (one row or one column).
//!
//! A finished line is a sequence of booleans (`true` = filled). Its
//! run-length sequence lists the lengths of the maximal filled runs in
//! order; a hint is satisfied exactly when the run-length sequence of the
//! line equals the hint. A line under construction is a sequence of
//! `Option<bool>`, where `None` marks a cell not determined yet.

use vstd::prelude::*;

verus! {

/// Number of `true` cells at the front of the line.
pub open spec fn leading_trues(s: Seq<bool>) -> nat
    decreases s.len(),
{
    if s.len() == 0 || !s[0] {
        0
    } else {
        1 + leading_trues(s.skip(1))
    }
}

/// The leading run is filled throughout and ends at a blank or the end.
pub proof fn lemma_leading_trues_bounds(s: Seq<bool>)
    ensures
        leading_trues(s) <= s.len(),
        forall|i: int| 0 <= i < leading_trues(s) ==> s[i],
        leading_trues(s) < s.len() ==> !s[leading_trues(s) as int],
    decreases s.len(),
{
    if s.len() > 0 && s[0] {
        lemma_leading_trues_bounds(s.skip(1));
        assert forall|i: int| 0 <= i < leading_trues(s) implies s[i] by {
            if i > 0 {
                assert(s.skip(1)[i - 1] == s[i]);
            }
        }
        if leading_trues(s) < s.len() {
            assert(s.skip(1)[leading_trues(s) as int - 1] == s[leading_trues(s) as int]);
        }
    }
}

/// If every cell of the line is filled, the leading run is the whole line.
pub proof fn lemma_leading_trues_all(s: Seq<bool>)
    requires
        forall|i: int| 0 <= i < s.len() ==> s[i],
    ensures
        leading_trues(s) == s.len(),
    decreases s.len(),
{
    if s.len() > 0 {
        assert(s[0]);
        assert forall|i: int| 0 <= i < s.skip(1).len() implies s.skip(1)[i] by {
            assert(s.skip(1)[i] == s[i + 1]);
        }
        lemma_leading_trues_all(s.skip(1));
    }
}

/// How the leading run of a concatenation relates to the parts.
pub proof fn lemma_leading_trues_concat(a: Seq<bool>, b: Seq<bool>)
    ensures
        leading_trues(a + b) == if leading_trues(a) == a.len() {
            a.len() + leading_trues(b)
        } else {
            leading_trues(a)
        },
    decreases a.len(),
{
    lemma_leading_trues_bounds(a);
    if a.len() == 0 {
        assert(a + b =~= b);
    } else if !a[0] {
        assert((a + b)[0] == a[0]);
    } else {
        assert((a + b)[0]);
        assert((a + b).skip(1) =~= a.skip(1) + b);
        lemma_leading_trues_concat(a.skip(1), b);
    }
}

/// The lengths of the maximal runs of filled cells, in order.
pub open spec fn run_lengths(s: Seq<bool>) -> Seq<int>
    decreases s.len(),
        via run_lengths_decreases
{
    if s.len() == 0 {
        Seq::empty()
    } else if !s[0] {
        run_lengths(s.skip(1))
    } else {
        seq![leading_trues(s) as int] + run_lengths(s.skip(leading_trues(s) as int))
    }
}

#[via_fn]
proof fn run_lengths_decreases(s: Seq<bool>) {
    if s.len() > 0 && s[0] {
        lemma_leading_trues_bounds(s);
    }
}

/// A hint as it appears in run-length form.
pub open spec fn hint_ints(h: Seq<usize>) -> Seq<int> {
    Seq::new(h.len(), |i: int| h[i] as int)
}

/// A finished line satisfies a hint when its run lengths equal the hint.
pub open spec fn line_satisfies(s: Seq<bool>, h: Seq<usize>) -> bool {
    run_lengths(s) == hint_ints(h)
}

/// Every run length is at least one.
pub proof fn lemma_run_lengths_positive(s: Seq<bool>)
    ensures
        forall|j: int| 0 <= j < run_lengths(s).len() ==> #[trigger] run_lengths(s)[j] >= 1,
    decreases s.len(),
{
    if s.len() == 0 {
    } else if !s[0] {
        lemma_run_lengths_positive(s.skip(1));
        assert(run_lengths(s) == run_lengths(s.skip(1)));
        assert forall|j: int| 0 <= j < run_lengths(s).len()
            implies #[trigger] run_lengths(s)[j] >= 1 by {
            assert(run_lengths(s.skip(1))[j] >= 1);
        }
    } else {
        lemma_leading_trues_bounds(s);
        let k = leading_trues(s) as int;
        assert(run_lengths(s) == seq![k] + run_lengths(s.skip(k)));
        lemma_run_lengths_positive(s.skip(k));
        assert forall|j: int| 0 <= j < run_lengths(s).len()
            implies #[trigger] run_lengths(s)[j] >= 1 by {
            if j == 0 {
                assert(run_lengths(s)[0] == k);
            } else {
                assert(run_lengths(s)[j] == run_lengths(s.skip(k))[j - 1]);
            }
        }
    }
}

/// A line has no runs exactly when it has no filled cell.
pub proof fn lemma_run_lengths_empty(s: Seq<bool>)
    ensures
        run_lengths(s) == Seq::<int>::empty() <==> (forall|i: int| 0 <= i < s.len() ==> !s[i]),
    decreases s.len(),
{
    if s.len() == 0 {
    } else if !s[0] {
        lemma_run_lengths_empty(s.skip(1));
        assert forall|i: int| 0 <= i < s.len() && run_lengths(s) == Seq::<int>::empty()
            implies !s[i] by {
            if i > 0 {
                assert(s.skip(1)[i - 1] == s[i]);
            }
        }
        if forall|i: int| 0 <= i < s.len() ==> !s[i] {
            assert forall|i: int| 0 <= i < s.skip(1).len() implies !s.skip(1)[i] by {
                assert(s.skip(1)[i] == s[i + 1]);
            }
        }
    } else {
        assert(run_lengths(s)[0] == leading_trues(s) as int);
        assert(run_lengths(s).len() > 0);
        assert(s[0]);
    }
}

/// Leading blanks do not contribute runs.
pub proof fn lemma_run_lengths_skip_blanks(s: Seq<bool>, k: int)
    requires
        0 <= k <= s.len(),
        forall|i: int| 0 <= i < k ==> !s[i],
    ensures
        run_lengths(s) == run_lengths(s.skip(k)),
    decreases k,
{
    if k > 0 {
        assert(!s[0]);
        assert(run_lengths(s) == run_lengths(s.skip(1)));
        assert forall|i: int| 0 <= i < k - 1 implies !s.skip(1)[i] by {
            assert(s.skip(1)[i] == s[i + 1]);
        }
        lemma_run_lengths_skip_blanks(s.skip(1), k - 1);
        assert(s.skip(1).skip(k - 1) =~= s.skip(k));
        assert(run_lengths(s.skip(1).skip(k - 1)) == run_lengths(s.skip(k)));
    } else {
        assert(s.skip(0) =~= s);
        assert(run_lengths(s.skip(0)) == run_lengths(s));
    }
}

/// A single filled run surrounded by blanks has exactly one run length.
pub proof fn lemma_run_lengths_block(s: Seq<bool>, start: int, len: int)
    requires
        0 <= start,
        1 <= len,
        start + len <= s.len(),
        forall|i: int| 0 <= i < s.len() ==> (s[i] <==> start <= i < start + len),
    ensures
        run_lengths(s) == seq![len],
{
    lemma_run_lengths_skip_blanks(s, start);
    let t = s.skip(start);
    assert forall|i: int| 0 <= i < t.len() implies (t[i] <==> i < len) by {
        assert(t[i] == s[i + start]);
    }
    let head = t.take(len);
    let tail = t.skip(len);
    assert(t =~= head + tail);
    assert forall|i: int| 0 <= i < head.len() implies head[i] by {
        assert(head[i] == t[i]);
    }
    lemma_leading_trues_all(head);
    lemma_leading_trues_concat(head, tail);
    assert(leading_trues(t) == len);
    assert(t[0]);
    assert(run_lengths(t) == seq![len] + run_lengths(t.skip(len)));
    assert forall|i: int| 0 <= i < tail.len() implies !tail[i] by {
        assert(tail[i] == t[i + len]);
    }
    lemma_run_lengths_empty(tail);
    assert(run_lengths(t) =~= seq![len]);
}

/// Joining two lines with one blank cell in between concatenates their runs.
pub proof fn lemma_run_lengths_join(p: Seq<bool>, q: Seq<bool>)
    ensures
        run_lengths(p + seq![false] + q) == run_lengths(p) + run_lengths(q),
    decreases p.len(),
{
    let w = p + seq![false] + q;
    if p.len() == 0 {
        assert(w =~= seq![false] + q);
        assert(!w[0]);
        assert(w.skip(1) =~= q);
        assert(run_lengths(p) + run_lengths(q) =~= run_lengths(q));
    } else if !p[0] {
        assert(w[0] == p[0]);
        assert(w.skip(1) =~= p.skip(1) + seq![false] + q);
        lemma_run_lengths_join(p.skip(1), q);
    } else {
        lemma_leading_trues_bounds(p);
        lemma_leading_trues_concat(p, seq![false] + q);
        assert(leading_trues(seq![false] + q) == 0);
        let k = leading_trues(p) as int;
        assert(leading_trues(w) == k) by {
            assert(w =~= p + (seq![false] + q));
        }
        assert(w[0] == p[0]);
        assert(run_lengths(w) == seq![k] + run_lengths(w.skip(k)));
        assert(w.skip(k) =~= p.skip(k) + seq![false] + q);
        lemma_run_lengths_join(p.skip(k), q);
        assert(run_lengths(w) =~= run_lengths(p) + run_lengths(q));
    }
}

/// Total of a sequence of integers.
pub open spec fn seq_sum(s: Seq<int>) -> int
    decreases s.len(),
{
    if s.len() == 0 {
        0
    } else {
        s[0] + seq_sum(s.skip(1))
    }
}

/// A line is at least as long as its runs plus the blanks separating them.
pub proof fn lemma_run_lengths_min_len(s: Seq<bool>)
    ensures
        seq_sum(run_lengths(s)) <= s.len(),
        run_lengths(s).len() >= 1 ==> seq_sum(run_lengths(s)) + run_lengths(s).len() - 1
            <= s.len(),
        seq_sum(run_lengths(s)) >= 0,
    decreases s.len(),
{
    if s.len() == 0 {
    } else if !s[0] {
        lemma_run_lengths_min_len(s.skip(1));
    } else {
        lemma_leading_trues_bounds(s);
        let k = leading_trues(s) as int;
        let rest = run_lengths(s.skip(k));
        assert((seq![k] + rest).skip(1) =~= rest);
        assert(seq_sum(run_lengths(s)) == k + seq_sum(rest));
        assert(run_lengths(s).len() == 1 + rest.len());
        if k == s.len() {
            assert(s.skip(k).len() == 0);
            assert(rest.len() == 0);
            assert(seq_sum(rest) == 0);
        } else {
            // the leading run is followed by a blank
            assert(!s[k]);
            assert(s.skip(k)[0] == s[k]);
            lemma_run_lengths_skip_blanks(s.skip(k), 1);
            assert(s.skip(k).skip(1) =~= s.skip(k + 1));
            lemma_run_lengths_min_len(s.skip(k + 1));
            assert(rest == run_lengths(s.skip(k + 1)));
        }
    }
}

/// For a line whose runs are a given prefix plus one final run, returns a
/// split point: everything before it realises the prefix, the cell at it is
/// blank, and everything after it realises the final run alone.
pub proof fn lemma_split_last_run(s: Seq<bool>, pre: Seq<int>, last: int) -> (i: int)
    requires
        run_lengths(s) == pre + seq![last],
        pre.len() >= 1,
    ensures
        1 <= i <= s.len() - last - 1,
        run_lengths(s.take(i)) == pre,
        !s[i],
        run_lengths(s.skip(i + 1)) == seq![last],
    decreases s.len(),
{
    assert(run_lengths(s).len() == pre.len() + 1);
    assert(s.len() > 0);
    lemma_run_lengths_positive(s);
    assert(last == run_lengths(s)[pre.len() as int]);
    assert(last >= 1);
    if !s[0] {
        let j = lemma_split_last_run(s.skip(1), pre, last);
        let i = j + 1;
        assert(s.take(i)[0] == s[0]);
        assert(s.take(i).skip(1) =~= s.skip(1).take(j));
        assert(run_lengths(s.take(i)) == pre);
        assert(s.skip(1)[j] == s[i]);
        assert(s.skip(i + 1) =~= s.skip(1).skip(j + 1));
        i
    } else {
        lemma_leading_trues_bounds(s);
        let k = leading_trues(s) as int;
        let rest = run_lengths(s.skip(k));
        assert(run_lengths(s) == seq![k] + rest);
        assert((seq![k] + rest)[0] == k);
        assert((pre + seq![last])[0] == pre[0]);
        assert(pre[0] == k);
        assert(rest =~= pre.skip(1) + seq![last]) by {
            assert(rest =~= (seq![k] + rest).skip(1));
            assert((pre + seq![last]).skip(1) =~= pre.skip(1) + seq![last]);
        }
        assert(k < s.len()) by {
            if k == s.len() {
                assert(s.skip(k).len() == 0);
                assert(rest.len() == 0);
            }
        }
        assert(!s[k]);
        if pre.len() == 1 {
            let i = k;
            assert(rest =~= seq![last]);
            // the part before the split is exactly the first run
            let head = s.take(i);
            assert forall|j: int| 0 <= j < head.len() implies
                (head[j] <==> 0 <= j < 0 + k) by {
                assert(head[j] == s[j]);
            }
            lemma_run_lengths_block(head, 0, k);
            assert(run_lengths(head) =~= pre);
            // the part after the split is the rest of the line
            assert(s.skip(k).skip(1) =~= s.skip(i + 1));
            assert(s.skip(k)[0] == s[k]);
            assert(run_lengths(s.skip(i + 1)) == seq![last]);
            lemma_run_lengths_min_len(s.skip(i + 1));
            let single = seq![last];
            assert(single.skip(1) =~= Seq::<int>::empty());
            assert(seq_sum(single.skip(1)) == 0);
            assert(seq_sum(single) == last);
            i
        } else {
            let j = lemma_split_last_run(s.skip(k), pre.skip(1), last);
            let i = k + j;
            assert(s.skip(k)[j] == s[i]);
            assert(s.skip(i + 1) =~= s.skip(k).skip(j + 1));
            // the part before the split starts with the first run, then
            // continues as the corresponding part of the remainder
            let head = s.take(i);
            let fst = s.take(k);
            let mid = s.skip(k).take(j);
            assert(head =~= fst + mid);
            assert forall|m: int| 0 <= m < fst.len() implies fst[m] by {
                assert(fst[m] == s[m]);
            }
            lemma_leading_trues_all(fst);
            lemma_leading_trues_concat(fst, mid);
            assert(mid[0] == s[k]);
            assert(leading_trues(mid) == 0);
            assert(leading_trues(head) == k);
            assert(head[0] == s[0]);
            assert(run_lengths(head) == seq![k] + run_lengths(head.skip(k)));
            assert(head.skip(k) =~= mid);
            assert(run_lengths(head) =~= pre);
            i
        }
    }
}

/// A line with a single filled run: `len` filled cells starting at `start`.
pub open spec fn block_pattern(n: int, start: int, len: int) -> Seq<bool> {
    Seq::new(n as nat, |k: int| start <= k < start + len)
}

/// A line whose runs are one single run is a block pattern; returns where
/// the run starts.
pub proof fn lemma_single_run_shape(s: Seq<bool>, len: int) -> (start: int)
    requires
        run_lengths(s) == seq![len],
    ensures
        1 <= len,
        0 <= start <= s.len() - len,
        s == block_pattern(s.len() as int, start, len),
    decreases s.len(),
{
    lemma_run_lengths_positive(s);
    assert(run_lengths(s)[0] == len);
    assert(s.len() > 0);
    if !s[0] {
        assert(run_lengths(s) == run_lengths(s.skip(1)));
        let inner = lemma_single_run_shape(s.skip(1), len);
        let start = inner + 1;
        assert forall|k: int| 0 <= k < s.len() implies s[k] == (start <= k < start + len) by {
            if k > 0 {
                assert(s[k] == s.skip(1)[k - 1]);
                assert(s.skip(1)[k - 1] == block_pattern(s.len() - 1, inner, len)[k - 1]);
            }
        }
        assert(s =~= block_pattern(s.len() as int, start, len));
        start
    } else {
        lemma_leading_trues_bounds(s);
        let k = leading_trues(s) as int;
        assert(run_lengths(s) == seq![k] + run_lengths(s.skip(k)));
        assert((seq![k] + run_lengths(s.skip(k)))[0] == k);
        assert(k == len);
        assert(run_lengths(s.skip(k)) =~= Seq::<int>::empty()) by {
            assert(run_lengths(s.skip(k)) =~= (seq![k] + run_lengths(s.skip(k))).skip(1));
            assert(seq![len].skip(1) =~= Seq::<int>::empty());
        }
        lemma_run_lengths_empty(s.skip(k));
        assert forall|m: int| 0 <= m < s.len() implies s[m] == (0 <= m < len) by {
            if m >= k {
                assert(s.skip(k)[m - k] == s[m]);
                assert(!s.skip(k)[m - k]);
            }
        }
        assert(s =~= block_pattern(s.len() as int, 0, len));
        0
    }
}

/// The mathematical contents of a list of patterns.
pub open spec fn views_of(s: Seq<Vec<bool>>) -> Seq<Seq<bool>> {
    Seq::new(s.len(), |i: int| s[i]@)
}

/// A line under construction: `None` marks an undetermined cell.
pub open spec fn pattern_fits(p: Seq<bool>, line: Seq<Option<bool>>) -> bool {
    &&& p.len() == line.len()
    &&& forall|i: int|
        0 <= i < line.len() ==> (#[trigger] line[i] matches Some(v) ==> p[i] == v)
}

/// A pattern that both satisfies the hint and agrees with what is known.
pub open spec fn valid_fit(p: Seq<bool>, h: Seq<usize>, line: Seq<Option<bool>>) -> bool {
    &&& p.len() == line.len()
    &&& run_lengths(p) == hint_ints(h)
    &&& pattern_fits(p, line)
}

/// The pointwise merge of a non-empty family of patterns: a cell is
/// determined exactly where every pattern agrees.
pub open spec fn merged_cell(ps: Seq<Seq<bool>>, i: int) -> Option<bool> {
    if forall|k: int| 0 <= k < ps.len() ==> (#[trigger] ps[k])[i] == ps[0][i] {
        Some(ps[0][i])
    } else {
        None
    }
}

/// A run of `c` filled cells.
pub open spec fn trues(c: int) -> Seq<bool> {
    Seq::new(c as nat, |i: int| true)
}

/// Appending one unterminated run to a line that does not end in a filled
/// cell appends exactly one run length.
pub proof fn lemma_run_lengths_tail_run(pre: Seq<bool>, c: int)
    requires
        c >= 0,
        pre.len() == 0 || !pre.last(),
    ensures
        run_lengths(pre + trues(c)) == run_lengths(pre) + (if c >= 1 {
            seq![c]
        } else {
            Seq::<int>::empty()
        }),
{
    if c == 0 {
        assert(pre + trues(0) =~= pre);
        assert(run_lengths(pre) + Seq::<int>::empty() =~= run_lengths(pre));
    } else if pre.len() == 0 {
        assert forall|i: int| 0 <= i < trues(c).len() implies
            (trues(c)[i] <==> 0 <= i < 0 + c) by {}
        lemma_run_lengths_block(trues(c), 0, c);
        assert(pre + trues(c) =~= trues(c));
        assert(run_lengths(pre) + seq![c] =~= seq![c]);
    } else {
        let head = pre.drop_last();
        assert(pre + trues(c) =~= head + seq![false] + trues(c));
        lemma_run_lengths_join(head, trues(c));
        assert forall|i: int| 0 <= i < trues(c).len() implies
            (trues(c)[i] <==> 0 <= i < 0 + c) by {}
        lemma_run_lengths_block(trues(c), 0, c);
        assert(pre =~= head + seq![false] + Seq::<bool>::empty());
        lemma_run_lengths_join(head, Seq::<bool>::empty());
        assert(run_lengths(Seq::<bool>::empty()) =~= Seq::<int>::empty());
        assert(run_lengths(pre) =~= run_lengths(head));
        assert(run_lengths(pre + trues(c)) =~= run_lengths(pre) + seq![c]);
    }
}

/// What the hint forces at cell `i` of a partially known line: a value on
/// which every pattern consistent with hint and line agrees, if any
/// consistent pattern exists at all.
pub open spec fn forced_cell(h: Seq<usize>, line: Seq<Option<bool>>, i: int) -> Option<bool> {
    if exists|s: Seq<bool>| valid_fit(s, h, line) {
        let w = choose|s: Seq<bool>| valid_fit(s, h, line);
        if forall|s: Seq<bool>| valid_fit(s, h, line) ==> s[i] == w[i] {
            Some(w[i])
        } else {
            None
        }
    } else {
        None
    }
}

/// Merging one more pattern keeps a cell determined exactly when the new
/// pattern agrees with the merge so far.
pub proof fn lemma_merged_cell_push(ps: Seq<Seq<bool>>, q: Seq<bool>, i: int)
    requires
        ps.len() >= 1,
    ensures
        forall|v: bool|
            merged_cell(ps.push(q), i) == Some(v) <==> (merged_cell(ps, i) == Some(v) && q[i]
                == v),
{
    let e = ps.push(q);
    assert(e[0] == ps[0]);
    assert forall|v: bool|
        merged_cell(e, i) == Some(v) <==> (merged_cell(ps, i) == Some(v) && q[i] == v) by {
        if merged_cell(e, i) == Some(v) {
            assert forall|k: int| 0 <= k < ps.len() implies (#[trigger] ps[k])[i] == ps[0][i] by {
                assert(e[k] == ps[k]);
                assert(e[k][i] == e[0][i]);
            }
            assert(e[ps.len() as int] == q);
            assert(q[i] == e[0][i]);
        }
        if merged_cell(ps, i) == Some(v) && q[i] == v {
            assert forall|k: int| 0 <= k < e.len() implies (#[trigger] e[k])[i] == e[0][i] by {
                if k < ps.len() {
                    assert(e[k] == ps[k]);
                    assert(ps[k][i] == ps[0][i]);
                } else {
                    assert(e[k] == q);
                }
            }
        }
    }
}

/// Merging a family of distinct patterns of one length determines every
/// cell exactly when a single pattern remains: one candidate fixes the
/// whole line, while two or more always leave at least one cell open.
pub proof fn lemma_merge_determined(ps: Seq<Seq<bool>>, width: int)
    requires
        ps.len() >= 1,
        forall|k: int| 0 <= k < ps.len() ==> (#[trigger] ps[k]).len() == width,
        forall|j: int, k: int| 0 <= j < k < ps.len() ==> ps[j] != ps[k],
    ensures
        (forall|i: int| 0 <= i < width ==> #[trigger] merged_cell(ps, i) is Some) <==> ps.len()
            == 1,
{
    if ps.len() == 1 {
        assert forall|i: int| 0 <= i < width implies #[trigger] merged_cell(ps, i) is Some by {
            assert(forall|k: int| 0 <= k < ps.len() ==> (#[trigger] ps[k])[i] == ps[0][i]);
        }
    } else {
        assert(ps[0] != ps[1]);
        if forall|i: int| 0 <= i < width ==> #[trigger] ps[0][i] == ps[1][i] {
            assert(ps[0] =~= ps[1]);
            assert(false);
        }
        let i = choose|i: int| 0 <= i < width && #[trigger] ps[0][i] != ps[1][i];
        assert(merged_cell(ps, i) is None) by {
            if forall|k: int| 0 <= k < ps.len() ==> (#[trigger] ps[k])[i] == ps[0][i] {
                assert(ps[1][i] == ps[0][i]);
            }
        }
    }
}

/// Every cell of the line is determined.
pub open spec fn fully_known(line: Seq<Option<bool>>) -> bool {
    forall|i: int| 0 <= i < line.len() ==> #[trigger] line[i] is Some
}

/// The boolean content of a fully determined line.
pub open spec fn known_cells(line: Seq<Option<bool>>) -> Seq<bool> {
    Seq::new(line.len(), |i: int| line[i] == Some(true))
}

} // verus!
