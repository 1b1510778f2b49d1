//! One hint sequence and the per-line brute-force solver built on it.
//!
//! A `Hint` owns the ordered block lengths of one line. `permutations`
//! enumerates every fill-pattern of a given length whose runs realise the
//! hint; `brute_progress` narrows a partially known line to everything the
//! hint forces.

use vstd::prelude::*;

use crate::dedup::{dedup_patterns, first_seen, lemma_first_seen_contains,
    lemma_first_seen_distinct};
use crate::lines::{
    block_pattern, forced_cell, fully_known, hint_ints, known_cells,
    lemma_run_lengths_tail_run, trues,
    lemma_merged_cell_push, lemma_run_lengths_block, lemma_run_lengths_empty,
    lemma_run_lengths_join, lemma_single_run_shape, lemma_split_last_run,
    merged_cell, pattern_fits, run_lengths, valid_fit, views_of,
};

verus! {

/// The ordered block lengths of one line; every block is positive.
pub struct Hint {
    blocks: Vec<usize>,
}

impl View for Hint {
    type V = Seq<usize>;

    closed spec fn view(&self) -> Seq<usize> {
        self.blocks@
    }
}

impl Hint {
    /// Every block length is positive.
    pub open spec fn wf(self) -> bool {
        forall|i: int| 0 <= i < self@.len() ==> self@[i] >= 1
    }

    /// A hint from its block lengths, left to right.
    pub fn new(blocks: Vec<usize>) -> (h: Hint)
        requires
            forall|i: int| 0 <= i < blocks@.len() ==> blocks@[i] >= 1,
        ensures
            h@ == blocks@,
            h.wf(),
    {
        Hint { blocks }
    }

    /// Number of blocks.
    pub fn len(&self) -> (n: usize)
        ensures
            n == self@.len(),
    {
        self.blocks.len()
    }
}

/// An independent copy of one fill-pattern.
pub(crate) fn copy_pattern(src: &Vec<bool>) -> (r: Vec<bool>)
    ensures
        r@ == src@,
{
    let n = src.len();
    let mut out: Vec<bool> = Vec::new();
    for i in 0..n
        invariant
            n == src@.len(),
            out@.len() == i,
            forall|j: int| 0 <= j < i ==> #[trigger] out@[j] == src@[j],
    {
        out.push(src[i]);
    }
    proof {
        assert(out@ =~= src@);
    }
    out
}

/// A fully blank pattern of the given length.
fn blank_pattern(length: usize) -> (r: Vec<bool>)
    ensures
        r@.len() == length,
        forall|i: int| 0 <= i < length ==> !(#[trigger] r@[i]),
{
    let mut out: Vec<bool> = Vec::new();
    for i in 0..length
        invariant
            out@.len() == i,
            forall|j: int| 0 <= j < i ==> !(#[trigger] out@[j]),
    {
        out.push(false);
    }
    out
}

/// Left part, one separating blank, right part.
fn join_patterns(p: &Vec<bool>, q: &Vec<bool>) -> (r: Vec<bool>)
    ensures
        r@ == p@ + seq![false] + q@,
{
    let mut out = copy_pattern(p);
    out.push(false);
    let n = q.len();
    for i in 0..n
        invariant
            n == q@.len(),
            out@.len() == p@.len() + 1 + i,
            forall|j: int| 0 <= j < p@.len() ==> #[trigger] out@[j] == p@[j],
            out@[p@.len() as int] == false,
            forall|j: int|
                p@.len() + 1 <= j < p@.len() + 1 + i ==> #[trigger] out@[j] == q@[j - p@.len()
                    - 1],
    {
        out.push(q[i]);
    }
    proof {
        assert(out@ =~= p@ + seq![false] + q@);
    }
    out
}

/// Does the pattern agree with every already determined cell of the line?
pub fn perm_matches(x: &Vec<bool>, y: &Vec<Option<bool>>) -> (r: bool)
    requires
        x@.len() == y@.len(),
    ensures
        r == pattern_fits(x@, y@),
{
    let n = x.len();
    for i in 0..n
        invariant
            n == x@.len(),
            x@.len() == y@.len(),
            forall|j: int|
                0 <= j < i ==> (#[trigger] y@[j] matches Some(v) ==> x@[j] == v),
    {
        let want = y[i];
        match want {
            Some(v) => {
                if x[i] != v {
                    proof {
                        assert(y@[i as int] matches Some(u) && x@[i as int] != u);
                    }
                    return false;
                }
            },
            None => {},
        }
    }
    true
}

/// Intersect an accumulated three-valued line with one more pattern: a cell
/// stays determined only where the pattern confirms it.
pub fn overlay(dst: Vec<Option<bool>>, src: &Vec<bool>) -> (r: Vec<Option<bool>>)
    requires
        dst@.len() == src@.len(),
    ensures
        r@.len() == dst@.len(),
        forall|i: int|
            0 <= i < dst@.len() ==> #[trigger] r@[i] == (if dst@[i] == Some(src@[i]) {
                dst@[i]
            } else {
                None::<bool>
            }),
{
    let ghost orig = dst@;
    let mut out = dst;
    let n = out.len();
    for i in 0..n
        invariant
            n == orig.len(),
            out@.len() == orig.len(),
            orig.len() == src@.len(),
            forall|j: int| i <= j < orig.len() ==> #[trigger] out@[j] == orig[j],
            forall|j: int|
                0 <= j < i ==> #[trigger] out@[j] == (if orig[j] == Some(src@[j]) {
                    orig[j]
                } else {
                    None::<bool>
                }),
    {
        let keep = match out[i] {
            Some(v) => v == src[i],
            None => false,
        };
        if !keep {
            out.set(i, None);
        }
    }
    out
}

/// Fold a pattern list into the three-valued line of cells on which every
/// pattern agrees; an empty list has no merge.
pub fn sum_perms(perms: &Vec<Vec<bool>>) -> (r: Option<Vec<Option<bool>>>)
    requires
        forall|j: int|
            0 <= j < perms@.len() ==> (#[trigger] perms@[j]@).len() == perms@[0]@.len(),
    ensures
        (r is None) <==> perms@.len() == 0,
        r matches Some(m) ==> m@.len() == perms@[0]@.len() && forall|i: int|
            0 <= i < m@.len() ==> #[trigger] m@[i] == merged_cell(views_of(perms@), i),
{
    if perms.len() == 0 {
        return None;
    }
    let ghost all = views_of(perms@);
    let width = perms[0].len();
    let mut acc: Vec<Option<bool>> = Vec::new();
    let first = &perms[0];
    for i in 0..width
        invariant
            width == perms@[0]@.len(),
            first@ == perms@[0]@,
            acc@.len() == i,
            forall|j: int| 0 <= j < i ==> #[trigger] acc@[j] == Some(first@[j]),
    {
        acc.push(Some(first[i]));
    }
    proof {
        assert forall|i: int| 0 <= i < width implies #[trigger] acc@[i] == merged_cell(
            all.take(1),
            i,
        ) by {
            assert(all.take(1)[0] == perms@[0]@);
            assert(forall|k: int|
                0 <= k < all.take(1).len() ==> (#[trigger] all.take(1)[k])[i] == all.take(
                    1,
                )[0][i]);
        }
    }
    let count = perms.len();
    for k in 1..count
        invariant
            count == perms@.len(),
            count >= 1,
            all == views_of(perms@),
            width == perms@[0]@.len(),
            forall|j: int|
                0 <= j < perms@.len() ==> (#[trigger] perms@[j]@).len() == perms@[0]@.len(),
            acc@.len() == width,
            forall|i: int|
                0 <= i < width ==> #[trigger] acc@[i] == merged_cell(all.take(k as int), i),
    {
        let ghost prev = acc@;
        acc = overlay(acc, &perms[k]);
        proof {
            assert(all.take(k + 1) =~= all.take(k as int).push(all[k as int]));
            assert forall|i: int| 0 <= i < width implies #[trigger] acc@[i] == merged_cell(
                all.take(k + 1),
                i,
            ) by {
                lemma_merged_cell_push(all.take(k as int), all[k as int], i);
                let here = merged_cell(all.take(k + 1), i);
                let before = merged_cell(all.take(k as int), i);
                assert(prev[i] == before);
                assert(all[k as int] == perms@[k as int]@);
                match before {
                    Some(v) => {
                        if perms@[k as int]@[i] == v {
                            assert(here == Some(v));
                        } else {
                            match here {
                                Some(u) => {
                                    assert(before == Some(u) && perms@[k as int]@[i] == u);
                                    assert(false);
                                },
                                None => {},
                            }
                        }
                    },
                    None => {
                        match here {
                            Some(u) => {
                                assert(before == Some(u));
                                assert(false);
                            },
                            None => {},
                        }
                    },
                }
            }
        }
    }
    proof {
        assert(all.take(count as int) =~= all);
    }
    Some(acc)
}

/// A way to cut a pattern at `ii`: the part before realises the leading
/// blocks, the cell at `ii` is blank, the part after realises the final
/// block alone.
spec fn split_ok(
    s: Seq<bool>,
    ii: int,
    length: int,
    lead: Seq<usize>,
    last: usize,
) -> bool {
    &&& s.len() == length
    &&& 1 <= ii <= length - (last as int) - 1
    &&& run_lengths(s.take(ii)) == hint_ints(lead)
    &&& !s[ii]
    &&& run_lengths(s.skip(ii + 1)) == seq![last as int]
}

/// The fully blank pattern of a given length.
pub open spec fn blank_of(n: int) -> Seq<bool> {
    Seq::new(n as nat, |i: int| false)
}

/// The single-block patterns in offset order: pattern `j` is the block at
/// offset `j`.
pub open spec fn single_block_list(n: int, len: int) -> Seq<Seq<bool>> {
    if len <= n {
        Seq::new((n - len + 1) as nat, |j: int| block_pattern(n, j, len))
    } else {
        Seq::empty()
    }
}

/// One left part joined, with a separating blank, to every right part in
/// order.
pub open spec fn join_with(p: Seq<bool>, qs: Seq<Seq<bool>>) -> Seq<Seq<bool>>
    decreases qs.len(),
{
    if qs.len() == 0 {
        Seq::empty()
    } else {
        join_with(p, qs.drop_last()).push(p + seq![false] + qs.last())
    }
}

/// Every left part joined to every right part, left-major.
pub open spec fn join_all(ps: Seq<Seq<bool>>, qs: Seq<Seq<bool>>) -> Seq<Seq<bool>>
    decreases ps.len(),
{
    if ps.len() == 0 {
        Seq::empty()
    } else {
        join_all(ps.drop_last(), qs) + join_with(ps.last(), qs)
    }
}

/// The joined patterns of all split points below `k`, in split-point order.
pub open spec fn split_pool(h: Seq<usize>, n: int, k: int) -> Seq<Seq<bool>>
    decreases h.len(), (if k >= 0 { k } else { 0 }), 0int,
{
    if k <= 1 || h.len() < 2 {
        Seq::empty()
    } else {
        split_pool(h, n, k - 1) + join_all(
            perm_list(h.drop_last(), k - 1),
            perm_list(seq![h.last()], n - (k - 1) - 1),
        )
    }
}

/// The exact pattern list that `permutations` returns, in order: the blank
/// pattern for an empty hint, the offsets in order for a single block, and
/// otherwise the first-seen deduplication of the split-point generation.
pub open spec fn perm_list(h: Seq<usize>, n: int) -> Seq<Seq<bool>>
    decreases h.len(), (if n >= 0 { n } else { 0 }) + 2, 1int,
{
    if h.len() == 0 {
        seq![blank_of(n)]
    } else if h.len() == 1 {
        single_block_list(n, h[0] as int)
    } else {
        let last = h.last() as int;
        let upper: int = if n > last {
            n - last
        } else {
            0
        };
        let bound: int = if upper > 1 {
            upper
        } else {
            1
        };
        first_seen(split_pool(h, n, bound))
    }
}

/// Appending a pattern keeps everything contained and adds the new one.
proof fn lemma_views_push(ps: Seq<Vec<bool>>, v: Vec<bool>)
    ensures
        views_of(ps.push(v)) == views_of(ps).push(v@),
        forall|x: Seq<bool>| views_of(ps).contains(x) ==> views_of(ps.push(v)).contains(x),
        views_of(ps.push(v)).contains(v@),
{
    assert(views_of(ps.push(v)) =~= views_of(ps).push(v@));
    assert forall|x: Seq<bool>| views_of(ps).contains(x) implies views_of(
        ps.push(v),
    ).contains(x) by {
        let j = views_of(ps).lemma_contains_to_index(x);
        assert(views_of(ps.push(v))[j] == x);
    }
    assert(views_of(ps.push(v))[ps.len() as int] == v@);
}

impl Hint {
    /// Every fill-pattern of exactly `length` cells whose filled runs
    /// realise this hint in order, with at least one blank between runs;
    /// without duplicates, in first-generated order.
    #[verifier::loop_isolation(false)]
    #[verifier::rlimit(80)]
    pub fn permutations(&self, length: usize) -> (r: Vec<Vec<bool>>)
        requires
            self.wf(),
        ensures
            forall|j: int|
                0 <= j < r@.len() ==> (#[trigger] r@[j]@).len() == length && run_lengths(
                    r@[j]@,
                ) == hint_ints(self@),
            forall|j: int, k: int| 0 <= j < k < r@.len() ==> r@[j]@ != r@[k]@,
            forall|s: Seq<bool>|
                s.len() == length && #[trigger] run_lengths(s) == hint_ints(self@)
                    ==> exists|j: int| 0 <= j < r@.len() && r@[j]@ == s,
            self@.len() == 0 ==> r@.len() == 1,
            self@.len() == 1 ==> r@.len() == (if self@[0] <= length {
                length - self@[0] + 1
            } else {
                0
            }),
            views_of(r@) == perm_list(self@, length as int),
        decreases self@.len(),
    {
        let n = self.blocks.len();
        if n == 0 {
            let pat = blank_pattern(length);
            let mut out: Vec<Vec<bool>> = Vec::new();
            out.push(pat);
            proof {
                assert(hint_ints(self@) =~= Seq::<int>::empty());
                lemma_run_lengths_empty(out@[0]@);
                assert(run_lengths(out@[0]@) =~= hint_ints(self@));
                assert forall|s: Seq<bool>|
                    s.len() == length && #[trigger] run_lengths(s) == hint_ints(self@)
                        implies exists|j: int| 0 <= j < out@.len() && out@[j]@ == s by {
                    lemma_run_lengths_empty(s);
                    assert(s =~= out@[0]@);
                    assert(out@[0]@ == s);
                }
                assert(out@[0]@ =~= blank_of(length as int));
                assert(views_of(out@) =~= seq![blank_of(length as int)]);
            }
            out
        } else if n == 1 {
            self.single_block_permutations(length)
        } else {
            let last_len = self.blocks[n - 1];
            let mut rest_blocks: Vec<usize> = Vec::new();
            for t in 0..(n - 1)
                invariant
                    rest_blocks@.len() == t,
                    forall|j: int| 0 <= j < t ==> #[trigger] rest_blocks@[j] == self@[j],
            {
                rest_blocks.push(self.blocks[t]);
            }
            let rest = Hint { blocks: rest_blocks };
            let mut single_blocks: Vec<usize> = Vec::new();
            single_blocks.push(last_len);
            let single = Hint { blocks: single_blocks };
            proof {
                assert(rest@.len() == n - 1);
                assert(single@.len() == 1);
                assert(hint_ints(self@) =~= hint_ints(rest@) + seq![last_len as int]);
            }
            let mut pool: Vec<Vec<bool>> = Vec::new();
            proof {
                assert(views_of(pool@) =~= Seq::<Seq<bool>>::empty());
            }
            let upper: usize = if length > last_len {
                length - last_len
            } else {
                0
            };
            let bound: usize = if upper > 1 {
                upper
            } else {
                1
            };
            for i in 1..bound
                invariant
                    forall|j: int|
                        0 <= j < pool@.len() ==> (#[trigger] pool@[j]@).len() == length
                            && run_lengths(pool@[j]@) == hint_ints(self@),
                    forall|s: Seq<bool>, ii: int|
                        1 <= ii < i && #[trigger] split_ok(s, ii, length as int, rest@, last_len)
                            ==> views_of(pool@).contains(s),
                    views_of(pool@) == split_pool(self@, length as int, i as int),
            {
                let subperms = rest.permutations(i);
                let lastperms = single.permutations(length - i - 1);
                proof {
                    assert(hint_ints(single@) =~= seq![last_len as int]);
                }
                let sp_len = subperms.len();
                for a in 0..sp_len
                    invariant
                        forall|j: int|
                            0 <= j < pool@.len() ==> (#[trigger] pool@[j]@).len() == length
                                && run_lengths(pool@[j]@) == hint_ints(self@),
                        forall|s: Seq<bool>, ii: int|
                            1 <= ii < i && #[trigger] split_ok(
                                s, ii, length as int, rest@, last_len,
                            ) ==> views_of(pool@).contains(s),
                        forall|s: Seq<bool>, a2: int|
                            0 <= a2 < a && #[trigger] split_ok(
                                s, i as int, length as int, rest@, last_len,
                            ) && #[trigger] subperms@[a2]@ == s.take(i as int)
                                ==> views_of(pool@).contains(s),
                        views_of(pool@) == split_pool(self@, length as int, i as int)
                            + join_all(
                            views_of(subperms@).take(a as int),
                            views_of(lastperms@),
                        ),
                {
                    let lp_len = lastperms.len();
                    for b in 0..lp_len
                        invariant
                            forall|j: int|
                                0 <= j < pool@.len() ==> (#[trigger] pool@[j]@).len() == length
                                    && run_lengths(pool@[j]@) == hint_ints(self@),
                            forall|s: Seq<bool>, ii: int|
                                1 <= ii < i && #[trigger] split_ok(
                                    s, ii, length as int, rest@, last_len,
                                ) ==> views_of(pool@).contains(s),
                            forall|s: Seq<bool>, a2: int|
                                0 <= a2 < a && #[trigger] split_ok(
                                    s, i as int, length as int, rest@, last_len,
                                ) && #[trigger] subperms@[a2]@ == s.take(i as int)
                                    ==> views_of(pool@).contains(s),
                            forall|s: Seq<bool>, b2: int|
                                0 <= b2 < b && #[trigger] split_ok(
                                    s, i as int, length as int, rest@, last_len,
                                ) && subperms@[a as int]@ == s.take(i as int)
                                    && #[trigger] lastperms@[b2]@ == s.skip(i as int + 1)
                                    ==> views_of(pool@).contains(s),
                            views_of(pool@) == split_pool(self@, length as int, i as int)
                                + join_all(
                                views_of(subperms@).take(a as int),
                                views_of(lastperms@),
                            ) + join_with(
                                views_of(subperms@)[a as int],
                                views_of(lastperms@).take(b as int),
                            ),
                    {
                        let item = join_patterns(&subperms[a], &lastperms[b]);
                        let ghost pool0 = pool@;
                        proof {
                            lemma_run_lengths_join(subperms@[a as int]@, lastperms@[b as int]@);
                            assert(run_lengths(item@) =~= hint_ints(self@));
                            assert(item@.len() == length);
                        }
                        pool.push(item);
                        proof {
                            lemma_views_push(pool0, item);
                            let sv = views_of(subperms@);
                            let lv = views_of(lastperms@);
                            assert(lv.take(b + 1).drop_last() =~= lv.take(b as int));
                            assert(lv.take(b + 1).last() == lastperms@[b as int]@);
                            assert(join_with(sv[a as int], lv.take(b + 1)) == join_with(
                                sv[a as int],
                                lv.take(b as int),
                            ).push(sv[a as int] + seq![false] + lastperms@[b as int]@));
                            assert(item@ == sv[a as int] + seq![false] + lastperms@[b as int]@);
                            assert(views_of(pool@) =~= split_pool(self@, length as int, i as int)
                                + join_all(sv.take(a as int), lv) + join_with(
                                sv[a as int],
                                lv.take(b + 1),
                            ));
                            assert forall|s: Seq<bool>, b2: int|
                                0 <= b2 < b + 1 && #[trigger] split_ok(
                                    s, i as int, length as int, rest@, last_len,
                                ) && subperms@[a as int]@ == s.take(i as int)
                                    && #[trigger] lastperms@[b2]@ == s.skip(i as int + 1)
                                    implies views_of(pool@).contains(s) by {
                                if b2 == b {
                                    assert(s =~= s.take(i as int) + seq![false] + s.skip(
                                        i as int + 1,
                                    ));
                                    assert(item@ == s);
                                    assert(views_of(pool@).contains(item@));
                                } else {
                                    assert(views_of(pool0).contains(s));
                                }
                            }
                        }
                    }
                    proof {
                        let sv = views_of(subperms@);
                        let lv = views_of(lastperms@);
                        assert(lv.take(lp_len as int) =~= lv);
                        assert(sv.take(a + 1).drop_last() =~= sv.take(a as int));
                        assert(sv.take(a + 1).last() == sv[a as int]);
                        assert(join_all(sv.take(a + 1), lv) == join_all(
                            sv.take(a as int),
                            lv,
                        ) + join_with(sv[a as int], lv));
                        assert(views_of(pool@) =~= split_pool(self@, length as int, i as int)
                            + join_all(sv.take(a + 1), lv));
                        assert forall|s: Seq<bool>, a2: int|
                            0 <= a2 < a + 1 && #[trigger] split_ok(
                                s, i as int, length as int, rest@, last_len,
                            ) && #[trigger] subperms@[a2]@ == s.take(i as int)
                                implies views_of(pool@).contains(s) by {
                            if a2 == a {
                                assert(run_lengths(s.skip(i as int + 1)) == hint_ints(single@));
                                assert(s.skip(i as int + 1).len() == length - i - 1);
                                let bw = choose|bw: int|
                                    0 <= bw < lastperms@.len() && lastperms@[bw]@ == s.skip(
                                        i as int + 1,
                                    );
                                assert(lastperms@[bw]@ == s.skip(i as int + 1));
                            }
                        }
                    }
                }
                proof {
                    let sv = views_of(subperms@);
                    let lv = views_of(lastperms@);
                    assert(sv.take(sp_len as int) =~= sv);
                    assert(rest@ =~= self@.drop_last());
                    assert(single@ =~= seq![self@.last()]);
                    assert(sv == perm_list(self@.drop_last(), i as int));
                    assert(lv == perm_list(seq![self@.last()], length - i - 1));
                    assert(split_pool(self@, length as int, i + 1) == split_pool(
                        self@,
                        length as int,
                        i as int,
                    ) + join_all(sv, lv));
                    assert(views_of(pool@) == split_pool(self@, length as int, i + 1));
                    assert forall|s: Seq<bool>, ii: int|
                        1 <= ii < i + 1 && #[trigger] split_ok(
                            s, ii, length as int, rest@, last_len,
                        ) implies views_of(pool@).contains(s) by {
                        if ii == i {
                            assert(run_lengths(s.take(i as int)) == hint_ints(rest@));
                            assert(s.take(i as int).len() == i);
                            let aw = choose|aw: int|
                                0 <= aw < subperms@.len() && subperms@[aw]@ == s.take(i as int);
                            assert(subperms@[aw]@ == s.take(i as int));
                        }
                    }
                }
            }
            let out = dedup_patterns(pool);
            proof {
                let pv = views_of(pool@);
                lemma_first_seen_contains(pv);
                lemma_first_seen_distinct(pv);
                assert(views_of(out@) == first_seen(pv));
                assert forall|j: int|
                    0 <= j < out@.len() implies (#[trigger] out@[j]@).len() == length
                        && run_lengths(out@[j]@) == hint_ints(self@) by {
                    assert(views_of(out@)[j] == out@[j]@);
                    assert(first_seen(pv).contains(out@[j]@));
                    assert(pv.contains(out@[j]@));
                    let k = pv.lemma_contains_to_index(out@[j]@);
                    assert(pool@[k]@ == out@[j]@);
                }
                assert forall|j: int, k: int| 0 <= j < k < out@.len() implies out@[j]@
                    != out@[k]@ by {
                    assert(views_of(out@)[j] == first_seen(pv)[j]);
                    assert(views_of(out@)[k] == first_seen(pv)[k]);
                }
                assert forall|s: Seq<bool>|
                    s.len() == length && #[trigger] run_lengths(s) == hint_ints(self@)
                        implies exists|j: int| 0 <= j < out@.len() && out@[j]@ == s by {
                    assert(run_lengths(s) =~= hint_ints(rest@) + seq![last_len as int]);
                    let ii = lemma_split_last_run(s, hint_ints(rest@), last_len as int);
                    assert(hint_ints(rest@).len() == rest@.len());
                    assert(split_ok(s, ii, length as int, rest@, last_len));
                    assert(ii + last_len + 1 <= length);
                    assert(upper == length - last_len);
                    assert(ii < bound);
                    assert(views_of(pool@).contains(s));
                    assert(first_seen(pv).contains(s));
                    let j = first_seen(pv).lemma_contains_to_index(s);
                    assert(views_of(out@)[j] == s);
                    assert(out@[j]@ == s);
                }
                assert(self@.last() == self@[n - 1]);
                assert(views_of(out@) == perm_list(self@, length as int));
            }
            out
        }
    }

    /// The patterns for a hint with exactly one block: one pattern per
    /// admissible offset of the block.
    #[verifier::loop_isolation(false)]
    fn single_block_permutations(&self, length: usize) -> (r: Vec<Vec<bool>>)
        requires
            self.wf(),
            self@.len() == 1,
        ensures
            forall|j: int|
                0 <= j < r@.len() ==> (#[trigger] r@[j]@).len() == length && run_lengths(
                    r@[j]@,
                ) == hint_ints(self@),
            forall|j: int, k: int| 0 <= j < k < r@.len() ==> r@[j]@ != r@[k]@,
            forall|s: Seq<bool>|
                s.len() == length && #[trigger] run_lengths(s) == hint_ints(self@)
                    ==> exists|j: int| 0 <= j < r@.len() && r@[j]@ == s,
            r@.len() == (if self@[0] <= length {
                length - self@[0] + 1
            } else {
                0
            }),
            views_of(r@) == single_block_list(length as int, self@[0] as int),
    {
        let ell = self.blocks[0];
        proof {
            assert(hint_ints(self@) =~= seq![self@[0] as int]);
        }
        if ell > length {
            let out: Vec<Vec<bool>> = Vec::new();
            proof {
                assert forall|s: Seq<bool>|
                    s.len() == length && #[trigger] run_lengths(s) == hint_ints(self@)
                        implies exists|j: int| 0 <= j < out@.len() && out@[j]@ == s by {
                    let st = lemma_single_run_shape(s, ell as int);
                    assert(false);
                }
                assert(views_of(out@) =~= single_block_list(length as int, ell as int));
            }
            return out;
        }
        let count = length - ell + 1;
        let mut out: Vec<Vec<bool>> = Vec::new();
        for i in 0..count
            invariant
                out@.len() == i,
                forall|j: int|
                    0 <= j < i ==> #[trigger] out@[j]@ == block_pattern(
                        length as int, j, ell as int,
                    ),
        {
            let mut pat: Vec<bool> = Vec::new();
            for k in 0..length
                invariant
                    pat@.len() == k,
                    forall|m: int| 0 <= m < k ==> #[trigger] pat@[m] == (i <= m < i + ell),
            {
                pat.push(k >= i && k < i + ell);
            }
            proof {
                assert(pat@ =~= block_pattern(length as int, i as int, ell as int));
            }
            out.push(pat);
        }
        proof {
            assert forall|j: int|
                0 <= j < out@.len() implies (#[trigger] out@[j]@).len() == length && run_lengths(
                    out@[j]@,
                ) == hint_ints(self@) by {
                assert(out@[j]@ == block_pattern(length as int, j, ell as int));
                lemma_run_lengths_block(out@[j]@, j, ell as int);
                assert(run_lengths(out@[j]@) =~= hint_ints(self@));
            }
            assert forall|j: int, k: int| 0 <= j < k < out@.len() implies out@[j]@
                != out@[k]@ by {
                assert(out@[j]@[j] == true);
                assert(out@[k]@[j] == false);
            }
            assert forall|s: Seq<bool>|
                s.len() == length && #[trigger] run_lengths(s) == hint_ints(self@)
                    implies exists|j: int| 0 <= j < out@.len() && out@[j]@ == s by {
                let st = lemma_single_run_shape(s, ell as int);
                assert(out@[st]@ == block_pattern(length as int, st, ell as int));
                assert(out@[st]@ == s);
            }
            assert(views_of(out@) =~= single_block_list(length as int, ell as int));
        }
        out
    }
}


/// The patterns that agree with what is known of the line.
pub open spec fn fits_pred(line: Seq<Option<bool>>) -> spec_fn(Seq<bool>) -> bool {
    |p: Seq<bool>| pattern_fits(p, line)
}

/// Keep only the patterns that agree with every determined cell.
pub(crate) fn retain_fitting(perms: &Vec<Vec<bool>>, line: &Vec<Option<bool>>) -> (r: Vec<Vec<bool>>)
    requires
        forall|j: int| 0 <= j < perms@.len() ==> (#[trigger] perms@[j]@).len() == line@.len(),
    ensures
        views_of(r@) == views_of(perms@).filter(fits_pred(line@)),
        forall|j: int|
            0 <= j < r@.len() ==> (#[trigger] r@[j]@).len() == line@.len() && pattern_fits(
                r@[j]@,
                line@,
            ),
{
    let ghost all = views_of(perms@);
    let ghost pred = fits_pred(line@);
    let mut out: Vec<Vec<bool>> = Vec::new();
    let n = perms.len();
    for j in 0..n
        invariant
            n == perms@.len(),
            all == views_of(perms@),
            pred == fits_pred(line@),
            forall|t: int| 0 <= t < perms@.len() ==> (#[trigger] perms@[t]@).len() == line@.len(),
            views_of(out@) == all.take(j as int).filter(pred),
    {
        let ghost out0 = out@;
        let keep = perm_matches(&perms[j], line);
        if keep {
            let item = copy_pattern(&perms[j]);
            out.push(item);
        }
        proof {
            let prefix = all.take(j as int);
            let cur = all.take(j + 1);
            assert(cur.drop_last() =~= prefix);
            assert(cur.last() == all[j as int]);
            assert(all[j as int] == perms@[j as int]@);
            assert(cur =~= prefix.push(all[j as int]));
            prefix.lemma_filter_push(all[j as int], pred);
            if keep {
                assert(pred(cur.last()));
                assert(cur.filter(pred) == prefix.filter(pred).push(cur.last()));
                assert(views_of(out@) =~= views_of(out0).push(perms@[j as int]@));
            } else {
                assert(!pred(cur.last()));
                assert(cur.filter(pred) == prefix.filter(pred));
            }
        }
    }
    proof {
        broadcast use vstd::seq_lib::group_filter_ensures;

        assert(all.take(n as int) =~= all);
        let fit = views_of(out@);
        assert forall|j: int|
            0 <= j < out@.len() implies (#[trigger] out@[j]@).len() == line@.len()
                && pattern_fits(out@[j]@, line@) by {
            assert(fit[j] == out@[j]@);
            assert(pred(fit[j]));
            all.lemma_filter_contains_rev(pred, fit[j]);
            let k = all.lemma_contains_to_index(fit[j]);
            assert(perms@[k]@ == fit[j]);
        }
    }
    out
}

impl Hint {
    /// Everything the hint forces on a partially known line: the merge of
    /// all patterns that realise the hint and agree with the determined
    /// cells, or nothing when no such pattern is left (a contradiction).
    pub fn brute_progress(&self, section: &Vec<Option<bool>>) -> (r: Option<Vec<Option<bool>>>)
        requires
            self.wf(),
        ensures
            (r is Some) <==> exists|s: Seq<bool>| valid_fit(s, self@, section@),
            r matches Some(m) ==> m@.len() == section@.len() && forall|i: int|
                0 <= i < m@.len() ==> #[trigger] m@[i] == forced_cell(self@, section@, i),
            (fully_known(section@) && run_lengths(known_cells(section@)) == hint_ints(self@))
                ==> (r matches Some(m2) && m2@ == section@),
    {
        broadcast use vstd::seq_lib::group_filter_ensures;

        let length = section.len();
        let perms = self.permutations(length);
        let filtered = retain_fitting(&perms, section);
        let ghost all = views_of(perms@);
        let ghost pred = fits_pred(section@);
        let ghost fit = views_of(filtered@);
        proof {
            assert(fit == all.filter(pred));
            // every pattern kept is a consistent pattern
            assert forall|j: int| 0 <= j < fit.len() implies valid_fit(
                fit[j], self@, section@,
            ) && (#[trigger] fit[j]).len() == length by {
                assert(pred(fit[j]));
                all.lemma_filter_contains_rev(pred, fit[j]);
                let k = all.lemma_contains_to_index(fit[j]);
                assert(perms@[k]@ == fit[j]);
            }
            // every consistent pattern is kept
            assert forall|s: Seq<bool>| valid_fit(s, self@, section@) implies fit.contains(
                s,
            ) by {
                assert(s.len() == length && run_lengths(s) == hint_ints(self@));
                let k = choose|k: int| 0 <= k < perms@.len() && perms@[k]@ == s;
                assert(all[k] == s);
                assert(pred(all[k]));
                all.lemma_filter_contains(pred, k);
            }
        }
        proof {
            assert forall|j: int|
                0 <= j < filtered@.len() implies (#[trigger] filtered@[j]@).len()
                    == filtered@[0]@.len() by {
                assert(fit[j].len() == length);
                assert(fit[0].len() == length);
            }
        }
        let merged = sum_perms(&filtered);
        proof {
            if merged is None {
                assert(filtered@.len() == 0);
                if exists|s: Seq<bool>| valid_fit(s, self@, section@) {
                    let s = choose|s: Seq<bool>| valid_fit(s, self@, section@);
                    assert(fit.contains(s));
                }
            } else {
                assert(filtered@.len() > 0);
                assert(valid_fit(fit[0], self@, section@));
            }
            if merged is Some {
                let m = merged.unwrap();
                assert(m@.len() == length);
                assert forall|i: int| 0 <= i < m@.len() implies #[trigger] m@[i] == forced_cell(
                    self@, section@, i,
                ) by {
                    let w = choose|s: Seq<bool>| valid_fit(s, self@, section@);
                    assert(valid_fit(w, self@, section@));
                    let kw = fit.lemma_contains_to_index(w);
                    match merged_cell(fit, i) {
                        Some(u) => {
                            assert forall|s: Seq<bool>|
                                valid_fit(s, self@, section@) implies s[i] == w[i] by {
                                let ks = fit.lemma_contains_to_index(s);
                                assert(fit[ks][i] == fit[0][i]);
                                assert(fit[kw][i] == fit[0][i]);
                            }
                            assert(fit[kw][i] == fit[0][i]);
                            assert(w[i] == u);
                            assert(forced_cell(self@, section@, i) == Some(u));
                        },
                        None => {
                            // two consistent patterns disagree at i
                            let kd = choose|kd: int|
                                0 <= kd < fit.len() && (#[trigger] fit[kd])[i] != fit[0][i];
                            assert(valid_fit(fit[kd], self@, section@));
                            assert(valid_fit(fit[0], self@, section@));
                            if forall|s: Seq<bool>|
                                valid_fit(s, self@, section@) ==> s[i] == w[i] {
                                assert(fit[kd][i] == w[i]);
                                assert(fit[0][i] == w[i]);
                                assert(false);
                            }
                            assert(forced_cell(self@, section@, i) is None);
                        },
                    }
                }
            }
            // a fully determined line that realises the hint is left as it is
            if fully_known(section@) && run_lengths(known_cells(section@)) == hint_ints(
                self@,
            ) {
                let u = known_cells(section@);
                assert(pattern_fits(u, section@));
                assert(valid_fit(u, self@, section@));
                assert(merged is Some);
                if merged is Some {
                    let m = merged.unwrap();
                    assert forall|s: Seq<bool>|
                        valid_fit(s, self@, section@) implies s == u by {
                        assert(s =~= u);
                    }
                    assert forall|i: int| 0 <= i < m@.len() implies m@[i]
                        == section@[i] by {
                        assert(m@[i] == forced_cell(self@, section@, i));
                        let w = choose|s: Seq<bool>| valid_fit(s, self@, section@);
                        assert(w == u);
                        assert(section@[i] is Some);
                        assert(u[i] == (section@[i] == Some(true)));
                        assert(forced_cell(self@, section@, i) == Some(u[i]));
                    }
                    assert(m@ =~= section@);
                }
            }
        }
        merged
    }
}


impl Hint {
    /// Does a finished line realise this hint exactly?
    #[verifier::loop_isolation(false)]
    pub fn satisfies(&self, line: &Vec<bool>) -> (r: bool)
        ensures
            r == (run_lengths(line@) == hint_ints(self@)),
    {
        let n = line.len();
        let mut runs: Vec<usize> = Vec::new();
        let mut cur: usize = 0;
        let ghost mut pre = Seq::<bool>::empty();
        for i in 0..n
            invariant
                cur <= i,
                pre.len() + cur == i,
                line@.take(i as int) == pre + trues(cur as int),
                pre.len() == 0 || !pre.last(),
                hint_ints(runs@) == run_lengths(pre),
        {
            if line[i] {
                cur = cur + 1;
                proof {
                    assert(line@.take(i + 1) =~= pre + trues(cur as int));
                }
            } else {
                let ghost oldcur = cur as int;
                let ghost oldruns = runs@;
                proof {
                    lemma_run_lengths_tail_run(pre, oldcur);
                }
                if cur > 0 {
                    runs.push(cur);
                    cur = 0;
                }
                proof {
                    let pre2 = line@.take(i + 1);
                    assert(pre2 =~= (pre + trues(oldcur)).push(false)) by {
                        assert(line@.take(i as int) == pre + trues(oldcur));
                    }
                    assert(pre2 =~= (pre + trues(oldcur)) + seq![false]
                        + Seq::<bool>::empty());
                    lemma_run_lengths_join(pre + trues(oldcur), Seq::<bool>::empty());
                    assert(run_lengths(Seq::<bool>::empty()) =~= Seq::<int>::empty());
                    assert(run_lengths(pre2) =~= run_lengths(pre + trues(oldcur)));
                    if oldcur >= 1 {
                        assert(runs@ =~= oldruns.push(oldcur as usize));
                        assert(hint_ints(runs@) =~= run_lengths(pre) + seq![oldcur]);
                    } else {
                        assert(hint_ints(runs@) =~= run_lengths(pre));
                    }
                    assert(hint_ints(runs@) =~= run_lengths(pre2));
                    pre = pre2;
                    assert(!pre.last());
                    assert(line@.take(i + 1) =~= pre + trues(0));
                }
            }
        }
        proof {
            assert(line@.take(n as int) =~= line@);
            lemma_run_lengths_tail_run(pre, cur as int);
        }
        if cur > 0 {
            runs.push(cur);
            proof {
                assert(hint_ints(runs@) =~= run_lengths(line@));
            }
        }
        proof {
            assert(hint_ints(runs@) == run_lengths(line@));
        }
        let m = runs.len();
        if m != self.blocks.len() {
            proof {
                assert(hint_ints(runs@).len() != hint_ints(self@).len());
            }
            return false;
        }
        for t in 0..m
            invariant
                m == runs@.len(),
                m == self@.len(),
                hint_ints(runs@) == run_lengths(line@),
                forall|j: int| 0 <= j < t ==> #[trigger] runs@[j] == self@[j],
        {
            if runs[t] != self.blocks[t] {
                proof {
                    assert(hint_ints(runs@)[t as int] != hint_ints(self@)[t as int]);
                }
                return false;
            }
        }
        proof {
            assert(hint_ints(runs@) =~= hint_ints(self@));
        }
        true
    }
}



} // verus!
