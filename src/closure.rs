use vstd::prelude::*;
use crate::itemset::{SetView, support, contains_all, lemma_support_antitone};
use crate::tally::{first_seen, flatten};
use crate::txn::{sort_spec, lemma_sort_spec, sorted, label_le};
use crate::rules::{bit, select, first_match, full_mask, antecedent_found, antecedents_found};
use vstd::arithmetic::power2::{pow2, lemma_pow2_unfold, lemma2_to64, lemma_pow2_pos};
use vstd::arithmetic::div_mod::lemma_div_denominator;
use crate::frequent::{
    level_of, lemma_level_members, joinable, join_row, join_all, labels_of_level, promote, next_level,
    grow, singles_view, keep_above, counted_labels,
};

verus! {

/// Each set's degree is its number of labels, and at least one.
pub open spec fn shaped(sets: Seq<SetView>) -> bool {
    forall|k: int| 0 <= k < sets.len() ==> #[trigger] sets[k].0 == sets[k].1.len() && sets[k].0 >= 1
}

/// Some set of `sets` has degree `d` and labels `items`.
pub open spec fn has_set(sets: Seq<SetView>, d: nat, items: Seq<Seq<char>>) -> bool {
    exists|a: int| 0 <= a < sets.len() && #[trigger] sets[a] == (d, items, sets[a].2)
}

proof fn lemma_row_origin(level: Seq<Seq<Seq<char>>>, i: int, j_end: int, k: nat, idx: int)
    requires
        0 <= idx < join_row(level, i, j_end, k).len(),
    ensures
        exists|j: int|
            i < j < j_end && joinable(level[i], level[j], k) && #[trigger] level[j][k - 1]
                == join_row(level, i, j_end, k)[idx].last() && join_row(level, i, j_end, k)[idx]
                == level[i].push(level[j][k - 1]),
    decreases j_end - i,
{
    let prev = join_row(level, i, j_end - 1, k);
    if idx < prev.len() {
        lemma_row_origin(level, i, j_end - 1, k, idx);
        let j = choose|j: int|
            i < j < j_end - 1 && joinable(level[i], level[j], k) && #[trigger] level[j][k - 1]
                == prev[idx].last() && prev[idx] == level[i].push(level[j][k - 1]);
    } else {
        let j = j_end - 1;
        assert(level[i].push(level[j][k - 1]).last() == level[j][k - 1]);
    }
}

proof fn lemma_join_origin(level: Seq<Seq<Seq<char>>>, i_end: int, k: nat, idx: int)
    requires
        0 <= idx < join_all(level, i_end, k).len(),
        i_end <= level.len(),
    ensures
        exists|i: int, j: int|
            0 <= i < j < level.len() && joinable(level[i], level[j], k) && #[trigger] level[i].push(
                level[j][k - 1],
            ) == join_all(level, i_end, k)[idx],
    decreases i_end,
{
    let prev = join_all(level, i_end - 1, k);
    if idx < prev.len() {
        lemma_join_origin(level, i_end - 1, k, idx);
    } else {
        lemma_row_origin(level, i_end - 1, level.len() as int, k, idx - prev.len());
    }
}

proof fn lemma_promote_origin(
    cands: Seq<Seq<Seq<char>>>,
    txns: Seq<Seq<Seq<char>>>,
    min_count: nat,
    d: nat,
    idx: int,
)
    requires
        0 <= idx < promote(cands, txns, min_count, d).len(),
    ensures
        promote(cands, txns, min_count, d)[idx].0 == d,
        cands.contains(promote(cands, txns, min_count, d)[idx].1),
    decreases cands.len(),
{
    let prev = promote(cands.drop_last(), txns, min_count, d);
    if idx < prev.len() {
        lemma_promote_origin(cands.drop_last(), txns, min_count, d, idx);
        let c = choose|c: int|
            0 <= c < cands.drop_last().len() && cands.drop_last()[c] == prev[idx].1;
        assert(cands[c] == prev[idx].1);
    } else {
        assert(cands[cands.len() - 1] == cands.last());
    }
}

/// The position of `x` among the labels `l`.
pub open spec fn rank(l: Seq<Seq<char>>, x: Seq<char>) -> int {
    l.index_of(x)
}

/// Along `s`, label sequences that agree on all but their last label come
/// with last labels of rising rank.
pub open spec fn sib_sorted(s: Seq<Seq<Seq<char>>>, l: Seq<Seq<char>>) -> bool {
    forall|t1: int, t2: int|
        0 <= t1 < t2 < s.len() && (#[trigger] s[t1]).drop_last() == (#[trigger] s[t2]).drop_last()
            ==> rank(l, s[t1].last()) < rank(l, s[t2].last())
}

/// Every set of degree `k >= 2` has each of its `k` subsets of `k - 1`
/// labels, in order, among the sets of degree `k - 1`.
pub open spec fn closed(sets: Seq<SetView>) -> bool {
    forall|x: int, r: int|
        0 <= x < sets.len() && sets[x].0 >= 2 && 0 <= r < sets[x].0 ==> has_set(
            sets,
            (sets[x].0 - 1) as nat,
            #[trigger] sets[x].1.remove(r),
        )
}

/// `l` is sorted, and every set's labels are labels of `l`, in rising rank.
pub open spec fn ranked(sets: Seq<SetView>, l: Seq<Seq<char>>) -> bool {
    &&& sorted(l)
    &&& forall|x: int, e: int|
        0 <= x < sets.len() && 0 <= e < sets[x].1.len() ==> l.contains(#[trigger] sets[x].1[e])
    &&& forall|x: int, i: int, j: int|
        0 <= x < sets.len() && 0 <= i < j < sets[x].1.len() ==> rank(l, #[trigger] sets[x].1[i])
            < rank(l, #[trigger] sets[x].1[j])
}

/// What holds of the collection once the degrees up to `d` are built.
pub open spec fn stage_ok(
    sets: Seq<SetView>,
    d: nat,
    txns: Seq<Seq<Seq<char>>>,
    min_count: nat,
    l: Seq<Seq<char>>,
) -> bool {
    &&& l.no_duplicates()
    &&& shaped(sets)
    &&& forall|x: int| 0 <= x < sets.len() ==> (#[trigger] sets[x]).0 <= d
    &&& ranked(sets, l)
    &&& forall|x: int| 0 <= x < sets.len() ==> support(txns, (#[trigger] sets[x]).1) >= min_count
    &&& forall|e: nat|
        1 <= e <= d ==> sib_sorted(labels_of_level(#[trigger] level_of(sets, e)), l)
    &&& forall|e: nat|
        1 <= e < d ==> level_of(sets, e + 1) == #[trigger] next_level(sets, txns, min_count, e)
    &&& closed(sets)
}

proof fn lemma_rank_of(l: Seq<Seq<char>>, i: int)
    requires
        l.no_duplicates(),
        0 <= i < l.len(),
    ensures
        rank(l, l[i]) == i,
{
    let j = l.index_of(l[i]);
    assert(l.contains(l[i]));
}

proof fn lemma_level_concat(a: Seq<SetView>, b: Seq<SetView>, e: nat)
    ensures
        level_of(a + b, e) == level_of(a, e) + level_of(b, e),
    decreases b.len(),
{
    if b.len() == 0 {
        assert(a + b =~= a);
        assert(level_of(a, e) + level_of(b, e) =~= level_of(a, e));
    } else {
        assert((a + b).drop_last() =~= a + b.drop_last());
        lemma_level_concat(a, b.drop_last(), e);
        if b.last().0 == e {
            assert(level_of(a, e) + level_of(b.drop_last(), e).push(b.last()) =~= (level_of(a, e)
                + level_of(b.drop_last(), e)).push(b.last()));
        }
    }
}

proof fn lemma_level_none(s: Seq<SetView>, e: nat)
    requires
        forall|x: int| 0 <= x < s.len() ==> (#[trigger] s[x]).0 != e,
    ensures
        level_of(s, e) == Seq::<SetView>::empty(),
    decreases s.len(),
{
    if s.len() > 0 {
        assert(s[s.len() - 1] == s.last());
        lemma_level_none(s.drop_last(), e);
    }
}

proof fn lemma_level_all(s: Seq<SetView>, e: nat)
    requires
        forall|x: int| 0 <= x < s.len() ==> (#[trigger] s[x]).0 == e,
    ensures
        level_of(s, e) == s,
    decreases s.len(),
{
    if s.len() > 0 {
        assert(s[s.len() - 1] == s.last());
        lemma_level_all(s.drop_last(), e);
        assert(s.drop_last().push(s.last()) =~= s);
    }
}

proof fn lemma_level_has(s: Seq<SetView>, e: nat, x: int)
    requires
        0 <= x < s.len(),
        s[x].0 == e,
    ensures
        level_of(s, e).contains(s[x]),
    decreases s.len(),
{
    if x < s.len() - 1 {
        lemma_level_has(s.drop_last(), e, x);
        let t = choose|t: int| 0 <= t < level_of(s.drop_last(), e).len() && level_of(s.drop_last(), e)[t] == s[x];
        if s.last().0 == e {
            assert(level_of(s, e)[t] == s[x]);
        }
    } else {
        assert(level_of(s, e).last() == s[x]);
    }
}

proof fn lemma_row_has(level: Seq<Seq<Seq<char>>>, i: int, j: int, j_end: int, k: nat)
    requires
        i < j < j_end,
        joinable(level[i], level[j], k),
    ensures
        join_row(level, i, j_end, k).contains(level[i].push(level[j][k - 1])),
    decreases j_end - i,
{
    let prev = join_row(level, i, j_end - 1, k);
    if j < j_end - 1 {
        lemma_row_has(level, i, j, j_end - 1, k);
        let t = choose|t: int| 0 <= t < prev.len() && prev[t] == level[i].push(level[j][k - 1]);
        assert(join_row(level, i, j_end, k)[t] == prev[t]);
    } else {
        assert(join_row(level, i, j_end, k).last() == level[i].push(level[j][k - 1]));
    }
}

proof fn lemma_join_has(level: Seq<Seq<Seq<char>>>, i: int, j: int, i_end: int, k: nat)
    requires
        0 <= i < j < level.len(),
        i < i_end,
        joinable(level[i], level[j], k),
    ensures
        join_all(level, i_end, k).contains(level[i].push(level[j][k - 1])),
    decreases i_end,
{
    let prev = join_all(level, i_end - 1, k);
    let row = join_row(level, i_end - 1, level.len() as int, k);
    if i < i_end - 1 {
        lemma_join_has(level, i, j, i_end - 1, k);
        let t = choose|t: int| 0 <= t < prev.len() && prev[t] == level[i].push(level[j][k - 1]);
        assert((prev + row)[t] == prev[t]);
    } else {
        lemma_row_has(level, i, j, level.len() as int, k);
        let t = choose|t: int| 0 <= t < row.len() && row[t] == level[i].push(level[j][k - 1]);
        assert((prev + row)[prev.len() + t] == row[t]);
    }
}

proof fn lemma_promote_has(
    cands: Seq<Seq<Seq<char>>>,
    txns: Seq<Seq<Seq<char>>>,
    min_count: nat,
    d: nat,
    c: Seq<Seq<char>>,
)
    requires
        cands.contains(c),
        support(txns, c) >= min_count,
    ensures
        promote(cands, txns, min_count, d).contains((d, c, support(txns, c))),
    decreases cands.len(),
{
    let prev = promote(cands.drop_last(), txns, min_count, d);
    let t = choose|t: int| 0 <= t < cands.len() && cands[t] == c;
    if t < cands.len() - 1 {
        assert(cands.drop_last()[t] == c);
        lemma_promote_has(cands.drop_last(), txns, min_count, d, c);
        let q = choose|q: int| 0 <= q < prev.len() && prev[q] == (d, c, support(txns, c));
        assert(promote(cands, txns, min_count, d)[q] == prev[q]);
    } else {
        assert(promote(cands, txns, min_count, d).last() == (d, c, support(txns, c)));
    }
}

proof fn lemma_promote_support(
    cands: Seq<Seq<Seq<char>>>,
    txns: Seq<Seq<Seq<char>>>,
    min_count: nat,
    d: nat,
    q: int,
)
    requires
        0 <= q < promote(cands, txns, min_count, d).len(),
    ensures
        support(txns, promote(cands, txns, min_count, d)[q].1) >= min_count,
    decreases cands.len(),
{
    let prev = promote(cands.drop_last(), txns, min_count, d);
    if q < prev.len() {
        lemma_promote_support(cands.drop_last(), txns, min_count, d, q);
    }
}

proof fn lemma_row_sorted(level: Seq<Seq<Seq<char>>>, i: int, j_end: int, k: nat, l: Seq<Seq<char>>)
    requires
        0 <= i,
        j_end <= level.len(),
        k >= 1,
        sib_sorted(level, l),
    ensures
        sib_sorted(join_row(level, i, j_end, k), l),
        forall|t: int|
            0 <= t < join_row(level, i, j_end, k).len() ==> (#[trigger] join_row(level, i, j_end, k)[t]).drop_last()
                == level[i],
    decreases j_end - i,
{
    if j_end > i + 1 {
        let prev = join_row(level, i, j_end - 1, k);
        lemma_row_sorted(level, i, j_end - 1, k, l);
        let j = j_end - 1;
        if joinable(level[i], level[j], k) {
            let e = level[i].push(level[j][k - 1]);
            let cur = prev.push(e);
            assert(e.drop_last() =~= level[i]);
            assert forall|t1: int, t2: int|
                0 <= t1 < t2 < cur.len() && (#[trigger] cur[t1]).drop_last() == (#[trigger] cur[t2]).drop_last()
                    implies rank(l, cur[t1].last()) < rank(l, cur[t2].last()) by {
                if t2 == cur.len() - 1 {
                    lemma_row_origin(level, i, j_end - 1, k, t1);
                    let j1 = choose|j1: int|
                        i < j1 < j_end - 1 && joinable(level[i], level[j1], k) && #[trigger] level[j1][k - 1]
                            == prev[t1].last() && prev[t1] == level[i].push(level[j1][k - 1]);
                    assert(level[j1].drop_last() =~= level[j1].take(k - 1));
                    assert(level[j].drop_last() =~= level[j].take(k - 1));
                    assert(level[j1][k - 1] == level[j1].last());
                    assert(level[j][k - 1] == level[j].last());
                    assert(level[j1].drop_last() == level[j].drop_last());
                    assert(cur[t2].last() == level[j][k - 1]);
                } else {
                    assert(cur[t1] == prev[t1] && cur[t2] == prev[t2]);
                }
            }
            assert forall|t: int| 0 <= t < cur.len() implies (#[trigger] cur[t]).drop_last() == level[i] by {
                if t < prev.len() {
                    assert(cur[t] == prev[t]);
                }
            }
        }
    }
}

proof fn lemma_join_sorted(level: Seq<Seq<Seq<char>>>, i_end: int, k: nat, l: Seq<Seq<char>>)
    requires
        0 <= i_end <= level.len(),
        k >= 1,
        sib_sorted(level, l),
    ensures
        sib_sorted(join_all(level, i_end, k), l),
        forall|t: int|
            0 <= t < join_all(level, i_end, k).len() ==> exists|i: int|
                0 <= i < i_end && (#[trigger] join_all(level, i_end, k)[t]).drop_last() == level[i],
    decreases i_end,
{
    if i_end > 0 {
        let prev = join_all(level, i_end - 1, k);
        let row = join_row(level, i_end - 1, level.len() as int, k);
        let cur = prev + row;
        lemma_join_sorted(level, i_end - 1, k, l);
        lemma_row_sorted(level, i_end - 1, level.len() as int, k, l);
        assert forall|t1: int, t2: int|
            0 <= t1 < t2 < cur.len() && (#[trigger] cur[t1]).drop_last() == (#[trigger] cur[t2]).drop_last()
                implies rank(l, cur[t1].last()) < rank(l, cur[t2].last()) by {
            if t2 < prev.len() {
                assert(cur[t1] == prev[t1] && cur[t2] == prev[t2]);
            } else if t1 >= prev.len() {
                assert(cur[t1] == row[t1 - prev.len()] && cur[t2] == row[t2 - prev.len()]);
            } else {
                assert(cur[t1] == prev[t1] && cur[t2] == row[t2 - prev.len()]);
                let i1 = choose|i: int| 0 <= i < i_end - 1 && (#[trigger] prev[t1]).drop_last() == level[i];
                assert(row[t2 - prev.len()].drop_last() == level[i_end - 1]);
                // two equal sets of the level would contradict its order
                assert(level[i1].drop_last() == level[i_end - 1].drop_last());
            }
        }
        assert forall|t: int| 0 <= t < cur.len() implies exists|i: int|
            0 <= i < i_end && (#[trigger] cur[t]).drop_last() == level[i] by {
            if t < prev.len() {
                assert(cur[t] == prev[t]);
                let i = choose|i: int| 0 <= i < i_end - 1 && (#[trigger] prev[t]).drop_last() == level[i];
            } else {
                assert(cur[t] == row[t - prev.len()]);
                assert(row[t - prev.len()].drop_last() == level[i_end - 1]);
            }
        }
    }
}

proof fn lemma_promote_sorted(
    cands: Seq<Seq<Seq<char>>>,
    txns: Seq<Seq<Seq<char>>>,
    min_count: nat,
    d: nat,
    l: Seq<Seq<char>>,
)
    requires
        sib_sorted(cands, l),
    ensures
        sib_sorted(labels_of_level(promote(cands, txns, min_count, d)), l),
    decreases cands.len(),
{
    if cands.len() > 0 {
        let prev = promote(cands.drop_last(), txns, min_count, d);
        assert forall|t1: int, t2: int|
            0 <= t1 < t2 < cands.drop_last().len() && (#[trigger] cands.drop_last()[t1]).drop_last() == (
            #[trigger] cands.drop_last()[t2]).drop_last() implies rank(l, cands.drop_last()[t1].last())
                < rank(l, cands.drop_last()[t2].last()) by {
            assert(cands.drop_last()[t1] == cands[t1] && cands.drop_last()[t2] == cands[t2]);
        }
        lemma_promote_sorted(cands.drop_last(), txns, min_count, d, l);
        let cur = promote(cands, txns, min_count, d);
        let lc = labels_of_level(cur);
        let lp = labels_of_level(prev);
        assert forall|t1: int, t2: int|
            0 <= t1 < t2 < lc.len() && (#[trigger] lc[t1]).drop_last() == (#[trigger] lc[t2]).drop_last()
                implies rank(l, lc[t1].last()) < rank(l, lc[t2].last()) by {
            if t2 < prev.len() {
                assert(lc[t1] == lp[t1] && lc[t2] == lp[t2]);
            } else {
                assert(lc[t1] == lp[t1]);
                lemma_promote_origin(cands.drop_last(), txns, min_count, d, t1);
                let a = choose|a: int| 0 <= a < cands.drop_last().len() && cands.drop_last()[a] == prev[t1].1;
                assert(cands[a] == lc[t1]);
                assert(lc[t2] == cands[cands.len() - 1]);
            }
        }
    }
}

proof fn lemma_remove_within(f: Seq<Seq<char>>, r: int)
    requires
        0 <= r < f.len(),
    ensures
        contains_all(f.remove(r), f),
{
    assert forall|i: int| 0 <= i < f.remove(r).len() implies f.contains(#[trigger] f.remove(r)[i]) by {
        if i < r {
            assert(f.remove(r)[i] == f[i]);
        } else {
            assert(f.remove(r)[i] == f[i + 1]);
        }
    }
}

/// Each new set joins two sets of degree `d` of the collection, the first of
/// lower rank in its last label.
proof fn lemma_next_origin(
    sets: Seq<SetView>,
    txns: Seq<Seq<Seq<char>>>,
    min_count: nat,
    d: nat,
    l: Seq<Seq<char>>,
    q: int,
)
    requires
        stage_ok(sets, d, txns, min_count, l),
        d >= 1,
        0 <= q < next_level(sets, txns, min_count, d).len(),
    ensures
        next_level(sets, txns, min_count, d)[q].0 == d + 1,
        support(txns, next_level(sets, txns, min_count, d)[q].1) >= min_count,
        exists|xa: int, xb: int|
            0 <= xa < sets.len() && 0 <= xb < sets.len() && sets[xa].0 == d && sets[xb].0 == d
                && joinable(sets[xa].1, sets[xb].1, d) && rank(l, sets[xa].1.last()) < rank(
                l,
                sets[xb].1.last(),
            ) && #[trigger] sets[xa].1.push(sets[xb].1[d - 1]) == next_level(
                sets,
                txns,
                min_count,
                d,
            )[q].1,
{
    let lv = level_of(sets, d);
    let ll = labels_of_level(lv);
    let cands = join_all(ll, lv.len() as int, d);
    let next = next_level(sets, txns, min_count, d);
    lemma_promote_origin(cands, txns, min_count, d + 1, q);
    lemma_promote_support(cands, txns, min_count, d + 1, q);
    let c = choose|c: int| 0 <= c < cands.len() && cands[c] == next[q].1;
    lemma_join_origin(ll, lv.len() as int, d, c);
    let (i, j) = choose|i: int, j: int|
        0 <= i < j < ll.len() && joinable(ll[i], ll[j], d) && #[trigger] ll[i].push(ll[j][d - 1])
            == cands[c];
    lemma_level_members(sets, d, i);
    lemma_level_members(sets, d, j);
    let xa = choose|x: int| 0 <= x < sets.len() && sets[x] == lv[i];
    let xb = choose|x: int| 0 <= x < sets.len() && sets[x] == lv[j];
    assert(ll[i] == sets[xa].1 && ll[j] == sets[xb].1);
    assert(sib_sorted(ll, l));
    assert(ll[i].drop_last() =~= ll[i].take(d - 1));
    assert(ll[j].drop_last() =~= ll[j].take(d - 1));
    assert(ll[i].drop_last() == ll[j].drop_last());
}

proof fn lemma_next_labels(
    sets: Seq<SetView>,
    txns: Seq<Seq<Seq<char>>>,
    min_count: nat,
    d: nat,
    l: Seq<Seq<char>>,
)
    requires
        stage_ok(sets, d, txns, min_count, l),
        d >= 1,
    ensures
        ({
            let all = sets + next_level(sets, txns, min_count, d);
            &&& shaped(all)
            &&& forall|x: int| 0 <= x < all.len() ==> (#[trigger] all[x]).0 <= d + 1
            &&& ranked(all, l)
            &&& forall|x: int| 0 <= x < all.len() ==> support(txns, (#[trigger] all[x]).1) >= min_count
        }),
{
    let next = next_level(sets, txns, min_count, d);
    let all = sets + next;
    assert forall|x: int| 0 <= x < all.len() implies (#[trigger] all[x]).0 <= d + 1 && support(
        txns,
        all[x].1,
    ) >= min_count && all[x].0 == all[x].1.len() && all[x].0 >= 1 by {
        if x < sets.len() {
            assert(all[x] == sets[x]);
        } else {
            let q = x - sets.len();
            assert(all[x] == next[q]);
            lemma_next_origin(sets, txns, min_count, d, l, q);
            let (xa, xb) = choose|xa: int, xb: int|
                0 <= xa < sets.len() && 0 <= xb < sets.len() && sets[xa].0 == d && sets[xb].0 == d
                    && joinable(sets[xa].1, sets[xb].1, d) && rank(l, sets[xa].1.last()) < rank(
                    l,
                    sets[xb].1.last(),
                ) && #[trigger] sets[xa].1.push(sets[xb].1[d - 1]) == next[q].1;
        }
    }
    assert forall|x: int, e: int| 0 <= x < all.len() && 0 <= e < all[x].1.len() implies l.contains(
        #[trigger] all[x].1[e],
    ) by {
        if x < sets.len() {
            assert(all[x] == sets[x]);
        } else {
            let q = x - sets.len();
            assert(all[x] == next[q]);
            lemma_next_origin(sets, txns, min_count, d, l, q);
            let (xa, xb) = choose|xa: int, xb: int|
                0 <= xa < sets.len() && 0 <= xb < sets.len() && sets[xa].0 == d && sets[xb].0 == d
                    && joinable(sets[xa].1, sets[xb].1, d) && rank(l, sets[xa].1.last()) < rank(
                    l,
                    sets[xb].1.last(),
                ) && #[trigger] sets[xa].1.push(sets[xb].1[d - 1]) == next[q].1;
            if e < d {
                assert(all[x].1[e] == sets[xa].1[e]);
            } else {
                assert(all[x].1[e] == sets[xb].1[d - 1]);
            }
        }
    }
    assert forall|x: int, i: int, j: int|
        0 <= x < all.len() && 0 <= i < j < all[x].1.len() implies rank(l, #[trigger] all[x].1[i])
            < rank(l, #[trigger] all[x].1[j]) by {
        if x < sets.len() {
            assert(all[x] == sets[x]);
        } else {
            let q = x - sets.len();
            assert(all[x] == next[q]);
            lemma_next_origin(sets, txns, min_count, d, l, q);
            let (xa, xb) = choose|xa: int, xb: int|
                0 <= xa < sets.len() && 0 <= xb < sets.len() && sets[xa].0 == d && sets[xb].0 == d
                    && joinable(sets[xa].1, sets[xb].1, d) && rank(l, sets[xa].1.last()) < rank(
                    l,
                    sets[xb].1.last(),
                ) && #[trigger] sets[xa].1.push(sets[xb].1[d - 1]) == next[q].1;
            let a = sets[xa].1;
            assert(all[x].1[i] == a[i]);
            if j < d {
                assert(all[x].1[j] == a[j]);
            } else {
                assert(all[x].1[j] == sets[xb].1[d - 1]);
                assert(sets[xb].1[d - 1] == sets[xb].1.last());
                assert(a[d - 1] == a.last());
                if i < d - 1 {
                    assert(rank(l, a[i]) < rank(l, a[d - 1]));
                }
            }
        }
    }
}

proof fn lemma_next_levels(
    sets: Seq<SetView>,
    txns: Seq<Seq<Seq<char>>>,
    min_count: nat,
    d: nat,
    l: Seq<Seq<char>>,
)
    requires
        stage_ok(sets, d, txns, min_count, l),
        d >= 1,
    ensures
        ({
            let all = sets + next_level(sets, txns, min_count, d);
            &&& forall|e: nat| 1 <= e <= d ==> level_of(all, e) == level_of(sets, e)
            &&& level_of(all, d + 1) == next_level(sets, txns, min_count, d)
            &&& forall|e: nat|
                1 <= e <= d + 1 ==> sib_sorted(labels_of_level(#[trigger] level_of(all, e)), l)
            &&& forall|e: nat|
                1 <= e < d + 1 ==> level_of(all, e + 1) == #[trigger] next_level(all, txns, min_count, e)
        }),
{
    let lv = level_of(sets, d);
    let ll = labels_of_level(lv);
    let cands = join_all(ll, lv.len() as int, d);
    let next = next_level(sets, txns, min_count, d);
    let all = sets + next;
    assert forall|q: int| 0 <= q < next.len() implies (#[trigger] next[q]).0 == d + 1 by {
        lemma_next_origin(sets, txns, min_count, d, l, q);
    }
    lemma_level_all(next, d + 1);
    assert forall|e: nat| 1 <= e <= d implies level_of(all, e) == level_of(sets, e) by {
        lemma_level_concat(sets, next, e);
        lemma_level_none(next, e);
        assert(level_of(sets, e) + Seq::<SetView>::empty() =~= level_of(sets, e));
    }
    assert(level_of(all, d + 1) == next) by {
        lemma_level_concat(sets, next, d + 1);
        assert forall|x: int| 0 <= x < sets.len() implies (#[trigger] sets[x]).0 != d + 1 by {}
        lemma_level_none(sets, d + 1);
        assert(Seq::<SetView>::empty() + next =~= next);
    }
    assert forall|e: nat| 1 <= e < d + 1 implies level_of(all, e + 1) == #[trigger] next_level(
        all,
        txns,
        min_count,
        e,
    ) by {
        assert(level_of(all, e) == level_of(sets, e));
        assert(next_level(all, txns, min_count, e) == next_level(sets, txns, min_count, e));
        if e < d {
            assert(level_of(all, e + 1) == level_of(sets, e + 1));
            assert(level_of(sets, e + 1) == next_level(sets, txns, min_count, e));
        } else {
            assert(level_of(all, d + 1) == next);
        }
    }
    assert(sib_sorted(ll, l));
    lemma_join_sorted(ll, lv.len() as int, d, l);
    lemma_promote_sorted(cands, txns, min_count, d + 1, l);
    assert forall|e: nat| 1 <= e <= d + 1 implies sib_sorted(
        labels_of_level(#[trigger] level_of(all, e)),
        l,
    ) by {
        if e <= d {
            assert(level_of(all, e) == level_of(sets, e));
        }
    }
}

/// A new set without label `r` is a set of degree `d`.
#[verifier::rlimit(50)]
proof fn lemma_next_subset(
    sets: Seq<SetView>,
    txns: Seq<Seq<Seq<char>>>,
    min_count: nat,
    d: nat,
    l: Seq<Seq<char>>,
    q: int,
    r: int,
)
    requires
        stage_ok(sets, d, txns, min_count, l),
        d >= 1,
        0 <= q < next_level(sets, txns, min_count, d).len(),
        0 <= r <= d,
    ensures
        has_set(sets, d, next_level(sets, txns, min_count, d)[q].1.remove(r)),
{
    let next = next_level(sets, txns, min_count, d);
    lemma_next_origin(sets, txns, min_count, d, l, q);
    let (xa, xb) = choose|xa: int, xb: int|
        0 <= xa < sets.len() && 0 <= xb < sets.len() && sets[xa].0 == d && sets[xb].0 == d
            && joinable(sets[xa].1, sets[xb].1, d) && rank(l, sets[xa].1.last()) < rank(
            l,
            sets[xb].1.last(),
        ) && #[trigger] sets[xa].1.push(sets[xb].1[d - 1]) == next[q].1;
    let f = next[q].1;
    let a = sets[xa].1;
    let b = sets[xb].1;
    assert forall|t: int| 0 <= t < d - 1 implies a[t] == b[t] by {
        assert(a.take(d - 1)[t] == b.take(d - 1)[t]);
    }
    if r == d {
        assert(f.remove(r) =~= a);
        assert(sets[xa] == (d, f.remove(r), sets[xa].2));
    } else if r == d - 1 {
        assert(f.remove(r) =~= b);
        assert(sets[xb] == (d, f.remove(r), sets[xb].2));
    } else {
        let ar = a.remove(r);
        let br = b.remove(r);
        let pa = choose|p: int| 0 <= p < sets.len() && #[trigger] sets[p] == ((d - 1) as nat, sets[xa].1.remove(r), sets[p].2);
        let pb = choose|p: int| 0 <= p < sets.len() && #[trigger] sets[p] == ((d - 1) as nat, sets[xb].1.remove(r), sets[p].2);
        let lw = level_of(sets, (d - 1) as nat);
        let lwl = labels_of_level(lw);
        lemma_level_has(sets, (d - 1) as nat, pa);
        lemma_level_has(sets, (d - 1) as nat, pb);
        let ta = choose|t: int| 0 <= t < lw.len() && lw[t] == sets[pa];
        let tb = choose|t: int| 0 <= t < lw.len() && lw[t] == sets[pb];
        assert(lwl[ta] == ar && lwl[tb] == br);
        assert(ar.drop_last() =~= br.drop_last());
        assert(ar.last() == a.last() && br.last() == b.last());
        assert(ta != tb);
        assert(sib_sorted(lwl, l));
        if tb < ta {
            assert(rank(l, lwl[tb].last()) < rank(l, lwl[ta].last()));
        }
        assert(joinable(ar, br, (d - 1) as nat)) by {
            assert(ar.take(d - 2) =~= ar.drop_last());
            assert(br.take(d - 2) =~= br.drop_last());
            assert(ar[d - 2] == a.last());
            assert(br[d - 2] == b.last());
            if a.last() == b.last() {
                assert(rank(l, a.last()) == rank(l, b.last()));
            }
        }
        let g = ar.push(br[d - 2]);
        assert(g =~= f.remove(r));
        lemma_join_has(lwl, ta, tb, lw.len() as int, (d - 1) as nat);
        lemma_remove_within(f, r);
        lemma_support_antitone(txns, f.remove(r), f);
        lemma_promote_has(join_all(lwl, lw.len() as int, (d - 1) as nat), txns, min_count, d, g);
        assert(next_level(sets, txns, min_count, (d - 1) as nat) == level_of(sets, d));
        let lv = level_of(sets, d);
        let t = choose|t: int| 0 <= t < lv.len() && lv[t] == (d, g, support(txns, g));
        lemma_level_members(sets, d, t);
        let y = choose|y: int| 0 <= y < sets.len() && sets[y] == lv[t];
        assert(sets[y] == (d, f.remove(r), sets[y].2));
    }
}

/// Adding the next level keeps what holds of the stage.
proof fn lemma_next_stage(
    sets: Seq<SetView>,
    txns: Seq<Seq<Seq<char>>>,
    min_count: nat,
    d: nat,
    l: Seq<Seq<char>>,
)
    requires
        stage_ok(sets, d, txns, min_count, l),
        d >= 1,
    ensures
        stage_ok(sets + next_level(sets, txns, min_count, d), d + 1, txns, min_count, l),
{
    let next = next_level(sets, txns, min_count, d);
    let all = sets + next;
    lemma_next_labels(sets, txns, min_count, d, l);
    lemma_next_levels(sets, txns, min_count, d, l);
    assert forall|x: int, r: int|
        0 <= x < all.len() && all[x].0 >= 2 && 0 <= r < all[x].0 implies has_set(
            all,
            (all[x].0 - 1) as nat,
            #[trigger] all[x].1.remove(r),
        ) by {
        if x < sets.len() {
            assert(all[x] == sets[x]);
            let a = choose|a: int| 0 <= a < sets.len() && #[trigger] sets[a] == ((sets[x].0 - 1) as nat, sets[x].1.remove(r), sets[a].2);
            assert(all[a] == sets[a]);
        } else {
            let q = x - sets.len();
            assert(all[x] == next[q]);
            lemma_next_origin(sets, txns, min_count, d, l, q);
            lemma_next_subset(sets, txns, min_count, d, l, q, r);
            let y = choose|y: int| 0 <= y < sets.len() && #[trigger] sets[y] == (d, next[q].1.remove(r), sets[y].2);
            assert(all[y] == sets[y]);
        }
    }
}


/// Growing keeps what holds of the stage; in particular the sets stay closed.
pub proof fn lemma_grow_stage(
    sets: Seq<SetView>,
    txns: Seq<Seq<Seq<char>>>,
    min_count: nat,
    d: nat,
    bound: nat,
    l: Seq<Seq<char>>,
)
    requires
        stage_ok(sets, d, txns, min_count, l),
        d >= 1,
    ensures
        closed(grow(sets, txns, min_count, d, bound)),
        shaped(grow(sets, txns, min_count, d, bound)),
        ranked(grow(sets, txns, min_count, d, bound), l),
    decreases bound - d,
{
    if level_of(sets, d).len() > 0 && d < bound {
        lemma_next_stage(sets, txns, min_count, d, l);
        lemma_grow_stage(sets + next_level(sets, txns, min_count, d), txns, min_count, d + 1, bound, l);
    }
}

pub proof fn lemma_first_seen_distinct(s: Seq<Seq<char>>)
    ensures
        first_seen(s).no_duplicates(),
    decreases s.len(),
{
    if s.len() > 0 {
        lemma_first_seen_distinct(s.drop_last());
    }
}

pub proof fn lemma_keep_above_members(p: Seq<(Seq<char>, nat)>, min_count: nat, k: int)
    requires
        0 <= k < keep_above(p, min_count).len(),
    ensures
        keep_above(p, min_count)[k].1 > min_count,
        p.contains(keep_above(p, min_count)[k]),
    decreases p.len(),
{
    let prev = keep_above(p.drop_last(), min_count);
    if k < prev.len() {
        lemma_keep_above_members(p.drop_last(), min_count, k);
        let t = choose|t: int| 0 <= t < p.drop_last().len() && p.drop_last()[t] == prev[k];
        assert(p[t] == prev[k]);
    } else {
        assert(p[p.len() - 1] == p.last());
    }
}

pub proof fn lemma_keep_above_distinct(p: Seq<(Seq<char>, nat)>, min_count: nat)
    requires
        p.map_values(|q: (Seq<char>, nat)| q.0).no_duplicates(),
    ensures
        keep_above(p, min_count).map_values(|q: (Seq<char>, nat)| q.0).no_duplicates(),
    decreases p.len(),
{
    if p.len() > 0 {
        let fst = |q: (Seq<char>, nat)| q.0;
        assert(p.drop_last().map_values(fst) =~= p.map_values(fst).drop_last());
        lemma_keep_above_distinct(p.drop_last(), min_count);
        let prev = keep_above(p.drop_last(), min_count);
        if p.last().1 > min_count {
            assert(keep_above(p, min_count).map_values(fst) =~= prev.map_values(fst).push(p.last().0));
            assert forall|k: int| 0 <= k < prev.len() implies prev[k].0 != p.last().0 by {
                lemma_keep_above_members(p.drop_last(), min_count, k);
                let t = choose|t: int| 0 <= t < p.drop_last().len() && p.drop_last()[t] == prev[k];
                assert(p.map_values(fst)[t] == prev[k].0);
                assert(p.map_values(fst)[p.len() - 1] == p.last().0);
            }
        }
    }
}

/// The labels of the sets of degree one, in order.
pub open spec fn single_labels(txns: Seq<Seq<Seq<char>>>, min_count: nat) -> Seq<Seq<char>> {
    keep_above(counted_labels(txns), min_count).map_values(|q: (Seq<char>, nat)| q.0)
}

pub proof fn lemma_singles_stage(txns: Seq<Seq<Seq<char>>>, min_count: nat)
    ensures
        stage_ok(
            singles_view(txns, min_count),
            1,
            txns,
            min_count,
            sort_spec(single_labels(txns, min_count)),
        ),
{
    let s = singles_view(txns, min_count);
    let kl = single_labels(txns, min_count);
    let l = sort_spec(kl);
    let kp = keep_above(counted_labels(txns), min_count);
    let fst = |q: (Seq<char>, nat)| q.0;
    lemma_first_seen_distinct(flatten(txns));
    assert(counted_labels(txns).map_values(fst) =~= first_seen(flatten(txns)));
    lemma_keep_above_distinct(counted_labels(txns), min_count);
    lemma_sort_spec(kl);
    assert forall|x: int| 0 <= x < s.len() implies #[trigger] s[x] == (1nat, seq![l[x]], support(txns, seq![l[x]]))
        && support(txns, s[x].1) >= min_count by {
        assert(kl.contains(l[x]));
        let q = choose|q: int| 0 <= q < kl.len() && kl[q] == l[x];
        lemma_keep_above_members(counted_labels(txns), min_count, q);
        let t = choose|t: int| 0 <= t < counted_labels(txns).len() && counted_labels(txns)[t] == kp[q];
        assert(s[x].1 =~= seq![l[x]]);
    }
    assert forall|x: int| 0 <= x < s.len() implies #[trigger] s[x].0 == s[x].1.len() && s[x].0 >= 1 by {
    }
    assert forall|x: int, e: int| 0 <= x < s.len() && 0 <= e < s[x].1.len() implies l.contains(
        #[trigger] s[x].1[e],
    ) by {
        assert(s[x].1[e] == l[x]);
    }
    assert forall|x: int| 0 <= x < s.len() implies (#[trigger] s[x]).0 == 1nat by {}
    lemma_level_all(s, 1);
    let ls = labels_of_level(level_of(s, 1));
    assert forall|t1: int, t2: int|
        0 <= t1 < t2 < ls.len() && (#[trigger] ls[t1]).drop_last() == (#[trigger] ls[t2]).drop_last()
            implies rank(l, ls[t1].last()) < rank(l, ls[t2].last()) by {
        assert(ls[t1] == s[t1].1 && ls[t2] == s[t2].1);
        lemma_rank_of(l, t1);
        lemma_rank_of(l, t2);
    }
    assert forall|e: nat| 1 <= e <= 1 implies sib_sorted(labels_of_level(#[trigger] level_of(s, e)), l) by {}
}


/// The labels of `f` at the positions where `keep` holds, in order.
pub open spec fn pick(f: Seq<Seq<char>>, keep: Seq<bool>) -> Seq<Seq<char>>
    decreases f.len(),
{
    if f.len() == 0 || keep.len() == 0 {
        Seq::empty()
    } else {
        let prev = pick(f.drop_last(), keep.drop_last());
        if keep.last() {
            prev.push(f.last())
        } else {
            prev
        }
    }
}

/// The bits of `mask` below `n`.
pub open spec fn bits(mask: nat, n: nat) -> Seq<bool> {
    Seq::new(n, |i: int| bit(mask, i as nat))
}

proof fn lemma_select_pick(items: Seq<Seq<char>>, mask: nat)
    ensures
        select(items, mask, true) == pick(items, bits(mask, items.len())),
    decreases items.len(),
{
    if items.len() > 0 {
        assert(bits(mask, items.len()).drop_last() =~= bits(mask, (items.len() - 1) as nat));
        lemma_select_pick(items.drop_last(), mask);
    }
}

proof fn lemma_pick_remove(f: Seq<Seq<char>>, keep: Seq<bool>, p: int)
    requires
        keep.len() == f.len(),
        0 <= p < f.len(),
        !keep[p],
    ensures
        pick(f, keep) == pick(f.remove(p), keep.remove(p)),
    decreases f.len(),
{
    if p == f.len() - 1 {
        assert(f.remove(p) =~= f.drop_last());
        assert(keep.remove(p) =~= keep.drop_last());
    } else {
        assert(f.remove(p).drop_last() =~= f.drop_last().remove(p));
        assert(keep.remove(p).drop_last() =~= keep.drop_last().remove(p));
        assert(f.remove(p).last() == f.last());
        assert(keep.remove(p).last() == keep.last());
        lemma_pick_remove(f.drop_last(), keep.drop_last(), p);
    }
}

proof fn lemma_pick_all(f: Seq<Seq<char>>, keep: Seq<bool>)
    requires
        keep.len() == f.len(),
        forall|i: int| 0 <= i < keep.len() ==> keep[i],
    ensures
        pick(f, keep) == f,
    decreases f.len(),
{
    if f.len() > 0 {
        lemma_pick_all(f.drop_last(), keep.drop_last());
        assert(f.drop_last().push(f.last()) =~= f);
    }
}

/// Any labels picked from a set, one at least, are the labels of a set.
proof fn lemma_closed_pick(sets: Seq<SetView>, x: int, keep: Seq<bool>)
    requires
        closed(sets),
        shaped(sets),
        0 <= x < sets.len(),
        keep.len() == sets[x].1.len(),
        exists|i: int| 0 <= i < keep.len() && keep[i],
    ensures
        exists|y: int| 0 <= y < sets.len() && sets[y].1 == pick(sets[x].1, keep),
    decreases keep.len(),
{
    let f = sets[x].1;
    if forall|i: int| 0 <= i < keep.len() ==> keep[i] {
        lemma_pick_all(f, keep);
    } else {
        let p = choose|p: int| 0 <= p < keep.len() && !keep[p];
        let i = choose|i: int| 0 <= i < keep.len() && keep[i];
        assert(sets[x].0 >= 2);
        let y0 = choose|a: int| 0 <= a < sets.len() && #[trigger] sets[a] == ((sets[x].0 - 1) as nat, sets[x].1.remove(p), sets[a].2);
        lemma_pick_remove(f, keep, p);
        let k2 = keep.remove(p);
        if i < p {
            assert(k2[i]);
        } else {
            assert(k2[i - 1]);
        }
        lemma_closed_pick(sets, y0, k2);
    }
}

proof fn lemma_first_match_some(sets: Seq<SetView>, y: int)
    requires
        0 <= y < sets.len(),
    ensures
        first_match(sets, sets[y].1) >= 0,
    decreases sets.len(),
{
    if y < sets.len() - 1 {
        assert(sets.drop_last()[y] == sets[y]);
        lemma_first_match_some(sets.drop_last(), y);
    }
}

proof fn lemma_mask_bit(m: nat, n: nat)
    requires
        1 <= m < pow2(n),
    ensures
        exists|i: int| 0 <= i < n && #[trigger] bit(m, i as nat),
    decreases n,
{
    lemma2_to64();
    if n == 0 {
        assert(pow2(0) == 1);
    } else if m % 2 == 1 {
        let w: int = 0;
        assert(pow2(w as nat) == 1);
        assert(m / pow2(w as nat) == m);
        assert(bit(m, w as nat));
    } else {
        lemma_pow2_unfold(n);
        let h = m / 2;
        assert(1 <= h < pow2((n - 1) as nat));
        lemma_mask_bit(h, (n - 1) as nat);
        let i = choose|i: int| 0 <= i < n - 1 && #[trigger] bit(h, i as nat);
        lemma_pow2_pos(i as nat);
        lemma_pow2_unfold((i + 1) as nat);
        lemma_div_denominator(m as int, 2, pow2(i as nat) as int);
        let w: int = i + 1;
        assert(pow2(w as nat) == 2 * pow2(i as nat));
        assert(bit(m, w as nat));
    }
}

/// In a closed collection every split of every set has its antecedent.
pub proof fn lemma_closed_antecedents(sets: Seq<SetView>)
    requires
        closed(sets),
        shaped(sets),
    ensures
        antecedents_found(sets),
{
    assert forall|f: int, m: nat|
        0 <= f < sets.len() && sets[f].0 >= 2 && 1 <= m < full_mask(sets[f].0) implies #[trigger] antecedent_found(
        sets,
        f,
        m,
    ) by {
        let n = sets[f].1.len();
        assert(sets[f].0 == sets[f].1.len());
        lemma_pow2_pos(n);
        assert(m < pow2(n));
        lemma_mask_bit(m, n);
        let i = choose|i: int| 0 <= i < n && #[trigger] bit(m, i as nat);
        let keep = bits(m, n);
        assert(keep[i]);
        lemma_closed_pick(sets, f, keep);
        lemma_select_pick(sets[f].1, m);
        let y = choose|y: int| 0 <= y < sets.len() && sets[y].1 == pick(sets[f].1, keep);
        lemma_first_match_some(sets, y);
    }
}


/// Labels in rising rank along a sorted `l` are sorted.
pub proof fn lemma_ranked_sorted(sets: Seq<SetView>, l: Seq<Seq<char>>, x: int)
    requires
        ranked(sets, l),
        0 <= x < sets.len(),
    ensures
        sorted(sets[x].1),
{
    let f = sets[x].1;
    assert forall|i: int, j: int| 0 <= i < j < f.len() implies label_le(#[trigger] f[i], #[trigger] f[j]) by {
        assert(l.contains(f[i]) && l.contains(f[j]));
        assert(rank(l, f[i]) < rank(l, f[j]));
        assert(l[rank(l, f[i])] == f[i]);
        assert(l[rank(l, f[j])] == f[j]);
    }
}

} // verus!
