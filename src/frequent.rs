use vstd::prelude::*;
use crate::itemset::{
    count_support, Txn, FrequentSet, CandicateSet, SetView, sets_view, txn_labels, support, counted, clears,
    clone_labels,
};
use crate::tally::{ItemTally, occurs, txns_wf, create_candicate_set_1, flatten, first_seen, position_of};
use crate::txn::{sort_labels, sort_spec, lemma_sort_spec, lemma_sorted_unique};
use crate::closure::single_labels;

verus! {

/// The sets of `sets` whose degree is `d`, in order.
pub open spec fn level_of(sets: Seq<SetView>, d: nat) -> Seq<SetView>
    decreases sets.len(),
{
    if sets.len() == 0 {
        Seq::empty()
    } else {
        let prev = level_of(sets.drop_last(), d);
        if sets.last().0 == d {
            prev.push(sets.last())
        } else {
            prev
        }
    }
}

pub proof fn lemma_level_take(sets: Seq<SetView>, d: nat, k: int)
    requires
        0 <= k < sets.len(),
    ensures
        level_of(sets.take(k + 1), d) == if sets[k].0 == d {
            level_of(sets.take(k), d).push(sets[k])
        } else {
            level_of(sets.take(k), d)
        },
{
    assert(sets.take(k + 1).drop_last() =~= sets.take(k));
}

/// Each set of a level is a set of `sets` with that degree.
pub proof fn lemma_level_members(sets: Seq<SetView>, d: nat, i: int)
    requires
        0 <= i < level_of(sets, d).len(),
    ensures
        level_of(sets, d)[i].0 == d,
        sets.contains(level_of(sets, d)[i]),
    decreases sets.len(),
{
    let prev = level_of(sets.drop_last(), d);
    if i < prev.len() {
        lemma_level_members(sets.drop_last(), d, i);
        let j = choose|j: int| 0 <= j < sets.drop_last().len() && sets.drop_last()[j] == prev[i];
        assert(sets[j] == prev[i]);
    } else {
        assert(sets[sets.len() - 1] == sets.last());
    }
}

/// Labels paired with their counts.
pub open spec fn tally_pairs(labels: Seq<Seq<char>>, counts: Seq<usize>) -> Seq<(Seq<char>, nat)> {
    Seq::new(labels.len(), |i: int| (labels[i], counts[i] as nat))
}

/// The pairs whose count is above `min_count`, in order.
pub open spec fn keep_above(p: Seq<(Seq<char>, nat)>, min_count: nat) -> Seq<(Seq<char>, nat)>
    decreases p.len(),
{
    if p.len() == 0 {
        Seq::empty()
    } else {
        let prev = keep_above(p.drop_last(), min_count);
        if p.last().1 > min_count {
            prev.push(p.last())
        } else {
            prev
        }
    }
}

/// The labels of `txns` in order of first appearance, each with its support.
pub open spec fn counted_labels(txns: Seq<Seq<Seq<char>>>) -> Seq<(Seq<char>, nat)> {
    first_seen(flatten(txns)).map_values(|x: Seq<char>| (x, support(txns, seq![x])))
}

/// The sets of degree one: each label held by more than `min_count`
/// transactions, in sorted label order.
pub open spec fn singles_view(txns: Seq<Seq<Seq<char>>>, min_count: nat) -> Seq<SetView> {
    sort_spec(single_labels(txns, min_count)).map_values(
        |x: Seq<char>| (1nat, seq![x], support(txns, seq![x])),
    )
}

/// The labels whose count clears `min_count`, with their counts.
pub fn create_frequent_set_1(candicate_set_1: ItemTally, min_count: u128) -> (r: ItemTally)
    requires
        candicate_set_1.wf(),
    ensures
        r.wf(),
        tally_pairs(r.label_view(), r.counts@) == keep_above(
            tally_pairs(candicate_set_1.label_view(), candicate_set_1.counts@),
            min_count as nat,
        ),
        forall|i: int|
            0 <= i < r.counts.len() ==> #[trigger] r.counts[i] > min_count && exists|j: int|
                0 <= j < candicate_set_1.counts.len() && candicate_set_1.label_view()[j]
                    == r.label_view()[i] && candicate_set_1.counts[j] == r.counts[i],
        forall|j: int|
            0 <= j < candicate_set_1.counts.len() && candicate_set_1.counts[j] > min_count
                ==> r.label_view().contains(#[trigger] candicate_set_1.label_view()[j]),
{
    let c = candicate_set_1;
    let ghost cl = c.label_view();
    let ghost tp = tally_pairs(cl, c.counts@);
    let mut labels: Vec<String> = Vec::new();
    let mut counts: Vec<usize> = Vec::new();
    let ghost mut src: Seq<int> = Seq::empty();
    let mut j: usize = 0;
    while j < c.labels.len()
        invariant
            j <= c.labels.len(),
            c.wf(),
            cl == c.label_view(),
            tp == tally_pairs(cl, c.counts@),
            labels.len() == counts.len(),
            src.len() == counts.len(),
            labels.deep_view().no_duplicates(),
            tally_pairs(labels.deep_view(), counts@) == keep_above(tp.take(j as int), min_count as nat),
            forall|i: int| 0 <= i < counts.len() ==> #[trigger] counts[i] > min_count,
            forall|i: int| 0 <= i < src.len() ==> 0 <= #[trigger] src[i] < j,
            forall|i: int| 0 <= i < src.len() ==> cl[#[trigger] src[i]] == labels.deep_view()[i],
            forall|i: int| 0 <= i < src.len() ==> c.counts[#[trigger] src[i]] == counts[i],
            forall|k: int|
                0 <= k < j && c.counts[k] > min_count ==> labels.deep_view().contains(
                    #[trigger] cl[k],
                ),
        decreases c.labels.len() - j,
    {
        proof {
            assert(tp.take(j as int + 1).drop_last() =~= tp.take(j as int));
            assert(tp.take(j as int + 1).last() == (cl[j as int], c.counts[j as int] as nat));
        }
        let ghost pairs_before = tally_pairs(labels.deep_view(), counts@);
        if c.counts[j] as u128 > min_count {
            let ghost before = labels.deep_view();
            let ghost old_counts = counts@;
            let ghost old_src = src;
            assert(!before.contains(cl[j as int])) by {
                if before.contains(cl[j as int]) {
                    let i = choose|i: int| 0 <= i < before.len() && before[i] == cl[j as int];
                    assert(cl[src[i]] == before[i]);
                }
            }
            labels.push(c.labels[j].clone());
            counts.push(c.counts[j]);
            proof {
                src = src.push(j as int);
            }
            assert(labels.deep_view() =~= before.push(cl[j as int]));
            assert(tally_pairs(labels.deep_view(), counts@) =~= pairs_before.push(
                (cl[j as int], c.counts[j as int] as nat),
            ));
            assert forall|i: int| 0 <= i < src.len() implies cl[#[trigger] src[i]]
                == labels.deep_view()[i] && c.counts[src[i]] == counts[i] && 0 <= src[i] < j + 1 by {
                if i < old_src.len() {
                    assert(src[i] == old_src[i]);
                    assert(counts[i] == old_counts[i]);
                }
            }
            assert forall|k: int| 0 <= k < j + 1 && c.counts[k] > min_count implies labels.deep_view().contains(
                #[trigger] cl[k],
            ) by {
                if k < j {
                    let i = choose|i: int| 0 <= i < before.len() && before[i] == cl[k];
                    assert(labels.deep_view()[i] == cl[k]);
                } else {
                    assert(labels.deep_view()[before.len() as int] == cl[k]);
                }
            }
        }
        j = j + 1;
    }
    assert(tp.take(j as int) =~= tp);
    assert forall|i: int| 0 <= i < counts.len() implies #[trigger] counts[i] > min_count && exists|k: int|
        0 <= k < c.counts.len() && cl[k] == labels.deep_view()[i] && c.counts[k] == counts[i] by {
        let k = src[i];
    }
    ItemTally { labels, counts }
}

/// Appends to `fre_sets` one set of degree one for each label that more
/// than `min_count` transactions hold, in sorted label order.
pub fn init_fre_set(txn_set: &Vec<Txn>, min_count: u128, fre_sets: &mut Vec<FrequentSet>)
    requires
        txns_wf(txn_set@),
    ensures
        final(fre_sets)@.len() >= old(fre_sets)@.len(),
        final(fre_sets)@.take(old(fre_sets)@.len() as int) == old(fre_sets)@,
        sets_view(final(fre_sets)@) == sets_view(old(fre_sets)@) + singles_view(
            txn_labels(txn_set@),
            min_count as nat,
        ),
        forall|k: int|
            old(fre_sets)@.len() <= k < final(fre_sets)@.len() ==> {
                let v = #[trigger] final(fre_sets)@[k]@;
                &&& v.0 == 1
                &&& counted(v, txn_labels(txn_set@))
                &&& clears(v, min_count as nat)
            },
        forall|x: Seq<char>|
            (exists|k: int|
                old(fre_sets)@.len() <= k < final(fre_sets)@.len()
                    && #[trigger] final(fre_sets)@[k]@.1 == seq![x]) <==> (occurs(txn_labels(txn_set@), x) && support(
                txn_labels(txn_set@),
                seq![x],
            ) > min_count),
{
    let ghost all = txn_labels(txn_set@);
    let ghost start = fre_sets@.len();
    let ghost orig = fre_sets@;
    let candicate_set_1 = create_candicate_set_1(txn_set);
    let ghost cand = candicate_set_1;
    let frequent_set_1 = create_frequent_set_1(candicate_set_1, min_count);
    let ghost fl = frequent_set_1.label_view();
    let ghost kp = tally_pairs(fl, frequent_set_1.counts@);
    proof {
        assert(tally_pairs(cand.label_view(), cand.counts@) =~= counted_labels(all));
        assert(kp == keep_above(counted_labels(all), min_count as nat));
        assert(fl =~= single_labels(all, min_count as nat));
    }
    // each kept label: its count is its support, above the threshold, and it
    // occurs; and each label that occurs above the threshold is kept
    assert forall|q: int| 0 <= q < fl.len() implies #[trigger] frequent_set_1.counts[q] == support(all, seq![fl[q]])
        && frequent_set_1.counts[q] > min_count by {
        let j = choose|j: int|
            0 <= j < cand.counts.len() && cand.label_view()[j] == fl[q] && cand.counts[j]
                == frequent_set_1.counts[q];
        assert(cand.counts[j] == support(all, seq![cand.label_view()[j]]));
    }
    assert forall|x: Seq<char>| fl.contains(x) <==> (occurs(all, x) && support(all, seq![x]) > min_count) by {
        if fl.contains(x) {
            let q = choose|q: int| 0 <= q < fl.len() && fl[q] == x;
            assert(frequent_set_1.counts[q] == support(all, seq![fl[q]]));
            let j = choose|j: int|
                0 <= j < cand.counts.len() && cand.label_view()[j] == fl[q] && cand.counts[j]
                    == frequent_set_1.counts[q];
            assert(cand.label_view().contains(x));
        }
        if occurs(all, x) && support(all, seq![x]) > min_count {
            assert(cand.label_view().contains(x));
            let j = choose|j: int| 0 <= j < cand.label_view().len() && cand.label_view()[j] == x;
            assert(cand.counts[j] == support(all, seq![cand.label_view()[j]]));
        }
    }
    let mut labels = clone_labels(&frequent_set_1.labels);
    sort_labels(&mut labels);
    let ghost sl = labels.deep_view();
    proof {
        fl.to_multiset_ensures();
        sl.to_multiset_ensures();
        fl.lemma_multiset_has_no_duplicates();
        sl.lemma_multiset_has_no_duplicates_conv();
        assert forall|y: Seq<char>| sl.contains(y) <==> fl.contains(y) by {
            assert(sl.to_multiset().count(y) == fl.to_multiset().count(y));
        }
        lemma_sort_spec(fl);
        lemma_sorted_unique(sl, sort_spec(fl));
    }
    let ghost single = |x: Seq<char>| (1nat, seq![x], support(all, seq![x]));
    assert(sets_view(fre_sets@) =~= sets_view(orig) + sl.take(0).map_values(single));
    let mut i: usize = 0;
    while i < labels.len()
        invariant
            i <= labels.len(),
            sl == labels.deep_view(),
            fl == frequent_set_1.label_view(),
            frequent_set_1.wf(),
            all == txn_labels(txn_set@),
            forall|y: Seq<char>| sl.contains(y) <==> fl.contains(y),
            forall|q: int| 0 <= q < fl.len() ==> #[trigger] frequent_set_1.counts[q] == support(all, seq![fl[q]]),
            start <= fre_sets@.len(),
            fre_sets@.len() == start + i,
            fre_sets@.take(start as int) == orig,
            single == (|x: Seq<char>| (1nat, seq![x], support(all, seq![x]))),
            sets_view(fre_sets@) == sets_view(orig) + sl.take(i as int).map_values(single),
        decreases labels.len() - i,
    {
        let ghost before = fre_sets@;
        assert(sl.contains(sl[i as int]));
        match position_of(&labels[i], &frequent_set_1.labels) {
            Some(pos) => {
                let mut items: Vec<String> = Vec::new();
                items.push(labels[i].clone());
                assert(items.deep_view() =~= seq![sl[i as int]]);
                assert(frequent_set_1.counts[pos as int] == support(all, seq![fl[pos as int]]));
                fre_sets.push(FrequentSet { degree: 1, items, count: frequent_set_1.counts[pos] });
                assert(fre_sets@.take(start as int) =~= before.take(start as int));
                assert(sl.take(i as int + 1).map_values(single) =~= sl.take(i as int).map_values(single).push(single(sl[i as int])));
                assert(sets_view(fre_sets@) =~= sets_view(before).push(fre_sets@[fre_sets@.len() - 1]@));
            },
            None => {
                assert(false);
            },
        }
        i = i + 1;
    }
    proof {
        assert(sl.take(i as int) =~= sl);
        assert(sets_view(fre_sets@) == sets_view(orig) + singles_view(all, min_count as nat));
        assert forall|k: int| start <= k < fre_sets@.len() implies {
            let v = #[trigger] fre_sets@[k]@;
            &&& v.0 == 1
            &&& counted(v, all)
            &&& clears(v, min_count as nat)
        } by {
            assert(sets_view(fre_sets@)[k] == fre_sets@[k]@);
            let y = sl[k - start];
            assert(fre_sets@[k]@ == single(y));
            assert(sl.contains(y));
            let q = choose|q: int| 0 <= q < fl.len() && fl[q] == y;
            assert(frequent_set_1.counts[q] > min_count);
            assert(seq![y].no_duplicates());
        }
        assert forall|x: Seq<char>|
            (exists|k: int| start <= k < fre_sets@.len() && #[trigger] fre_sets@[k]@.1 == seq![x])
                <==> (occurs(all, x) && support(all, seq![x]) > min_count) by {
            if exists|k: int| start <= k < fre_sets@.len() && #[trigger] fre_sets@[k]@.1 == seq![x] {
                let k = choose|k: int| start <= k < fre_sets@.len() && #[trigger] fre_sets@[k]@.1 == seq![x];
                assert(sets_view(fre_sets@)[k] == fre_sets@[k]@);
                let y = sl[k - start];
                assert(fre_sets@[k]@ == single(y));
                assert(seq![y][0] == seq![x][0]);
                assert(sl.contains(y));
            }
            if occurs(all, x) && support(all, seq![x]) > min_count {
                assert(fl.contains(x));
                let t = choose|t: int| 0 <= t < sl.len() && sl[t] == x;
                assert(sets_view(fre_sets@)[start + t] == fre_sets@[start + t]@);
                assert(fre_sets@[start + t]@ == single(x));
            }
        }
    }
}

/// The sets of `fre_sets` whose degree is `degree`, in order.
pub fn get_degree_fre_sets(fre_sets: &Vec<FrequentSet>, degree: usize) -> (r: Vec<FrequentSet>)
    ensures
        sets_view(r@) == level_of(sets_view(fre_sets@), degree as nat),
{
    let ghost all = sets_view(fre_sets@);
    let mut r: Vec<FrequentSet> = Vec::new();
    let mut k: usize = 0;
    while k < fre_sets.len()
        invariant
            k <= fre_sets.len(),
            all == sets_view(fre_sets@),
            sets_view(r@) == level_of(all.take(k as int), degree as nat),
        decreases fre_sets.len() - k,
    {
        proof {
            lemma_level_take(all, degree as nat, k as int);
        }
        if fre_sets[k].degree == degree {
            let ghost before = r@;
            let s = FrequentSet {
                degree: fre_sets[k].degree,
                items: clone_labels(&fre_sets[k].items),
                count: fre_sets[k].count,
            };
            r.push(s);
            assert(sets_view(r@) =~= sets_view(before).push(all[k as int]));
        }
        k = k + 1;
    }
    assert(all.take(k as int) =~= all);
    r
}

/// The number of sets of `fre_sets` whose degree is `degree`.
pub fn len_of_f_degree(fre_sets: &Vec<FrequentSet>, degree: usize) -> (r: usize)
    ensures
        r == level_of(sets_view(fre_sets@), degree as nat).len(),
{
    let ghost all = sets_view(fre_sets@);
    let mut n: usize = 0;
    let mut k: usize = 0;
    while k < fre_sets.len()
        invariant
            k <= fre_sets.len(),
            all == sets_view(fre_sets@),
            n == level_of(all.take(k as int), degree as nat).len(),
            n <= k,
        decreases fre_sets.len() - k,
    {
        proof {
            lemma_level_take(all, degree as nat, k as int);
        }
        if fre_sets[k].degree == degree {
            n = n + 1;
        }
        k = k + 1;
    }
    assert(all.take(k as int) =~= all);
    n
}

/// Two sets of `k` labels join when they agree on all but the last label.
pub open spec fn joinable(a: Seq<Seq<char>>, b: Seq<Seq<char>>, k: nat) -> bool {
    &&& a.len() == k
    &&& b.len() == k
    &&& k >= 1
    &&& a.take(k - 1) == b.take(k - 1)
    &&& a[k - 1] != b[k - 1]
}

/// The joins of set `i` of `level` with sets `i + 1 .. j_end - 1`, in order.
pub open spec fn join_row(level: Seq<Seq<Seq<char>>>, i: int, j_end: int, k: nat) -> Seq<
    Seq<Seq<char>>,
>
    decreases j_end - i,
{
    if j_end <= i + 1 {
        Seq::empty()
    } else {
        let prev = join_row(level, i, j_end - 1, k);
        if joinable(level[i], level[j_end - 1], k) {
            prev.push(level[i].push(level[j_end - 1][k - 1]))
        } else {
            prev
        }
    }
}

/// The joins of sets `0 .. i_end - 1` of `level` with every later set.
pub open spec fn join_all(level: Seq<Seq<Seq<char>>>, i_end: int, k: nat) -> Seq<Seq<Seq<char>>>
    decreases i_end,
{
    if i_end <= 0 {
        Seq::empty()
    } else {
        join_all(level, i_end - 1, k) + join_row(level, i_end - 1, level.len() as int, k)
    }
}

pub open spec fn labels_of_level(level: Seq<SetView>) -> Seq<Seq<Seq<char>>> {
    level.map_values(|v: SetView| v.1)
}

pub open spec fn candidate_labels(c: Seq<CandicateSet>) -> Seq<Seq<Seq<char>>> {
    c.map_values(|c: CandicateSet| c.items.deep_view())
}

/// Whether the first `n` labels of `a` and `b` agree.
fn same_prefix(a: &Vec<String>, b: &Vec<String>, n: usize) -> (r: bool)
    requires
        n <= a.len(),
        n <= b.len(),
    ensures
        r == (a.deep_view().take(n as int) == b.deep_view().take(n as int)),
{
    let mut i: usize = 0;
    while i < n
        invariant
            i <= n <= a.len(),
            n <= b.len(),
            forall|k: int| 0 <= k < i ==> a.deep_view()[k] == b.deep_view()[k],
        decreases n - i,
    {
        if a[i] != b[i] {
            assert(a.deep_view().take(n as int)[i as int] != b.deep_view().take(n as int)[i as int]);
            return false;
        }
        i = i + 1;
    }
    assert(a.deep_view().take(n as int) =~= b.deep_view().take(n as int));
    true
}

proof fn lemma_join_distinct(a: Seq<Seq<char>>, b: Seq<Seq<char>>, k: nat)
    requires
        joinable(a, b, k),
        a.no_duplicates(),
        b.no_duplicates(),
    ensures
        a.push(b[k - 1]).no_duplicates(),
{
    let x = b[k - 1];
    assert forall|p: int| 0 <= p < a.len() implies a[p] != x by {
        if p < k - 1 {
            assert(a.take(k - 1)[p] == b.take(k - 1)[p]);
        }
    }
}

/// The candidates of degree `degree + 1`: for each pair of sets of degree
/// `degree`, the first before the second, that agree on all labels but the
/// last, the first set's labels followed by the second's last label.
pub fn get_candi_from_f(fre_sets: &Vec<FrequentSet>, degree: usize) -> (r: Vec<CandicateSet>)
    requires
        1 <= degree < usize::MAX,
        forall|k: int|
            0 <= k < fre_sets.len() ==> #[trigger] fre_sets[k].degree == fre_sets[k].items.len()
                && fre_sets[k].items.deep_view().no_duplicates(),
    ensures
        candidate_labels(r@) == join_all(
            labels_of_level(level_of(sets_view(fre_sets@), degree as nat)),
            level_of(sets_view(fre_sets@), degree as nat).len() as int,
            degree as nat,
        ),
        forall|c: int| 0 <= c < r.len() ==> #[trigger] r[c].degree == degree + 1,
        forall|c: int| 0 <= c < r.len() ==> #[trigger] r[c].items.len() == degree + 1,
        forall|c: int| 0 <= c < r.len() ==> #[trigger] r[c].items.deep_view().no_duplicates(),
        forall|c: int| 0 <= c < r.len() ==> #[trigger] r[c].count == 0,
{
    let ghost k = degree as nat;
    let mut candi: Vec<CandicateSet> = Vec::new();
    let degree_fre_sets = get_degree_fre_sets(fre_sets, degree);
    let ghost lv = level_of(sets_view(fre_sets@), k);
    let ghost ll = labels_of_level(lv);
    proof {
        assert forall|q: int| 0 <= q < ll.len() implies #[trigger] ll[q].len() == k
            && ll[q].no_duplicates() by {
            lemma_level_members(sets_view(fre_sets@), k, q);
            let j = choose|j: int|
                0 <= j < sets_view(fre_sets@).len() && sets_view(fre_sets@)[j] == lv[q];
            assert(fre_sets[j].degree == fre_sets[j].items.len());
        }
        assert forall|q: int| 0 <= q < degree_fre_sets.len() implies #[trigger] degree_fre_sets[q].items.deep_view() == ll[q] by {
            assert(sets_view(degree_fre_sets@)[q] == lv[q]);
        }
    }
    let mut i: usize = 0;
    while i < degree_fre_sets.len()
        invariant
            i <= degree_fre_sets.len(),
            1 <= degree < usize::MAX,
            k == degree as nat,
            ll.len() == degree_fre_sets.len(),
            forall|q: int| 0 <= q < ll.len() ==> #[trigger] ll[q].len() == k && ll[q].no_duplicates(),
            forall|q: int| 0 <= q < degree_fre_sets.len() ==> #[trigger] degree_fre_sets[q].items.deep_view() == ll[q],
            candidate_labels(candi@) == join_all(ll, i as int, k),
            forall|c: int| 0 <= c < candi.len() ==> #[trigger] candi[c].degree == degree + 1,
            forall|c: int| 0 <= c < candi.len() ==> #[trigger] candi[c].items.len() == degree + 1,
            forall|c: int| 0 <= c < candi.len() ==> #[trigger] candi[c].items.deep_view().no_duplicates(),
            forall|c: int| 0 <= c < candi.len() ==> #[trigger] candi[c].count == 0,
        decreases degree_fre_sets.len() - i,
    {
        let ghost row_start = candidate_labels(candi@);
        let mut j: usize = i + 1;
        while j < degree_fre_sets.len()
            invariant
                i < j <= degree_fre_sets.len(),
                1 <= degree < usize::MAX,
                k == degree as nat,
                ll.len() == degree_fre_sets.len(),
                forall|q: int| 0 <= q < ll.len() ==> #[trigger] ll[q].len() == k && ll[q].no_duplicates(),
                forall|q: int| 0 <= q < degree_fre_sets.len() ==> #[trigger] degree_fre_sets[q].items.deep_view() == ll[q],
                row_start == join_all(ll, i as int, k),
                candidate_labels(candi@) == row_start + join_row(ll, i as int, j as int, k),
                forall|c: int| 0 <= c < candi.len() ==> #[trigger] candi[c].degree == degree + 1,
                forall|c: int| 0 <= c < candi.len() ==> #[trigger] candi[c].items.len() == degree + 1,
                forall|c: int| 0 <= c < candi.len() ==> #[trigger] candi[c].items.deep_view().no_duplicates(),
                forall|c: int| 0 <= c < candi.len() ==> #[trigger] candi[c].count == 0,
            decreases degree_fre_sets.len() - j,
        {
            let a = &degree_fre_sets[i].items;
            let b = &degree_fre_sets[j].items;
            assert(a.deep_view() == ll[i as int] && b.deep_view() == ll[j as int]);
            if same_prefix(a, b, degree - 1) && a[degree - 1] != b[degree - 1] {
                let ghost before = candidate_labels(candi@);
                let mut items = clone_labels(a);
                items.push(b[degree - 1].clone());
                assert(items.deep_view() =~= ll[i as int].push(ll[j as int][k - 1]));
                proof {
                    lemma_join_distinct(ll[i as int], ll[j as int], k);
                }
                assert(items.deep_view().no_duplicates());
                assert(items.deep_view().len() == items@.len());
                assert(items.len() == degree + 1);
                let ghost old_candi = candi@;
                let new_candi = CandicateSet { degree: degree + 1, items, count: 0 };
                candi.push(new_candi);
                assert forall|c: int| 0 <= c < candi.len() implies #[trigger] candi[c].items.deep_view().no_duplicates() by {
                    if c < old_candi.len() {
                        assert(candi[c] == old_candi[c]);
                    }
                }
                assert(candidate_labels(candi@) =~= before.push(ll[i as int].push(ll[j as int][k - 1])));
            } else {
                assert(!joinable(ll[i as int], ll[j as int], k));
            }
            j = j + 1;
        }
        i = i + 1;
    }
    candi
}


/// Every set has at least one label, is counted over `txns`, and clears the
/// support threshold.
pub open spec fn frequent_over(sets: Seq<SetView>, txns: Seq<Seq<Seq<char>>>, min_count: nat) -> bool {
    forall|k: int|
        0 <= k < sets.len() ==> {
            let v = #[trigger] sets[k];
            &&& v.0 >= 1
            &&& counted(v, txns)
            &&& clears(v, min_count)
        }
}

/// The candidates that at least `min_count` transactions hold, as counted
/// sets of degree `d`, in order.
pub open spec fn promote(cands: Seq<Seq<Seq<char>>>, txns: Seq<Seq<Seq<char>>>, min_count: nat, d: nat) -> Seq<
    SetView,
>
    decreases cands.len(),
{
    if cands.len() == 0 {
        Seq::empty()
    } else {
        let prev = promote(cands.drop_last(), txns, min_count, d);
        let c = cands.last();
        if support(txns, c) >= min_count {
            prev.push((d, c, support(txns, c)))
        } else {
            prev
        }
    }
}

/// The sets of degree `d + 1` that the sets of degree `d` among `sets` yield.
pub open spec fn next_level(sets: Seq<SetView>, txns: Seq<Seq<Seq<char>>>, min_count: nat, d: nat) -> Seq<
    SetView,
> {
    let lv = level_of(sets, d);
    promote(join_all(labels_of_level(lv), lv.len() as int, d), txns, min_count, d + 1)
}

/// `sets` grown level by level from degree `d`, while the current degree has
/// sets and is below `bound`.
pub open spec fn grow(
    sets: Seq<SetView>,
    txns: Seq<Seq<Seq<char>>>,
    min_count: nat,
    d: nat,
    bound: nat,
) -> Seq<SetView>
    decreases bound - d,
{
    if level_of(sets, d).len() > 0 && d < bound {
        grow(sets + next_level(sets, txns, min_count, d), txns, min_count, d + 1, bound)
    } else {
        sets
    }
}

/// Grows `fre_sets` level by level: the candidates built from the sets of
/// one degree are counted, and those that at least `min_count` transactions
/// hold join the collection, until a degree yields no set.
pub fn generate_all_fre_sets(fre_sets: &mut Vec<FrequentSet>, txn_set: &Vec<Txn>, min_count: u128)
    requires
        frequent_over(sets_view(old(fre_sets)@), txn_labels(txn_set@), min_count as nat),
    ensures
        final(fre_sets)@.len() >= old(fre_sets)@.len(),
        final(fre_sets)@.take(old(fre_sets)@.len() as int) == old(fre_sets)@,
        sets_view(final(fre_sets)@) == grow(
            sets_view(old(fre_sets)@),
            txn_labels(txn_set@),
            min_count as nat,
            1,
            level_of(sets_view(old(fre_sets)@), 1).len(),
        ),
        frequent_over(sets_view(final(fre_sets)@), txn_labels(txn_set@), min_count as nat),
        forall|k: int|
            old(fre_sets)@.len() <= k < final(fre_sets)@.len()
                ==> #[trigger] final(fre_sets)@[k].degree >= 2,
{
    let ghost all = txn_labels(txn_set@);
    let ghost start = old(fre_sets)@.len();
    let ghost orig = old(fre_sets)@;
    // A set of degree `d` holds `d` distinct labels of degree-one sets, so no
    // degree beyond the number of those sets can be reached.
    let n_single = len_of_f_degree(fre_sets, 1);
    let mut degree: usize = 1;
    let mut len_of_f = len_of_f_degree(fre_sets, degree);
    let ghost goal = grow(sets_view(orig), all, min_count as nat, 1, n_single as nat);
    while len_of_f > 0 && degree < n_single
        invariant
            1 <= degree,
            n_single == level_of(sets_view(orig), 1).len(),
            goal == grow(sets_view(orig), all, min_count as nat, 1, n_single as nat),
            grow(sets_view(fre_sets@), all, min_count as nat, degree as nat, n_single as nat) == goal,
            len_of_f == level_of(sets_view(fre_sets@), degree as nat).len(),
            all == txn_labels(txn_set@),
            start <= fre_sets@.len(),
            fre_sets@.take(start as int) == orig,
            frequent_over(sets_view(fre_sets@), all, min_count as nat),
            forall|k: int| start <= k < fre_sets@.len() ==> #[trigger] fre_sets@[k].degree >= 2,
        decreases n_single - degree,
    {
        proof {
            assert forall|k: int| 0 <= k < fre_sets.len() implies #[trigger] fre_sets[k].degree
                == fre_sets[k].items.len() && fre_sets[k].items.deep_view().no_duplicates() by {
                let v = sets_view(fre_sets@)[k];
                assert(v == fre_sets@[k]@);
                assert(v.0 >= 1 && counted(v, all));
                assert(v.1.len() == fre_sets[k].items.len());
            }
        }
        let ghost sv0 = sets_view(fre_sets@);
        let candi_sets: Vec<CandicateSet> = get_candi_from_f(fre_sets, degree);
        let ghost cands = candidate_labels(candi_sets@);
        assert(sv0 + promote(cands.take(0), all, min_count as nat, degree as nat + 1) =~= sv0);
        let mut c: usize = 0;
        while c < candi_sets.len()
            invariant
                c <= candi_sets.len(),
                cands == candidate_labels(candi_sets@),
                sets_view(fre_sets@) == sv0 + promote(cands.take(c as int), all, min_count as nat, degree as nat + 1),
                1 <= degree < usize::MAX,
                all == txn_labels(txn_set@),
                start <= fre_sets@.len(),
                fre_sets@.take(start as int) == orig,
                frequent_over(sets_view(fre_sets@), all, min_count as nat),
                forall|k: int| start <= k < fre_sets@.len() ==> #[trigger] fre_sets@[k].degree >= 2,
                forall|q: int| 0 <= q < candi_sets.len() ==> #[trigger] candi_sets[q].degree == degree + 1,
                forall|q: int| 0 <= q < candi_sets.len() ==> #[trigger] candi_sets[q].items.len() == degree + 1,
                forall|q: int| 0 <= q < candi_sets.len() ==> #[trigger] candi_sets[q].items.deep_view().no_duplicates(),
            decreases candi_sets.len() - c,
        {
            let count = count_support(&candi_sets[c].items, txn_set);
            proof {
                assert(cands.take(c as int + 1).drop_last() =~= cands.take(c as int));
                assert(cands.take(c as int + 1).last() == candi_sets[c as int].items.deep_view());
            }
            if count as u128 >= min_count {
                let ghost before = fre_sets@;
                let new_fre = FrequentSet {
                    degree: candi_sets[c].degree,
                    items: clone_labels(&candi_sets[c].items),
                    count,
                };
                fre_sets.push(new_fre);
                assert(fre_sets@.take(start as int) =~= before.take(start as int));
                assert forall|k: int| 0 <= k < fre_sets@.len() implies {
                    let v = #[trigger] sets_view(fre_sets@)[k];
                    &&& v.0 >= 1
                    &&& counted(v, all)
                    &&& clears(v, min_count as nat)
                } by {
                    if k < before.len() {
                        assert(fre_sets@[k] == before[k]);
                        assert(sets_view(fre_sets@)[k] == sets_view(before)[k]);
                    } else {
                        assert(sets_view(fre_sets@)[k] == fre_sets@[k]@);
                    }
                }
                assert(sets_view(fre_sets@) =~= sets_view(before).push(fre_sets@[fre_sets@.len() - 1]@));
            }
            c = c + 1;
        }
        assert(cands.take(c as int) =~= cands);
        degree = degree + 1;
        len_of_f = len_of_f_degree(fre_sets, degree);
    }
}

} // verus!
