use vstd::prelude::*;
use crate::itemset::{Txn, FrequentSet, txn_labels, contains_all, support, lemma_support_take, lemma_support_le};

verus! {

/// Distinct labels with one count each, `counts[i]` belonging to `labels[i]`.
pub struct ItemTally {
    pub labels: Vec<String>,
    pub counts: Vec<usize>,
}

impl ItemTally {
    pub open spec fn label_view(&self) -> Seq<Seq<char>> {
        self.labels.deep_view()
    }

    /// One count per label, labels distinct.
    pub open spec fn wf(&self) -> bool {
        &&& self.labels.len() == self.counts.len()
        &&& self.labels.deep_view().no_duplicates()
    }
}

/// Some transaction of `txns` holds `x`.
pub open spec fn occurs(txns: Seq<Seq<Seq<char>>>, x: Seq<char>) -> bool {
    exists|k: int| 0 <= k < txns.len() && #[trigger] txns[k].contains(x)
}

/// The labels of all transactions, one transaction after another.
pub open spec fn flatten(txns: Seq<Seq<Seq<char>>>) -> Seq<Seq<char>>
    decreases txns.len(),
{
    if txns.len() == 0 {
        Seq::empty()
    } else {
        flatten(txns.drop_last()) + txns.last()
    }
}

/// The distinct labels of `s` in the order of their first appearance.
pub open spec fn first_seen(s: Seq<Seq<char>>) -> Seq<Seq<char>>
    decreases s.len(),
{
    if s.len() == 0 {
        Seq::empty()
    } else {
        let prev = first_seen(s.drop_last());
        if prev.contains(s.last()) {
            prev
        } else {
            prev.push(s.last())
        }
    }
}

/// Every transaction holds each of its labels once.
pub open spec fn txns_wf(txns: Seq<Txn>) -> bool {
    forall|t: int| 0 <= t < txns.len() ==> #[trigger] txns[t].wf()
}

pub proof fn lemma_single(set: Seq<Seq<char>>, x: Seq<char>)
    ensures
        contains_all(seq![x], set) == set.contains(x),
{
    if set.contains(x) {
        assert forall|i: int| 0 <= i < seq![x].len() implies set.contains(#[trigger] seq![x][i]) by {}
    } else {
        assert(seq![x][0] == x);
    }
}

pub proof fn lemma_support_absent(txns: Seq<Seq<Seq<char>>>, x: Seq<char>)
    requires
        !occurs(txns, x),
    ensures
        support(txns, seq![x]) == 0,
    decreases txns.len(),
{
    if txns.len() > 0 {
        assert(!txns[txns.len() - 1].contains(x));
        lemma_single(txns.last(), x);
        assert forall|k: int| 0 <= k < txns.drop_last().len() implies !(
        #[trigger] txns.drop_last()[k].contains(x)) by {
            assert(txns.drop_last()[k] == txns[k]);
        }
        lemma_support_absent(txns.drop_last(), x);
    }
}

pub proof fn lemma_push_contains(s: Seq<Seq<char>>, x: Seq<char>, l: Seq<char>)
    ensures
        s.push(x).contains(l) <==> (s.contains(l) || l == x),
{
    if s.contains(l) {
        let k = choose|k: int| 0 <= k < s.len() && s[k] == l;
        assert(s.push(x)[k] == l);
    }
    if l == x {
        assert(s.push(x)[s.len() as int] == x);
    }
    if s.push(x).contains(l) {
        let k = choose|k: int| 0 <= k < s.push(x).len() && s.push(x)[k] == l;
        if k < s.len() {
            assert(s[k] == l);
        }
    }
}

/// Index of `label` among `labels`.
pub fn position_of(label: &String, labels: &Vec<String>) -> (r: Option<usize>)
    ensures
        match r {
            Some(i) => i < labels.len() && labels.deep_view()[i as int] == label@,
            None => !labels.deep_view().contains(label@),
        },
{
    let mut j: usize = 0;
    while j < labels.len()
        invariant
            j <= labels.len(),
            forall|k: int| 0 <= k < j ==> labels.deep_view()[k] != label@,
        decreases labels.len() - j,
    {
        if labels[j] == *label {
            return Some(j);
        }
        j = j + 1;
    }
    None
}

/// Counts, in one pass, how many transactions hold each label; labels come in
/// the order of their first appearance.
pub fn create_candicate_set_1(txn_set: &Vec<Txn>) -> (r: ItemTally)
    requires
        txns_wf(txn_set@),
    ensures
        r.wf(),
        r.label_view() == first_seen(flatten(txn_labels(txn_set@))),
        forall|i: int|
            0 <= i < r.counts.len() ==> #[trigger] r.counts[i] == support(
                txn_labels(txn_set@),
                seq![r.label_view()[i]],
            ),
        forall|x: Seq<char>| r.label_view().contains(x) <==> occurs(txn_labels(txn_set@), x),
{
    let ghost all = txn_labels(txn_set@);
    let mut labels: Vec<String> = Vec::new();
    let mut counts: Vec<usize> = Vec::new();
    let mut t: usize = 0;
    while t < txn_set.len()
        invariant
            t <= txn_set.len(),
            all == txn_labels(txn_set@),
            txns_wf(txn_set@),
            labels.len() == counts.len(),
            labels.deep_view().no_duplicates(),
            labels.deep_view() == first_seen(flatten(all.take(t as int))),
            forall|i: int|
                0 <= i < counts.len() ==> #[trigger] counts[i] == support(
                    all.take(t as int),
                    seq![labels.deep_view()[i]],
                ),
            forall|x: Seq<char>|
                labels.deep_view().contains(x) <==> occurs(all.take(t as int), x),
        decreases txn_set.len() - t,
    {
        let items = &txn_set[t].items;
        let ghost cur = items.deep_view();
        assert(cur == all[t as int]);
        assert(txn_set@[t as int].wf());
        let ghost base = flatten(all.take(t as int));
        assert(base + cur.take(0) =~= base);
        let mut p: usize = 0;
        while p < items.len()
            invariant
                t < txn_set.len(),
                p <= items.len(),
                all == txn_labels(txn_set@),
                txns_wf(txn_set@),
                items == txn_set@[t as int].items,
                cur == items.deep_view(),
                cur == all[t as int],
                cur.no_duplicates(),
                labels.len() == counts.len(),
                labels.deep_view().no_duplicates(),
                base == flatten(all.take(t as int)),
                labels.deep_view() == first_seen(base + cur.take(p as int)),
                forall|i: int|
                    0 <= i < counts.len() ==> #[trigger] counts[i] == support(
                        all.take(t as int),
                        seq![labels.deep_view()[i]],
                    ) + if cur.take(p as int).contains(labels.deep_view()[i]) {
                        1nat
                    } else {
                        0nat
                    },
                forall|x: Seq<char>|
                    labels.deep_view().contains(x) <==> (occurs(all.take(t as int), x)
                        || cur.take(p as int).contains(x)),
            decreases items.len() - p,
        {
            let ghost x = cur[p as int];
            let ghost before = labels.deep_view();
            let ghost old_counts = counts@;
            assert(cur.take(p as int + 1) =~= cur.take(p as int).push(x));
            assert(base + cur.take(p as int + 1) =~= (base + cur.take(p as int)).push(x));
            assert((base + cur.take(p as int)).push(x).drop_last() =~= base + cur.take(p as int));
            assert(!cur.take(p as int).contains(x)) by {
                if cur.take(p as int).contains(x) {
                    let k = choose|k: int| 0 <= k < p && cur.take(p as int)[k] == x;
                    assert(cur[k] == cur[p as int]);
                }
            }
            proof {
                lemma_support_le(all.take(t as int), seq![x]);
            }
            match position_of(&items[p], &labels) {
                Some(i) => {
                    assert(labels.deep_view()[i as int] == x);
                    assert(counts[i as int] == support(all.take(t as int), seq![x]));
                    assert(all.take(t as int).len() == t);
                    let c = counts[i] + 1;
                    counts.set(i, c);
                    assert forall|j: int| 0 <= j < counts.len() implies #[trigger] counts[j]
                        == support(all.take(t as int), seq![labels.deep_view()[j]]) + if cur.take(
                        p as int + 1,
                    ).contains(labels.deep_view()[j]) {
                        1nat
                    } else {
                        0nat
                    } by {
                        lemma_push_contains(cur.take(p as int), x, labels.deep_view()[j]);
                        if j != i {
                            assert(labels.deep_view()[j] != x);
                        }
                    }
                    assert forall|y: Seq<char>|
                        labels.deep_view().contains(y) <==> (occurs(all.take(t as int), y)
                            || cur.take(p as int + 1).contains(y)) by {
                        lemma_push_contains(cur.take(p as int), x, y);
                    }
                },
                None => {
                    assert(!occurs(all.take(t as int), x));
                    proof {
                        lemma_support_absent(all.take(t as int), x);
                    }
                    labels.push(items[p].clone());
                    counts.push(1);
                    assert(labels.deep_view() =~= before.push(x));
                    assert forall|j: int| 0 <= j < counts.len() implies #[trigger] counts[j]
                        == support(all.take(t as int), seq![labels.deep_view()[j]]) + if cur.take(
                        p as int + 1,
                    ).contains(labels.deep_view()[j]) {
                        1nat
                    } else {
                        0nat
                    } by {
                        lemma_push_contains(cur.take(p as int), x, labels.deep_view()[j]);
                        if j < before.len() {
                            assert(before[j] != x);
                            assert(counts[j] == old_counts[j]);
                        }
                    }
                    assert forall|y: Seq<char>|
                        labels.deep_view().contains(y) <==> (occurs(all.take(t as int), y)
                            || cur.take(p as int + 1).contains(y)) by {
                        lemma_push_contains(cur.take(p as int), x, y);
                        lemma_push_contains(before, x, y);
                    }
                },
            }
            p = p + 1;
        }
        proof {
            assert(cur.take(p as int) =~= cur);
            assert(all.take(t as int + 1).drop_last() =~= all.take(t as int));
            assert(all.take(t as int + 1).last() == cur);
            assert forall|i: int| 0 <= i < counts.len() implies #[trigger] counts[i] == support(
                all.take(t as int + 1),
                seq![labels.deep_view()[i]],
            ) by {
                lemma_support_take(all, seq![labels.deep_view()[i]], t as int);
                lemma_single(cur, labels.deep_view()[i]);
            }
            assert forall|x: Seq<char>|
                labels.deep_view().contains(x) <==> occurs(all.take(t as int + 1), x) by {
                if occurs(all.take(t as int + 1), x) {
                    let k = choose|k: int|
                        0 <= k < all.take(t as int + 1).len() && #[trigger] all.take(
                            t as int + 1,
                        )[k].contains(x);
                    if k < t {
                        assert(all.take(t as int)[k] == all[k]);
                    }
                }
                if occurs(all.take(t as int), x) {
                    let k = choose|k: int|
                        0 <= k < all.take(t as int).len() && #[trigger] all.take(
                            t as int,
                        )[k].contains(x);
                    assert(all.take(t as int + 1)[k] == all[k]);
                }
                if cur.contains(x) {
                    assert(all.take(t as int + 1)[t as int] == cur);
                }
            }
        }
        t = t + 1;
    }
    assert(all.take(t as int) =~= all);
    ItemTally { labels, counts }
}

} // verus!
