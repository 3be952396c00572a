use vstd::prelude::*;

verus! {

/// One transaction: its position in the input and its item labels.
pub struct Txn {
    pub id: usize,
    pub items: Vec<String>,
}

/// An itemset proposed for support counting.
pub struct CandicateSet {
    pub degree: usize,
    pub items: Vec<String>,
    pub count: usize,
}

/// An itemset whose count met the support threshold.
pub struct FrequentSet {
    pub degree: usize,
    pub items: Vec<String>,
    pub count: usize,
}

/// The labels of every transaction, in input order.
pub open spec fn txn_labels(txns: Seq<Txn>) -> Seq<Seq<Seq<char>>> {
    Seq::new(txns.len(), |i: int| txns[i].items.deep_view())
}

/// Every label of `sub` occurs in `set`.
pub open spec fn contains_all(sub: Seq<Seq<char>>, set: Seq<Seq<char>>) -> bool {
    forall|i: int| 0 <= i < sub.len() ==> set.contains(#[trigger] sub[i])
}

/// The number of transactions that contain every label of `items`.
pub open spec fn support(txns: Seq<Seq<Seq<char>>>, items: Seq<Seq<char>>) -> nat
    decreases txns.len(),
{
    if txns.len() == 0 {
        0
    } else {
        support(txns.drop_last(), items) + if contains_all(items, txns.last()) {
            1nat
        } else {
            0nat
        }
    }
}

/// Degree, labels and count of an itemset.
pub type SetView = (nat, Seq<Seq<char>>, nat);

impl View for FrequentSet {
    type V = SetView;

    open spec fn view(&self) -> SetView {
        (self.degree as nat, self.items.deep_view(), self.count as nat)
    }
}

pub open spec fn sets_view(sets: Seq<FrequentSet>) -> Seq<SetView> {
    sets.map_values(|s: FrequentSet| s@)
}

/// The degree is the number of labels, the labels are distinct and the
/// count is the support of the labels over `txns`.
pub open spec fn counted(v: SetView, txns: Seq<Seq<Seq<char>>>) -> bool {
    &&& v.0 == v.1.len()
    &&& v.1.no_duplicates()
    &&& v.2 == support(txns, v.1)
}

/// The support threshold: strict for single labels, reached for larger sets.
pub open spec fn clears(v: SetView, min_count: nat) -> bool {
    if v.0 == 1 {
        v.2 > min_count
    } else {
        v.2 >= min_count
    }
}

impl Txn {
    /// Labels are pairwise distinct.
    pub open spec fn wf(&self) -> bool {
        self.items.deep_view().no_duplicates()
    }
}

/// A copy of `v`'s labels.
pub fn clone_labels(v: &Vec<String>) -> (r: Vec<String>)
    ensures
        r.deep_view() == v.deep_view(),
{
    let mut r: Vec<String> = Vec::new();
    let mut i: usize = 0;
    while i < v.len()
        invariant
            i <= v.len(),
            r.deep_view() == v.deep_view().take(i as int),
        decreases v.len() - i,
    {
        let ghost before = r.deep_view();
        r.push(v[i].clone());
        assert(r.deep_view() =~= before.push(v[i as int]@));
        assert(v.deep_view().take(i as int + 1) =~= v.deep_view().take(i as int).push(v[i as int]@));
        i = i + 1;
    }
    assert(v.deep_view().take(i as int) =~= v.deep_view());
    r
}

pub proof fn lemma_support_le(txns: Seq<Seq<Seq<char>>>, items: Seq<Seq<char>>)
    ensures
        support(txns, items) <= txns.len(),
    decreases txns.len(),
{
    if txns.len() > 0 {
        lemma_support_le(txns.drop_last(), items);
    }
}

pub proof fn lemma_support_take(txns: Seq<Seq<Seq<char>>>, items: Seq<Seq<char>>, t: int)
    requires
        0 <= t < txns.len(),
    ensures
        support(txns.take(t + 1), items) == support(txns.take(t), items) + if contains_all(
            items,
            txns[t],
        ) {
            1nat
        } else {
            0nat
        },
{
    assert(txns.take(t + 1).drop_last() =~= txns.take(t));
}

/// A subset of labels is contained in at least as many transactions.
pub proof fn lemma_support_antitone(
    txns: Seq<Seq<Seq<char>>>,
    sub: Seq<Seq<char>>,
    sup: Seq<Seq<char>>,
)
    requires
        contains_all(sub, sup),
    ensures
        support(txns, sup) <= support(txns, sub),
    decreases txns.len(),
{
    if txns.len() > 0 {
        lemma_support_antitone(txns.drop_last(), sub, sup);
        if contains_all(sup, txns.last()) {
            assert forall|i: int| 0 <= i < sub.len() implies txns.last().contains(
                #[trigger] sub[i],
            ) by {
                let k = choose|k: int| 0 <= k < sup.len() && sup[k] == sub[i];
                assert(txns.last().contains(sup[k]));
            }
        }
    }
}

/// Whether `label` is one of `set`'s labels.
pub fn label_in(label: &String, set: &Vec<String>) -> (r: bool)
    ensures
        r == set.deep_view().contains(label@),
{
    let mut j: usize = 0;
    while j < set.len()
        invariant
            j <= set.len(),
            forall|k: int| 0 <= k < j ==> set.deep_view()[k] != label@,
        decreases set.len() - j,
    {
        if set[j] == *label {
            assert(set.deep_view()[j as int] == label@);
            return true;
        }
        j = j + 1;
    }
    proof {
        if set.deep_view().contains(label@) {
            let k = choose|k: int| 0 <= k < set.deep_view().len() && set.deep_view()[k] == label@;
        }
    }
    false
}

/// Whether every label of `subset` occurs in `set`.
pub fn subset_of(subset: &Vec<String>, set: &Vec<String>) -> (r: bool)
    ensures
        r == contains_all(subset.deep_view(), set.deep_view()),
{
    let mut i: usize = 0;
    while i < subset.len()
        invariant
            i <= subset.len(),
            forall|k: int| 0 <= k < i ==> set.deep_view().contains(#[trigger] subset.deep_view()[k]),
        decreases subset.len() - i,
    {
        if !label_in(&subset[i], set) {
            assert(subset.deep_view()[i as int] == subset[i as int]@);
            return false;
        }
        i = i + 1;
    }
    true
}

/// The number of transactions of `txn_set` that contain every label of `items`.
pub fn count_support(items: &Vec<String>, txn_set: &Vec<Txn>) -> (r: usize)
    ensures
        r == support(txn_labels(txn_set@), items.deep_view()),
{
    let ghost all = txn_labels(txn_set@);
    let mut count: usize = 0;
    let mut t: usize = 0;
    while t < txn_set.len()
        invariant
            t <= txn_set.len(),
            all == txn_labels(txn_set@),
            count == support(all.take(t as int), items.deep_view()),
        decreases txn_set.len() - t,
    {
        proof {
            lemma_support_take(all, items.deep_view(), t as int);
            lemma_support_le(all.take(t as int), items.deep_view());
        }
        if subset_of(items, &txn_set[t].items) {
            count = count + 1;
        }
        t = t + 1;
    }
    assert(all.take(t as int) =~= all);
    count
}

} // verus!
