use vstd::prelude::*;
use crate::itemset::{Txn, label_in};
use crate::tally::lemma_push_contains;

verus! {

/// `a` comes no later than `b` in lexicographic order of code points, which
/// for UTF-8 text is the byte order that `String` compares by.
pub open spec fn label_le(a: Seq<char>, b: Seq<char>) -> bool
    decreases a.len(),
{
    if a.len() == 0 {
        true
    } else if b.len() == 0 {
        false
    } else if a[0] != b[0] {
        (a[0] as u32) < (b[0] as u32)
    } else {
        label_le(a.drop_first(), b.drop_first())
    }
}

/// The labels are in non-decreasing order.
pub open spec fn sorted(s: Seq<Seq<char>>) -> bool {
    forall|i: int, j: int| 0 <= i < j < s.len() ==> label_le(#[trigger] s[i], #[trigger] s[j])
}

/// Relies on `slice::sort` for `String`: the labels are reordered, none added
/// or lost, into `String`'s order.
#[verifier::external_body]
pub(crate) fn sort_labels(v: &mut Vec<String>)
    ensures
        final(v).deep_view().to_multiset() == old(v).deep_view().to_multiset(),
        sorted(final(v).deep_view()),
{
    v.sort();
}

/// The labels of `raw` that are not blank, each once, in sorted order.
pub fn normalize_items(raw: &Vec<String>) -> (r: Vec<String>)
    ensures
        r.deep_view().no_duplicates(),
        sorted(r.deep_view()),
        forall|x: Seq<char>| r.deep_view().contains(x) <==> (raw.deep_view().contains(x) && x.len() > 0),
{
    let mut kept: Vec<String> = Vec::new();
    let mut i: usize = 0;
    while i < raw.len()
        invariant
            i <= raw.len(),
            forall|x: Seq<char>|
                kept.deep_view().contains(x) <==> (raw.deep_view().take(i as int).contains(x) && x.len() > 0),
        decreases raw.len() - i,
    {
        let ghost before = kept.deep_view();
        let ghost x = raw.deep_view()[i as int];
        assert(raw.deep_view().take(i as int + 1) =~= raw.deep_view().take(i as int).push(x));
        if !raw[i].as_str().is_empty() {
            kept.push(raw[i].clone());
            assert(kept.deep_view() =~= before.push(x));
        }
        proof {
            assert forall|y: Seq<char>|
                kept.deep_view().contains(y) <==> (raw.deep_view().take(i as int + 1).contains(y)
                    && y.len() > 0) by {
                lemma_push_contains(raw.deep_view().take(i as int), x, y);
                lemma_push_contains(before, x, y);
            }
        }
        i = i + 1;
    }
    assert(raw.deep_view().take(i as int) =~= raw.deep_view());
    let ghost unsorted = kept.deep_view();
    assert(forall|x: Seq<char>| unsorted.contains(x) <==> (raw.deep_view().contains(x) && x.len() > 0));
    sort_labels(&mut kept);
    proof {
        assert forall|x: Seq<char>|
            kept.deep_view().contains(x) <==> (raw.deep_view().contains(x) && x.len() > 0) by {
            unsorted.to_multiset_ensures();
            kept.deep_view().to_multiset_ensures();
            assert(kept.deep_view().to_multiset().count(x) == unsorted.to_multiset().count(x));
            assert(unsorted.contains(x) <==> (raw.deep_view().contains(x) && x.len() > 0));
        }
    }
    let mut r: Vec<String> = Vec::new();
    let ghost mut src: Seq<int> = Seq::empty();
    let mut j: usize = 0;
    while j < kept.len()
        invariant
            j <= kept.len(),
            sorted(kept.deep_view()),
            r.deep_view().no_duplicates(),
            src.len() == r.len(),
            forall|a: int| 0 <= a < src.len() ==> 0 <= #[trigger] src[a] < j,
            forall|a: int| 0 <= a < src.len() ==> r.deep_view()[a] == kept.deep_view()[#[trigger] src[a]],
            forall|a: int, b: int| 0 <= a < b < src.len() ==> #[trigger] src[a] < #[trigger] src[b],
            forall|x: Seq<char>| r.deep_view().contains(x) <==> kept.deep_view().take(j as int).contains(x),
            forall|x: Seq<char>|
                kept.deep_view().contains(x) <==> (raw.deep_view().contains(x) && x.len() > 0),
        decreases kept.len() - j,
    {
        let ghost before = r.deep_view();
        let ghost x = kept.deep_view()[j as int];
        assert(kept.deep_view().take(j as int + 1) =~= kept.deep_view().take(j as int).push(x));
        if !label_in(&kept[j], &r) {
            r.push(kept[j].clone());
            proof {
                src = src.push(j as int);
            }
            assert(r.deep_view() =~= before.push(x));
        }
        proof {
            assert forall|y: Seq<char>|
                r.deep_view().contains(y) <==> kept.deep_view().take(j as int + 1).contains(y) by {
                lemma_push_contains(kept.deep_view().take(j as int), x, y);
                lemma_push_contains(before, x, y);
            }
        }
        j = j + 1;
    }
    assert(kept.deep_view().take(j as int) =~= kept.deep_view());
    assert forall|a: int, b: int| 0 <= a < b < r.len() implies label_le(
        #[trigger] r.deep_view()[a],
        #[trigger] r.deep_view()[b],
    ) by {
        assert(src[a] < src[b]);
    }
    r
}

/// `t` is record `i`'s transaction: numbered `i`, holding the record's
/// non-blank labels once each, sorted.
pub open spec fn normalized_from(t: Txn, record: Seq<Seq<char>>, i: int) -> bool {
    &&& t.id == i
    &&& t.wf()
    &&& sorted(t.items.deep_view())
    &&& forall|x: Seq<char>|
        t.items.deep_view().contains(x) <==> (record.contains(x) && x.len() > 0)
}

/// One transaction per record, numbered by position, holding the record's
/// non-blank labels once each, sorted.
pub fn create_sorted_txn_set(records: &Vec<Vec<String>>) -> (r: Vec<Txn>)
    ensures
        r.len() == records.len(),
        forall|i: int| 0 <= i < r.len() ==> normalized_from(#[trigger] r[i], records[i].deep_view(), i),
{
    let mut txn_set: Vec<Txn> = Vec::new();
    let mut i: usize = 0;
    while i < records.len()
        invariant
            i <= records.len(),
            txn_set.len() == i,
            forall|k: int| 0 <= k < i ==> normalized_from(#[trigger] txn_set[k], records[k].deep_view(), k),
        decreases records.len() - i,
    {
        let items = normalize_items(&records[i]);
        let t = Txn { id: i, items };
        assert(normalized_from(t, records[i as int].deep_view(), i as int));
        let ghost old_set = txn_set@;
        txn_set.push(t);
        assert forall|k: int| 0 <= k < i + 1 implies normalized_from(#[trigger] txn_set[k], records[k].deep_view(), k) by {
            if k < i {
                assert(txn_set[k] == old_set[k]);
            }
        }
        i = i + 1;
    }
    txn_set
}


pub proof fn lemma_le_refl(a: Seq<char>)
    ensures
        label_le(a, a),
    decreases a.len(),
{
    if a.len() > 0 {
        lemma_le_refl(a.drop_first());
    }
}

pub proof fn lemma_le_antisym(a: Seq<char>, b: Seq<char>)
    requires
        label_le(a, b),
        label_le(b, a),
    ensures
        a == b,
    decreases a.len(),
{
    if a.len() == 0 {
        assert(a =~= b);
    } else {
        assert(b.len() > 0);
        lemma_le_antisym(a.drop_first(), b.drop_first());
        assert(a.drop_first().len() == b.drop_first().len());
        assert(b.len() == a.len());
        assert forall|i: int| 0 <= i < a.len() implies a[i] == b[i] by {
            if i > 0 {
                assert(a.drop_first()[i - 1] == a[i]);
                assert(b.drop_first()[i - 1] == b[i]);
            }
        }
        assert(a =~= b);
    }
}

pub proof fn lemma_le_total(a: Seq<char>, b: Seq<char>)
    ensures
        label_le(a, b) || label_le(b, a),
    decreases a.len(),
{
    if a.len() > 0 && b.len() > 0 {
        if a[0] == b[0] {
            lemma_le_total(a.drop_first(), b.drop_first());
        } else if (a[0] as u32) == (b[0] as u32) {
            lemma_code_injective(a[0], b[0]);
        }
    }
}

pub proof fn lemma_le_trans(a: Seq<char>, b: Seq<char>, c: Seq<char>)
    requires
        label_le(a, b),
        label_le(b, c),
    ensures
        label_le(a, c),
    decreases a.len(),
{
    if a.len() > 0 && b.len() > 0 && c.len() > 0 && a[0] == b[0] && b[0] == c[0] {
        lemma_le_trans(a.drop_first(), b.drop_first(), c.drop_first());
    }
}

/// `s` with `x` placed before the first label it does not come after.
pub open spec fn insert_label(s: Seq<Seq<char>>, x: Seq<char>) -> Seq<Seq<char>>
    decreases s.len(),
{
    if s.len() == 0 {
        seq![x]
    } else if label_le(x, s[0]) {
        seq![x] + s
    } else {
        seq![s[0]] + insert_label(s.drop_first(), x)
    }
}

/// The labels of `s` in sorted order.
pub open spec fn sort_spec(s: Seq<Seq<char>>) -> Seq<Seq<char>>
    decreases s.len(),
{
    if s.len() == 0 {
        Seq::empty()
    } else {
        insert_label(sort_spec(s.drop_last()), s.last())
    }
}

proof fn lemma_prepend_contains(x: Seq<char>, s: Seq<Seq<char>>, y: Seq<char>)
    ensures
        (seq![x] + s).contains(y) <==> (y == x || s.contains(y)),
{
    let r = seq![x] + s;
    if s.contains(y) {
        let k = choose|k: int| 0 <= k < s.len() && s[k] == y;
        assert(r[k + 1] == y);
    }
    if y == x {
        assert(r[0] == x);
    }
    if r.contains(y) {
        let k = choose|k: int| 0 <= k < r.len() && r[k] == y;
        if k > 0 {
            assert(s[k - 1] == y);
        }
    }
}

proof fn lemma_insert(s: Seq<Seq<char>>, x: Seq<char>)
    requires
        sorted(s),
        s.no_duplicates(),
        !s.contains(x),
    ensures
        sorted(insert_label(s, x)),
        insert_label(s, x).no_duplicates(),
        forall|y: Seq<char>| insert_label(s, x).contains(y) <==> (y == x || s.contains(y)),
    decreases s.len(),
{
    let r = insert_label(s, x);
    if s.len() == 0 {
        assert forall|y: Seq<char>| r.contains(y) <==> (y == x || s.contains(y)) by {
            if y == x {
                assert(r[0] == x);
            }
        }
    } else if label_le(x, s[0]) {
        assert forall|y: Seq<char>| r.contains(y) <==> (y == x || s.contains(y)) by {
            lemma_prepend_contains(x, s, y);
        }
        assert forall|i: int, j: int| 0 <= i < j < r.len() implies label_le(#[trigger] r[i], #[trigger] r[j]) by {
            if i == 0 {
                if j > 1 {
                    lemma_le_trans(x, s[0], s[j - 1]);
                }
            } else {
                assert(r[i] == s[i - 1] && r[j] == s[j - 1]);
            }
        }
        assert forall|i: int, j: int| 0 <= i < j < r.len() implies r[i] != r[j] by {
            if i == 0 {
                assert(s.contains(r[j]));
            } else {
                assert(r[i] == s[i - 1] && r[j] == s[j - 1]);
            }
        }
    } else {
        let t = insert_label(s.drop_first(), x);
        assert(!s.drop_first().contains(x)) by {
            if s.drop_first().contains(x) {
                let k = choose|k: int| 0 <= k < s.drop_first().len() && s.drop_first()[k] == x;
                assert(s[k + 1] == x);
            }
        }
        assert(sorted(s.drop_first())) by {
            assert forall|i: int, j: int| 0 <= i < j < s.drop_first().len() implies label_le(
                #[trigger] s.drop_first()[i],
                #[trigger] s.drop_first()[j],
            ) by {
                assert(s.drop_first()[i] == s[i + 1] && s.drop_first()[j] == s[j + 1]);
            }
        }
        assert(s.drop_first().no_duplicates()) by {
            assert forall|i: int, j: int| 0 <= i < j < s.drop_first().len() implies s.drop_first()[i]
                != s.drop_first()[j] by {
                assert(s.drop_first()[i] == s[i + 1] && s.drop_first()[j] == s[j + 1]);
            }
        }
        lemma_insert(s.drop_first(), x);
        assert(r == seq![s[0]] + t);
        lemma_le_total(x, s[0]);
        assert forall|y: Seq<char>| r.contains(y) <==> (y == x || s.contains(y)) by {
            lemma_prepend_contains(s[0], t, y);
            lemma_prepend_contains(s[0], s.drop_first(), y);
            assert(seq![s[0]] + s.drop_first() =~= s);
        }
        assert forall|i: int, j: int| 0 <= i < j < r.len() implies label_le(#[trigger] r[i], #[trigger] r[j]) by {
            if i == 0 {
                assert(r[j] == t[j - 1]);
                assert(t.contains(t[j - 1]));
                if t[j - 1] != x {
                    assert(s.drop_first().contains(t[j - 1]));
                    let k = choose|k: int| 0 <= k < s.drop_first().len() && s.drop_first()[k] == t[j - 1];
                    assert(s.drop_first()[k] == s[k + 1]);
                    assert(label_le(s[0], s[k + 1]));
                }
            } else {
                assert(r[i] == t[i - 1] && r[j] == t[j - 1]);
            }
        }
        assert forall|i: int, j: int| 0 <= i < j < r.len() implies r[i] != r[j] by {
            if i == 0 {
                assert(r[j] == t[j - 1]);
                assert(t.contains(t[j - 1]));
                if t[j - 1] != x {
                    assert(s.drop_first().contains(t[j - 1]));
                    let k = choose|k: int| 0 <= k < s.drop_first().len() && s.drop_first()[k] == t[j - 1];
                    assert(s.drop_first()[k] == s[k + 1]);
                    assert(label_le(s[0], s[k + 1]));
                } else {
                    assert(s.contains(s[0]));
                }
            } else {
                assert(r[i] == t[i - 1] && r[j] == t[j - 1]);
            }
        }
    }
}

/// Sorting distinct labels keeps them, distinct, and sorts them.
pub proof fn lemma_sort_spec(s: Seq<Seq<char>>)
    requires
        s.no_duplicates(),
    ensures
        sorted(sort_spec(s)),
        sort_spec(s).no_duplicates(),
        forall|y: Seq<char>| sort_spec(s).contains(y) <==> s.contains(y),
    decreases s.len(),
{
    if s.len() > 0 {
        let p = s.drop_last();
        assert(p.no_duplicates()) by {
            assert forall|i: int, j: int| 0 <= i < j < p.len() implies p[i] != p[j] by {
                assert(p[i] == s[i] && p[j] == s[j]);
            }
        }
        lemma_sort_spec(p);
        assert(!p.contains(s.last())) by {
            if p.contains(s.last()) {
                let k = choose|k: int| 0 <= k < p.len() && p[k] == s.last();
                assert(s[k] == s[s.len() - 1]);
            }
        }
        lemma_insert(sort_spec(p), s.last());
        assert forall|y: Seq<char>| sort_spec(s).contains(y) <==> s.contains(y) by {
            if s.contains(y) {
                let k = choose|k: int| 0 <= k < s.len() && s[k] == y;
                if k < s.len() - 1 {
                    assert(p[k] == y);
                }
            }
            if p.contains(y) {
                let k = choose|k: int| 0 <= k < p.len() && p[k] == y;
                assert(s[k] == y);
            }
        }
    }
}

/// Two sorted sequences of the same distinct labels are equal.
pub proof fn lemma_sorted_unique(r1: Seq<Seq<char>>, r2: Seq<Seq<char>>)
    requires
        sorted(r1),
        sorted(r2),
        r1.no_duplicates(),
        r2.no_duplicates(),
        forall|y: Seq<char>| r1.contains(y) <==> r2.contains(y),
    ensures
        r1 == r2,
    decreases r1.len(),
{
    if r1.len() == 0 {
        if r2.len() > 0 {
            assert(r2.contains(r2[0]));
        }
        assert(r1 =~= r2);
    } else {
        assert(r1.contains(r1[0]));
        assert(r2.len() > 0);
        assert(r2.contains(r2[0]));
        let j = choose|j: int| 0 <= j < r2.len() && r2[j] == r1[0];
        let i = choose|i: int| 0 <= i < r1.len() && r1[i] == r2[0];
        if i > 0 && j > 0 {
            lemma_le_antisym(r1[0], r2[0]);
        }
        let a = r1.drop_first();
        let b = r2.drop_first();
        assert forall|y: Seq<char>| a.contains(y) <==> b.contains(y) by {
            lemma_prepend_contains(r1[0], a, y);
            lemma_prepend_contains(r2[0], b, y);
            assert(seq![r1[0]] + a =~= r1);
            assert(seq![r2[0]] + b =~= r2);
            if a.contains(y) {
                let k = choose|k: int| 0 <= k < a.len() && a[k] == y;
                assert(r1[k + 1] == y);
            }
            if b.contains(y) {
                let k = choose|k: int| 0 <= k < b.len() && b[k] == y;
                assert(r2[k + 1] == y);
            }
        }
        assert forall|p: int, q: int| 0 <= p < q < a.len() implies label_le(#[trigger] a[p], #[trigger] a[q]) && a[p] != a[q] by {
            assert(a[p] == r1[p + 1] && a[q] == r1[q + 1]);
        }
        assert forall|p: int, q: int| 0 <= p < q < b.len() implies label_le(#[trigger] b[p], #[trigger] b[q]) && b[p] != b[q] by {
            assert(b[p] == r2[p + 1] && b[q] == r2[q + 1]);
        }
        lemma_sorted_unique(a, b);
        assert forall|k: int| 0 <= k < r1.len() implies r1[k] == r2[k] by {
            if k > 0 {
                assert(a[k - 1] == b[k - 1]);
            }
        }
        assert(r1 =~= r2);
    }
}


proof fn lemma_code_injective(a: char, b: char)
    requires
        (a as u32) == (b as u32),
    ensures
        a == b,
{
}

} // verus!
