use vstd::prelude::*;
use vstd::arithmetic::power2::{pow2, lemma_pow2_unfold, lemma_pow2_strictly_increases, lemma2_to64, lemma_pow2_pos};
use vstd::arithmetic::div_mod::lemma_div_denominator;
use crate::itemset::{FrequentSet, SetView, sets_view, contains_all};

verus! {

/// A threshold written as the fraction `num / den`.
pub struct Ratio {
    pub num: u64,
    pub den: u64,
}

/// Why mining stopped without a result.
#[derive(PartialEq, Eq, Structural, Debug, Clone, Copy)]
pub enum MiningError {
    /// A frequent itemset has too many labels to enumerate its splits.
    ItemsetTooLarge,
}

/// `from --> to`, with the counts its support and confidence are made of:
/// support is `count / txn_count` and confidence is `count / from_count`.
pub struct AssociationRule {
    pub from: Vec<String>,
    pub to: Vec<String>,
    pub count: usize,
    pub from_count: usize,
    pub txn_count: usize,
}

/// What a rule states: antecedent, consequent, and the three counts.
pub type RuleView = (Seq<Seq<char>>, Seq<Seq<char>>, nat, nat, nat);

impl View for AssociationRule {
    type V = RuleView;

    open spec fn view(&self) -> RuleView {
        (
            self.from.deep_view(),
            self.to.deep_view(),
            self.count as nat,
            self.from_count as nat,
            self.txn_count as nat,
        )
    }
}

pub open spec fn rules_view(rules: Seq<AssociationRule>) -> Seq<RuleView> {
    rules.map_values(|r: AssociationRule| r@)
}

/// Bit `i` of `mask` is set.
pub open spec fn bit(mask: nat, i: nat) -> bool {
    (mask / pow2(i)) % 2 == 1
}

/// The labels whose bit in `mask` equals `keep`, in their order.
pub open spec fn select(items: Seq<Seq<char>>, mask: nat, keep: bool) -> Seq<Seq<char>>
    decreases items.len(),
{
    if items.len() == 0 {
        Seq::empty()
    } else {
        let rest = select(items.drop_last(), mask, keep);
        if bit(mask, (items.len() - 1) as nat) == keep {
            rest.push(items.last())
        } else {
            rest
        }
    }
}

/// Index of the first set whose labels are `items`, or -1.
pub open spec fn first_match(sets: Seq<SetView>, items: Seq<Seq<char>>) -> int
    decreases sets.len(),
{
    if sets.len() == 0 {
        -1
    } else {
        let r = first_match(sets.drop_last(), items);
        if r >= 0 {
            r
        } else if sets.last().1 == items {
            sets.len() - 1
        } else {
            -1
        }
    }
}

/// The rule that split `mask` of set `f` yields, if it clears `conf`.
pub open spec fn rule_at(sets: Seq<SetView>, f: int, mask: nat, conf: Ratio, n: nat) -> Option<
    RuleView,
> {
    let items = sets[f].1;
    let from = select(items, mask, true);
    let a = first_match(sets, from);
    if a >= 0 && sets[a].2 > 0 && sets[f].2 * conf.den >= conf.num * sets[a].2 {
        Some((from, select(items, mask, false), sets[f].2, sets[a].2, n))
    } else {
        None
    }
}

/// The rules of set `f` for the masks `1 .. upto - 1`, in mask order.
pub open spec fn rules_of_set(sets: Seq<SetView>, f: int, upto: nat, conf: Ratio, n: nat) -> Seq<
    RuleView,
>
    decreases upto,
{
    if upto <= 1 {
        Seq::empty()
    } else {
        let prev = rules_of_set(sets, f, (upto - 1) as nat, conf, n);
        match rule_at(sets, f, (upto - 1) as nat, conf, n) {
            Some(r) => prev.push(r),
            None => prev,
        }
    }
}

/// The mask that selects every label of a set of `degree` labels.
pub open spec fn full_mask(degree: nat) -> nat {
    (pow2(degree) - 1) as nat
}

/// The rules of the first `k` sets, in order.
pub open spec fn rules_upto(sets: Seq<SetView>, k: int, conf: Ratio, n: nat) -> Seq<RuleView>
    decreases k,
{
    if k <= 0 {
        Seq::empty()
    } else {
        let prev = rules_upto(sets, k - 1, conf, n);
        if sets[k - 1].0 >= 2 {
            prev + rules_of_set(sets, k - 1, full_mask(sets[k - 1].0), conf, n)
        } else {
            prev
        }
    }
}

/// The antecedent of split `mask` of set `f` is among `sets`.
pub open spec fn antecedent_found(sets: Seq<SetView>, f: int, mask: nat) -> bool {
    first_match(sets, select(sets[f].1, mask, true)) >= 0
}

/// Every split of every set of degree two or more has its antecedent in `sets`.
pub open spec fn antecedents_found(sets: Seq<SetView>) -> bool {
    forall|f: int, m: nat|
        0 <= f < sets.len() && sets[f].0 >= 2 && 1 <= m < full_mask(sets[f].0)
            ==> #[trigger] antecedent_found(sets, f, m)
}

/// Every rule that splits a frequent itemset of `fre_sets` into a non-empty
/// antecedent and a non-empty consequent, whose confidence
/// `count / from_count` is at least `min_conf`, in the order of the sets and
/// then of the masks. It fails when an antecedent is not among `fre_sets`.
pub fn generate_association_rules(
    fre_sets: &Vec<FrequentSet>,
    min_conf: &Ratio,
    txn_num: usize,
) -> (r: Vec<AssociationRule>)
    requires
        forall|k: int|
            0 <= k < fre_sets.len() ==> #[trigger] fre_sets[k].degree == fre_sets[k].items.len()
                && fre_sets[k].degree < 64,
        antecedents_found(sets_view(fre_sets@)),
    ensures
        rules_view(r@) == rules_upto(
            sets_view(fre_sets@),
            fre_sets.len() as int,
            *min_conf,
            txn_num as nat,
        ),
{
    let ghost sets = sets_view(fre_sets@);
    let ghost conf = *min_conf;
    let ghost n = txn_num as nat;
    let mut rules: Vec<AssociationRule> = Vec::new();
    let mut f: usize = 0;
    while f < fre_sets.len()
        invariant
            f <= fre_sets.len(),
            sets == sets_view(fre_sets@),
            conf == *min_conf,
            n == txn_num as nat,
            forall|k: int|
                0 <= k < fre_sets.len() ==> #[trigger] fre_sets[k].degree
                    == fre_sets[k].items.len() && fre_sets[k].degree < 64,
            rules_view(rules@) == rules_upto(sets, f as int, conf, n),
            antecedents_found(sets),
        decreases fre_sets.len() - f,
    {
        let set = &fre_sets[f];
        let ghost before = rules_view(rules@);
        if set.degree >= 2 {
            let full: u64 = power_of_two(set.degree) - 1;
            let mut mask: u64 = 1;
            proof {
                lemma2_to64();
                lemma_pow2_strictly_increases(1, set.degree as nat);
            }
            while mask < full
                invariant
                    f < fre_sets.len(),
                    sets == sets_view(fre_sets@),
                    conf == *min_conf,
                    n == txn_num as nat,
                    set == fre_sets[f as int],
                    sets[f as int] == set@,
                    set.degree >= 2,
                    full == full_mask(set.degree as nat),
                    1 <= mask <= full,
                    before == rules_upto(sets, f as int, conf, n),
                    rules_view(rules@) == before + rules_of_set(sets, f as int, mask as nat, conf, n),
                    antecedents_found(sets),
                decreases full - mask,
            {
                let (from, to) = split_by_mask(&set.items, mask);
                let found = find_set(fre_sets, &from);
                match found {
                    None => {
                        assert(antecedent_found(sets, f as int, mask as nat));
                    },
                    Some(a) => {
                        let from_count = fre_sets[a].count;
                        let ghost old_rules = rules_view(rules@);
                        assert((set.count as u128) * (min_conf.den as u128) <= u128::MAX) by (nonlinear_arith)
                            requires set.count <= u64::MAX, min_conf.den <= u64::MAX;
                        assert((min_conf.num as u128) * (from_count as u128) <= u128::MAX) by (nonlinear_arith)
                            requires from_count <= u64::MAX, min_conf.num <= u64::MAX;
                        if from_count > 0 && (set.count as u128) * (min_conf.den as u128) >= (
                        min_conf.num as u128) * (from_count as u128) {
                            let rule = AssociationRule {
                                from,
                                to,
                                count: set.count,
                                from_count,
                                txn_count: txn_num,
                            };
                            rules.push(rule);
                            assert(rules_view(rules@) =~= old_rules.push(rule@));
                        }
                        assert(rules_view(rules@) == before + rules_of_set(sets, f as int, (mask + 1) as nat, conf, n));
                    },
                }
                mask = mask + 1;
            }
            assert(rules_view(rules@) == rules_upto(sets, f as int + 1, conf, n));
        } else {
            assert(rules_view(rules@) == rules_upto(sets, f as int + 1, conf, n));
        }
        f = f + 1;
    }
    rules
}

/// `2` to the power `d`.
fn power_of_two(d: usize) -> (r: u64)
    requires
        d < 64,
    ensures
        r == pow2(d as nat),
        r > 0,
{
    let mut p: u64 = 1;
    let mut k: usize = 0;
    proof {
        lemma2_to64();
    }
    while k < d
        invariant
            k <= d < 64,
            p == pow2(k as nat),
        decreases d - k,
    {
        proof {
            lemma_pow2_unfold((k + 1) as nat);
            lemma2_to64();
            if k + 1 < 64 {
                lemma_pow2_strictly_increases((k + 1) as nat, 64);
            }
        }
        p = p * 2;
        k = k + 1;
    }
    proof {
        lemma_pow2_pos(d as nat);
    }
    p
}

/// Splits `items` by `mask`: the labels whose bit is set, then the others.
pub fn split_by_mask(items: &Vec<String>, mask: u64) -> (r: (Vec<String>, Vec<String>))
    ensures
        r.0.deep_view() == select(items.deep_view(), mask as nat, true),
        r.1.deep_view() == select(items.deep_view(), mask as nat, false),
{
    let ghost all = items.deep_view();
    let mut from: Vec<String> = Vec::new();
    let mut to: Vec<String> = Vec::new();
    let mut rest: u64 = mask;
    let mut pos: usize = 0;
    proof {
        lemma_pow2_pos(0);
        assert(pow2(0) == 1) by {
            lemma2_to64();
        }
        assert(all.take(0) =~= Seq::<Seq<char>>::empty());
    }
    while pos < items.len()
        invariant
            pos <= items.len(),
            all == items.deep_view(),
            rest as nat == mask as nat / pow2(pos as nat),
            from.deep_view() == select(all.take(pos as int), mask as nat, true),
            to.deep_view() == select(all.take(pos as int), mask as nat, false),
        decreases items.len() - pos,
    {
        proof {
            let t = all.take(pos as int + 1);
            assert(t.drop_last() =~= all.take(pos as int));
            assert(t.last() == items[pos as int]@);
        }
        let ghost from0 = from.deep_view();
        let ghost to0 = to.deep_view();
        if rest % 2 == 1 {
            from.push(items[pos].clone());
            assert(from.deep_view() =~= from0.push(items[pos as int]@));
        } else {
            to.push(items[pos].clone());
            assert(to.deep_view() =~= to0.push(items[pos as int]@));
        }
        proof {
            lemma_pow2_pos(pos as nat);
            lemma_pow2_unfold((pos + 1) as nat);
            lemma_div_denominator(mask as int, pow2(pos as nat) as int, 2);
            assert(pow2(pos as nat) * 2 == pow2((pos + 1) as nat));
        }
        rest = rest / 2;
        pos = pos + 1;
    }
    assert(all.take(pos as int) =~= all);
    (from, to)
}

/// Whether two label sequences are equal.
fn same_labels(a: &Vec<String>, b: &Vec<String>) -> (r: bool)
    ensures
        r == (a.deep_view() == b.deep_view()),
{
    if a.len() != b.len() {
        assert(a.deep_view().len() != b.deep_view().len());
        return false;
    }
    let mut i: usize = 0;
    while i < a.len()
        invariant
            i <= a.len() == b.len(),
            forall|k: int| 0 <= k < i ==> a.deep_view()[k] == b.deep_view()[k],
        decreases a.len() - i,
    {
        if a[i] != b[i] {
            assert(a.deep_view()[i as int] != b.deep_view()[i as int]);
            return false;
        }
        i = i + 1;
    }
    assert(a.deep_view() =~= b.deep_view());
    true
}

/// The index of the first set whose labels are `items`.
pub fn find_set(sets: &Vec<FrequentSet>, items: &Vec<String>) -> (r: Option<usize>)
    ensures
        first_match(sets_view(sets@), items.deep_view()) == match r {
            Some(k) => k as int,
            None => -1,
        },
        r matches Some(k) ==> k < sets.len(),
{
    let mut k: usize = 0;
    while k < sets.len()
        invariant
            k <= sets.len(),
            first_match(sets_view(sets@).take(k as int), items.deep_view()) == -1,
        decreases sets.len() - k,
    {
        let ghost sv = sets_view(sets@);
        assert(sv.take(k as int + 1).drop_last() =~= sv.take(k as int));
        assert(sv.take(k as int + 1).last() == sets[k as int]@);
        if same_labels(&sets[k].items, items) {
            proof {
                lemma_first_match_prefix(sv, items.deep_view(), k as int + 1);
            }
            return Some(k);
        }
        k = k + 1;
    }
    assert(sets_view(sets@).take(k as int) =~= sets_view(sets@));
    None
}

/// A match found in a prefix is the match in the whole sequence.
proof fn lemma_first_match_prefix(sets: Seq<SetView>, items: Seq<Seq<char>>, k: int)
    requires
        0 <= k <= sets.len(),
        first_match(sets.take(k), items) >= 0,
    ensures
        first_match(sets, items) == first_match(sets.take(k), items),
    decreases sets.len() - k,
{
    if k < sets.len() {
        assert(sets.take(k + 1).drop_last() =~= sets.take(k));
        lemma_first_match_prefix(sets, items, k + 1);
    } else {
        assert(sets.take(k) =~= sets);
    }
}


/// A rule of set `f` comes from one of the masks below `upto`.
pub proof fn lemma_rule_of_set_origin(
    sets: Seq<SetView>,
    f: int,
    upto: nat,
    conf: Ratio,
    n: nat,
    i: int,
)
    requires
        0 <= i < rules_of_set(sets, f, upto, conf, n).len(),
    ensures
        exists|m: nat|
            1 <= m < upto && #[trigger] rule_at(sets, f, m, conf, n) == Some(
                rules_of_set(sets, f, upto, conf, n)[i],
            ),
    decreases upto,
{
    let prev = rules_of_set(sets, f, (upto - 1) as nat, conf, n);
    if i < prev.len() {
        lemma_rule_of_set_origin(sets, f, (upto - 1) as nat, conf, n, i);
        let m = choose|m: nat|
            1 <= m < upto - 1 && #[trigger] rule_at(sets, f, m, conf, n) == Some(prev[i]);
    } else {
        let m = (upto - 1) as nat;
        assert(rule_at(sets, f, m, conf, n) == Some(rules_of_set(sets, f, upto, conf, n)[i]));
    }
}

/// A rule of the first `k` sets comes from one split of one of them.
pub proof fn lemma_rule_origin(sets: Seq<SetView>, k: int, conf: Ratio, n: nat, i: int)
    requires
        0 <= i < rules_upto(sets, k, conf, n).len(),
    ensures
        exists|f: int, m: nat|
            0 <= f < k && sets[f].0 >= 2 && 1 <= m && #[trigger] rule_at(sets, f, m, conf, n)
                == Some(rules_upto(sets, k, conf, n)[i]),
    decreases k,
{
    let prev = rules_upto(sets, k - 1, conf, n);
    if i < prev.len() {
        lemma_rule_origin(sets, k - 1, conf, n, i);
        let (f, m) = choose|f: int, m: nat|
            0 <= f < k - 1 && sets[f].0 >= 2 && 1 <= m && #[trigger] rule_at(sets, f, m, conf, n)
                == Some(prev[i]);
    } else {
        let upto = full_mask(sets[k - 1].0);
        lemma_rule_of_set_origin(sets, k - 1, upto, conf, n, i - prev.len());
        let m = choose|m: nat|
            1 <= m < upto && #[trigger] rule_at(sets, k - 1, m, conf, n) == Some(
                rules_of_set(sets, k - 1, upto, conf, n)[i - prev.len()],
            );
    }
}

/// The labels that a mask picks are labels of the set.
pub proof fn lemma_select_within(items: Seq<Seq<char>>, mask: nat, keep: bool)
    ensures
        contains_all(select(items, mask, keep), items),
    decreases items.len(),
{
    if items.len() > 0 {
        lemma_select_within(items.drop_last(), mask, keep);
        let rest = select(items.drop_last(), mask, keep);
        assert forall|i: int| 0 <= i < select(items, mask, keep).len() implies items.contains(
            #[trigger] select(items, mask, keep)[i],
        ) by {
            if i < rest.len() {
                let x = rest[i];
                assert(items.drop_last().contains(x));
                let k = choose|k: int| 0 <= k < items.drop_last().len() && items.drop_last()[k] == x;
                assert(items[k] == x);
            } else {
                assert(items[items.len() - 1] == items.last());
            }
        }
    }
}


/// The index that `first_match` gives names a set with those labels.
pub proof fn lemma_first_match_found(sets: Seq<SetView>, items: Seq<Seq<char>>)
    ensures
        first_match(sets, items) >= 0 ==> first_match(sets, items) < sets.len() && sets[first_match(
            sets,
            items,
        )].1 == items,
    decreases sets.len(),
{
    if sets.len() > 0 {
        lemma_first_match_found(sets.drop_last(), items);
        let r = first_match(sets.drop_last(), items);
        if r >= 0 {
            assert(sets.drop_last()[r] == sets[r]);
        }
    }
}

} // verus!
