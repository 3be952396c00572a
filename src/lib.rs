//! Frequent itemsets and association rules over a batch of transactions,
//! found level by level.
use vstd::prelude::*;

pub mod itemset;
pub mod rules;
pub mod tally;
pub mod frequent;
pub mod txn;
pub mod closure;

use crate::itemset::{Txn, FrequentSet, SetView, sets_view, txn_labels, support, lemma_support_antitone};
use crate::rules::{
    AssociationRule, MiningError, Ratio, RuleView, rules_view, rules_upto,
    generate_association_rules, rule_at, select, first_match, lemma_rule_origin, antecedents_found,
    lemma_select_within, lemma_first_match_found,
};
use crate::tally::{occurs, txns_wf};
use crate::txn::{sort_spec, sorted};
use crate::closure::{
    has_set, single_labels, lemma_singles_stage, lemma_grow_stage, lemma_closed_antecedents,
    lemma_ranked_sorted,
};
use crate::frequent::{
    frequent_over, init_fre_set, generate_all_fre_sets, singles_view, grow, level_of,
};

verus! {

/// `floor(n * ratio)`: the count a set must reach for the support threshold.
pub open spec fn min_count_of(n: nat, ratio: Ratio) -> nat {
    ((n * ratio.num) / (ratio.den as int)) as nat
}

/// The frequent itemsets of a collection: each counted over the transactions
/// and clearing the threshold, and the single labels among them exactly those
/// that more than the threshold count of transactions hold.
pub open spec fn mined_sets(sets: Seq<SetView>, txns: Seq<Seq<Seq<char>>>, min_count: nat) -> bool {
    &&& frequent_over(sets, txns, min_count)
    &&& forall|x: Seq<char>|
        (exists|k: int| 0 <= k < sets.len() && #[trigger] sets[k] == (1nat, seq![x], sets[k].2))
            <==> (occurs(txns, x) && support(txns, seq![x]) > min_count)
}

/// The frequent itemsets of `txns` for the threshold count `min_count`: the
/// single labels, then each degree grown from the one before.
pub open spec fn mined_view(txns: Seq<Seq<Seq<char>>>, min_count: nat) -> Seq<SetView> {
    let singles = singles_view(txns, min_count);
    grow(singles, txns, min_count, 1, level_of(singles, 1).len())
}

/// No set has so many labels that its splits cannot be enumerated.
pub open spec fn within_mask_limit(sets: Seq<SetView>) -> bool {
    forall|k: int| 0 <= k < sets.len() ==> #[trigger] sets[k].0 < 64
}

/// What mining yields, as views.
pub type MinedView = Result<(Seq<SetView>, Seq<RuleView>), MiningError>;

/// What mining `txns` (of which there are `n`) yields: the frequent itemsets
/// and their rules, unless an itemset is too large to split.
pub open spec fn mine_result(txns: Seq<Seq<Seq<char>>>, n: nat, min_sup: Ratio, min_conf: Ratio) -> MinedView {
    let sets = mined_view(txns, min_count_of(n, min_sup));
    if !within_mask_limit(sets) {
        Err(MiningError::ItemsetTooLarge)
    } else {
        Ok((sets, rules_upto(sets, sets.len() as int, min_conf, n)))
    }
}

/// A result of `apriori`, as views.
pub open spec fn result_view(r: Result<(Vec<FrequentSet>, Vec<AssociationRule>), MiningError>) -> MinedView {
    match r {
        Ok((sets, rules)) => Ok((sets_view(sets@), rules_view(rules@))),
        Err(e) => Err(e),
    }
}

/// A rule mined from `sets` over `txns`: its count is that of the itemset it
/// splits, which is the support of that itemset's labels; it counts against
/// all transactions; its `from_count` is the support of its antecedent.
pub open spec fn rule_consistent(r: RuleView, sets: Seq<SetView>, txns: Seq<Seq<Seq<char>>>) -> bool {
    &&& r.4 == txns.len()
    &&& r.3 == support(txns, r.0)
    &&& exists|f: int, m: nat|
        0 <= f < sets.len() && sets[f].0 >= 2 && r.2 == sets[f].2 && r.2 == support(txns, sets[f].1)
            && r.0 == #[trigger] select(sets[f].1, m, true) && r.1 == select(sets[f].1, m, false)
}

/// The count that a set must reach for `min_sup` over `n` transactions.
pub fn min_count_for(n: usize, min_sup: &Ratio) -> (r: u128)
    requires
        min_sup.den > 0,
    ensures
        r == min_count_of(n as nat, *min_sup),
{
    assert((n as u128) * (min_sup.num as u128) <= u128::MAX) by (nonlinear_arith)
        requires n <= u64::MAX, min_sup.num <= u64::MAX;
    ((n as u128) * (min_sup.num as u128)) / (min_sup.den as u128)
}

/// Mines `txn_set`: the frequent itemsets for `min_sup`, grown from single
/// labels, then every rule they yield whose confidence reaches `min_conf`.
pub fn apriori(txn_set: &Vec<Txn>, min_sup: &Ratio, min_conf: &Ratio) -> (r: Result<
    (Vec<FrequentSet>, Vec<AssociationRule>),
    MiningError,
>)
    requires
        txns_wf(txn_set@),
        min_sup.den > 0,
    ensures
        result_view(r) == mine_result(
            txn_labels(txn_set@),
            txn_set.len() as nat,
            *min_sup,
            *min_conf,
        ),
        r is Ok <==> within_mask_limit(
            mined_view(txn_labels(txn_set@), min_count_of(txn_set.len() as nat, *min_sup)),
        ),
        r matches Ok((sets, rules)) ==> {
            &&& forall|k: int| 0 <= k < sets.len() ==> sorted(#[trigger] sets@[k].items.deep_view())
            &&& mined_sets(
                sets_view(sets@),
                txn_labels(txn_set@),
                min_count_of(txn_set.len() as nat, *min_sup),
            )
            &&& rules_view(rules@) == rules_upto(
                sets_view(sets@),
                sets.len() as int,
                *min_conf,
                txn_set.len() as nat,
            )
            &&& forall|i: int|
                0 <= i < rules.len() ==> rule_consistent(
                    #[trigger] rules@[i]@,
                    sets_view(sets@),
                    txn_labels(txn_set@),
                )
            &&& forall|i: int|
                0 <= i < rules.len() ==> 0 < (#[trigger] rules@[i]).from_count && rules@[i].count
                    <= rules@[i].from_count && rules@[i].count * min_conf.den >= min_conf.num
                    * rules@[i].from_count
        },
{
    let ghost all = txn_labels(txn_set@);
    let min_count = min_count_for(txn_set.len(), min_sup);
    proof {
        lemma_mined_antecedents(all, min_count as nat);
    }
    let mut fre_sets: Vec<FrequentSet> = Vec::new();
    init_fre_set(txn_set, min_count, &mut fre_sets);
    let ghost singles = fre_sets@;
    assert(sets_view(fre_sets@) =~= singles_view(all, min_count as nat));
    assert(frequent_over(sets_view(fre_sets@), all, min_count as nat));
    generate_all_fre_sets(&mut fre_sets, txn_set, min_count);
    proof {
        assert forall|x: Seq<char>|
            (exists|k: int|
                0 <= k < fre_sets@.len() && #[trigger] sets_view(fre_sets@)[k] == (1nat, seq![x], sets_view(fre_sets@)[k].2))
                <==> (occurs(all, x) && support(all, seq![x]) > min_count) by {
            if exists|k: int|
                0 <= k < fre_sets@.len() && #[trigger] sets_view(fre_sets@)[k] == (1nat, seq![x], sets_view(fre_sets@)[k].2) {
                let k = choose|k: int|
                    0 <= k < fre_sets@.len() && #[trigger] sets_view(fre_sets@)[k] == (1nat, seq![x], sets_view(fre_sets@)[k].2);
                assert(k < singles.len());
                assert(fre_sets@.take(singles.len() as int)[k] == fre_sets@[k]);
                assert(singles[k]@.1 == seq![x]);
            }
            if occurs(all, x) && support(all, seq![x]) > min_count {
                let k = choose|k: int| 0 <= k < singles.len() && #[trigger] singles[k]@.1 == seq![x];
                assert(fre_sets@.take(singles.len() as int)[k] == fre_sets@[k]);
                assert(sets_view(fre_sets@)[k] == (1nat, seq![x], sets_view(fre_sets@)[k].2));
            }
        }
    }
    let ghost mv = sets_view(fre_sets@);
    assert(mv == mined_view(all, min_count as nat));
    let mut k: usize = 0;
    while k < fre_sets.len()
        invariant
            k <= fre_sets.len(),
            mv == sets_view(fre_sets@),
            mv == mined_view(txn_labels(txn_set@), min_count_of(txn_set.len() as nat, *min_sup)),
            forall|q: int| 0 <= q < k ==> #[trigger] fre_sets[q].degree < 64,
        decreases fre_sets.len() - k,
    {
        if fre_sets[k].degree >= 64 {
            assert(mv[k as int].0 >= 64);
            return Err(MiningError::ItemsetTooLarge);
        }
        k = k + 1;
    }
    proof {
        assert forall|q: int| 0 <= q < fre_sets.len() implies #[trigger] fre_sets[q].degree
            == fre_sets[q].items.len() && fre_sets[q].degree < 64 by {
            assert(sets_view(fre_sets@)[q].0 >= 1);
        }
        assert forall|q: int| 0 <= q < mv.len() implies #[trigger] mv[q].0 < 64 by {
            assert(fre_sets[q].degree < 64);
        }
    }
    proof {
        assert forall|k: int| 0 <= k < fre_sets.len() implies sorted(
            #[trigger] fre_sets@[k].items.deep_view(),
        ) by {
            assert(mv[k] == fre_sets@[k]@);
        }
    }
    let association_rules_set = generate_association_rules(&fre_sets, min_conf, txn_set.len());
    proof {
        let rv = rules_view(association_rules_set@);
        assert(mined_sets(mv, all, min_count as nat));
        assert forall|i: int| 0 <= i < association_rules_set.len() implies rule_consistent(
            #[trigger] association_rules_set@[i]@,
            mv,
            all,
        ) && 0 < association_rules_set@[i].from_count && association_rules_set@[i].count
            <= association_rules_set@[i].from_count && association_rules_set@[i].count * min_conf.den
            >= min_conf.num * association_rules_set@[i].from_count by {
            assert(rv[i] == association_rules_set@[i]@);
            law_support_consistency(mv, rv, all, min_count as nat, *min_conf, i);
            law_confidence_bound(mv, rv, all, min_count as nat, *min_conf, txn_set.len() as nat, i);
        }
        assert forall|i: int| 0 <= i < association_rules_set.len() implies 0 < (
        #[trigger] association_rules_set@[i]).from_count && association_rules_set@[i].count
            <= association_rules_set@[i].from_count && association_rules_set@[i].count * min_conf.den
            >= min_conf.num * association_rules_set@[i].from_count by {
            assert(rule_consistent(association_rules_set@[i]@, mv, all));
        }
    }
    Ok((fre_sets, association_rules_set))
}


/// Every mined rule has a confidence `count / from_count` that is at least
/// `min_conf` and lies between zero and one: the antecedent is held by some
/// transaction, and by at least as many as the whole itemset.
pub proof fn law_confidence_bound(
    sets: Seq<SetView>,
    rules: Seq<RuleView>,
    txns: Seq<Seq<Seq<char>>>,
    min_count: nat,
    min_conf: Ratio,
    n: nat,
    i: int,
)
    requires
        mined_sets(sets, txns, min_count),
        rules == rules_upto(sets, sets.len() as int, min_conf, n),
        0 <= i < rules.len(),
    ensures
        0 < rules[i].3,
        rules[i].2 <= rules[i].3,
        rules[i].2 * min_conf.den >= min_conf.num * rules[i].3,
{
    lemma_rule_origin(sets, sets.len() as int, min_conf, n, i);
    let (f, m) = choose|f: int, m: nat|
        0 <= f < sets.len() && sets[f].0 >= 2 && 1 <= m && #[trigger] rule_at(
            sets,
            f,
            m,
            min_conf,
            n,
        ) == Some(rules[i]);
    let items = sets[f].1;
    let from = select(items, m, true);
    let a = first_match(sets, from);
    lemma_first_match_found(sets, from);
    lemma_select_within(items, m, true);
    lemma_support_antitone(txns, from, items);
}

/// Every mined rule's `count` is the count of the itemset it splits, which is
/// the number of transactions holding that itemset, over `txn_count` equal to
/// the number of transactions; its `from_count` is the number of transactions
/// holding the antecedent.
pub proof fn law_support_consistency(
    sets: Seq<SetView>,
    rules: Seq<RuleView>,
    txns: Seq<Seq<Seq<char>>>,
    min_count: nat,
    min_conf: Ratio,
    i: int,
)
    requires
        mined_sets(sets, txns, min_count),
        rules == rules_upto(sets, sets.len() as int, min_conf, txns.len()),
        0 <= i < rules.len(),
    ensures
        rules[i].4 == txns.len(),
        rules[i].3 == support(txns, rules[i].0),
        exists|f: int, m: nat|
            0 <= f < sets.len() && sets[f].0 >= 2 && rules[i].2 == sets[f].2 && rules[i].2 == support(txns, sets[f].1)
                && rules[i].0 == #[trigger] select(sets[f].1, m, true) && rules[i].1 == select(
                sets[f].1,
                m,
                false,
            ),
{
    let n = txns.len();
    lemma_rule_origin(sets, sets.len() as int, min_conf, n, i);
    let (f, m) = choose|f: int, m: nat|
        0 <= f < sets.len() && sets[f].0 >= 2 && 1 <= m && #[trigger] rule_at(
            sets,
            f,
            m,
            min_conf,
            n,
        ) == Some(rules[i]);
    let items = sets[f].1;
    let from = select(items, m, true);
    let a = first_match(sets, from);
    lemma_first_match_found(sets, from);
}


/// Mining is a function of its inputs: two runs on the same transactions and
/// thresholds give the same itemsets and rules, in the same order.
pub proof fn law_idempotence(
    txns: Seq<Seq<Seq<char>>>,
    n: nat,
    min_sup: Ratio,
    min_conf: Ratio,
    first: MinedView,
    second: MinedView,
)
    requires
        first == mine_result(txns, n, min_sup, min_conf),
        second == mine_result(txns, n, min_sup, min_conf),
    ensures
        first == second,
{
}


/// Every mined itemset of degree `k >= 2`, without any one of its labels,
/// is a mined itemset of degree `k - 1`.
pub proof fn law_anti_monotonicity(txns: Seq<Seq<Seq<char>>>, min_count: nat, k: int, r: int)
    requires
        0 <= k < mined_view(txns, min_count).len(),
        mined_view(txns, min_count)[k].0 >= 2,
        0 <= r < mined_view(txns, min_count)[k].0,
    ensures
        has_set(
            mined_view(txns, min_count),
            (mined_view(txns, min_count)[k].0 - 1) as nat,
            mined_view(txns, min_count)[k].1.remove(r),
        ),
{
    let singles = singles_view(txns, min_count);
    lemma_singles_stage(txns, min_count);
    lemma_grow_stage(
        singles,
        txns,
        min_count,
        1,
        level_of(singles, 1).len(),
        sort_spec(single_labels(txns, min_count)),
    );
}


/// Every split of every mined itemset has its antecedent among the mined
/// itemsets, and every mined itemset holds its labels in sorted order.
pub proof fn lemma_mined_antecedents(txns: Seq<Seq<Seq<char>>>, min_count: nat)
    ensures
        antecedents_found(mined_view(txns, min_count)),
        forall|k: int|
            0 <= k < mined_view(txns, min_count).len() ==> sorted(
                #[trigger] mined_view(txns, min_count)[k].1,
            ),
{
    let singles = singles_view(txns, min_count);
    lemma_singles_stage(txns, min_count);
    lemma_grow_stage(
        singles,
        txns,
        min_count,
        1,
        level_of(singles, 1).len(),
        sort_spec(single_labels(txns, min_count)),
    );
    lemma_closed_antecedents(mined_view(txns, min_count));
    assert forall|k: int| 0 <= k < mined_view(txns, min_count).len() implies sorted(
        #[trigger] mined_view(txns, min_count)[k].1,
    ) by {
        lemma_ranked_sorted(mined_view(txns, min_count), sort_spec(single_labels(txns, min_count)), k);
    }
}

} // verus!
