use apriori::apriori;
use apriori::frequent::{get_candi_from_f, len_of_f_degree, get_degree_fre_sets};
use apriori::itemset::{count_support, subset_of, FrequentSet, Txn};
use apriori::rules::{generate_association_rules, split_by_mask, AssociationRule, Ratio};
use apriori::tally::create_candicate_set_1;
use apriori::txn::{create_sorted_txn_set, normalize_items};

fn labels(items: &[&str]) -> Vec<String> {
    items.iter().map(|s| s.to_string()).collect()
}

fn txns(records: &[&[&str]]) -> Vec<Txn> {
    let recs: Vec<Vec<String>> = records.iter().map(|r| labels(r)).collect();
    create_sorted_txn_set(&recs)
}

fn market() -> Vec<Txn> {
    txns(&[
        &["bread", "milk"],
        &["bread", "diaper", "beer", "eggs"],
        &["milk", "diaper", "beer", "cola"],
        &["bread", "milk", "diaper", "beer"],
        &["bread", "milk", "diaper", "cola"],
    ])
}

fn sorted_copy(v: &[String]) -> Vec<String> {
    let mut c = v.to_vec();
    c.sort();
    c
}

fn count_of(sets: &[FrequentSet], items: &[&str]) -> Option<usize> {
    let want = labels(items);
    sets.iter().find(|s| s.items == want).map(|s| s.count)
}

fn count_of_unordered(sets: &[FrequentSet], items: &[String]) -> Option<usize> {
    let want = sorted_copy(items);
    sets.iter().find(|s| sorted_copy(&s.items) == want).map(|s| s.count)
}

fn ratio(num: u64, den: u64) -> Ratio {
    Ratio { num, den }
}

fn find_rule<'a>(rules: &'a [AssociationRule], from: &[&str], to: &[&str]) -> Option<&'a AssociationRule> {
    rules.iter().find(|r| r.from == labels(from) && r.to == labels(to))
}

#[test]
fn market_basket_scenario() {
    let t = market();
    let (sets, rules) = apriori(&t, &ratio(4, 10), &ratio(6, 10)).unwrap();
    assert_eq!(count_of(&sets, &["bread"]), Some(4));
    assert_eq!(count_of(&sets, &["milk"]), Some(4));
    assert_eq!(count_of(&sets, &["diaper"]), Some(4));
    assert_eq!(count_of(&sets, &["beer"]), Some(3));
    assert_eq!(count_of(&sets, &["bread", "diaper"]), Some(3));
    assert_eq!(count_of(&sets, &["bread", "milk"]), Some(3));
    assert_eq!(count_of(&sets, &["diaper", "milk"]), Some(3));
    assert_eq!(count_of(&sets, &["beer", "diaper"]), Some(3));
    let r = find_rule(&rules, &["beer"], &["diaper"]).expect("beer --> diaper");
    assert_eq!(r.count, 3);
    assert_eq!(r.from_count, 3);
    assert_eq!(r.txn_count, 5);
    assert_eq!(r.count as f64 / r.from_count as f64, 1.0);
    assert_eq!(r.count as f64 / r.txn_count as f64, 0.6);
}

#[test]
fn market_basket_full_collection() {
    let t = market();
    let (sets, _rules) = apriori(&t, &ratio(4, 10), &ratio(6, 10)).unwrap();
    // eggs (1) and cola (2) do not pass the strict threshold of 2
    assert_eq!(count_of(&sets, &["eggs"]), None);
    assert_eq!(count_of(&sets, &["cola"]), None);
    assert_eq!(len_of_f_degree(&sets, 1), 4);
    assert_eq!(len_of_f_degree(&sets, 2), 6);
    assert_eq!(len_of_f_degree(&sets, 3), 3);
    assert_eq!(len_of_f_degree(&sets, 4), 0);
    assert_eq!(count_of(&sets, &["beer", "bread"]), Some(2));
    assert_eq!(count_of(&sets, &["bread", "diaper", "milk"]), Some(2));
    assert_eq!(count_of(&sets, &["beer", "bread", "diaper"]), Some(2));
    assert_eq!(count_of(&sets, &["beer", "diaper", "milk"]), Some(2));
    assert_eq!(count_of(&sets, &["beer", "bread", "milk"]), None);
}

#[test]
fn unreachable_support_gives_nothing() {
    let t = market();
    let (sets, rules) = apriori(&t, &ratio(11, 10), &ratio(6, 10)).unwrap();
    assert!(sets.is_empty());
    assert!(rules.is_empty());
}

#[test]
fn single_transaction_single_item() {
    let t = txns(&[&["a"]]);
    let (sets, rules) = apriori(&t, &ratio(1, 2), &ratio(1, 2)).unwrap();
    assert_eq!(sets.len(), 1);
    assert_eq!(sets[0].degree, 1);
    assert_eq!(sets[0].items, labels(&["a"]));
    assert_eq!(sets[0].count, 1);
    assert!(rules.is_empty());
    // with min_sup 1 the threshold is 1 and the strict test fails
    let (sets, rules) = apriori(&t, &ratio(1, 1), &ratio(1, 2)).unwrap();
    assert!(sets.is_empty());
    assert!(rules.is_empty());
}

#[test]
fn threshold_is_strict_for_single_labels_only() {
    // n = 4, min_sup 1/2: threshold 2
    let t = txns(&[&["a", "b"], &["a", "b"], &["a", "c"], &["b", "c"]]);
    let (sets, _) = apriori(&t, &ratio(1, 2), &ratio(1, 1)).unwrap();
    assert_eq!(count_of(&sets, &["a"]), Some(3));
    assert_eq!(count_of(&sets, &["b"]), Some(3));
    assert_eq!(count_of(&sets, &["c"]), None); // count 2 is not > 2
    assert_eq!(count_of(&sets, &["a", "b"]), Some(2)); // count 2 is >= 2
}

#[test]
fn mining_twice_gives_the_same() {
    let t = market();
    let (s1, r1) = apriori(&t, &ratio(4, 10), &ratio(6, 10)).unwrap();
    let (s2, r2) = apriori(&t, &ratio(4, 10), &ratio(6, 10)).unwrap();
    assert_eq!(s1.len(), s2.len());
    for (a, b) in s1.iter().zip(s2.iter()) {
        assert_eq!((a.degree, &a.items, a.count), (b.degree, &b.items, b.count));
    }
    assert_eq!(r1.len(), r2.len());
    for (a, b) in r1.iter().zip(r2.iter()) {
        assert_eq!((&a.from, &a.to, a.count, a.from_count, a.txn_count), (&b.from, &b.to, b.count, b.from_count, b.txn_count));
    }
}

#[test]
fn every_rule_within_bounds_and_consistent() {
    let t = market();
    let (sets, rules) = apriori(&t, &ratio(4, 10), &ratio(6, 10)).unwrap();
    assert!(!rules.is_empty());
    for r in &rules {
        assert!(r.from_count > 0);
        assert!(r.count <= r.from_count);
        assert!(r.count * 10 >= 6 * r.from_count);
        assert_eq!(r.txn_count, 5);
        let mut whole = r.from.clone();
        whole.extend(r.to.iter().cloned());
        assert_eq!(count_of_unordered(&sets, &whole), Some(r.count));
        let from_refs: Vec<&str> = r.from.iter().map(|s| s.as_str()).collect();
        assert_eq!(count_of(&sets, &from_refs), Some(r.from_count));
    }
}

#[test]
fn frequent_sets_clear_threshold_and_are_closed_downward() {
    let t = market();
    let (sets, _) = apriori(&t, &ratio(4, 10), &ratio(6, 10)).unwrap();
    for s in &sets {
        assert_eq!(s.degree, s.items.len());
        assert_eq!(s.count, count_support(&s.items, &t));
        if s.degree == 1 {
            assert!(s.count > 2);
        } else {
            assert!(s.count >= 2);
            for skip in 0..s.items.len() {
                let sub: Vec<&str> = s.items.iter().enumerate().filter(|(i, _)| *i != skip).map(|(_, x)| x.as_str()).collect();
                assert!(count_of(&sets, &sub).is_some());
            }
        }
    }
}

#[test]
fn single_labels_are_exactly_those_above_threshold() {
    let t = market();
    let (sets, _) = apriori(&t, &ratio(4, 10), &ratio(6, 10)).unwrap();
    let mut singles: Vec<String> = sets.iter().filter(|s| s.degree == 1).map(|s| s.items[0].clone()).collect();
    singles.sort();
    assert_eq!(singles, labels(&["beer", "bread", "diaper", "milk"]));
}

#[test]
fn normalizing_drops_blanks_and_repeats_and_sorts() {
    let out = normalize_items(&labels(&["milk", "", "bread", "milk", "apple"]));
    assert_eq!(out, labels(&["apple", "bread", "milk"]));
    let t = txns(&[&["b", "a"], &[]]);
    assert_eq!(t.len(), 2);
    assert_eq!(t[0].id, 0);
    assert_eq!(t[0].items, labels(&["a", "b"]));
    assert_eq!(t[1].id, 1);
    assert!(t[1].items.is_empty());
}

#[test]
fn subset_checks() {
    assert!(subset_of(&labels(&["a", "c"]), &labels(&["a", "b", "c"])));
    assert!(!subset_of(&labels(&["a", "d"]), &labels(&["a", "b", "c"])));
    assert!(subset_of(&labels(&[]), &labels(&[])));
}

#[test]
fn support_counts_transactions() {
    let t = market();
    assert_eq!(count_support(&labels(&["beer", "diaper"]), &t), 3);
    assert_eq!(count_support(&labels(&[]), &t), 5);
    assert_eq!(count_support(&labels(&["tea"]), &t), 0);
}

#[test]
fn tally_counts_each_label_once_per_transaction() {
    let t = market();
    let tally = create_candicate_set_1(&t);
    assert_eq!(tally.labels.len(), 6);
    let pos = tally.labels.iter().position(|l| l == "cola").unwrap();
    assert_eq!(tally.counts[pos], 2);
    let pos = tally.labels.iter().position(|l| l == "bread").unwrap();
    assert_eq!(tally.counts[pos], 4);
}

#[test]
fn mask_splits_labels() {
    let (from, to) = split_by_mask(&labels(&["a", "b", "c"]), 5);
    assert_eq!(from, labels(&["a", "c"]));
    assert_eq!(to, labels(&["b"]));
}

fn fs(items: &[&str], count: usize) -> FrequentSet {
    FrequentSet { degree: items.len(), items: labels(items), count }
}

#[test]
fn candidates_join_on_shared_prefix() {
    let sets = vec![fs(&["a", "b"], 3), fs(&["a", "c"], 3), fs(&["b", "c"], 3), fs(&["a"], 5)];
    let level = get_degree_fre_sets(&sets, 2);
    assert_eq!(level.len(), 3);
    let c = get_candi_from_f(&sets, 2);
    assert_eq!(c.len(), 1);
    assert_eq!(c[0].items, labels(&["a", "b", "c"]));
    assert_eq!(c[0].degree, 3);
    assert_eq!(c[0].count, 0);
    let c1 = get_candi_from_f(&sets, 1);
    assert!(c1.is_empty());
}

#[test]
fn rules_follow_confidence_threshold() {
    let sets = vec![fs(&["a"], 4), fs(&["b"], 2), fs(&["a", "b"], 2)];
    let rules = generate_association_rules(&sets, &ratio(3, 4), 4);
    // a --> b has confidence 1/2, b --> a has confidence 1
    assert_eq!(rules.len(), 1);
    assert_eq!(rules[0].from, labels(&["b"]));
    assert_eq!(rules[0].to, labels(&["a"]));
    assert_eq!(rules[0].count, 2);
    assert_eq!(rules[0].from_count, 2);
    assert_eq!(rules[0].txn_count, 4);
    let rules = generate_association_rules(&sets, &ratio(1, 2), 4);
    assert_eq!(rules.len(), 2);
    assert_eq!(rules[0].from, labels(&["a"]));
    assert_eq!(rules[1].from, labels(&["b"]));
}

#[test]
fn itemsets_hold_labels_in_sorted_order() {
    let t = market();
    let (sets, _) = apriori(&t, &ratio(4, 10), &ratio(6, 10)).unwrap();
    for s in &sets {
        assert_eq!(s.items, sorted_copy(&s.items));
    }
    let singles: Vec<String> = sets.iter().filter(|s| s.degree == 1).map(|s| s.items[0].clone()).collect();
    assert_eq!(singles, labels(&["beer", "bread", "diaper", "milk"]));
    let pairs: Vec<Vec<String>> = sets.iter().filter(|s| s.degree == 2).map(|s| s.items.clone()).collect();
    assert_eq!(
        pairs,
        vec![
            labels(&["beer", "bread"]),
            labels(&["beer", "diaper"]),
            labels(&["beer", "milk"]),
            labels(&["bread", "diaper"]),
            labels(&["bread", "milk"]),
            labels(&["diaper", "milk"]),
        ]
    );
}

#[test]
fn single_labels_are_added_in_sorted_order() {
    let t = txns(&[&["b"], &["a"]]);
    let (sets, rules) = apriori(&t, &ratio(0, 1), &ratio(1, 2)).unwrap();
    assert_eq!(sets[0].items, labels(&["a"]));
    assert_eq!(sets[1].items, labels(&["b"]));
    assert_eq!(sets.len(), 3);
    assert_eq!(sets[2].items, labels(&["a", "b"]));
    assert_eq!(sets[2].count, 0);
    assert!(rules.is_empty());
}
