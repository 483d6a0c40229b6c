use ternary_tst::Direction;
use ternary_tst::Tst;

fn sample() -> Tst<u64> {
    let mut t: Tst<u64> = Tst::new();
    t.insert("cat", 1);
    t.insert("car", 2);
    t.insert("card", 3);
    t.insert("dog", 4);
    t
}

fn forward_keys(mut c: ternary_tst::Cursor<'_, u64>) -> Vec<(String, u64)> {
    let mut out = Vec::new();
    while let Some(v) = c.next() {
        out.push((c.current_key(Direction::Forward), *v));
    }
    out
}

fn backward_keys(mut c: ternary_tst::Cursor<'_, u64>) -> Vec<(String, u64)> {
    let mut out = Vec::new();
    while let Some(v) = c.next_back() {
        out.push((c.current_key(Direction::Backward), *v));
    }
    out
}

#[test]
fn scenario_full_traversal_is_sorted_with_values() {
    let t = sample();
    assert_eq!(t.count(), 4);
    let got = forward_keys(t.visit());
    let want = vec![
        (String::from("car"), 2),
        (String::from("card"), 3),
        (String::from("cat"), 1),
        (String::from("dog"), 4),
    ];
    assert_eq!(got, want);
}

#[test]
fn backward_traversal_is_the_exact_reverse() {
    let t = sample();
    let mut fwd = forward_keys(t.visit());
    let bwd = backward_keys(t.visit());
    fwd.reverse();
    assert_eq!(fwd, bwd);
}

#[test]
fn ordering_holds_for_shuffled_insertions() {
    let mut t: Tst<u64> = Tst::new();
    for (i, k) in ["pear", "apple", "quince", "fig", "plum", "peach", "apricot"]
        .iter()
        .enumerate()
    {
        t.insert(k, i as u64);
    }
    let keys: Vec<String> = forward_keys(t.visit()).into_iter().map(|e| e.0).collect();
    let mut sorted = keys.clone();
    sorted.sort();
    assert_eq!(keys, sorted);
    assert_eq!(keys.len(), 7);
}

#[test]
fn scenario_prefix_complete() {
    let t = sample();
    let got = forward_keys(t.complete("ca"));
    let want = vec![
        (String::from("car"), 2),
        (String::from("card"), 3),
        (String::from("cat"), 1),
    ];
    assert_eq!(got, want);
}

#[test]
fn prefix_matching_the_whole_key_yields_it_too() {
    let t = sample();
    let got = forward_keys(t.complete("car"));
    let want = vec![(String::from("car"), 2), (String::from("card"), 3)];
    assert_eq!(got, want);
}

#[test]
fn empty_prefix_yields_every_key() {
    let t = sample();
    assert_eq!(forward_keys(t.complete("")), forward_keys(t.visit()));
}

#[test]
fn missing_prefix_yields_an_exhausted_cursor() {
    let t = sample();
    let mut c = t.complete("zebra");
    assert_eq!(c.next(), None);
    assert_eq!(c.next_back(), None);
}

#[test]
fn scenario_neighbor_within_budget_one() {
    let t = sample();
    let got = forward_keys(t.neighbor("cat", 1));
    let want = vec![(String::from("car"), 2), (String::from("cat"), 1)];
    assert_eq!(got, want);
}

#[test]
fn neighbor_with_zero_budget_is_exact_lookup() {
    let t = sample();
    let got = forward_keys(t.neighbor("cat", 0));
    assert_eq!(got, vec![(String::from("cat"), 1)]);
}

#[test]
fn neighbor_with_large_budget_yields_all_of_that_length() {
    let t = sample();
    let got = forward_keys(t.neighbor("xxx", 3));
    let want = vec![
        (String::from("car"), 2),
        (String::from("cat"), 1),
        (String::from("dog"), 4),
    ];
    assert_eq!(got, want);
}

#[test]
fn scenario_crossword_with_joker() {
    let t = sample();
    let got = forward_keys(t.crossword("c?t", '?'));
    assert_eq!(got, vec![(String::from("cat"), 1)]);
}

#[test]
fn crossword_all_jokers_yields_all_of_that_length() {
    let t = sample();
    let got = forward_keys(t.crossword("????", '?'));
    assert_eq!(got, vec![(String::from("card"), 3)]);
}

#[test]
fn crossword_without_jokers_is_exact_match() {
    let t = sample();
    let got = forward_keys(t.crossword("dog", '?'));
    assert_eq!(got, vec![(String::from("dog"), 4)]);
    let none = forward_keys(t.crossword("dig", '?'));
    assert_eq!(none, vec![]);
}
