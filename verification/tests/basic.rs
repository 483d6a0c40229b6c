use ternary_tst::Direction;
use ternary_tst::Tst;

#[test]
fn insert_then_get_round_trip() {
    let mut t: Tst<u64> = Tst::new();
    assert_eq!(t.insert("cat", 1), None);
    assert_eq!(t.get("cat"), Some(&1));
    assert_eq!(t.insert("c", 7), None);
    assert_eq!(t.get("c"), Some(&7));
    assert_eq!(t.insert("caterpillar", 9), None);
    assert_eq!(t.get("caterpillar"), Some(&9));
    assert_eq!(t.get("ca"), None);
    assert_eq!(t.get("cats"), None);
    assert_eq!(t.count(), 3);
}

#[test]
fn unicode_keys_round_trip() {
    let mut t: Tst<String> = Tst::new();
    assert_eq!(t.insert("über", String::from("u")), None);
    assert_eq!(t.insert("übel", String::from("v")), None);
    assert_eq!(t.get("über"), Some(&String::from("u")));
    assert_eq!(t.get("übel"), Some(&String::from("v")));
    assert_eq!(t.count(), 2);
}

#[test]
fn overwrite_returns_previous_and_keeps_count() {
    let mut t: Tst<u64> = Tst::new();
    assert_eq!(t.insert("key", 1), None);
    assert_eq!(t.count(), 1);
    assert_eq!(t.insert("key", 2), Some(1));
    assert_eq!(t.get("key"), Some(&2));
    assert_eq!(t.count(), 1);
}

#[test]
fn remove_clears_key_and_count() {
    let mut t: Tst<u64> = Tst::new();
    t.insert("cat", 1);
    t.insert("car", 2);
    assert_eq!(t.count(), 2);
    assert_eq!(t.remove("cat"), Some(1));
    assert_eq!(t.get("cat"), None);
    assert_eq!(t.count(), 1);
    assert_eq!(t.remove("cat"), None);
    assert_eq!(t.count(), 1);
    assert_eq!(t.get("car"), Some(&2));
}

#[test]
fn remove_keeps_pass_through_junctions() {
    let mut t: Tst<u64> = Tst::new();
    t.insert("car", 1);
    t.insert("card", 2);
    assert_eq!(t.remove("car"), Some(1));
    assert_eq!(t.get("card"), Some(&2));
    assert_eq!(t.remove("card"), Some(2));
    assert_eq!(t.get("card"), None);
    assert_eq!(t.count(), 0);
}

#[test]
fn empty_key_is_rejected_as_a_no_op() {
    let mut t: Tst<u64> = Tst::new();
    assert_eq!(t.insert("", 5), None);
    assert_eq!(t.count(), 0);
    assert_eq!(t.get(""), None);
    assert_eq!(t.remove(""), None);
    let mut c = t.visit();
    assert_eq!(c.next(), None);
}

#[test]
fn clear_discards_everything() {
    let mut t: Tst<u64> = Tst::new();
    t.insert("one", 1);
    t.insert("two", 2);
    t.clear();
    assert_eq!(t.count(), 0);
    assert_eq!(t.get("one"), None);
    let mut c = t.visit();
    assert_eq!(c.next(), None);
    t.insert("one", 3);
    assert_eq!(t.get("one"), Some(&3));
    assert_eq!(t.count(), 1);
}

#[test]
fn cursor_is_double_ended_and_meets_in_the_middle() {
    let mut t: Tst<u64> = Tst::new();
    t.insert("a", 1);
    t.insert("b", 2);
    t.insert("c", 3);
    let mut c = t.visit();
    assert_eq!(c.next(), Some(&1));
    assert_eq!(c.current_key(Direction::Forward), "a");
    assert_eq!(c.next_back(), Some(&3));
    assert_eq!(c.current_key(Direction::Backward), "c");
    assert_eq!(c.next(), Some(&2));
    assert_eq!(c.current_key(Direction::Forward), "b");
    assert_eq!(c.next(), None);
    assert_eq!(c.next_back(), None);
    assert_eq!(c.next(), None);
}

#[test]
fn advance_follows_the_direction_argument() {
    let mut t: Tst<u64> = Tst::new();
    t.insert("x", 10);
    t.insert("y", 20);
    let mut c = t.visit();
    assert_eq!(c.advance(Direction::Backward), Some(&20));
    assert_eq!(c.current_key(Direction::Backward), "y");
    assert_eq!(c.advance(Direction::Forward), Some(&10));
    assert_eq!(c.current_key(Direction::Forward), "x");
    assert_eq!(c.advance(Direction::Forward), None);
    assert_eq!(c.advance(Direction::Backward), None);
}

#[test]
fn remove_then_reinsert_reproduces_traversals() {
    let mut t: Tst<u64> = Tst::new();
    for (k, v) in [("cat", 1u64), ("car", 2), ("card", 3), ("dog", 4)] {
        t.insert(k, v);
    }
    let before: Vec<(String, u64)> = drain(&t);
    assert_eq!(t.remove("card"), Some(3));
    assert_eq!(t.get("card"), None);
    t.insert("card", 3);
    let after: Vec<(String, u64)> = drain(&t);
    assert_eq!(before, after);
}

fn drain(t: &Tst<u64>) -> Vec<(String, u64)> {
    let mut out = Vec::new();
    let mut c = t.visit();
    while let Some(v) = c.next() {
        out.push((c.current_key(Direction::Forward), *v));
    }
    out
}
