use flashdeal::card;
use flashdeal::filter::{self, TagSets};
use flashdeal::pack;
use flashdeal::store::Store;

fn labels(names: &[&str]) -> Vec<String> {
    names.iter().map(|s| s.to_string()).collect()
}

/// Pack P of the scenarios: c1 tagged {math}, c2 tagged {math, hard},
/// c3 untagged.  Returns (store, pack id, c1, c2, c3).
fn scenario_pack() -> (Store, i64, i64, i64, i64) {
    let mut store = Store::new();
    let p = pack::create(&mut store, "P");
    let c1 = card::create(&mut store, p, "q1", "a1").unwrap();
    let c2 = card::create(&mut store, p, "q2", "a2").unwrap();
    let c3 = card::create(&mut store, p, "q3", "a3").unwrap();
    card::add_tag(&mut store, c1, "math").unwrap();
    card::add_tag(&mut store, c2, "math").unwrap();
    card::add_tag(&mut store, c2, "hard").unwrap();
    (store, p, c1, c2, c3)
}

#[test]
fn matches_is_subset_and_disjointness() {
    let ts = TagSets { included: labels(&["a", "b"]), excluded: labels(&["x"]) };
    assert!(ts.matches(&labels(&["a", "b"])));
    assert!(ts.matches(&labels(&["a", "b", "c"])));
    assert!(!ts.matches(&labels(&["a"])));
    assert!(!ts.matches(&labels(&["a", "b", "x"])));
    assert!(!ts.matches(&labels(&[])));

    let empty = TagSets { included: labels(&[]), excluded: labels(&[]) };
    assert!(empty.matches(&labels(&[])));
    assert!(empty.matches(&labels(&["anything"])));
}

#[test]
fn overlapping_criterion_matches_nothing() {
    let ts = TagSets { included: labels(&["x"]), excluded: labels(&["x"]) };
    assert!(!ts.matches(&labels(&[])));
    assert!(!ts.matches(&labels(&["x"])));
    assert!(!ts.matches(&labels(&["x", "y"])));
    assert!(!ts.matches(&labels(&["y"])));
}

#[test]
fn scenario_include_math() {
    let (mut store, p, c1, c2, c3) = scenario_pack();
    let f1 = filter::create(&mut store, p, "F1").unwrap();
    filter::add_tag(&mut store, f1, "math", false).unwrap();

    let mut saw_c1 = false;
    let mut saw_c2 = false;
    for _ in 0..200 {
        let got = filter::next_card(&store, f1).unwrap();
        let id = got.expect("a math card should always be found");
        assert!(id == c1 || id == c2, "never c3");
        assert_ne!(id, c3);
        if id == c1 {
            saw_c1 = true;
        }
        if id == c2 {
            saw_c2 = true;
        }
    }
    assert!(saw_c1 && saw_c2, "both matching cards should appear over many trials");
}

#[test]
fn scenario_exclude_hard() {
    let (mut store, p, c1, c2, c3) = scenario_pack();
    let f2 = filter::create(&mut store, p, "F2").unwrap();
    filter::add_tag(&mut store, f2, "hard", true).unwrap();

    let mut saw_c1 = false;
    let mut saw_c3 = false;
    for _ in 0..200 {
        let id = filter::next_card(&store, f2).unwrap().expect("a card should be found");
        assert!(id == c1 || id == c3, "candidates are exactly c1 and c3");
        assert_ne!(id, c2);
        if id == c1 {
            saw_c1 = true;
        }
        if id == c3 {
            saw_c3 = true;
        }
    }
    assert!(saw_c1 && saw_c3);
}

#[test]
fn scenario_nonexistent_tag_is_invalid() {
    let (mut store, p, _c1, _c2, _c3) = scenario_pack();
    let f3 = filter::create(&mut store, p, "F3").unwrap();
    filter::add_tag(&mut store, f3, "nonexistent", false).unwrap();

    assert_eq!(filter::check_validity(&store, f3), Ok(false));
    assert_eq!(filter::next_card(&store, f3), Ok(None));
    let full = filter::get(&store, f3).unwrap();
    assert!(!full.is_valid);
}

#[test]
fn add_tag_twice_leaves_one_membership() {
    let mut store = Store::new();
    let p = pack::create(&mut store, "P");
    let f = filter::create(&mut store, p, "F").unwrap();
    filter::add_tag(&mut store, f, "x", false).unwrap();
    filter::add_tag(&mut store, f, "x", false).unwrap();
    let tags = filter::list_tags(&store, f).unwrap();
    assert_eq!(tags.len(), 1);
    assert_eq!(tags[0].tag, "x");
    assert!(!tags[0].exclude);
}

#[test]
fn add_tag_upsert_flips_role() {
    let mut store = Store::new();
    let p = pack::create(&mut store, "P");
    let f = filter::create(&mut store, p, "F").unwrap();
    filter::add_tag(&mut store, f, "x", false).unwrap();
    filter::add_tag(&mut store, f, "x", true).unwrap();
    let tags = filter::list_tags(&store, f).unwrap();
    assert_eq!(tags.len(), 1);
    assert_eq!(tags[0].tag, "x");
    assert!(tags[0].exclude);
}

#[test]
fn set_excluded_is_a_no_op_on_absent_tags() {
    let mut store = Store::new();
    let p = pack::create(&mut store, "P");
    let f = filter::create(&mut store, p, "F").unwrap();
    filter::set_excluded(&mut store, f, "ghost", true).unwrap();
    assert_eq!(filter::list_tags(&store, f).unwrap().len(), 0);

    filter::add_tag(&mut store, f, "x", false).unwrap();
    filter::set_excluded(&mut store, f, "x", true).unwrap();
    let tags = filter::list_tags(&store, f).unwrap();
    assert_eq!(tags.len(), 1);
    assert!(tags[0].exclude);
}

#[test]
fn filter_matches_only_its_pack() {
    let mut store = Store::new();
    let p1 = pack::create(&mut store, "P1");
    let p2 = pack::create(&mut store, "P2");
    let c_other = card::create(&mut store, p2, "q", "a").unwrap();
    card::add_tag(&mut store, c_other, "math").unwrap();
    let f = filter::create(&mut store, p1, "F").unwrap();
    filter::add_tag(&mut store, f, "math", false).unwrap();
    // The only math card lives in another pack.
    assert_eq!(filter::next_card(&store, f), Ok(None));
    assert_eq!(filter::check_validity(&store, f), Ok(false));
}
