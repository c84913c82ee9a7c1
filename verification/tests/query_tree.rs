use flashdeal::card;
use flashdeal::error::Error;
use flashdeal::pack;
use flashdeal::query::{try_query, CardQuery, Filter, Versioned, WeightedQuery};
use flashdeal::select;
use flashdeal::store::Store;

fn labels(names: &[&str]) -> Vec<String> {
    names.iter().map(|s| s.to_string()).collect()
}

fn scenario() -> (Store, i64, i64, i64, i64) {
    let mut store = Store::new();
    let p = pack::create(&mut store, "P");
    let c1 = card::create(&mut store, p, "q1", "a1").unwrap();
    let c2 = card::create(&mut store, p, "q2", "a2").unwrap();
    let c3 = card::create(&mut store, p, "q3", "a3").unwrap();
    card::add_tag(&mut store, c1, "math").unwrap();
    card::add_tag(&mut store, c2, "math").unwrap();
    card::add_tag(&mut store, c2, "hard").unwrap();
    (store, p, c1, c2, c3)
}

fn root(pack_id: i64, included: &[&str], excluded: &[&str]) -> CardQuery {
    CardQuery::Root(Filter {
        pack_id,
        included_tags: labels(included),
        excluded_tags: labels(excluded),
    })
}

#[test]
fn root_query_returns_a_matching_prompt() {
    let (store, p, _c1, _c2, _c3) = scenario();
    let q = root(p, &["math", "hard"], &[]);
    for _ in 0..20 {
        let prompt = try_query(&q, &store).unwrap().expect("c2 matches");
        assert_eq!(prompt.question, "q2");
        assert_eq!(prompt.answer, "a2");
    }
}

#[test]
fn root_query_with_no_match_is_absent() {
    let (store, p, _c1, _c2, _c3) = scenario();
    let q = root(p, &["nonexistent"], &[]);
    assert!(try_query(&q, &store).unwrap().is_none());
    // A criterion overlapping on one label is permanently unsatisfiable.
    let q = root(p, &["math"], &["math"]);
    assert!(try_query(&q, &store).unwrap().is_none());
}

#[test]
fn branch_descends_by_weight() {
    let (store, p, _c1, _c2, _c3) = scenario();
    // A zero-weight child is never drawn: every prompt comes from the
    // weight-5 child.
    let q = CardQuery::Branch(vec![
        WeightedQuery { query: root(p, &["nonexistent"], &[]), weight: 0 },
        WeightedQuery { query: root(p, &["hard"], &[]), weight: 5 },
    ]);
    for _ in 0..50 {
        let prompt = try_query(&q, &store).unwrap().expect("the live child matches c2");
        assert_eq!(prompt.question, "q2");
    }
}

#[test]
fn nested_branches_reach_their_roots() {
    let (store, p, _c1, _c2, _c3) = scenario();
    let inner = CardQuery::Branch(vec![WeightedQuery {
        query: root(p, &["hard"], &[]),
        weight: 2,
    }]);
    let outer = CardQuery::Branch(vec![WeightedQuery { query: inner, weight: 1 }]);
    let prompt = try_query(&outer, &store).unwrap().unwrap();
    assert_eq!(prompt.question, "q2");
}

#[test]
fn empty_branch_is_an_invalid_weight() {
    let (store, _p, _c1, _c2, _c3) = scenario();
    let q = CardQuery::Branch(vec![]);
    assert_eq!(try_query(&q, &store).map(|_| ()), Err(Error::InvalidWeight));
}

#[test]
fn all_zero_branch_is_an_invalid_weight() {
    let (store, p, _c1, _c2, _c3) = scenario();
    let q = CardQuery::Branch(vec![WeightedQuery { query: root(p, &[], &[]), weight: 0 }]);
    assert_eq!(try_query(&q, &store).map(|_| ()), Err(Error::InvalidWeight));
}

#[test]
fn version_wrapper_round_trips() {
    let q = root(7, &["a"], &["b"]);
    let wrapped = Versioned::from(q);
    let unwrapped = CardQuery::from(wrapped);
    match unwrapped {
        CardQuery::Root(f) => {
            assert_eq!(f.pack_id, 7);
            assert_eq!(f.included_tags, vec!["a".to_string()]);
            assert_eq!(f.excluded_tags, vec!["b".to_string()]);
        },
        CardQuery::Branch(_) => panic!("the wrapper must hand back the same node"),
    }
}

#[test]
fn query_cards_respects_scope_criterion_and_limit() {
    let (store, p, c1, c2, _c3) = scenario();

    let all_math = select::query_cards(&store, Some(p), labels(&["math"]), labels(&[]), None);
    let mut sorted = all_math.clone();
    sorted.sort();
    assert_eq!(sorted, vec![c1, c2]);

    let none = select::query_cards(&store, Some(p), labels(&["math"]), labels(&[]), Some(0));
    assert!(none.is_empty());

    let one = select::query_cards(&store, Some(p), labels(&["math"]), labels(&[]), Some(1));
    assert_eq!(one.len(), 1);
    assert!(one[0] == c1 || one[0] == c2);

    let everything = select::query_cards(&store, None, labels(&[]), labels(&[]), None);
    assert_eq!(everything.len(), 3);

    let absent_pack = select::query_cards(&store, Some(999), labels(&[]), labels(&[]), None);
    assert!(absent_pack.is_empty());
}
