use flashdeal::card;
use flashdeal::dealer;
use flashdeal::error::Error;
use flashdeal::filter;
use flashdeal::pack;
use flashdeal::store::Store;

/// Pack with the scenario cards, plus filters F1 (include math) and
/// F2 (exclude hard).
fn scenario() -> (Store, i64, u32, u32) {
    let mut store = Store::new();
    let p = pack::create(&mut store, "P");
    let c1 = card::create(&mut store, p, "q1", "a1").unwrap();
    let c2 = card::create(&mut store, p, "q2", "a2").unwrap();
    let _c3 = card::create(&mut store, p, "q3", "a3").unwrap();
    card::add_tag(&mut store, c1, "math").unwrap();
    card::add_tag(&mut store, c2, "math").unwrap();
    card::add_tag(&mut store, c2, "hard").unwrap();
    let f1 = filter::create(&mut store, p, "F1").unwrap();
    filter::add_tag(&mut store, f1, "math", false).unwrap();
    let f2 = filter::create(&mut store, p, "F2").unwrap();
    filter::add_tag(&mut store, f2, "hard", true).unwrap();
    (store, p, f1, f2)
}

#[test]
fn empty_dealer_always_returns_absent() {
    let mut store = Store::new();
    let d = dealer::create(&mut store, "empty");
    for _ in 0..50 {
        assert_eq!(dealer::next_filter(&store, d), Ok(None));
        assert_eq!(dealer::deal_card(&store, d), Ok(None));
    }
}

#[test]
fn weighted_draw_favors_heavier_filters() {
    // Dealer D = {F1 weight 3, F2 weight 1}: F1 lands in roughly 70-80%
    // of 10,000 draws.
    let (mut store, _p, f1, f2) = scenario();
    let d = dealer::create(&mut store, "D");
    dealer::add_filter(&mut store, d, f1, 3).unwrap();
    dealer::add_filter(&mut store, d, f2, 1).unwrap();

    let mut f1_count = 0usize;
    for _ in 0..10_000 {
        let chosen = dealer::next_filter(&store, d).unwrap().unwrap();
        assert!(chosen == f1 || chosen == f2);
        if chosen == f1 {
            f1_count += 1;
        }
    }
    assert!(
        f1_count > 7000 && f1_count < 8000,
        "weighted draw should land on the weight-3 filter about 75% of the time, saw {}",
        f1_count
    );
}

#[test]
fn equal_weights_draw_about_evenly() {
    let (mut store, _p, f1, f2) = scenario();
    let d = dealer::create(&mut store, "even");
    dealer::add_filter(&mut store, d, f1, 1).unwrap();
    dealer::add_filter(&mut store, d, f2, 1).unwrap();

    let mut f1_count = 0usize;
    for _ in 0..10_000 {
        if dealer::next_filter(&store, d).unwrap().unwrap() == f1 {
            f1_count += 1;
        }
    }
    assert!(
        f1_count > 4400 && f1_count < 5600,
        "equal weights should draw about evenly, saw {}",
        f1_count
    );
}

#[test]
fn deal_card_draws_through_the_chosen_filter() {
    let (mut store, _p, f1, f2) = scenario();
    let d = dealer::create(&mut store, "D");
    dealer::add_filter(&mut store, d, f1, 3).unwrap();
    dealer::add_filter(&mut store, d, f2, 1).unwrap();
    for _ in 0..100 {
        let id = dealer::deal_card(&store, d).unwrap();
        assert!(id.is_some(), "both filters select cards, so a card is owed");
    }
}

#[test]
fn non_positive_weights_are_rejected() {
    let (mut store, _p, f1, _f2) = scenario();
    let d = dealer::create(&mut store, "D");
    assert_eq!(dealer::add_filter(&mut store, d, f1, 0), Err(Error::InvalidWeight));
    assert_eq!(dealer::add_filter(&mut store, d, f1, -5), Err(Error::InvalidWeight));
    dealer::add_filter(&mut store, d, f1, 2).unwrap();
    assert_eq!(dealer::set_weight(&mut store, d, f1, 0), Err(Error::InvalidWeight));
    assert_eq!(dealer::set_weight(&mut store, d, f1, -1), Err(Error::InvalidWeight));
    dealer::set_weight(&mut store, d, f1, 7).unwrap();
    let rows = dealer::list_filters(&store, d).unwrap();
    assert_eq!(rows.len(), 1);
    assert_eq!(rows[0].weight, 7);
}

#[test]
fn duplicate_association_is_a_store_failure() {
    let (mut store, _p, f1, _f2) = scenario();
    let d = dealer::create(&mut store, "D");
    dealer::add_filter(&mut store, d, f1, 1).unwrap();
    assert_eq!(dealer::add_filter(&mut store, d, f1, 2), Err(Error::StoreFailure));
}

#[test]
fn absent_ids_are_not_found() {
    let mut store = Store::new();
    assert_eq!(dealer::get_title(&store, 99), Err(Error::NotFound));
    assert_eq!(dealer::next_filter(&store, 99), Err(Error::NotFound));
    assert_eq!(dealer::deal_card(&store, 99), Err(Error::NotFound));
    assert_eq!(dealer::add_filter(&mut store, 99, 1, 1), Err(Error::NotFound));
    assert_eq!(dealer::remove_filter(&mut store, 99, 1), Err(Error::NotFound));
    assert_eq!(dealer::set_weight(&mut store, 99, 1, 1), Err(Error::NotFound));
    assert_eq!(filter::get_label(&store, 99), Err(Error::NotFound));
    assert_eq!(filter::next_card(&store, 99), Err(Error::NotFound));
}

#[test]
fn dangling_associations_are_dropped_from_the_draw() {
    let (mut store, p, f1, f2) = scenario();
    let d = dealer::create(&mut store, "D");
    dealer::add_filter(&mut store, d, f1, 3).unwrap();
    dealer::add_filter(&mut store, d, f2, 1).unwrap();
    // Deleting the pack cascades to its filters, leaving both associations
    // dangling: the draw then has no candidates.
    pack::delete(&mut store, p).unwrap();
    assert_eq!(dealer::next_filter(&store, d), Ok(None));
    assert_eq!(dealer::deal_card(&store, d), Ok(None));
    assert_eq!(dealer::list_filters(&store, d).unwrap().len(), 0);
}

#[test]
fn removed_association_no_longer_draws() {
    let (mut store, _p, f1, f2) = scenario();
    let d = dealer::create(&mut store, "D");
    dealer::add_filter(&mut store, d, f1, 1).unwrap();
    dealer::add_filter(&mut store, d, f2, 1).unwrap();
    dealer::remove_filter(&mut store, d, f1).unwrap();
    for _ in 0..50 {
        assert_eq!(dealer::next_filter(&store, d), Ok(Some(f2)));
    }
    // Removing an absent association is a quiet no-op.
    dealer::remove_filter(&mut store, d, f1).unwrap();
}

#[test]
fn dealer_listing_joins_filter_data() {
    let (mut store, _p, f1, _f2) = scenario();
    let d = dealer::create(&mut store, "my dealer");
    dealer::add_filter(&mut store, d, f1, 4).unwrap();
    assert_eq!(dealer::get_title(&store, d), Ok("my dealer".to_string()));
    let rows = dealer::list_filters(&store, d).unwrap();
    assert_eq!(rows.len(), 1);
    assert_eq!(rows[0].id, f1);
    assert_eq!(rows[0].label, "F1");
    assert_eq!(rows[0].pack_title, "P");
    assert_eq!(rows[0].weight, 4);
    let all = dealer::list_all(&store);
    assert_eq!(all.len(), 1);
    assert_eq!(all[0].id, d);
}
