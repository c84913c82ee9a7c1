use flashdeal::card;
use flashdeal::commands::{self, ModifyCard, ModifyPack};
use flashdeal::error::Error;
use flashdeal::filter::{self, TagSets};
use flashdeal::pack;
use flashdeal::store::Store;
use flashdeal::study;

fn labels(names: &[&str]) -> Vec<String> {
    names.iter().map(|s| s.to_string()).collect()
}

#[test]
fn pack_crud() {
    let mut store = Store::new();
    let p1 = pack::create(&mut store, "first");
    let p2 = pack::create(&mut store, "second");
    assert_ne!(p1, p2);

    let listed = commands::pack_list(&store);
    assert_eq!(listed.len(), 2);
    assert_eq!(listed[0].title, "first");
    assert_eq!(listed[1].title, "second");

    commands::pack_modify(&mut store, p1, ModifyPack::Rename("renamed".to_string())).unwrap();
    assert_eq!(commands::pack_by_id(&store, p1).unwrap().title, "renamed");

    commands::pack_modify(&mut store, p1, ModifyPack::Delete).unwrap();
    assert!(commands::pack_by_id(&store, p1).is_none());
    assert!(commands::pack_by_id(&store, p2).is_some());
    assert_eq!(
        commands::pack_modify(&mut store, p1, ModifyPack::Delete),
        Err(Error::NotFound)
    );
}

#[test]
fn card_crud() {
    let mut store = Store::new();
    let p = pack::create(&mut store, "P");
    let c = card::create(&mut store, p, "front", "back").unwrap();

    let got = commands::card_by_id(&store, c).unwrap();
    assert_eq!(got.front, "front");
    assert_eq!(got.back, "back");
    assert_eq!(got.pack_id, p);

    commands::card_modify(
        &mut store,
        c,
        ModifyCard::Edit { front: Some("new front".to_string()), back: None },
    )
    .unwrap();
    let got = commands::card_by_id(&store, c).unwrap();
    assert_eq!(got.front, "new front");
    assert_eq!(got.back, "back");

    let by_pack = commands::card_by_pack(&store, p);
    assert_eq!(by_pack.len(), 1);

    commands::card_modify(&mut store, c, ModifyCard::Delete).unwrap();
    assert!(commands::card_by_id(&store, c).is_none());
    assert_eq!(card::create(&mut store, 999, "f", "b"), Err(Error::NotFound));
}

#[test]
fn duplicate_card_tag_is_a_store_failure() {
    let mut store = Store::new();
    let p = pack::create(&mut store, "P");
    let c = card::create(&mut store, p, "f", "b").unwrap();
    card::add_tag(&mut store, c, "t").unwrap();
    assert_eq!(card::add_tag(&mut store, c, "t"), Err(Error::StoreFailure));
    assert_eq!(card::add_tag(&mut store, 999, "t"), Err(Error::NotFound));
}

#[test]
fn deleting_a_pack_cascades_to_cards_and_filters() {
    let mut store = Store::new();
    let p = pack::create(&mut store, "P");
    let keep = pack::create(&mut store, "keep");
    let c = card::create(&mut store, p, "f", "b").unwrap();
    let kept_card = card::create(&mut store, keep, "f2", "b2").unwrap();
    let f = filter::create(&mut store, p, "F").unwrap();
    let kept_filter = filter::create(&mut store, keep, "G").unwrap();

    pack::delete(&mut store, p).unwrap();
    assert!(commands::card_by_id(&store, c).is_none());
    assert!(commands::card_by_id(&store, kept_card).is_some());
    assert_eq!(filter::get_label(&store, f), Err(Error::NotFound));
    assert_eq!(filter::get_label(&store, kept_filter), Ok("G".to_string()));
}

#[test]
fn filter_listing_groups_by_pack() {
    let mut store = Store::new();
    let p1 = pack::create(&mut store, "alpha");
    let p2 = pack::create(&mut store, "beta");
    let _empty = pack::create(&mut store, "no filters here");
    let f1 = filter::create(&mut store, p1, "one").unwrap();
    let f2 = filter::create(&mut store, p1, "two").unwrap();
    let _f3 = filter::create(&mut store, p2, "three").unwrap();

    let by_pack = filter::list_by_pack(&store, p1);
    assert_eq!(by_pack.len(), 2);
    assert_eq!(by_pack[0].id, f1);
    assert_eq!(by_pack[0].label, "one");
    assert_eq!(by_pack[1].id, f2);

    // A pack without filters contributes no group.
    let groups = filter::list_all(&store);
    assert_eq!(groups.len(), 2);
    assert_eq!(groups[0].pack_title, "alpha");
    assert_eq!(groups[0].filters.len(), 2);
    assert_eq!(groups[1].pack_title, "beta");
    assert_eq!(groups[1].filters.len(), 1);

    // Every filter appears exactly once across the whole listing.
    let mut all_ids: Vec<u32> = Vec::new();
    for group in &groups {
        for summary in &group.filters {
            all_ids.push(summary.id);
        }
    }
    let total = all_ids.len();
    all_ids.sort();
    all_ids.dedup();
    assert_eq!(all_ids.len(), total);
    assert_eq!(total, 3);
}

#[test]
fn filter_listings_sort_by_lowercased_label() {
    let mut store = Store::new();
    let p = pack::create(&mut store, "P");
    let zebra = filter::create(&mut store, p, "Zebra").unwrap();
    let apple = filter::create(&mut store, p, "apple").unwrap();
    let mango = filter::create(&mut store, p, "Mango").unwrap();

    let by_pack = filter::list_by_pack(&store, p);
    let labels: Vec<&str> = by_pack.iter().map(|s| s.label.as_str()).collect();
    assert_eq!(labels, vec!["apple", "Mango", "Zebra"]);
    let ids: Vec<u32> = by_pack.iter().map(|s| s.id).collect();
    assert_eq!(ids, vec![apple, mango, zebra]);

    let groups = filter::list_all(&store);
    assert_eq!(groups.len(), 1);
    let grouped: Vec<&str> = groups[0].filters.iter().map(|s| s.label.as_str()).collect();
    assert_eq!(grouped, vec!["apple", "Mango", "Zebra"]);
}

#[test]
fn filter_tags_list_sorted_by_lowercased_tag() {
    let mut store = Store::new();
    let p = pack::create(&mut store, "P");
    let f = filter::create(&mut store, p, "F").unwrap();
    filter::add_tag(&mut store, f, "Zebra", false).unwrap();
    filter::add_tag(&mut store, f, "apple", true).unwrap();
    filter::add_tag(&mut store, f, "Mango", false).unwrap();

    let tags = filter::list_tags(&store, f).unwrap();
    let labels: Vec<&str> = tags.iter().map(|t| t.tag.as_str()).collect();
    assert_eq!(labels, vec!["apple", "Mango", "Zebra"]);
    assert!(tags[0].exclude);
    assert!(!tags[1].exclude);
    assert!(!tags[2].exclude);

    let full = filter::get(&store, f).unwrap();
    let got: Vec<&str> = full.tags.iter().map(|t| t.tag.as_str()).collect();
    assert_eq!(got, vec!["apple", "Mango", "Zebra"]);
}

#[test]
fn study_crud_and_tags() {
    let mut store = Store::new();
    let p = pack::create(&mut store, "P");
    let s = study::create(&mut store, "S", Some(p), 10);

    let listed = study::list_all(&store);
    assert_eq!(listed.len(), 1);
    assert_eq!(listed[0].id, s);
    assert_eq!(listed[0].title, "S");
    assert_eq!(listed[0].pack_id, Some(p));
    assert_eq!(listed[0].limit, 10);

    study::rename(&mut store, s, "renamed").unwrap();
    study::set_pack(&mut store, s, None).unwrap();
    study::set_limit(&mut store, s, 5).unwrap();
    let listed = study::list_all(&store);
    assert_eq!(listed[0].title, "renamed");
    assert_eq!(listed[0].pack_id, None);
    assert_eq!(listed[0].limit, 5);

    study::add_tag(&mut store, s, "a", false).unwrap();
    study::add_tag(&mut store, s, "b", true).unwrap();
    let tags = study::list_tags(&store, s).unwrap();
    assert_eq!(tags.included, vec!["a".to_string()]);
    assert_eq!(tags.excluded, vec!["b".to_string()]);

    study::remove_tag(&mut store, s, "a", false).unwrap();
    let tags = study::list_tags(&store, s).unwrap();
    assert!(tags.included.is_empty());
    assert_eq!(tags.excluded, vec!["b".to_string()]);

    study::delete(&mut store, s).unwrap();
    assert!(study::list_all(&store).is_empty());
    assert_eq!(study::rename(&mut store, s, "gone"), Err(Error::NotFound));
}

#[test]
fn removing_and_readding_a_membership_restores_matching() {
    // The round trip observed through a study's criterion: dropping a
    // membership and adding it back leaves matching exactly as it was.
    let mut store = Store::new();
    let s = study::create(&mut store, "S", None, 0);
    study::add_tag(&mut store, s, "x", false).unwrap();
    study::add_tag(&mut store, s, "y", true).unwrap();

    let before = study::list_tags(&store, s).unwrap();
    let before_ts = TagSets { included: before.included, excluded: before.excluded };

    study::remove_tag(&mut store, s, "x", false).unwrap();
    study::add_tag(&mut store, s, "x", false).unwrap();

    let after = study::list_tags(&store, s).unwrap();
    let after_ts = TagSets { included: after.included, excluded: after.excluded };

    let samples: Vec<Vec<String>> = vec![
        labels(&[]),
        labels(&["x"]),
        labels(&["y"]),
        labels(&["x", "y"]),
        labels(&["x", "z"]),
    ];
    for tags in samples {
        assert_eq!(before_ts.matches(&tags), after_ts.matches(&tags));
    }
}
