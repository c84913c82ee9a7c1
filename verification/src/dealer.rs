//! Dealers: named weighted collections of filters, used for two-stage
//! probabilistic card selection.

use vstd::prelude::*;

verus! {

use crate::error::Error;
use crate::rng::{
    lemma_sum_weights_bounds, lemma_sum_weights_concat, lemma_sum_weights_push,
    lemma_sum_weights_remove, lemma_sum_weights_update, sample_weighted, sum_weights,
};
use crate::store::{
    dealer_weights, find_dealer, find_filter, find_pack, same_except_dealers, DealerEntry,
    DealerRow, Store,
};

pub type Id = u32;

/// Listing row for a dealer.
pub struct Summary {
    pub id: Id,
    pub title: String,
}

/// Full view of a dealer as handed to callers.
pub struct Dealer {
    pub title: String,
    pub filters: Vec<DealerFilter>,
}

/// One filter association of a dealer, joined with the filter's own data.
pub struct DealerFilter {
    pub id: crate::filter::Id,
    pub label: String,
    pub pack_title: String,
    pub weight: u32,
}

/// The association list holds an entry for the filter id.
pub open spec fn has_entry(entries: Seq<DealerEntry>, filter_id: crate::filter::Id) -> bool {
    exists|j: int| 0 <= j < entries.len() && (#[trigger] entries[j]).filter_id == filter_id
}

/// The position of a filter's entry (meaningful when present).
pub open spec fn entry_pos(entries: Seq<DealerEntry>, filter_id: crate::filter::Id) -> int {
    choose|j: int| 0 <= j < entries.len() && (#[trigger] entries[j]).filter_id == filter_id
}

/// The association list with the filter's entry taken out, when present.
pub open spec fn spec_remove_entry(
    entries: Seq<DealerEntry>,
    filter_id: crate::filter::Id,
) -> Seq<DealerEntry> {
    if has_entry(entries, filter_id) {
        entries.remove(entry_pos(entries, filter_id))
    } else {
        entries
    }
}

/// The dealer holds an association for the filter id.
pub open spec fn entry_present(d: DealerRow, filter_id: crate::filter::Id) -> bool {
    has_entry(d.entries@, filter_id)
}

/// The dealer associates the filter id, and the filter still exists.
pub open spec fn valid_entry(store: Store, d: DealerRow, filter_id: crate::filter::Id) -> bool {
    entry_present(d, filter_id) && store.has_filter(filter_id)
}

/// At least one association of the dealer refers to an existing filter.
pub open spec fn any_valid_entry(store: Store, d: DealerRow) -> bool {
    exists|j: int|
        0 <= j < d.entries@.len() && store.has_filter((#[trigger] d.entries@[j]).filter_id)
}

/// The store after a mutation that replaced one dealer's association list:
/// every other row and table is kept, and the row keeps its id and title
/// while its associations now read `new_entries`.
pub open spec fn dealer_entries_updated(
    a: Store,
    b: Store,
    id: Id,
    new_entries: Seq<DealerEntry>,
) -> bool {
    &&& same_except_dealers(a, b)
    &&& b.next_dealer_id == a.next_dealer_id
    &&& b.dealers@.len() == a.dealers@.len()
    &&& (forall|i: int|
        0 <= i < a.dealers@.len() && i != a.dealer_idx(id) ==> b.dealers@[i] == a.dealers@[i])
    &&& b.dealers@[a.dealer_idx(id)].id == a.spec_dealer(id).id
    &&& b.dealers@[a.dealer_idx(id)].title == a.spec_dealer(id).title
    &&& b.dealers@[a.dealer_idx(id)].entries@ == new_entries
}

/// Position of the entry carrying the filter id, if any.
fn find_entry_pos(entries: &Vec<DealerEntry>, filter_id: crate::filter::Id) -> (r: Option<usize>)
    ensures
        match r {
            Some(p) => p < entries@.len() && entries@[p as int].filter_id == filter_id,
            None => !has_entry(entries@, filter_id),
        },
{
    let mut i: usize = 0;
    while i < entries.len()
        invariant
            0 <= i <= entries@.len(),
            forall|j: int| 0 <= j < i ==> (#[trigger] entries@[j]).filter_id != filter_id,
        decreases entries@.len() - i,
    {
        if entries[i].filter_id == filter_id {
            return Some(i);
        }
        i += 1;
    }
    proof {
        if has_entry(entries@, filter_id) {
            let j = choose|j: int|
                0 <= j < entries@.len() && (#[trigger] entries@[j]).filter_id == filter_id;
            assert(false);
        }
    }
    None
}

/// The total of an association list's weights.
fn total_weight(entries: &Vec<DealerEntry>) -> (s: u64)
    requires
        sum_weights(entries@.map_values(|e: DealerEntry| e.weight)) <= u32::MAX,
    ensures
        s == sum_weights(entries@.map_values(|e: DealerEntry| e.weight)),
{
    let ghost w = entries@.map_values(|e: DealerEntry| e.weight);
    let mut s: u64 = 0;
    let mut i: usize = 0;
    while i < entries.len()
        invariant
            0 <= i <= entries@.len(),
            w == entries@.map_values(|e: DealerEntry| e.weight),
            sum_weights(w) <= u32::MAX,
            s == sum_weights(w.take(i as int)),
        decreases entries@.len() - i,
    {
        proof {
            assert(w.take(i + 1) =~= w.take(i as int).push(w[i as int]));
            lemma_sum_weights_push(w.take(i as int), w[i as int]);
            assert(w =~= w.take(i + 1) + w.skip(i + 1));
            lemma_sum_weights_concat(w.take(i + 1), w.skip(i + 1));
            lemma_sum_weights_bounds(w.skip(i + 1));
            assert(sum_weights(w.take(i + 1)) <= sum_weights(w));
        }
        s = s + (entries[i].weight as u64);
        i += 1;
    }
    proof {
        assert(w.take(w.len() as int) =~= w);
    }
    s
}

/// Associates a filter with a dealer under the given weight.  A non-positive
/// weight, or one that would push the dealer's total past `u32`, is rejected
/// with `InvalidWeight`; an absent dealer or filter with `NotFound`; an
/// association already present with `StoreFailure`.  The store is untouched
/// on every failure.
pub fn add_filter(
    store: &mut Store,
    dealer_id: Id,
    filter_id: crate::filter::Id,
    weight: i32,
) -> (r: Result<(), Error>)
    requires
        old(store).wf(),
    ensures
        final(store).wf(),
        match r {
            Ok(u) => {
                &&& u == ()
                &&& weight >= 1
                &&& old(store).has_dealer(dealer_id)
                &&& old(store).has_filter(filter_id)
                &&& !entry_present(old(store).spec_dealer(dealer_id), filter_id)
                &&& sum_weights(dealer_weights(old(store).spec_dealer(dealer_id))) + weight
                    <= u32::MAX
                &&& dealer_entries_updated(
                    *old(store),
                    *final(store),
                    dealer_id,
                    old(store).spec_dealer(dealer_id).entries@.push(
                        DealerEntry { filter_id, weight: weight as u32 },
                    ),
                )
            },
            Err(e) => *final(store) == *old(store) && match e {
                Error::InvalidWeight => weight <= 0 || (old(store).has_dealer(dealer_id) && old(
                    store,
                ).has_filter(filter_id) && !entry_present(old(store).spec_dealer(dealer_id), filter_id)
                    && sum_weights(dealer_weights(old(store).spec_dealer(dealer_id))) + weight
                    > u32::MAX),
                Error::NotFound => weight >= 1 && (!old(store).has_dealer(dealer_id) || !old(
                    store,
                ).has_filter(filter_id)),
                Error::StoreFailure => weight >= 1 && old(store).has_dealer(dealer_id) && old(
                    store,
                ).has_filter(filter_id) && entry_present(
                    old(store).spec_dealer(dealer_id),
                    filter_id,
                ),
            },
        },
{
    if weight <= 0 {
        return Err(Error::InvalidWeight);
    }
    let di = match find_dealer(store, dealer_id) {
        Some(di) => di,
        None => {
            return Err(Error::NotFound);
        },
    };
    if find_filter(store, filter_id).is_none() {
        return Err(Error::NotFound);
    }
    proof {
        store.lemma_dealer_idx(di as int);
    }
    if find_entry_pos(&store.dealers[di].entries, filter_id).is_some() {
        return Err(Error::StoreFailure);
    }
    let total = total_weight(&store.dealers[di].entries);
    if total + (weight as u64) > (u32::MAX as u64) {
        return Err(Error::InvalidWeight);
    }
    let ghost pre = *store;
    let mut row = store.dealers.remove(di);
    row.entries.push(DealerEntry { filter_id, weight: weight as u32 });
    store.dealers.insert(di, row);
    proof {
        assert(store.dealers@ =~= pre.dealers@.update(di as int, store.dealers@[di as int]));
        let nd = store.dealers@[di as int];
        let od = pre.dealers@[di as int];
        assert(nd.entries@ =~= od.entries@.push(DealerEntry { filter_id, weight: weight as u32 }));
        assert(dealer_weights(nd) =~= dealer_weights(od).push(weight as u32));
        lemma_sum_weights_push(dealer_weights(od), weight as u32);
        assert forall|i: int, j1: int, j2: int|
            0 <= i < store.dealers@.len() && 0 <= j1 < j2
                < store.dealers@[i].entries@.len() implies store.dealers@[i].entries@[j1].filter_id
            != store.dealers@[i].entries@[j2].filter_id by {
            if i == di as int {
                if j2 == nd.entries@.len() - 1 {
                    assert(od.entries@[j1].filter_id != filter_id);
                } else {
                    assert(od.entries@[j1].filter_id != od.entries@[j2].filter_id);
                }
            } else {
                assert(store.dealers@[i] == pre.dealers@[i]);
            }
        }
    }
    Ok(())
}

/// Drops a filter's association from a dealer; absent associations are left
/// alone.  Fails with `NotFound` exactly when the dealer is absent, and the
/// store is then untouched.
pub fn remove_filter(store: &mut Store, dealer_id: Id, filter_id: crate::filter::Id) -> (r: Result<
    (),
    Error,
>)
    requires
        old(store).wf(),
    ensures
        final(store).wf(),
        match r {
            Ok(u) => {
                &&& u == ()
                &&& old(store).has_dealer(dealer_id)
                &&& dealer_entries_updated(
                    *old(store),
                    *final(store),
                    dealer_id,
                    spec_remove_entry(old(store).spec_dealer(dealer_id).entries@, filter_id),
                )
            },
            Err(e) => {
                &&& e == Error::NotFound
                &&& !old(store).has_dealer(dealer_id)
                &&& *final(store) == *old(store)
            },
        },
{
    let di = match find_dealer(store, dealer_id) {
        Some(di) => di,
        None => {
            return Err(Error::NotFound);
        },
    };
    proof {
        store.lemma_dealer_idx(di as int);
    }
    let ghost pre = *store;
    let p = match find_entry_pos(&store.dealers[di].entries, filter_id) {
        Some(p) => p,
        None => {
            proof {
                assert(spec_remove_entry(pre.spec_dealer(dealer_id).entries@, filter_id)
                    == pre.spec_dealer(dealer_id).entries@);
            }
            return Ok(());
        },
    };
    let mut row = store.dealers.remove(di);
    row.entries.remove(p);
    store.dealers.insert(di, row);
    proof {
        assert(store.dealers@ =~= pre.dealers@.update(di as int, store.dealers@[di as int]));
        let nd = store.dealers@[di as int];
        let od = pre.dealers@[di as int];
        assert(entry_pos(od.entries@, filter_id) == p as int) by {
            assert(od.entries@[p as int].filter_id == filter_id);
            let k = entry_pos(od.entries@, filter_id);
            if k < p as int {
                assert(od.entries@[k].filter_id != od.entries@[p as int].filter_id);
            } else if k > p as int {
                assert(od.entries@[p as int].filter_id != od.entries@[k].filter_id);
            }
        }
        assert(nd.entries@ == od.entries@.remove(p as int));
        assert(dealer_weights(nd) =~= dealer_weights(od).remove(p as int));
        lemma_sum_weights_remove(dealer_weights(od), p as int);
        assert forall|i: int, j1: int, j2: int|
            0 <= i < store.dealers@.len() && 0 <= j1 < j2
                < store.dealers@[i].entries@.len() implies store.dealers@[i].entries@[j1].filter_id
            != store.dealers@[i].entries@[j2].filter_id by {
            if i == di as int {
                let a1: int = if j1 < p as int { j1 } else { j1 + 1 };
                let a2: int = if j2 < p as int { j2 } else { j2 + 1 };
                assert(nd.entries@[j1] == od.entries@[a1]);
                assert(nd.entries@[j2] == od.entries@[a2]);
                assert(od.entries@[a1].filter_id != od.entries@[a2].filter_id);
            } else {
                assert(store.dealers@[i] == pre.dealers@[i]);
            }
        }
        assert forall|i: int, j: int|
            0 <= i < store.dealers@.len() && 0 <= j
                < store.dealers@[i].entries@.len() implies store.dealers@[i].entries@[j].weight
            >= 1 by {
            if i == di as int {
                let a: int = if j < p as int { j } else { j + 1 };
                assert(nd.entries@[j] == od.entries@[a]);
            } else {
                assert(store.dealers@[i] == pre.dealers@[i]);
            }
        }
    }
    Ok(())
}

/// Changes the weight of an existing association.  A non-positive weight, or
/// one that would push the dealer's total past `u32`, is rejected with
/// `InvalidWeight`; an absent dealer or association with `NotFound`.  The
/// store is untouched on every failure.
pub fn set_weight(
    store: &mut Store,
    dealer_id: Id,
    filter_id: crate::filter::Id,
    weight: i32,
) -> (r: Result<(), Error>)
    requires
        old(store).wf(),
    ensures
        final(store).wf(),
        match r {
            Ok(u) => {
                &&& u == ()
                &&& weight >= 1
                &&& old(store).has_dealer(dealer_id)
                &&& entry_present(old(store).spec_dealer(dealer_id), filter_id)
                &&& sum_weights(dealer_weights(old(store).spec_dealer(dealer_id)))
                    - old(store).spec_dealer(dealer_id).entries@[entry_pos(
                    old(store).spec_dealer(dealer_id).entries@,
                    filter_id,
                )].weight + weight <= u32::MAX
                &&& dealer_entries_updated(
                    *old(store),
                    *final(store),
                    dealer_id,
                    old(store).spec_dealer(dealer_id).entries@.update(
                        entry_pos(old(store).spec_dealer(dealer_id).entries@, filter_id),
                        DealerEntry { filter_id, weight: weight as u32 },
                    ),
                )
            },
            Err(e) => *final(store) == *old(store) && match e {
                Error::InvalidWeight => weight <= 0 || (old(store).has_dealer(dealer_id)
                    && entry_present(old(store).spec_dealer(dealer_id), filter_id) && sum_weights(
                    dealer_weights(old(store).spec_dealer(dealer_id)),
                ) - old(store).spec_dealer(dealer_id).entries@[entry_pos(
                    old(store).spec_dealer(dealer_id).entries@,
                    filter_id,
                )].weight + weight > u32::MAX),
                Error::NotFound => weight >= 1 && (!old(store).has_dealer(dealer_id)
                    || !entry_present(old(store).spec_dealer(dealer_id), filter_id)),
                Error::StoreFailure => false,
            },
        },
{
    if weight <= 0 {
        return Err(Error::InvalidWeight);
    }
    let di = match find_dealer(store, dealer_id) {
        Some(di) => di,
        None => {
            return Err(Error::NotFound);
        },
    };
    proof {
        store.lemma_dealer_idx(di as int);
    }
    let p = match find_entry_pos(&store.dealers[di].entries, filter_id) {
        Some(p) => p,
        None => {
            return Err(Error::NotFound);
        },
    };
    let ghost pre = *store;
    proof {
        assert(entry_pos(pre.spec_dealer(dealer_id).entries@, filter_id) == p as int) by {
            let es = pre.spec_dealer(dealer_id).entries@;
            assert(es[p as int].filter_id == filter_id);
            let k = entry_pos(es, filter_id);
            if k < p as int {
                assert(es[k].filter_id != es[p as int].filter_id);
            } else if k > p as int {
                assert(es[p as int].filter_id != es[k].filter_id);
            }
        }
    }
    let total = total_weight(&store.dealers[di].entries);
    let old_w = store.dealers[di].entries[p].weight;
    proof {
        lemma_sum_weights_bounds(dealer_weights(pre.spec_dealer(dealer_id)));
        assert(dealer_weights(pre.spec_dealer(dealer_id))[p as int] == old_w);
    }
    if total - (old_w as u64) + (weight as u64) > (u32::MAX as u64) {
        return Err(Error::InvalidWeight);
    }
    let mut row = store.dealers.remove(di);
    let t = row.entries.remove(p);
    row.entries.insert(p, DealerEntry { filter_id, weight: weight as u32 });
    store.dealers.insert(di, row);
    proof {
        assert(store.dealers@ =~= pre.dealers@.update(di as int, store.dealers@[di as int]));
        let nd = store.dealers@[di as int];
        let od = pre.dealers@[di as int];
        assert(nd.entries@ =~= od.entries@.update(
            p as int,
            DealerEntry { filter_id, weight: weight as u32 },
        ));
        assert(dealer_weights(nd) =~= dealer_weights(od).update(p as int, weight as u32));
        lemma_sum_weights_update(dealer_weights(od), p as int, weight as u32);
        assert forall|i: int, j1: int, j2: int|
            0 <= i < store.dealers@.len() && 0 <= j1 < j2
                < store.dealers@[i].entries@.len() implies store.dealers@[i].entries@[j1].filter_id
            != store.dealers@[i].entries@[j2].filter_id by {
            if i == di as int {
                assert(nd.entries@[j1].filter_id == od.entries@[j1].filter_id);
                assert(nd.entries@[j2].filter_id == od.entries@[j2].filter_id);
                assert(od.entries@[j1].filter_id != od.entries@[j2].filter_id);
            } else {
                assert(store.dealers@[i] == pre.dealers@[i]);
            }
        }
    }
    Ok(())
}

/// Creates a dealer with no associations; the fresh id is returned.
pub fn create(store: &mut Store, title: &str) -> (r: Id)
    requires
        old(store).wf(),
        old(store).next_dealer_id < u32::MAX,
    ensures
        final(store).wf(),
        r == old(store).next_dealer_id,
        !old(store).has_dealer(r),
        final(store).has_dealer(r),
        same_except_dealers(*old(store), *final(store)),
        final(store).next_dealer_id == old(store).next_dealer_id + 1,
        final(store).dealers@.len() == old(store).dealers@.len() + 1,
        forall|i: int|
            0 <= i < old(store).dealers@.len() ==> final(store).dealers@[i] == old(
                store,
            ).dealers@[i],
        final(store).dealers@.last().id == r,
        final(store).dealers@.last().title@ == title@,
        final(store).dealers@.last().entries@.len() == 0,
{
    let id = store.next_dealer_id;
    let row = DealerRow { id, title: title.to_owned(), entries: Vec::new() };
    store.dealers.push(row);
    store.next_dealer_id = id + 1;
    proof {
        assert(store.has_dealer(id)) by {
            assert(store.dealers@.last().id == id);
        }
        assert forall|i: int| 0 <= i < store.dealers@.len() implies sum_weights(
            dealer_weights(#[trigger] store.dealers@[i]),
        ) <= u32::MAX by {
            if i == store.dealers@.len() - 1 {
                assert(dealer_weights(store.dealers@[i]) =~= Seq::<u32>::empty());
            }
        }
    }
    id
}

/// Every dealer, summarised in store order.
pub fn list_all(store: &Store) -> (r: Vec<Summary>)
    requires
        store.wf(),
    ensures
        r@.len() == store.dealers@.len(),
        forall|i: int|
            0 <= i < r@.len() ==> (#[trigger] r@[i]).id == store.dealers@[i].id && r@[i].title
                == store.dealers@[i].title,
{
    let mut r: Vec<Summary> = Vec::new();
    let mut i: usize = 0;
    while i < store.dealers.len()
        invariant
            0 <= i <= store.dealers@.len(),
            r@.len() == i,
            forall|j: int|
                0 <= j < i ==> (#[trigger] r@[j]).id == store.dealers@[j].id && r@[j].title
                    == store.dealers@[j].title,
        decreases store.dealers@.len() - i,
    {
        r.push(Summary { id: store.dealers[i].id, title: store.dealers[i].title.clone() });
        i += 1;
    }
    r
}

/// The title of a dealer.  Fails with `NotFound` exactly when the dealer is
/// absent.
pub fn get_title(store: &Store, id: Id) -> (r: Result<String, Error>)
    requires
        store.wf(),
    ensures
        match r {
            Ok(title) => store.has_dealer(id) && title@ == store.spec_dealer(id).title@,
            Err(e) => e == Error::NotFound && !store.has_dealer(id),
        },
{
    match find_dealer(store, id) {
        Some(di) => {
            proof {
                store.lemma_dealer_idx(di as int);
            }
            Ok(store.dealers[di].title.clone())
        },
        None => Err(Error::NotFound),
    }
}

/// Full view of a dealer: its title with its joined filter rows.  Fails
/// with `NotFound` exactly when the dealer is absent.
pub fn get(store: &Store, id: Id) -> (r: Result<Dealer, Error>)
    requires
        store.wf(),
    ensures
        match r {
            Ok(d) => {
                &&& store.has_dealer(id)
                &&& d.title@ == store.spec_dealer(id).title@
                &&& (forall|j: int|
                    0 <= j < d.filters@.len() ==> dealer_filter_ok(
                        *store,
                        store.spec_dealer(id),
                        #[trigger] d.filters@[j],
                    ))
                &&& (forall|k: int|
                    0 <= k < store.spec_dealer(id).entries@.len() && store.has_filter(
                        (#[trigger] store.spec_dealer(id).entries@[k]).filter_id,
                    ) && store.has_pack(
                        store.spec_filter(store.spec_dealer(id).entries@[k].filter_id).pack_id,
                    ) ==> listed_dealer_filter(
                        d.filters@,
                        store.spec_dealer(id).entries@[k].filter_id,
                    ))
                &&& (forall|a: int, b: int|
                    0 <= a < b < d.filters@.len() ==> d.filters@[a].id != d.filters@[b].id)
            },
            Err(e) => e == Error::NotFound && !store.has_dealer(id),
        },
{
    let title = match get_title(store, id) {
        Ok(title) => title,
        Err(e) => {
            return Err(e);
        },
    };
    let filters = match list_filters(store, id) {
        Ok(filters) => filters,
        Err(e) => {
            return Err(e);
        },
    };
    Ok(Dealer { title, filters })
}

/// A joined listing row drawn from an association of the dealer whose filter
/// and owning pack both still exist.
pub open spec fn dealer_filter_ok(store: Store, d: DealerRow, row: DealerFilter) -> bool {
    &&& has_entry(d.entries@, row.id)
    &&& d.entries@[entry_pos(d.entries@, row.id)].weight == row.weight
    &&& store.has_filter(row.id)
    &&& store.spec_filter(row.id).label == row.label
    &&& store.has_pack(store.spec_filter(row.id).pack_id)
    &&& store.spec_pack(store.spec_filter(row.id).pack_id).title == row.pack_title
}

/// The listing holds a row for the filter id.
pub open spec fn listed_dealer_filter(r: Seq<DealerFilter>, id: crate::filter::Id) -> bool {
    exists|j: int| 0 <= j < r.len() && (#[trigger] r[j]).id == id
}

/// The dealer's associations joined with their filters and packs, in
/// association order; associations whose filter or pack is gone are dropped.
/// Fails with `NotFound` exactly when the dealer is absent.
pub fn list_filters(store: &Store, id: Id) -> (r: Result<Vec<DealerFilter>, Error>)
    requires
        store.wf(),
    ensures
        match r {
            Ok(rows) => {
                &&& store.has_dealer(id)
                &&& (forall|j: int|
                    0 <= j < rows@.len() ==> dealer_filter_ok(
                        *store,
                        store.spec_dealer(id),
                        #[trigger] rows@[j],
                    ))
                &&& (forall|k: int|
                    0 <= k < store.spec_dealer(id).entries@.len() && store.has_filter(
                        (#[trigger] store.spec_dealer(id).entries@[k]).filter_id,
                    ) && store.has_pack(
                        store.spec_filter(store.spec_dealer(id).entries@[k].filter_id).pack_id,
                    ) ==> listed_dealer_filter(
                        rows@,
                        store.spec_dealer(id).entries@[k].filter_id,
                    ))
                &&& (forall|a: int, b: int| 0 <= a < b < rows@.len() ==> rows@[a].id != rows@[b].id)
            },
            Err(e) => e == Error::NotFound && !store.has_dealer(id),
        },
{
    let di = match find_dealer(store, id) {
        Some(di) => di,
        None => {
            return Err(Error::NotFound);
        },
    };
    proof {
        store.lemma_dealer_idx(di as int);
    }
    let ghost d = store.spec_dealer(id);
    let n = store.dealers[di].entries.len();
    let mut rows: Vec<DealerFilter> = Vec::new();
    // For each row, the position of its association.
    let ghost mut src: Seq<int> = Seq::empty();
    let mut k: usize = 0;
    while k < n
        invariant
            store.wf(),
            0 <= k <= n,
            di < store.dealers@.len(),
            store.dealers@[di as int] == d,
            n == d.entries@.len(),
            src.len() == rows@.len(),
            forall|a: int, b: int| 0 <= a < b < src.len() ==> src[a] < src[b],
            forall|j: int|
                0 <= j < rows@.len() ==> dealer_filter_ok(*store, d, #[trigger] rows@[j]),
            forall|j: int|
                0 <= j < rows@.len() ==> 0 <= #[trigger] src[j] < k && d.entries@[src[j]].filter_id
                    == rows@[j].id,
            forall|kk: int|
                0 <= kk < k && store.has_filter((#[trigger] d.entries@[kk]).filter_id)
                    && store.has_pack(store.spec_filter(d.entries@[kk].filter_id).pack_id)
                    ==> listed_dealer_filter(rows@, d.entries@[kk].filter_id),
        decreases n - k,
    {
        let fid = store.dealers[di].entries[k].filter_id;
        let weight = store.dealers[di].entries[k].weight;
        if let Some(fi) = find_filter(store, fid) {
            proof {
                store.lemma_filter_idx(fi as int);
            }
            if let Some(pi) = find_pack(store, store.filters[fi].pack_id) {
                proof {
                    store.lemma_pack_idx(pi as int);
                }
                let ghost prev = rows@;
                rows.push(
                    DealerFilter {
                        id: fid,
                        label: store.filters[fi].label.clone(),
                        pack_title: store.packs[pi].title.clone(),
                        weight,
                    },
                );
                proof {
                    src = src.push(k as int);
                    assert(entry_pos(d.entries@, fid) == k as int || d.entries@[entry_pos(
                        d.entries@,
                        fid,
                    )].weight == weight) by {
                        assert(d.entries@[k as int].filter_id == fid);
                        let q = entry_pos(d.entries@, fid);
                        if q < k as int {
                            assert(d.entries@[q].filter_id != d.entries@[k as int].filter_id);
                        } else if q > k as int {
                            assert(d.entries@[k as int].filter_id != d.entries@[q].filter_id);
                        }
                    }
                    assert(dealer_filter_ok(*store, d, rows@[rows@.len() - 1]));
                    assert forall|kk: int|
                        0 <= kk < k + 1 && store.has_filter(
                            (#[trigger] d.entries@[kk]).filter_id,
                        ) && store.has_pack(
                            store.spec_filter(d.entries@[kk].filter_id).pack_id,
                        ) implies listed_dealer_filter(rows@, d.entries@[kk].filter_id) by {
                        if kk < k {
                            let j = choose|j: int|
                                0 <= j < prev.len() && (#[trigger] prev[j]).id
                                    == d.entries@[kk].filter_id;
                            assert(rows@[j].id == d.entries@[kk].filter_id);
                        } else {
                            assert(rows@[rows@.len() - 1].id == d.entries@[kk].filter_id);
                        }
                    }
                }
            }
        }
        k += 1;
    }
    proof {
        assert forall|a: int, b: int| 0 <= a < b < rows@.len() implies rows@[a].id
            != rows@[b].id by {
            assert(rows@[a].id == d.entries@[src[a]].filter_id);
            assert(rows@[b].id == d.entries@[src[b]].filter_id);
            assert(src[a] < src[b]);
            assert(d.entries@[src[a]].filter_id != d.entries@[src[b]].filter_id);
        }
    }
    Ok(rows)
}

/// Picks one of the dealer's filters at random, each with probability
/// proportional to its weight; associations whose filter is gone are dropped
/// from the draw.  Absent exactly when no association refers to an existing
/// filter — in particular for a dealer with no associations at all.  Fails
/// with `NotFound` exactly when the dealer is absent.
pub fn next_filter(store: &Store, dealer_id: Id) -> (r: Result<Option<crate::filter::Id>, Error>)
    requires
        store.wf(),
    ensures
        match r {
            Ok(c) => store.has_dealer(dealer_id) && match c {
                Some(fid) => valid_entry(*store, store.spec_dealer(dealer_id), fid),
                None => !any_valid_entry(*store, store.spec_dealer(dealer_id)),
            },
            Err(e) => e == Error::NotFound && !store.has_dealer(dealer_id),
        },
{
    let di = match find_dealer(store, dealer_id) {
        Some(di) => di,
        None => {
            return Err(Error::NotFound);
        },
    };
    proof {
        store.lemma_dealer_idx(di as int);
    }
    let ghost d = store.spec_dealer(dealer_id);
    let ghost w = dealer_weights(d);
    let n = store.dealers[di].entries.len();
    let mut cand_ids: Vec<crate::filter::Id> = Vec::new();
    let mut cand_ws: Vec<u32> = Vec::new();
    let mut k: usize = 0;
    while k < n
        invariant
            store.wf(),
            0 <= k <= n,
            di < store.dealers@.len(),
            store.dealers@[di as int] == d,
            n == d.entries@.len(),
            w == dealer_weights(d),
            cand_ids@.len() == cand_ws@.len(),
            sum_weights(cand_ws@) <= sum_weights(w.take(k as int)),
            forall|j: int|
                0 <= j < cand_ids@.len() ==> has_entry(d.entries@, #[trigger] cand_ids@[j])
                    && store.has_filter(cand_ids@[j]),
            forall|j: int| 0 <= j < cand_ws@.len() ==> (#[trigger] cand_ws@[j]) >= 1,
            forall|kk: int|
                0 <= kk < k && store.has_filter((#[trigger] d.entries@[kk]).filter_id)
                    ==> cand_ids@.len() > 0,
        decreases n - k,
    {
        let fid = store.dealers[di].entries[k].filter_id;
        proof {
            assert(w.take(k + 1) =~= w.take(k as int).push(w[k as int]));
            lemma_sum_weights_push(w.take(k as int), w[k as int]);
            assert(w[k as int] == d.entries@[k as int].weight);
        }
        if find_filter(store, fid).is_some() {
            let ghost prev_ws = cand_ws@;
            cand_ids.push(fid);
            cand_ws.push(store.dealers[di].entries[k].weight);
            proof {
                lemma_sum_weights_push(prev_ws, d.entries@[k as int].weight);
                assert(cand_ws@ =~= prev_ws.push(d.entries@[k as int].weight));
                assert(has_entry(d.entries@, fid)) by {
                    assert(d.entries@[k as int].filter_id == fid);
                }
            }
        }
        k += 1;
    }
    proof {
        assert(w.take(w.len() as int) =~= w);
        assert(sum_weights(cand_ws@) <= u32::MAX);
    }
    match sample_weighted(&cand_ws) {
        Some(ix) => {
            let fid = cand_ids[ix];
            proof {
                assert(valid_entry(*store, d, fid));
            }
            Ok(Some(fid))
        },
        None => {
            proof {
                if any_valid_entry(*store, d) {
                    let kk = choose|kk: int|
                        0 <= kk < d.entries@.len() && store.has_filter(
                            (#[trigger] d.entries@[kk]).filter_id,
                        );
                    assert(cand_ids@.len() > 0);
                    assert(cand_ws@[0] >= 1);
                    assert(false);
                }
            }
            Ok(None)
        },
    }
}

/// A card the dealer could deal: selected by some still-existing filter
/// associated with the dealer.
pub open spec fn spec_deals(store: Store, d: DealerRow, cid: crate::card::Id) -> bool {
    exists|fid: crate::filter::Id|
        #![auto]
        valid_entry(store, d, fid) && crate::filter::spec_selects(store, fid, cid)
}

/// Every still-existing filter associated with the dealer selects a card.
pub open spec fn all_valid_entries_select(store: Store, d: DealerRow) -> bool {
    forall|fid: crate::filter::Id|
        #![auto]
        valid_entry(store, d, fid) ==> crate::filter::spec_valid(store, fid)
}

/// Deals one card: picks a filter by weighted draw, then asks it for a card.
/// Either stage coming up empty yields an absent result, never an error; a
/// card is always dealt when some association has an existing filter and
/// every such filter selects at least one card.  Fails with `NotFound`
/// exactly when the dealer is absent.
pub fn deal_card(store: &Store, dealer_id: Id) -> (r: Result<Option<crate::card::Id>, Error>)
    requires
        store.wf(),
    ensures
        match r {
            Ok(c) => store.has_dealer(dealer_id) && match c {
                Some(cid) => spec_deals(*store, store.spec_dealer(dealer_id), cid),
                None => !any_valid_entry(*store, store.spec_dealer(dealer_id))
                    || !all_valid_entries_select(*store, store.spec_dealer(dealer_id)),
            },
            Err(e) => e == Error::NotFound && !store.has_dealer(dealer_id),
        },
{
    let fid = match next_filter(store, dealer_id) {
        Err(e) => {
            return Err(e);
        },
        Ok(None) => {
            return Ok(None);
        },
        Ok(Some(fid)) => fid,
    };
    match crate::filter::next_card(store, fid) {
        Ok(Some(cid)) => {
            proof {
                assert(valid_entry(*store, store.spec_dealer(dealer_id), fid)
                    && crate::filter::spec_selects(*store, fid, cid));
            }
            Ok(Some(cid))
        },
        Ok(None) => {
            proof {
                assert(valid_entry(*store, store.spec_dealer(dealer_id), fid)
                    && !crate::filter::spec_valid(*store, fid));
                assert(!all_valid_entries_select(*store, store.spec_dealer(dealer_id)));
            }
            Ok(None)
        },
        Err(e) => {
            proof {
                assert(false);
            }
            Err(e)
        },
    }
}

} // verus!
