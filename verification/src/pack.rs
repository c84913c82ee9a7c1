//! Packs: named collections of cards.

use vstd::prelude::*;

verus! {

use crate::card::{card_eq, Card};
use crate::error::Error;
use crate::store::{find_pack, same_except_packs, FilterRow, Store};

pub type Id = i64;

/// A named collection of cards.
pub struct Pack {
    pub id: Id,
    pub title: String,
}

impl Clone for Pack {
    fn clone(&self) -> (r: Self)
        ensures
            r == *self,
    {
        Pack { id: self.id, title: self.title.clone() }
    }
}

/// Creates a pack; the fresh id is returned.
pub fn create(store: &mut Store, title: &str) -> (r: Id)
    requires
        old(store).wf(),
        old(store).next_pack_id < i64::MAX,
    ensures
        final(store).wf(),
        r == old(store).next_pack_id,
        !old(store).has_pack(r),
        final(store).has_pack(r),
        same_except_packs(*old(store), *final(store)),
        final(store).next_pack_id == old(store).next_pack_id + 1,
        final(store).packs@.len() == old(store).packs@.len() + 1,
        forall|i: int|
            0 <= i < old(store).packs@.len() ==> final(store).packs@[i] == old(store).packs@[i],
        final(store).packs@.last().id == r,
        final(store).packs@.last().title@ == title@,
{
    let id = store.next_pack_id;
    store.packs.push(Pack { id, title: title.to_owned() });
    store.next_pack_id = id + 1;
    proof {
        assert(store.has_pack(id)) by {
            assert(store.packs@.last().id == id);
        }
    }
    id
}

/// The store after a pack was retitled: the one row's title changed and
/// everything else is kept.
pub open spec fn spec_renamed(a: Store, b: Store, id: Id, title: Seq<char>) -> bool {
    &&& same_except_packs(a, b)
    &&& b.next_pack_id == a.next_pack_id
    &&& b.packs@.len() == a.packs@.len()
    &&& (forall|i: int|
        0 <= i < a.packs@.len() && i != a.pack_idx(id) ==> b.packs@[i] == a.packs@[i])
    &&& b.packs@[a.pack_idx(id)].id == id
    &&& b.packs@[a.pack_idx(id)].title@ == title
}

/// Retitles a pack.  Fails with `NotFound` exactly when the pack is absent.
pub fn rename(store: &mut Store, id: Id, new_title: &str) -> (r: Result<(), Error>)
    requires
        old(store).wf(),
    ensures
        final(store).wf(),
        match r {
            Ok(u) => {
                &&& u == ()
                &&& old(store).has_pack(id)
                &&& spec_renamed(*old(store), *final(store), id, new_title@)
            },
            Err(e) => {
                &&& e == Error::NotFound
                &&& !old(store).has_pack(id)
                &&& *final(store) == *old(store)
            },
        },
{
    let pi = match find_pack(store, id) {
        Some(pi) => pi,
        None => {
            return Err(Error::NotFound);
        },
    };
    proof {
        store.lemma_pack_idx(pi as int);
    }
    let ghost pre = *store;
    let row = store.packs.remove(pi);
    store.packs.insert(pi, Pack { id: row.id, title: new_title.to_owned() });
    proof {
        assert(store.packs@ =~= pre.packs@.update(pi as int, store.packs@[pi as int]));
    }
    Ok(())
}

/// A row with this value is somewhere in the pack table.
pub open spec fn pack_listed(rows: Seq<Pack>, p: Pack) -> bool {
    exists|i: int| 0 <= i < rows.len() && rows[i] == p
}

/// A row with this value is somewhere in the card table.
pub open spec fn card_listed(rows: Seq<Card>, c: Card) -> bool {
    exists|i: int| 0 <= i < rows.len() && card_eq(rows[i], c)
}

/// A row with this value is somewhere in the filter table.
pub open spec fn filter_row_listed(rows: Seq<FilterRow>, f: FilterRow) -> bool {
    exists|i: int|
        0 <= i < rows.len() && (#[trigger] rows[i]).id == f.id && rows[i].pack_id == f.pack_id
            && rows[i].label == f.label && rows[i].tags@ == f.tags@
}

/// The store after a pack was deleted with its cards and filters: every
/// surviving row was there before, every row of another pack survives, and
/// the dealers, studies and counters are kept.
pub open spec fn spec_pack_deleted(a: Store, b: Store, id: Id) -> bool {
    &&& b.dealers@ == a.dealers@
    &&& b.studies@ == a.studies@
    &&& b.next_pack_id == a.next_pack_id
    &&& b.next_card_id == a.next_card_id
    &&& b.next_filter_id == a.next_filter_id
    &&& b.next_dealer_id == a.next_dealer_id
    &&& b.next_study_id == a.next_study_id
    &&& !b.has_pack(id)
    &&& (forall|j: int|
        0 <= j < b.packs@.len() ==> (#[trigger] b.packs@[j]).id != id && pack_listed(
            a.packs@,
            b.packs@[j],
        ))
    &&& (forall|i: int|
        0 <= i < a.packs@.len() && (#[trigger] a.packs@[i]).id != id ==> pack_listed(
            b.packs@,
            a.packs@[i],
        ))
    &&& (forall|j: int|
        0 <= j < b.cards@.len() ==> (#[trigger] b.cards@[j]).pack_id != id && card_listed(
            a.cards@,
            b.cards@[j],
        ))
    &&& (forall|i: int|
        0 <= i < a.cards@.len() && (#[trigger] a.cards@[i]).pack_id != id ==> card_listed(
            b.cards@,
            a.cards@[i],
        ))
    &&& (forall|j: int|
        0 <= j < b.filters@.len() ==> (#[trigger] b.filters@[j]).pack_id != id
            && filter_row_listed(a.filters@, b.filters@[j]))
    &&& (forall|i: int|
        0 <= i < a.filters@.len() && (#[trigger] a.filters@[i]).pack_id != id
            ==> filter_row_listed(b.filters@, a.filters@[i]))
}

/// Deletes a pack together with its cards and its filters, as the store's
/// cascading rules do; dealer associations that referred to the deleted
/// filters are left dangling.  Fails with `NotFound` exactly when the pack
/// is absent, and the store is then untouched.
pub fn delete(store: &mut Store, id: Id) -> (r: Result<(), Error>)
    requires
        old(store).wf(),
    ensures
        final(store).wf(),
        match r {
            Ok(u) => {
                &&& u == ()
                &&& old(store).has_pack(id)
                &&& spec_pack_deleted(*old(store), *final(store), id)
            },
            Err(e) => {
                &&& e == Error::NotFound
                &&& !old(store).has_pack(id)
                &&& *final(store) == *old(store)
            },
        },
{
    if find_pack(store, id).is_none() {
        return Err(Error::NotFound);
    }
    let ghost pre = *store;

    let mut kept_packs: Vec<Pack> = Vec::new();
    let ghost mut psrc: Seq<int> = Seq::empty();
    let mut i: usize = 0;
    while i < store.packs.len()
        invariant
            pre.wf(),
            *store == pre,
            0 <= i <= pre.packs@.len(),
            psrc.len() == kept_packs@.len(),
            forall|a: int, b: int| 0 <= a < b < psrc.len() ==> psrc[a] < psrc[b],
            forall|j: int|
                0 <= j < kept_packs@.len() ==> 0 <= #[trigger] psrc[j] < i
                    && pre.packs@[psrc[j]] == kept_packs@[j] && kept_packs@[j].id != id,
            forall|k: int|
                0 <= k < i && (#[trigger] pre.packs@[k]).id != id ==> pack_listed(
                    kept_packs@,
                    pre.packs@[k],
                ),
        decreases pre.packs@.len() - i,
    {
        if store.packs[i].id != id {
            let ghost prev = kept_packs@;
            kept_packs.push(store.packs[i].clone());
            proof {
                psrc = psrc.push(i as int);
                assert forall|k: int|
                    0 <= k < i + 1 && (#[trigger] pre.packs@[k]).id != id implies pack_listed(
                    kept_packs@,
                    pre.packs@[k],
                ) by {
                    if k < i {
                        let j = choose|j: int| 0 <= j < prev.len() && prev[j] == pre.packs@[k];
                        assert(kept_packs@[j] == pre.packs@[k]);
                    } else {
                        assert(kept_packs@[kept_packs@.len() - 1] == pre.packs@[k]);
                    }
                }
            }
        }
        i += 1;
    }

    let mut kept_cards: Vec<Card> = Vec::new();
    let ghost mut csrc: Seq<int> = Seq::empty();
    let mut ci: usize = 0;
    while ci < store.cards.len()
        invariant
            pre.wf(),
            *store == pre,
            0 <= ci <= pre.cards@.len(),
            csrc.len() == kept_cards@.len(),
            forall|a: int, b: int| 0 <= a < b < csrc.len() ==> csrc[a] < csrc[b],
            forall|j: int|
                0 <= j < kept_cards@.len() ==> 0 <= #[trigger] csrc[j] < ci && card_eq(
                    pre.cards@[csrc[j]],
                    kept_cards@[j],
                ) && kept_cards@[j].pack_id != id,
            forall|k: int|
                0 <= k < ci && (#[trigger] pre.cards@[k]).pack_id != id ==> card_listed(
                    kept_cards@,
                    pre.cards@[k],
                ),
        decreases pre.cards@.len() - ci,
    {
        if store.cards[ci].pack_id != id {
            let ghost prev = kept_cards@;
            kept_cards.push(store.cards[ci].clone());
            proof {
                csrc = csrc.push(ci as int);
                assert forall|k: int|
                    0 <= k < ci + 1 && (#[trigger] pre.cards@[k]).pack_id != id implies
                    card_listed(kept_cards@, pre.cards@[k]) by {
                    if k < ci {
                        let j = choose|j: int|
                            0 <= j < prev.len() && card_eq(prev[j], pre.cards@[k]);
                        assert(card_eq(kept_cards@[j], pre.cards@[k]));
                    } else {
                        assert(card_eq(kept_cards@[kept_cards@.len() - 1], pre.cards@[k]));
                    }
                }
            }
        }
        ci += 1;
    }

    let mut kept_filters: Vec<FilterRow> = Vec::new();
    let ghost mut fsrc: Seq<int> = Seq::empty();
    let mut fi: usize = 0;
    while fi < store.filters.len()
        invariant
            pre.wf(),
            *store == pre,
            0 <= fi <= pre.filters@.len(),
            fsrc.len() == kept_filters@.len(),
            forall|a: int, b: int| 0 <= a < b < fsrc.len() ==> fsrc[a] < fsrc[b],
            forall|j: int|
                0 <= j < kept_filters@.len() ==> 0 <= #[trigger] fsrc[j] < fi
                    && pre.filters@[fsrc[j]].id == kept_filters@[j].id
                    && pre.filters@[fsrc[j]].pack_id == kept_filters@[j].pack_id
                    && pre.filters@[fsrc[j]].label == kept_filters@[j].label
                    && pre.filters@[fsrc[j]].tags@ == kept_filters@[j].tags@
                    && kept_filters@[j].pack_id != id,
            forall|k: int|
                0 <= k < fi && (#[trigger] pre.filters@[k]).pack_id != id ==> filter_row_listed(
                    kept_filters@,
                    pre.filters@[k],
                ),
        decreases pre.filters@.len() - fi,
    {
        if store.filters[fi].pack_id != id {
            let ghost prev = kept_filters@;
            kept_filters.push(store.filters[fi].clone());
            proof {
                fsrc = fsrc.push(fi as int);
                assert forall|k: int|
                    0 <= k < fi + 1 && (#[trigger] pre.filters@[k]).pack_id != id implies
                    filter_row_listed(kept_filters@, pre.filters@[k]) by {
                    if k < fi {
                        let j = choose|j: int|
                            0 <= j < prev.len() && (#[trigger] prev[j]).id == pre.filters@[k].id
                                && prev[j].pack_id == pre.filters@[k].pack_id && prev[j].label
                                == pre.filters@[k].label && prev[j].tags@ == pre.filters@[k].tags@;
                        assert(kept_filters@[j] == prev[j]);
                    } else {
                        let j = kept_filters@.len() - 1;
                        assert(kept_filters@[j].id == pre.filters@[k].id && kept_filters@[j].pack_id
                            == pre.filters@[k].pack_id && kept_filters@[j].label
                            == pre.filters@[k].label && kept_filters@[j].tags@
                            == pre.filters@[k].tags@);
                    }
                }
            }
        }
        fi += 1;
    }

    store.packs = kept_packs;
    store.cards = kept_cards;
    store.filters = kept_filters;

    proof {
        assert forall|j: int| 0 <= j < store.packs@.len() implies (#[trigger] store.packs@[j]).id
            != id && pack_listed(pre.packs@, store.packs@[j]) by {
            assert(pre.packs@[psrc[j]] == store.packs@[j]);
        }
        assert forall|j: int| 0 <= j < store.cards@.len() implies (#[trigger] store.cards@[j]).pack_id
            != id && card_listed(pre.cards@, store.cards@[j]) by {
            assert(card_eq(pre.cards@[csrc[j]], store.cards@[j]));
        }
        assert forall|j: int| 0 <= j < store.filters@.len() implies (#[trigger] store.filters@[j]).pack_id
            != id && filter_row_listed(pre.filters@, store.filters@[j]) by {
            assert(pre.filters@[fsrc[j]].id == store.filters@[j].id && pre.filters@[fsrc[j]].pack_id
                == store.filters@[j].pack_id && pre.filters@[fsrc[j]].label
                == store.filters@[j].label && pre.filters@[fsrc[j]].tags@
                == store.filters@[j].tags@);
        }
        if store.has_pack(id) {
            let j = choose|j: int| 0 <= j < store.packs@.len() && store.packs@[j].id == id;
            assert(false);
        }
        assert forall|a: int, b: int| 0 <= a < b < store.packs@.len() implies store.packs@[a].id
            != store.packs@[b].id by {
            assert(store.packs@[a].id == pre.packs@[psrc[a]].id);
            assert(store.packs@[b].id == pre.packs@[psrc[b]].id);
            assert(psrc[a] < psrc[b]);
            assert(pre.packs@[psrc[a]].id != pre.packs@[psrc[b]].id);
        }
        assert forall|a: int, b: int| 0 <= a < b < store.cards@.len() implies store.cards@[a].id
            != store.cards@[b].id by {
            assert(store.cards@[a].id == pre.cards@[csrc[a]].id);
            assert(store.cards@[b].id == pre.cards@[csrc[b]].id);
            assert(csrc[a] < csrc[b]);
            assert(pre.cards@[csrc[a]].id != pre.cards@[csrc[b]].id);
        }
        assert forall|a: int, b: int| 0 <= a < b < store.filters@.len() implies store.filters@[a].id
            != store.filters@[b].id by {
            assert(store.filters@[a].id == pre.filters@[fsrc[a]].id);
            assert(store.filters@[b].id == pre.filters@[fsrc[b]].id);
            assert(fsrc[a] < fsrc[b]);
            assert(pre.filters@[fsrc[a]].id != pre.filters@[fsrc[b]].id);
        }
        assert forall|j: int| 0 <= j < store.packs@.len() implies (#[trigger] store.packs@[j]).id
            < store.next_pack_id by {
            assert(store.packs@[j] == pre.packs@[psrc[j]]);
        }
        assert forall|j: int| 0 <= j < store.cards@.len() implies (#[trigger] store.cards@[j]).id
            < store.next_card_id by {
            assert(card_eq(pre.cards@[csrc[j]], store.cards@[j]));
        }
        assert forall|j: int| 0 <= j < store.filters@.len() implies (#[trigger] store.filters@[j]).id
            < store.next_filter_id by {
            assert(pre.filters@[fsrc[j]].id == store.filters@[j].id);
        }
        assert forall|j: int, j1: int, j2: int|
            #![trigger store.cards@[j].tags@[j1], store.cards@[j].tags@[j2]]
            0 <= j < store.cards@.len() && 0 <= j1 < j2 < store.cards@[j].tags@.len() implies
            store.cards@[j].tags@[j1]@ != store.cards@[j].tags@[j2]@ by {
            assert(card_eq(pre.cards@[csrc[j]], store.cards@[j]));
            assert(pre.cards@[csrc[j]].tags@[j1]@ != pre.cards@[csrc[j]].tags@[j2]@);
        }
        assert forall|j: int, j1: int, j2: int|
            #![trigger store.filters@[j].tags@[j1], store.filters@[j].tags@[j2]]
            0 <= j < store.filters@.len() && 0 <= j1 < j2 < store.filters@[j].tags@.len() implies
            store.filters@[j].tags@[j1].tag@ != store.filters@[j].tags@[j2].tag@ by {
            assert(pre.filters@[fsrc[j]].tags@ == store.filters@[j].tags@);
            assert(pre.filters@[fsrc[j]].tags@[j1].tag@ != pre.filters@[fsrc[j]].tags@[j2].tag@);
        }
    }
    Ok(())
}

} // verus!
