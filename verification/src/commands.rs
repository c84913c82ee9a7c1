//! The command layer: the operations the surrounding application dispatches,
//! working on plain values against an explicit store.

use vstd::prelude::*;

verus! {

use crate::card::{card_eq, spec_card_deleted, spec_edited, Card};
use crate::error::Error;
use crate::pack::{spec_pack_deleted, spec_renamed, Pack};
use crate::store::{find_card, find_pack, Store};

/// What to do to a pack.
pub enum ModifyPack {
    Rename(String),
    Delete,
}

/// What to do to a card: edit either face, or delete it.
pub enum ModifyCard {
    Edit { front: Option<String>, back: Option<String> },
    Delete,
}

/// The rendered slides of one card, in presentation order.
pub struct CardSlides(pub Vec<String>);

/// Every pack, listed in store order.
pub fn pack_list(store: &Store) -> (r: Vec<Pack>)
    requires
        store.wf(),
    ensures
        r@.len() == store.packs@.len(),
        forall|i: int| 0 <= i < r@.len() ==> r@[i] == store.packs@[i],
{
    let mut r: Vec<Pack> = Vec::new();
    let mut i: usize = 0;
    while i < store.packs.len()
        invariant
            0 <= i <= store.packs@.len(),
            r@.len() == i,
            forall|j: int| 0 <= j < i ==> r@[j] == store.packs@[j],
        decreases store.packs@.len() - i,
    {
        r.push(store.packs[i].clone());
        i += 1;
    }
    r
}

/// The pack with the given id, if present.
pub fn pack_by_id(store: &Store, id: crate::pack::Id) -> (r: Option<Pack>)
    requires
        store.wf(),
    ensures
        match r {
            Some(p) => store.has_pack(id) && p == store.spec_pack(id),
            None => !store.has_pack(id),
        },
{
    match find_pack(store, id) {
        Some(pi) => {
            proof {
                store.lemma_pack_idx(pi as int);
            }
            Some(store.packs[pi].clone())
        },
        None => None,
    }
}

/// Applies a pack mutation.  Fails with `NotFound` exactly when the pack is
/// absent, and the store is then untouched.
pub fn pack_modify(store: &mut Store, id: crate::pack::Id, action: ModifyPack) -> (r: Result<
    (),
    Error,
>)
    requires
        old(store).wf(),
    ensures
        final(store).wf(),
        match r {
            Ok(u) => {
                &&& u == ()
                &&& old(store).has_pack(id)
                &&& match action {
                    ModifyPack::Rename(title) => spec_renamed(
                        *old(store),
                        *final(store),
                        id,
                        title@,
                    ),
                    ModifyPack::Delete => spec_pack_deleted(*old(store), *final(store), id),
                }
            },
            Err(e) => {
                &&& e == Error::NotFound
                &&& !old(store).has_pack(id)
                &&& *final(store) == *old(store)
            },
        },
{
    match action {
        ModifyPack::Rename(title) => crate::pack::rename(store, id, title.as_str()),
        ModifyPack::Delete => crate::pack::delete(store, id),
    }
}

/// Every card of the pack, each exactly once, in store order.
pub fn card_by_pack(store: &Store, id: crate::pack::Id) -> (r: Vec<Card>)
    requires
        store.wf(),
    ensures
        forall|j: int|
            0 <= j < r@.len() ==> (#[trigger] r@[j]).pack_id == id && crate::pack::card_listed(
                store.cards@,
                r@[j],
            ),
        forall|k: int|
            0 <= k < store.cards@.len() && (#[trigger] store.cards@[k]).pack_id == id
                ==> crate::pack::card_listed(r@, store.cards@[k]),
        forall|a: int, b: int| 0 <= a < b < r@.len() ==> r@[a].id != r@[b].id,
{
    let mut r: Vec<Card> = Vec::new();
    // For each returned card, the index of its row in the store.
    let ghost mut src: Seq<int> = Seq::empty();
    let mut i: usize = 0;
    while i < store.cards.len()
        invariant
            store.wf(),
            0 <= i <= store.cards@.len(),
            src.len() == r@.len(),
            forall|a: int, b: int| 0 <= a < b < src.len() ==> src[a] < src[b],
            forall|j: int|
                0 <= j < r@.len() ==> 0 <= #[trigger] src[j] < i && card_eq(
                    store.cards@[src[j]],
                    r@[j],
                ),
            forall|j: int|
                0 <= j < r@.len() ==> (#[trigger] r@[j]).pack_id == id && crate::pack::card_listed(
                    store.cards@,
                    r@[j],
                ),
            forall|k: int|
                0 <= k < i && (#[trigger] store.cards@[k]).pack_id == id
                    ==> crate::pack::card_listed(r@, store.cards@[k]),
        decreases store.cards@.len() - i,
    {
        if store.cards[i].pack_id == id {
            let ghost prev = r@;
            r.push(store.cards[i].clone());
            proof {
                src = src.push(i as int);
                assert(crate::pack::card_listed(store.cards@, r@[r@.len() - 1])) by {
                    assert(card_eq(store.cards@[i as int], r@[r@.len() - 1]));
                }
                assert forall|k: int|
                    0 <= k < i + 1 && (#[trigger] store.cards@[k]).pack_id == id implies
                    crate::pack::card_listed(r@, store.cards@[k]) by {
                    if k < i {
                        let j = choose|j: int|
                            0 <= j < prev.len() && card_eq(prev[j], store.cards@[k]);
                        assert(card_eq(r@[j], store.cards@[k]));
                    } else {
                        assert(card_eq(r@[r@.len() - 1], store.cards@[k]));
                    }
                }
            }
        }
        i += 1;
    }
    proof {
        assert forall|a: int, b: int| 0 <= a < b < r@.len() implies r@[a].id != r@[b].id by {
            assert(card_eq(store.cards@[src[a]], r@[a]));
            assert(card_eq(store.cards@[src[b]], r@[b]));
            assert(src[a] < src[b]);
            assert(store.cards@[src[a]].id != store.cards@[src[b]].id);
        }
    }
    r
}

/// The card with the given id, if present.
pub fn card_by_id(store: &Store, id: crate::card::Id) -> (r: Option<Card>)
    requires
        store.wf(),
    ensures
        match r {
            Some(c) => store.has_card(id) && card_eq(c, store.spec_card(id)),
            None => !store.has_card(id),
        },
{
    match find_card(store, id) {
        Some(ci) => {
            proof {
                store.lemma_card_idx(ci as int);
            }
            Some(store.cards[ci].clone())
        },
        None => None,
    }
}

/// Applies a card mutation.  Fails with `NotFound` exactly when the card is
/// absent, and the store is then untouched.
pub fn card_modify(store: &mut Store, id: crate::card::Id, action: ModifyCard) -> (r: Result<
    (),
    Error,
>)
    requires
        old(store).wf(),
    ensures
        final(store).wf(),
        match r {
            Ok(u) => {
                &&& u == ()
                &&& old(store).has_card(id)
                &&& match action {
                    ModifyCard::Edit { front, back } => spec_edited(
                        *old(store),
                        *final(store),
                        id,
                        match front {
                            Some(f) => Some(f@),
                            None => None,
                        },
                        match back {
                            Some(b) => Some(b@),
                            None => None,
                        },
                    ),
                    ModifyCard::Delete => spec_card_deleted(*old(store), *final(store), id),
                }
            },
            Err(e) => {
                &&& e == Error::NotFound
                &&& !old(store).has_card(id)
                &&& *final(store) == *old(store)
            },
        },
{
    match action {
        ModifyCard::Edit { front, back } => {
            let f: Option<&str> = match &front {
                Some(s) => Some(s.as_str()),
                None => None,
            };
            let b: Option<&str> = match &back {
                Some(s) => Some(s.as_str()),
                None => None,
            };
            crate::card::edit(store, id, f, b)
        },
        ModifyCard::Delete => crate::card::delete(store, id),
    }
}

} // verus!
