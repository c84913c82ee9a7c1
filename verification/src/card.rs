//! Cards: atomic flashcards with opaque front/back content and a tag set.

use vstd::prelude::*;

verus! {

use crate::error::Error;
use crate::filter::{contains_label, label_set};
use crate::store::{find_card, find_pack, same_except_cards, Store};

pub type Id = i64;

/// A flashcard.  The front and back are opaque to the engine; the tag labels
/// are what selection reasons about, and they are unique per card.
pub struct Card {
    pub id: Id,
    pub pack_id: crate::pack::Id,
    pub front: String,
    pub back: String,
    pub tags: Vec<String>,
}

/// Field-for-field sameness of two cards (tag lists compared as sequences).
pub open spec fn card_eq(a: Card, b: Card) -> bool {
    a.id == b.id && a.pack_id == b.pack_id && a.front == b.front && a.back == b.back && a.tags@
        == b.tags@
}

impl Clone for Card {
    fn clone(&self) -> (r: Self)
        ensures
            card_eq(r, *self),
    {
        let mut tags: Vec<String> = Vec::new();
        let mut i: usize = 0;
        while i < self.tags.len()
            invariant
                0 <= i <= self.tags@.len(),
                tags@ == self.tags@.take(i as int),
            decreases self.tags@.len() - i,
        {
            tags.push(self.tags[i].clone());
            proof {
                assert(tags@ =~= self.tags@.take(i + 1));
            }
            i += 1;
        }
        proof {
            assert(self.tags@.take(self.tags@.len() as int) =~= self.tags@);
        }
        Card {
            id: self.id,
            pack_id: self.pack_id,
            front: self.front.clone(),
            back: self.back.clone(),
            tags,
        }
    }
}

/// Creates a card with no tags; the fresh id is returned.  Fails with
/// `NotFound` exactly when the pack is absent.
pub fn create(store: &mut Store, pack_id: crate::pack::Id, front: &str, back: &str) -> (r: Result<
    Id,
    Error,
>)
    requires
        old(store).wf(),
        old(store).next_card_id < i64::MAX,
    ensures
        final(store).wf(),
        match r {
            Ok(id) => {
                &&& old(store).has_pack(pack_id)
                &&& id == old(store).next_card_id
                &&& !old(store).has_card(id)
                &&& final(store).has_card(id)
                &&& same_except_cards(*old(store), *final(store))
                &&& final(store).next_card_id == old(store).next_card_id + 1
                &&& final(store).cards@.len() == old(store).cards@.len() + 1
                &&& (forall|i: int|
                    0 <= i < old(store).cards@.len() ==> final(store).cards@[i] == old(
                        store,
                    ).cards@[i])
                &&& final(store).cards@.last().id == id
                &&& final(store).cards@.last().pack_id == pack_id
                &&& final(store).cards@.last().front@ == front@
                &&& final(store).cards@.last().back@ == back@
                &&& final(store).cards@.last().tags@.len() == 0
            },
            Err(e) => {
                &&& e == Error::NotFound
                &&& !old(store).has_pack(pack_id)
                &&& *final(store) == *old(store)
            },
        },
{
    if find_pack(store, pack_id).is_none() {
        return Err(Error::NotFound);
    }
    let id = store.next_card_id;
    store.cards.push(
        Card { id, pack_id, front: front.to_owned(), back: back.to_owned(), tags: Vec::new() },
    );
    store.next_card_id = id + 1;
    proof {
        assert(store.has_card(id)) by {
            assert(store.cards@.last().id == id);
        }
    }
    Ok(id)
}

/// The store after a card's faces were edited: an absent side keeps its old
/// content, and everything else is kept.
pub open spec fn spec_edited(
    a: Store,
    b: Store,
    id: Id,
    front: Option<Seq<char>>,
    back: Option<Seq<char>>,
) -> bool {
    &&& same_except_cards(a, b)
    &&& b.next_card_id == a.next_card_id
    &&& b.cards@.len() == a.cards@.len()
    &&& (forall|i: int|
        0 <= i < a.cards@.len() && i != a.card_idx(id) ==> b.cards@[i] == a.cards@[i])
    &&& b.cards@[a.card_idx(id)].id == id
    &&& b.cards@[a.card_idx(id)].pack_id == a.spec_card(id).pack_id
    &&& b.cards@[a.card_idx(id)].tags@ == a.spec_card(id).tags@
    &&& b.cards@[a.card_idx(id)].front@ == (match front {
        Some(f) => f,
        None => a.spec_card(id).front@,
    })
    &&& b.cards@[a.card_idx(id)].back@ == (match back {
        Some(bk) => bk,
        None => a.spec_card(id).back@,
    })
}

/// Edits a card's faces: an absent side keeps its old content.  Fails with
/// `NotFound` exactly when the card is absent, and the store is then
/// untouched.
pub fn edit(store: &mut Store, id: Id, front: Option<&str>, back: Option<&str>) -> (r: Result<
    (),
    Error,
>)
    requires
        old(store).wf(),
    ensures
        final(store).wf(),
        match r {
            Ok(u) => {
                &&& u == ()
                &&& old(store).has_card(id)
                &&& spec_edited(
                    *old(store),
                    *final(store),
                    id,
                    match front {
                        Some(f) => Some(f@),
                        None => None,
                    },
                    match back {
                        Some(b) => Some(b@),
                        None => None,
                    },
                )
            },
            Err(e) => {
                &&& e == Error::NotFound
                &&& !old(store).has_card(id)
                &&& *final(store) == *old(store)
            },
        },
{
    let ci = match find_card(store, id) {
        Some(ci) => ci,
        None => {
            return Err(Error::NotFound);
        },
    };
    proof {
        store.lemma_card_idx(ci as int);
    }
    let ghost pre = *store;
    let mut row = store.cards.remove(ci);
    row.front = match front {
        Some(f) => f.to_owned(),
        None => row.front,
    };
    row.back = match back {
        Some(b) => b.to_owned(),
        None => row.back,
    };
    store.cards.insert(ci, row);
    proof {
        assert(store.cards@ =~= pre.cards@.update(ci as int, store.cards@[ci as int]));
    }
    Ok(())
}

/// The store after a card was deleted: the one row is gone and everything
/// else is kept.
pub open spec fn spec_card_deleted(a: Store, b: Store, id: Id) -> bool {
    &&& same_except_cards(a, b)
    &&& b.next_card_id == a.next_card_id
    &&& b.cards@ == a.cards@.remove(a.card_idx(id))
    &&& !b.has_card(id)
}

/// Deletes a card.  Fails with `NotFound` exactly when the card is absent,
/// and the store is then untouched.
pub fn delete(store: &mut Store, id: Id) -> (r: Result<(), Error>)
    requires
        old(store).wf(),
    ensures
        final(store).wf(),
        match r {
            Ok(u) => {
                &&& u == ()
                &&& old(store).has_card(id)
                &&& spec_card_deleted(*old(store), *final(store), id)
            },
            Err(e) => {
                &&& e == Error::NotFound
                &&& !old(store).has_card(id)
                &&& *final(store) == *old(store)
            },
        },
{
    let ci = match find_card(store, id) {
        Some(ci) => ci,
        None => {
            return Err(Error::NotFound);
        },
    };
    proof {
        store.lemma_card_idx(ci as int);
    }
    let ghost pre = *store;
    store.cards.remove(ci);
    proof {
        assert forall|a: int, b: int| 0 <= a < b < store.cards@.len() implies store.cards@[a].id
            != store.cards@[b].id by {
            let pa: int = if a < ci as int { a } else { a + 1 };
            let pb: int = if b < ci as int { b } else { b + 1 };
            assert(store.cards@[a] == pre.cards@[pa]);
            assert(store.cards@[b] == pre.cards@[pb]);
            assert(pre.cards@[pa].id != pre.cards@[pb].id);
        }
        assert forall|j: int| 0 <= j < store.cards@.len() implies (#[trigger] store.cards@[j]).id
            < store.next_card_id by {
            let pj: int = if j < ci as int { j } else { j + 1 };
            assert(store.cards@[j] == pre.cards@[pj]);
        }
        assert forall|j: int, j1: int, j2: int|
            #![trigger store.cards@[j].tags@[j1], store.cards@[j].tags@[j2]]
            0 <= j < store.cards@.len() && 0 <= j1 < j2 < store.cards@[j].tags@.len() implies
            store.cards@[j].tags@[j1]@ != store.cards@[j].tags@[j2]@ by {
            let pj: int = if j < ci as int { j } else { j + 1 };
            assert(store.cards@[j] == pre.cards@[pj]);
            assert(pre.cards@[pj].tags@[j1]@ != pre.cards@[pj].tags@[j2]@);
        }
        if store.has_card(id) {
            let j = choose|j: int| 0 <= j < store.cards@.len() && store.cards@[j].id == id;
            let pj: int = if j < ci as int { j } else { j + 1 };
            assert(store.cards@[j] == pre.cards@[pj]);
            assert(pre.cards@[pj].id != pre.cards@[ci as int].id);
            assert(false);
        }
    }
    Ok(())
}

/// Adds a tag label to a card's tag set.  Fails with `NotFound` exactly when
/// the card is absent, and with `StoreFailure` exactly when the card already
/// carries the label; the store is untouched on failure.
pub fn add_tag(store: &mut Store, card_id: Id, tag: &str) -> (r: Result<(), Error>)
    requires
        old(store).wf(),
    ensures
        final(store).wf(),
        match r {
            Ok(u) => {
                &&& u == ()
                &&& old(store).has_card(card_id)
                &&& !label_set(old(store).spec_card(card_id).tags@).contains(tag@)
                &&& same_except_cards(*old(store), *final(store))
                &&& final(store).next_card_id == old(store).next_card_id
                &&& final(store).cards@.len() == old(store).cards@.len()
                &&& (forall|i: int|
                    0 <= i < old(store).cards@.len() && i != old(store).card_idx(card_id)
                        ==> final(store).cards@[i] == old(store).cards@[i])
                &&& final(store).cards@[old(store).card_idx(card_id)].id == card_id
                &&& final(store).cards@[old(store).card_idx(card_id)].pack_id == old(
                    store,
                ).spec_card(card_id).pack_id
                &&& final(store).cards@[old(store).card_idx(card_id)].front == old(store).spec_card(
                    card_id,
                ).front
                &&& final(store).cards@[old(store).card_idx(card_id)].back == old(store).spec_card(
                    card_id,
                ).back
                &&& final(store).cards@[old(store).card_idx(card_id)].tags@.len() == old(
                    store,
                ).spec_card(card_id).tags@.len() + 1
                &&& (forall|j: int|
                    0 <= j < old(store).spec_card(card_id).tags@.len()
                        ==> final(store).cards@[old(store).card_idx(card_id)].tags@[j] == old(
                        store,
                    ).spec_card(card_id).tags@[j])
                &&& final(store).cards@[old(store).card_idx(card_id)].tags@.last()@ == tag@
            },
            Err(e) => *final(store) == *old(store) && match e {
                Error::NotFound => !old(store).has_card(card_id),
                Error::StoreFailure => old(store).has_card(card_id) && label_set(
                    old(store).spec_card(card_id).tags@,
                ).contains(tag@),
                Error::InvalidWeight => false,
            },
        },
{
    let ci = match find_card(store, card_id) {
        Some(ci) => ci,
        None => {
            return Err(Error::NotFound);
        },
    };
    proof {
        store.lemma_card_idx(ci as int);
    }
    let tag_owned: String = tag.to_owned();
    if contains_label(&store.cards[ci].tags, &tag_owned) {
        return Err(Error::StoreFailure);
    }
    let ghost pre = *store;
    let mut row = store.cards.remove(ci);
    row.tags.push(tag_owned);
    store.cards.insert(ci, row);
    proof {
        assert(store.cards@ =~= pre.cards@.update(ci as int, store.cards@[ci as int]));
        assert forall|j: int, j1: int, j2: int|
            #![trigger store.cards@[j].tags@[j1], store.cards@[j].tags@[j2]]
            0 <= j < store.cards@.len() && 0 <= j1 < j2 < store.cards@[j].tags@.len() implies
            store.cards@[j].tags@[j1]@ != store.cards@[j].tags@[j2]@ by {
            if j == ci as int {
                let nt = store.cards@[j].tags@;
                let ot = pre.cards@[j].tags@;
                if j2 == nt.len() - 1 {
                    assert(nt[j2]@ == tag@);
                    assert(!label_set(ot).contains(tag@));
                    if nt[j1]@ == tag@ {
                        assert(ot[j1]@ == tag@);
                        assert(label_set(ot).contains(ot[j1]@));
                        assert(false);
                    }
                } else {
                    assert(ot[j1]@ != ot[j2]@);
                }
            } else {
                assert(store.cards@[j] == pre.cards@[j]);
            }
        }
    }
    Ok(())
}

} // verus!
