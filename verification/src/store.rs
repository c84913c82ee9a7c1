//! The relational store the engine runs against, modelled in memory.
//!
//! Every engine operation takes the store explicitly, so the engine holds no
//! ambient state and can be exercised against any store value.  The
//! well-formedness predicate [`Store::wf`] captures what the schema's
//! constraints guarantee: unique identifiers below the id counters, unique
//! tag labels per card and per filter, and positive dealer weights whose
//! per-dealer total stays within `u32`.

use vstd::prelude::*;

verus! {

use crate::card::Card;
use crate::filter::Tag;
use crate::pack::Pack;
use crate::rng::sum_weights;

/// A stored filter: its criterion rows keyed by the filter's id.
pub struct FilterRow {
    pub id: crate::filter::Id,
    pub pack_id: crate::pack::Id,
    pub label: String,
    pub tags: Vec<Tag>,
}

impl Clone for FilterRow {
    fn clone(&self) -> (r: Self)
        ensures
            r.id == self.id,
            r.pack_id == self.pack_id,
            r.label == self.label,
            r.tags@ == self.tags@,
    {
        let mut tags: Vec<Tag> = Vec::new();
        let mut i: usize = 0;
        while i < self.tags.len()
            invariant
                0 <= i <= self.tags@.len(),
                tags@ == self.tags@.take(i as int),
            decreases self.tags@.len() - i,
        {
            tags.push(self.tags[i].clone());
            proof {
                assert(tags@ =~= self.tags@.take(i + 1));
            }
            i += 1;
        }
        proof {
            assert(self.tags@.take(self.tags@.len() as int) =~= self.tags@);
        }
        FilterRow { id: self.id, pack_id: self.pack_id, label: self.label.clone(), tags }
    }
}

/// One (filter, weight) association of a dealer.
pub struct DealerEntry {
    pub filter_id: crate::filter::Id,
    pub weight: u32,
}

/// A stored dealer with its filter associations, in insertion order.
pub struct DealerRow {
    pub id: crate::dealer::Id,
    pub title: String,
    pub entries: Vec<DealerEntry>,
}

/// A stored study query with its tag criterion rows.
pub struct StudyRow {
    pub id: crate::study::Id,
    pub title: String,
    pub pack_id: Option<crate::pack::Id>,
    pub limit: u32,
    pub tags: Vec<Tag>,
}

/// The weights of a dealer's associations, in association order.
pub open spec fn dealer_weights(d: DealerRow) -> Seq<u32> {
    d.entries@.map_values(|e: DealerEntry| e.weight)
}

/// The whole backing store.
pub struct Store {
    pub packs: Vec<Pack>,
    pub cards: Vec<Card>,
    pub filters: Vec<FilterRow>,
    pub dealers: Vec<DealerRow>,
    pub studies: Vec<StudyRow>,
    pub next_pack_id: crate::pack::Id,
    pub next_card_id: crate::card::Id,
    pub next_filter_id: crate::filter::Id,
    pub next_dealer_id: crate::dealer::Id,
    pub next_study_id: crate::study::Id,
}

impl Store {
    pub open spec fn packs_wf(self) -> bool {
        &&& forall|i: int, j: int|
            0 <= i < j < self.packs@.len() ==> self.packs@[i].id != self.packs@[j].id
        &&& forall|i: int| 0 <= i < self.packs@.len() ==> self.packs@[i].id < self.next_pack_id
    }

    pub open spec fn cards_wf(self) -> bool {
        &&& forall|i: int, j: int|
            0 <= i < j < self.cards@.len() ==> self.cards@[i].id != self.cards@[j].id
        &&& forall|i: int| 0 <= i < self.cards@.len() ==> self.cards@[i].id < self.next_card_id
        &&& forall|i: int, j1: int, j2: int|
            0 <= i < self.cards@.len() && 0 <= j1 < j2 < self.cards@[i].tags@.len()
                ==> self.cards@[i].tags@[j1]@ != self.cards@[i].tags@[j2]@
    }

    pub open spec fn filters_wf(self) -> bool {
        &&& forall|i: int, j: int|
            0 <= i < j < self.filters@.len() ==> self.filters@[i].id != self.filters@[j].id
        &&& forall|i: int|
            0 <= i < self.filters@.len() ==> self.filters@[i].id < self.next_filter_id
        &&& forall|i: int, j1: int, j2: int|
            0 <= i < self.filters@.len() && 0 <= j1 < j2 < self.filters@[i].tags@.len()
                ==> self.filters@[i].tags@[j1].tag@ != self.filters@[i].tags@[j2].tag@
    }

    pub open spec fn dealers_wf(self) -> bool {
        &&& forall|i: int, j: int|
            0 <= i < j < self.dealers@.len() ==> self.dealers@[i].id != self.dealers@[j].id
        &&& forall|i: int|
            0 <= i < self.dealers@.len() ==> self.dealers@[i].id < self.next_dealer_id
        &&& forall|i: int, j1: int, j2: int|
            0 <= i < self.dealers@.len() && 0 <= j1 < j2 < self.dealers@[i].entries@.len()
                ==> self.dealers@[i].entries@[j1].filter_id != self.dealers@[i].entries@[j2].filter_id
        &&& forall|i: int, j: int|
            0 <= i < self.dealers@.len() && 0 <= j < self.dealers@[i].entries@.len()
                ==> self.dealers@[i].entries@[j].weight >= 1
        &&& forall|i: int|
            0 <= i < self.dealers@.len() ==> sum_weights(dealer_weights(self.dealers@[i]))
                <= u32::MAX
    }

    pub open spec fn studies_wf(self) -> bool {
        &&& forall|i: int, j: int|
            0 <= i < j < self.studies@.len() ==> self.studies@[i].id != self.studies@[j].id
        &&& forall|i: int|
            0 <= i < self.studies@.len() ==> self.studies@[i].id < self.next_study_id
    }

    /// Everything the schema guarantees of a store.
    pub open spec fn wf(self) -> bool {
        self.packs_wf() && self.cards_wf() && self.filters_wf() && self.dealers_wf()
            && self.studies_wf()
    }

    pub open spec fn has_pack(self, id: crate::pack::Id) -> bool {
        exists|i: int| 0 <= i < self.packs@.len() && self.packs@[i].id == id
    }

    pub open spec fn has_card(self, id: crate::card::Id) -> bool {
        exists|i: int| 0 <= i < self.cards@.len() && self.cards@[i].id == id
    }

    pub open spec fn has_filter(self, id: crate::filter::Id) -> bool {
        exists|i: int| 0 <= i < self.filters@.len() && self.filters@[i].id == id
    }

    pub open spec fn has_dealer(self, id: crate::dealer::Id) -> bool {
        exists|i: int| 0 <= i < self.dealers@.len() && self.dealers@[i].id == id
    }

    pub open spec fn has_study(self, id: crate::study::Id) -> bool {
        exists|i: int| 0 <= i < self.studies@.len() && self.studies@[i].id == id
    }

    /// The position of the pack with the given id (meaningful when present).
    pub open spec fn pack_idx(self, id: crate::pack::Id) -> int {
        choose|i: int| 0 <= i < self.packs@.len() && self.packs@[i].id == id
    }

    pub open spec fn spec_pack(self, id: crate::pack::Id) -> Pack {
        self.packs@[self.pack_idx(id)]
    }

    pub open spec fn card_idx(self, id: crate::card::Id) -> int {
        choose|i: int| 0 <= i < self.cards@.len() && self.cards@[i].id == id
    }

    pub open spec fn spec_card(self, id: crate::card::Id) -> Card {
        self.cards@[self.card_idx(id)]
    }

    pub open spec fn filter_idx(self, id: crate::filter::Id) -> int {
        choose|i: int| 0 <= i < self.filters@.len() && self.filters@[i].id == id
    }

    pub open spec fn spec_filter(self, id: crate::filter::Id) -> FilterRow {
        self.filters@[self.filter_idx(id)]
    }

    pub open spec fn dealer_idx(self, id: crate::dealer::Id) -> int {
        choose|i: int| 0 <= i < self.dealers@.len() && self.dealers@[i].id == id
    }

    pub open spec fn spec_dealer(self, id: crate::dealer::Id) -> DealerRow {
        self.dealers@[self.dealer_idx(id)]
    }

    pub open spec fn study_idx(self, id: crate::study::Id) -> int {
        choose|i: int| 0 <= i < self.studies@.len() && self.studies@[i].id == id
    }

    pub open spec fn spec_study(self, id: crate::study::Id) -> StudyRow {
        self.studies@[self.study_idx(id)]
    }

    /// In a well-formed store the position of a pack is determined by its id.
    pub proof fn lemma_pack_idx(self, i: int)
        requires
            self.wf(),
            0 <= i < self.packs@.len(),
        ensures
            self.pack_idx(self.packs@[i].id) == i,
    {
        let id = self.packs@[i].id;
        assert(0 <= i < self.packs@.len() && self.packs@[i].id == id);
        let k = self.pack_idx(id);
        if k < i {
            assert(self.packs@[k].id != self.packs@[i].id);
        } else if k > i {
            assert(self.packs@[i].id != self.packs@[k].id);
        }
    }

    /// In a well-formed store the position of a card is determined by its id.
    pub proof fn lemma_card_idx(self, i: int)
        requires
            self.wf(),
            0 <= i < self.cards@.len(),
        ensures
            self.card_idx(self.cards@[i].id) == i,
    {
        let id = self.cards@[i].id;
        assert(0 <= i < self.cards@.len() && self.cards@[i].id == id);
        let k = self.card_idx(id);
        if k < i {
            assert(self.cards@[k].id != self.cards@[i].id);
        } else if k > i {
            assert(self.cards@[i].id != self.cards@[k].id);
        }
    }

    /// In a well-formed store the position of a filter is determined by its id.
    pub proof fn lemma_filter_idx(self, i: int)
        requires
            self.wf(),
            0 <= i < self.filters@.len(),
        ensures
            self.filter_idx(self.filters@[i].id) == i,
    {
        let id = self.filters@[i].id;
        assert(0 <= i < self.filters@.len() && self.filters@[i].id == id);
        let k = self.filter_idx(id);
        if k < i {
            assert(self.filters@[k].id != self.filters@[i].id);
        } else if k > i {
            assert(self.filters@[i].id != self.filters@[k].id);
        }
    }

    /// In a well-formed store the position of a dealer is determined by its id.
    pub proof fn lemma_dealer_idx(self, i: int)
        requires
            self.wf(),
            0 <= i < self.dealers@.len(),
        ensures
            self.dealer_idx(self.dealers@[i].id) == i,
    {
        let id = self.dealers@[i].id;
        assert(0 <= i < self.dealers@.len() && self.dealers@[i].id == id);
        let k = self.dealer_idx(id);
        if k < i {
            assert(self.dealers@[k].id != self.dealers@[i].id);
        } else if k > i {
            assert(self.dealers@[i].id != self.dealers@[k].id);
        }
    }

    /// In a well-formed store the position of a study is determined by its id.
    pub proof fn lemma_study_idx(self, i: int)
        requires
            self.wf(),
            0 <= i < self.studies@.len(),
        ensures
            self.study_idx(self.studies@[i].id) == i,
    {
        let id = self.studies@[i].id;
        assert(0 <= i < self.studies@.len() && self.studies@[i].id == id);
        let k = self.study_idx(id);
        if k < i {
            assert(self.studies@[k].id != self.studies@[i].id);
        } else if k > i {
            assert(self.studies@[i].id != self.studies@[k].id);
        }
    }

    /// An empty store.
    pub fn new() -> (r: Store)
        ensures
            r.wf(),
            r.packs@.len() == 0,
            r.cards@.len() == 0,
            r.filters@.len() == 0,
            r.dealers@.len() == 0,
            r.studies@.len() == 0,
            r.next_pack_id == 1,
            r.next_card_id == 1,
            r.next_filter_id == 1,
            r.next_dealer_id == 1,
            r.next_study_id == 1,
    {
        Store {
            packs: Vec::new(),
            cards: Vec::new(),
            filters: Vec::new(),
            dealers: Vec::new(),
            studies: Vec::new(),
            next_pack_id: 1,
            next_card_id: 1,
            next_filter_id: 1,
            next_dealer_id: 1,
            next_study_id: 1,
        }
    }
}

/// The two stores agree on everything but the filter table and its counter.
pub open spec fn same_except_filters(a: Store, b: Store) -> bool {
    &&& b.packs@ == a.packs@
    &&& b.cards@ == a.cards@
    &&& b.dealers@ == a.dealers@
    &&& b.studies@ == a.studies@
    &&& b.next_pack_id == a.next_pack_id
    &&& b.next_card_id == a.next_card_id
    &&& b.next_dealer_id == a.next_dealer_id
    &&& b.next_study_id == a.next_study_id
}

/// The two stores agree on everything but the dealer table and its counter.
pub open spec fn same_except_dealers(a: Store, b: Store) -> bool {
    &&& b.packs@ == a.packs@
    &&& b.cards@ == a.cards@
    &&& b.filters@ == a.filters@
    &&& b.studies@ == a.studies@
    &&& b.next_pack_id == a.next_pack_id
    &&& b.next_card_id == a.next_card_id
    &&& b.next_filter_id == a.next_filter_id
    &&& b.next_study_id == a.next_study_id
}

/// The two stores agree on everything but the pack table and its counter.
pub open spec fn same_except_packs(a: Store, b: Store) -> bool {
    &&& b.cards@ == a.cards@
    &&& b.filters@ == a.filters@
    &&& b.dealers@ == a.dealers@
    &&& b.studies@ == a.studies@
    &&& b.next_card_id == a.next_card_id
    &&& b.next_filter_id == a.next_filter_id
    &&& b.next_dealer_id == a.next_dealer_id
    &&& b.next_study_id == a.next_study_id
}

/// The two stores agree on everything but the card table and its counter.
pub open spec fn same_except_cards(a: Store, b: Store) -> bool {
    &&& b.packs@ == a.packs@
    &&& b.filters@ == a.filters@
    &&& b.dealers@ == a.dealers@
    &&& b.studies@ == a.studies@
    &&& b.next_pack_id == a.next_pack_id
    &&& b.next_filter_id == a.next_filter_id
    &&& b.next_dealer_id == a.next_dealer_id
    &&& b.next_study_id == a.next_study_id
}

/// The two stores agree on everything but the study table and its counter.
pub open spec fn same_except_studies(a: Store, b: Store) -> bool {
    &&& b.packs@ == a.packs@
    &&& b.cards@ == a.cards@
    &&& b.filters@ == a.filters@
    &&& b.dealers@ == a.dealers@
    &&& b.next_pack_id == a.next_pack_id
    &&& b.next_card_id == a.next_card_id
    &&& b.next_filter_id == a.next_filter_id
    &&& b.next_dealer_id == a.next_dealer_id
}

/// Position of the pack with the given id.
pub(crate) fn find_pack(store: &Store, id: crate::pack::Id) -> (r: Option<usize>)
    ensures
        match r {
            Some(i) => i < store.packs@.len() && store.packs@[i as int].id == id,
            None => !store.has_pack(id),
        },
{
    let mut i: usize = 0;
    while i < store.packs.len()
        invariant
            0 <= i <= store.packs@.len(),
            forall|j: int| 0 <= j < i ==> store.packs@[j].id != id,
        decreases store.packs@.len() - i,
    {
        if store.packs[i].id == id {
            return Some(i);
        }
        i += 1;
    }
    None
}

/// Position of the card with the given id.
pub(crate) fn find_card(store: &Store, id: crate::card::Id) -> (r: Option<usize>)
    ensures
        match r {
            Some(i) => i < store.cards@.len() && store.cards@[i as int].id == id,
            None => !store.has_card(id),
        },
{
    let mut i: usize = 0;
    while i < store.cards.len()
        invariant
            0 <= i <= store.cards@.len(),
            forall|j: int| 0 <= j < i ==> store.cards@[j].id != id,
        decreases store.cards@.len() - i,
    {
        if store.cards[i].id == id {
            return Some(i);
        }
        i += 1;
    }
    None
}

/// Position of the filter with the given id.
pub(crate) fn find_filter(store: &Store, id: crate::filter::Id) -> (r: Option<usize>)
    ensures
        match r {
            Some(i) => i < store.filters@.len() && store.filters@[i as int].id == id,
            None => !store.has_filter(id),
        },
{
    let mut i: usize = 0;
    while i < store.filters.len()
        invariant
            0 <= i <= store.filters@.len(),
            forall|j: int| 0 <= j < i ==> store.filters@[j].id != id,
        decreases store.filters@.len() - i,
    {
        if store.filters[i].id == id {
            return Some(i);
        }
        i += 1;
    }
    None
}

/// Position of the dealer with the given id.
pub(crate) fn find_dealer(store: &Store, id: crate::dealer::Id) -> (r: Option<usize>)
    ensures
        match r {
            Some(i) => i < store.dealers@.len() && store.dealers@[i as int].id == id,
            None => !store.has_dealer(id),
        },
{
    let mut i: usize = 0;
    while i < store.dealers.len()
        invariant
            0 <= i <= store.dealers@.len(),
            forall|j: int| 0 <= j < i ==> store.dealers@[j].id != id,
        decreases store.dealers@.len() - i,
    {
        if store.dealers[i].id == id {
            return Some(i);
        }
        i += 1;
    }
    None
}

/// Position of the study with the given id.
pub(crate) fn find_study(store: &Store, id: crate::study::Id) -> (r: Option<usize>)
    ensures
        match r {
            Some(i) => i < store.studies@.len() && store.studies@[i as int].id == id,
            None => !store.has_study(id),
        },
{
    let mut i: usize = 0;
    while i < store.studies.len()
        invariant
            0 <= i <= store.studies@.len(),
            forall|j: int| 0 <= j < i ==> store.studies@[j].id != id,
        decreases store.studies@.len() - i,
    {
        if store.studies[i].id == id {
            return Some(i);
        }
        i += 1;
    }
    None
}

} // verus!
