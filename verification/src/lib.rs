//! A flashcard selection engine: tag-predicate matching, randomized card
//! selection over a pack of tagged cards, weighted composition of saved
//! filters into dealers, and a generalized weighted query tree.

use vstd::prelude::*;

pub mod card;
pub mod collate;
pub mod commands;
pub mod dealer;
pub mod error;
pub mod filter;
pub mod fleeting;
pub mod pack;
pub mod query;
mod rng;
pub mod select;
pub mod slides;
pub mod store;
pub mod study;

verus! {

/// Decides whether a card's tag set satisfies an inclusion/exclusion
/// criterion: every included tag must be present and no excluded tag may be.
pub open spec fn spec_matches(
    included: Set<Seq<char>>,
    excluded: Set<Seq<char>>,
    tags: Set<Seq<char>>,
) -> bool {
    included.subset_of(tags) && excluded.disjoint(tags)
}

/// A label both included and excluded makes a criterion permanently
/// unsatisfiable: no tag set whatsoever matches it.
pub proof fn lemma_overlap_unsatisfiable(
    included: Set<Seq<char>>,
    excluded: Set<Seq<char>>,
    label: Seq<char>,
    tags: Set<Seq<char>>,
)
    requires
        included.contains(label),
        excluded.contains(label),
    ensures
        !spec_matches(included, excluded, tags),
{
    if tags.contains(label) {
        assert(excluded.contains(label) && tags.contains(label));
        assert(!excluded.disjoint(tags));
    } else {
        assert(included.contains(label) && !tags.contains(label));
        assert(!included.subset_of(tags));
    }
}

} // verus!
