//! The generalized weighted query tree: a `Root` leaf holds a pack scope and
//! a tag criterion, a `Branch` holds weighted sub-queries, and evaluation
//! descends by weighted random choice until a root is reached — iteratively,
//! so that deep trees cost no call stack.  An explicit version wrapper lets
//! saved trees evolve without breaking old records.

use vstd::prelude::*;

verus! {

use crate::error::Error;
use crate::filter::{label_set, TagSets};
use crate::rng::{
    lemma_sum_weights_bounds, lemma_sum_weights_concat, lemma_sum_weights_push, sample_weighted,
    sum_weights,
};
use crate::select;
use crate::spec_matches;
use crate::store::{find_card, Store};

/// A question/answer pair drawn from a card's faces.
pub struct Prompt {
    pub question: String,
    pub answer: String,
}

/// A saved query tree under its format-version tag.
pub enum Versioned {
    V1(CardQuery),
}

/// A query tree node.
pub enum CardQuery {
    Root(Filter),
    Branch(Vec<WeightedQuery>),
}

/// A leaf criterion: a pack scope with included and excluded tag labels.
pub struct Filter {
    pub pack_id: i64,
    pub included_tags: Vec<String>,
    pub excluded_tags: Vec<String>,
}

/// One weighted child of a branch.
pub struct WeightedQuery {
    pub query: CardQuery,
    pub weight: u32,
}

impl From<Versioned> for CardQuery {
    fn from(value: Versioned) -> (r: Self) {
        match value {
            Versioned::V1(query) => query,
        }
    }
}

impl vstd::std_specs::convert::FromSpecImpl<Versioned> for CardQuery {
    open spec fn obeys_from_spec() -> bool {
        true
    }

    open spec fn from_spec(v: Versioned) -> CardQuery {
        match v {
            Versioned::V1(query) => query,
        }
    }
}

impl From<CardQuery> for Versioned {
    fn from(value: CardQuery) -> (r: Self) {
        Versioned::V1(value)
    }
}

impl vstd::std_specs::convert::FromSpecImpl<CardQuery> for Versioned {
    open spec fn obeys_from_spec() -> bool {
        true
    }

    open spec fn from_spec(v: CardQuery) -> Versioned {
        Versioned::V1(v)
    }
}

/// The weights of a branch's children.
pub open spec fn branch_weights(ws: Seq<WeightedQuery>) -> Seq<u32> {
    ws.map_values(|w: WeightedQuery| w.weight)
}

/// A branch the weighted draw can serve: nonempty, some positive weight, and
/// a total the draw's machinery can hold.
pub open spec fn branch_ok(ws: Seq<WeightedQuery>) -> bool {
    &&& ws.len() > 0
    &&& (exists|i: int| 0 <= i < ws.len() && (#[trigger] ws[i]).weight > 0)
    &&& sum_weights(branch_weights(ws)) <= u32::MAX
}

/// Every branch reachable from the node can be drawn from.
pub open spec fn all_branches_ok(q: CardQuery) -> bool
    decreases q,
{
    match q {
        CardQuery::Root(_) => true,
        CardQuery::Branch(ws) => branch_ok(ws@) && (forall|i: int|
            0 <= i < ws@.len() ==> all_branches_ok((#[trigger] ws@[i]).query)),
    }
}

/// A root leaf reachable from the node by descending branches.
pub open spec fn reaches_root(q: CardQuery, f: Filter) -> bool
    decreases q,
{
    match q {
        CardQuery::Root(g) => g == f,
        CardQuery::Branch(ws) => exists|i: int|
            0 <= i < ws@.len() && reaches_root((#[trigger] ws@[i]).query, f),
    }
}

/// The prompt reads a card of the root's pack whose tag set satisfies the
/// root's criterion.
pub open spec fn prompt_from_root(store: Store, f: Filter, p: Prompt) -> bool {
    exists|k: int|
        0 <= k < store.cards@.len() && (#[trigger] store.cards@[k]).pack_id == f.pack_id
            && spec_matches(
            label_set(f.included_tags@),
            label_set(f.excluded_tags@),
            label_set(store.cards@[k].tags@),
        ) && p.question@ == store.cards@[k].front@ && p.answer@ == store.cards@[k].back@
}

/// No card of the root's pack satisfies the root's criterion.
pub open spec fn root_empty(store: Store, f: Filter) -> bool {
    !select::any_matching(
        store,
        Some(f.pack_id),
        label_set(f.included_tags@),
        label_set(f.excluded_tags@),
    )
}

/// A copy of a label list.
fn clone_labels(labels: &Vec<String>) -> (r: Vec<String>)
    ensures
        r@ == labels@,
{
    let mut r: Vec<String> = Vec::new();
    let mut i: usize = 0;
    while i < labels.len()
        invariant
            0 <= i <= labels@.len(),
            r@ == labels@.take(i as int),
        decreases labels@.len() - i,
    {
        r.push(labels[i].clone());
        proof {
            assert(r@ =~= labels@.take(i + 1));
        }
        i += 1;
    }
    proof {
        assert(labels@.take(labels@.len() as int) =~= labels@);
    }
    r
}

/// Evaluates a query tree: descends through branches by weighted random
/// choice until a root is reached, then selects one random card of the
/// root's pack satisfying its criterion and returns its faces.  An empty
/// root yields an absent result; a branch the draw cannot serve (empty,
/// all-zero, or overflowing weights) yields `InvalidWeight` — so a tree
/// whose branches are all drawable never fails.
pub fn try_query(query: &CardQuery, store: &Store) -> (r: Result<Option<Prompt>, Error>)
    requires
        store.wf(),
    ensures
        match r {
            Ok(p) => match p {
                Some(prompt) => exists|f: Filter|
                    #![auto]
                    reaches_root(*query, f) && prompt_from_root(*store, f, prompt),
                None => exists|f: Filter|
                    #![auto]
                    reaches_root(*query, f) && root_empty(*store, f),
            },
            Err(e) => e == Error::InvalidWeight && !all_branches_ok(*query),
        },
{
    let mut q: &CardQuery = query;
    loop
        invariant
            store.wf(),
            forall|f: Filter| #![auto] reaches_root(*q, f) ==> reaches_root(*query, f),
            all_branches_ok(*query) ==> all_branches_ok(*q),
        decreases *q,
    {
        match q {
            CardQuery::Root(f) => {
                let ts = TagSets {
                    included: clone_labels(&f.included_tags),
                    excluded: clone_labels(&f.excluded_tags),
                };
                match select::find_matching_card(store, Some(f.pack_id), &ts) {
                    None => {
                        proof {
                            assert(reaches_root(*q, *f));
                            assert(root_empty(*store, *f));
                        }
                        return Ok(None);
                    },
                    Some(cid) => {
                        let ci = match find_card(store, cid) {
                            Some(ci) => ci,
                            None => {
                                proof {
                                    let k = choose|k: int|
                                        0 <= k < store.cards@.len()
                                            && (#[trigger] store.cards@[k]).id == cid
                                            && select::in_scope(
                                            Some(f.pack_id),
                                            store.cards@[k],
                                        ) && spec_matches(
                                            label_set(ts.included@),
                                            label_set(ts.excluded@),
                                            label_set(store.cards@[k].tags@),
                                        );
                                    assert(store.has_card(cid));
                                    assert(false);
                                }
                                return Ok(None);
                            },
                        };
                        let prompt = Prompt {
                            question: store.cards[ci].front.clone(),
                            answer: store.cards[ci].back.clone(),
                        };
                        proof {
                            let k = choose|k: int|
                                0 <= k < store.cards@.len() && (#[trigger] store.cards@[k]).id
                                    == cid && select::in_scope(Some(f.pack_id), store.cards@[k])
                                    && spec_matches(
                                    label_set(ts.included@),
                                    label_set(ts.excluded@),
                                    label_set(store.cards@[k].tags@),
                                );
                            if k != ci as int {
                                assert(store.cards@[k].id != store.cards@[ci as int].id);
                            }
                            assert(store.cards@[ci as int].pack_id == f.pack_id && spec_matches(
                                label_set(f.included_tags@),
                                label_set(f.excluded_tags@),
                                label_set(store.cards@[ci as int].tags@),
                            ));
                            assert(prompt_from_root(*store, *f, prompt));
                            assert(reaches_root(*q, *f));
                        }
                        return Ok(Some(prompt));
                    },
                }
            },
            CardQuery::Branch(ws) => {
                let ghost bw = branch_weights(ws@);
                proof {
                    assert(!branch_ok(ws@) ==> !all_branches_ok(*q));
                }
                let mut weights: Vec<u32> = Vec::new();
                let mut acc: u64 = 0;
                let mut i: usize = 0;
                let n = ws.len();
                while i < n
                    invariant
                        0 <= i <= n,
                        n == ws@.len(),
                        bw == branch_weights(ws@),
                        weights@.len() == i,
                        forall|j: int| 0 <= j < i ==> weights@[j] == bw[j],
                        acc == sum_weights(bw.take(i as int)),
                        acc <= u32::MAX,
                        !branch_ok(ws@) ==> !all_branches_ok(*query),
                    decreases n - i,
                {
                    proof {
                        assert(bw.take(i + 1) =~= bw.take(i as int).push(bw[i as int]));
                        lemma_sum_weights_push(bw.take(i as int), bw[i as int]);
                        assert(bw[i as int] == ws@[i as int].weight);
                    }
                    let w = ws[i].weight;
                    if acc + (w as u64) > (u32::MAX as u64) {
                        proof {
                            assert(bw =~= bw.take(i + 1) + bw.skip(i + 1));
                            lemma_sum_weights_concat(bw.take(i + 1), bw.skip(i + 1));
                            lemma_sum_weights_bounds(bw.skip(i + 1));
                            assert(sum_weights(bw) > u32::MAX);
                            assert(!branch_ok(ws@));
                        }
                        return Err(Error::InvalidWeight);
                    }
                    weights.push(w);
                    acc = acc + (w as u64);
                    i += 1;
                }
                proof {
                    assert(weights@ =~= bw);
                    assert(bw.take(bw.len() as int) =~= bw);
                }
                match sample_weighted(&weights) {
                    None => {
                        proof {
                            if ws@.len() == 0 {
                                assert(!branch_ok(ws@));
                            } else {
                                assert(forall|j: int|
                                    0 <= j < ws@.len() ==> (#[trigger] ws@[j]).weight
                                        == weights@[j]);
                                if exists|j: int| 0 <= j < ws@.len() && (#[trigger] ws@[j]).weight
                                    > 0 {
                                    let j = choose|j: int|
                                        0 <= j < ws@.len() && (#[trigger] ws@[j]).weight > 0;
                                    assert(weights@[j] > 0);
                                    assert(false);
                                }
                                assert(!branch_ok(ws@));
                            }
                            assert(!all_branches_ok(*q));
                        }
                        return Err(Error::InvalidWeight);
                    },
                    Some(ix) => {
                        let ghost prev_q = *q;
                        q = &ws[ix].query;
                        proof {
                            assert forall|f: Filter| #![auto] reaches_root(*q, f) implies
                                reaches_root(*query, f) by {
                                assert(reaches_root(ws@[ix as int].query, f));
                                assert(reaches_root(prev_q, f));
                            }
                            if all_branches_ok(*query) {
                                assert(all_branches_ok(prev_q));
                                assert(all_branches_ok(ws@[ix as int].query));
                            }
                        }
                    },
                }
            },
        }
    }
}

} // verus!
