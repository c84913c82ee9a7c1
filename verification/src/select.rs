//! The selection engine: streams a pack's (or every pack's) cards in a fresh
//! random order, fetches each candidate's tag set only when the candidate is
//! reached, and applies a tag criterion — stopping at the first match, or
//! collecting matches up to a limit.

use vstd::prelude::*;

verus! {

use crate::card::Card;
use crate::filter::{label_set, TagSets};
use crate::rng::shuffle_ids;
use crate::spec_matches;
use crate::store::{find_card, Store};

broadcast use vstd::seq_lib::group_to_multiset_ensures;

/// Whether a card falls under the scope: one pack, or every pack.
pub open spec fn in_scope(scope: Option<crate::pack::Id>, c: Card) -> bool {
    match scope {
        Option::None => true,
        Option::Some(p) => c.pack_id == p,
    }
}

/// Whether a card's tag set satisfies the criterion held by `ts`.
pub open spec fn ts_matches(ts: TagSets, c: Card) -> bool {
    spec_matches(label_set(ts.included@), label_set(ts.excluded@), label_set(c.tags@))
}

/// The store holds a card with this id, in scope, whose tag set satisfies
/// the criterion.
pub open spec fn matching_id(
    store: Store,
    scope: Option<crate::pack::Id>,
    inc: Set<Seq<char>>,
    exc: Set<Seq<char>>,
    id: crate::card::Id,
) -> bool {
    exists|k: int|
        0 <= k < store.cards@.len() && (#[trigger] store.cards@[k]).id == id && in_scope(
            scope,
            store.cards@[k],
        ) && spec_matches(inc, exc, label_set(store.cards@[k].tags@))
}

/// Some card in scope satisfies the criterion.
pub open spec fn any_matching(
    store: Store,
    scope: Option<crate::pack::Id>,
    inc: Set<Seq<char>>,
    exc: Set<Seq<char>>,
) -> bool {
    exists|k: int|
        0 <= k < store.cards@.len() && in_scope(scope, #[trigger] store.cards@[k]) && spec_matches(
            inc,
            exc,
            label_set(store.cards@[k].tags@),
        )
}

/// The store holds a card in scope with this id.
pub open spec fn scoped_card_id(
    store: Store,
    scope: Option<crate::pack::Id>,
    id: crate::card::Id,
) -> bool {
    exists|k: int|
        0 <= k < store.cards@.len() && (#[trigger] store.cards@[k]).id == id && in_scope(
            scope,
            store.cards@[k],
        )
}

/// The ids of the cards in scope, in store order.
fn collect_candidates(store: &Store, scope: Option<crate::pack::Id>) -> (ids: Vec<i64>)
    requires
        store.wf(),
    ensures
        ids@.no_duplicates(),
        forall|j: int| 0 <= j < ids@.len() ==> scoped_card_id(*store, scope, #[trigger] ids@[j]),
        forall|k: int|
            0 <= k < store.cards@.len() && in_scope(scope, #[trigger] store.cards@[k])
                ==> ids@.contains(store.cards@[k].id),
{
    let mut ids: Vec<i64> = Vec::new();
    // For each collected id, the index of its card in the store.
    let ghost mut src: Seq<int> = Seq::empty();
    let mut i: usize = 0;
    while i < store.cards.len()
        invariant
            store.wf(),
            0 <= i <= store.cards@.len(),
            src.len() == ids@.len(),
            forall|a: int, b: int| 0 <= a < b < src.len() ==> src[a] < src[b],
            forall|j: int|
                0 <= j < ids@.len() ==> 0 <= #[trigger] src[j] < i && ids@[j]
                    == store.cards@[src[j]].id && in_scope(scope, store.cards@[src[j]]),
            forall|k: int|
                0 <= k < i && in_scope(scope, #[trigger] store.cards@[k]) ==> ids@.contains(
                    store.cards@[k].id,
                ),
        decreases store.cards@.len() - i,
    {
        let keep = match scope {
            Option::None => true,
            Option::Some(p) => store.cards[i].pack_id == p,
        };
        if keep {
            let ghost prev = ids@;
            ids.push(store.cards[i].id);
            proof {
                src = src.push(i as int);
                assert forall|k: int|
                    0 <= k < i + 1 && in_scope(scope, #[trigger] store.cards@[k]) implies
                    ids@.contains(store.cards@[k].id) by {
                    if k < i {
                        let j = choose|j: int| 0 <= j < prev.len() && prev[j] == store.cards@[k].id;
                        assert(ids@[j] == store.cards@[k].id);
                    } else {
                        assert(ids@[ids@.len() - 1] == store.cards@[k].id);
                    }
                }
            }
        }
        i += 1;
    }
    proof {
        assert forall|j: int| 0 <= j < ids@.len() implies scoped_card_id(
            *store,
            scope,
            #[trigger] ids@[j],
        ) by {
            assert(0 <= src[j] < store.cards@.len() && ids@[j] == store.cards@[src[j]].id
                && in_scope(scope, store.cards@[src[j]]));
        }
        assert forall|a: int, b: int| 0 <= a < b < ids@.len() implies ids@[a] != ids@[b] by {
            assert(ids@[a] == store.cards@[src[a]].id);
            assert(ids@[b] == store.cards@[src[b]].id);
            assert(src[a] < src[b]);
            assert(store.cards@[src[a]].id != store.cards@[src[b]].id);
        }
    }
    ids
}

/// The store holds a card with this id whose tag set satisfies the criterion.
spec fn listed_match(store: Store, ts: TagSets, id: crate::card::Id) -> bool {
    exists|k: int|
        0 <= k < store.cards@.len() && (#[trigger] store.cards@[k]).id == id && ts_matches(
            ts,
            store.cards@[k],
        )
}

/// Walks the candidate ids in order, fetching each card's tags as it is
/// reached, and returns the first candidate whose tag set satisfies `ts`.
fn find_first_match(store: &Store, ids: &Vec<i64>, ts: &TagSets) -> (r: Option<i64>)
    requires
        store.wf(),
    ensures
        match r {
            Some(id) => ids@.contains(id) && listed_match(*store, *ts, id),
            None => forall|k: int|
                0 <= k < store.cards@.len() && ids@.contains((#[trigger] store.cards@[k]).id)
                    ==> !ts_matches(*ts, store.cards@[k]),
        },
{
    let mut i: usize = 0;
    while i < ids.len()
        invariant
            store.wf(),
            0 <= i <= ids@.len(),
            forall|k: int, j: int|
                #![trigger store.cards@[k], ids@[j]]
                0 <= k < store.cards@.len() && 0 <= j < i && store.cards@[k].id == ids@[j]
                    ==> !ts_matches(*ts, store.cards@[k]),
        decreases ids@.len() - i,
    {
        let id = ids[i];
        if let Some(ci) = find_card(store, id) {
            if ts.matches(&store.cards[ci].tags) {
                proof {
                    assert(ids@[i as int] == id);
                    assert(ids@.contains(id));
                    assert(store.cards@[ci as int].id == id && ts_matches(
                        *ts,
                        store.cards@[ci as int],
                    ));
                }
                return Some(id);
            }
            proof {
                assert forall|k: int, j: int|
                    #![trigger store.cards@[k], ids@[j]]
                    0 <= k < store.cards@.len() && 0 <= j < i + 1 && store.cards@[k].id
                        == ids@[j] implies !ts_matches(*ts, store.cards@[k]) by {
                    if j == i as int {
                        if k != ci as int {
                            assert(store.cards@[k].id != store.cards@[ci as int].id);
                        }
                    }
                }
            }
        } else {
            proof {
                assert forall|k: int, j: int|
                    #![trigger store.cards@[k], ids@[j]]
                    0 <= k < store.cards@.len() && 0 <= j < i + 1 && store.cards@[k].id
                        == ids@[j] implies !ts_matches(*ts, store.cards@[k]) by {
                    if j == i as int {
                        assert(!store.has_card(id));
                        assert(store.cards@[k].id != id);
                    }
                }
            }
        }
        i += 1;
    }
    proof {
        assert forall|k: int|
            0 <= k < store.cards@.len() && ids@.contains(
                (#[trigger] store.cards@[k]).id,
            ) implies !ts_matches(*ts, store.cards@[k]) by {
            let j = choose|j: int| 0 <= j < ids@.len() && ids@[j] == store.cards@[k].id;
        }
    }
    None
}

/// Selects one card: a fresh random enumeration of the cards in scope is
/// scanned, each candidate's tag set fetched lazily, and the first match
/// returned.  Absent exactly when no card in scope satisfies the criterion.
pub fn find_matching_card(store: &Store, scope: Option<crate::pack::Id>, ts: &TagSets) -> (r:
    Option<crate::card::Id>)
    requires
        store.wf(),
    ensures
        match r {
            Some(id) => matching_id(
                *store,
                scope,
                label_set(ts.included@),
                label_set(ts.excluded@),
                id,
            ),
            None => !any_matching(*store, scope, label_set(ts.included@), label_set(ts.excluded@)),
        },
{
    let ghost inc = label_set(ts.included@);
    let ghost exc = label_set(ts.excluded@);
    let mut ids = collect_candidates(store, scope);
    let ghost orig = ids@;
    shuffle_ids(&mut ids);
    proof {
        assert forall|x: i64| #![trigger ids@.contains(x)] ids@.contains(x) implies orig.contains(
            x,
        ) by {
            assert(ids@.to_multiset().contains(x) <==> orig.to_multiset().contains(x));
        }
        assert forall|x: i64| #![trigger orig.contains(x)] orig.contains(x) implies ids@.contains(
            x,
        ) by {
            assert(ids@.to_multiset().contains(x) <==> orig.to_multiset().contains(x));
        }
    }
    let r = find_first_match(store, &ids, ts);
    proof {
        match r {
            Option::Some(id) => {
                let k = choose|k: int|
                    0 <= k < store.cards@.len() && (#[trigger] store.cards@[k]).id == id
                        && ts_matches(*ts, store.cards@[k]);
                assert(orig.contains(id));
                let j = choose|j: int| 0 <= j < orig.len() && orig[j] == id;
                assert(scoped_card_id(*store, scope, id));
                let k2 = choose|k2: int|
                    0 <= k2 < store.cards@.len() && (#[trigger] store.cards@[k2]).id == id
                        && in_scope(scope, store.cards@[k2]);
                if k != k2 {
                    assert(store.cards@[k].id == store.cards@[k2].id);
                    assert(false);
                }
                assert(0 <= k < store.cards@.len() && store.cards@[k].id == id && in_scope(
                    scope,
                    store.cards@[k],
                ) && spec_matches(inc, exc, label_set(store.cards@[k].tags@)));
            },
            Option::None => {
                if any_matching(*store, scope, inc, exc) {
                    let k = choose|k: int|
                        0 <= k < store.cards@.len() && in_scope(scope, #[trigger] store.cards@[k])
                            && spec_matches(inc, exc, label_set(store.cards@[k].tags@));
                    assert(orig.contains(store.cards@[k].id));
                    assert(ids@.contains(store.cards@[k].id));
                    assert(!ts_matches(*ts, store.cards@[k]));
                    assert(false);
                }
            },
        }
    }
    r
}

/// Selects up to `limit` cards (all matches when `limit` is absent): a fresh
/// random enumeration of the cards in scope is scanned and every match is
/// kept until the limit is reached or the enumeration is exhausted.  The
/// result holds no duplicates, every entry is a matching card in scope, and
/// whenever it is shorter than the limit it holds every match there is.
pub fn query_cards(
    store: &Store,
    scope: Option<crate::pack::Id>,
    included: Vec<String>,
    excluded: Vec<String>,
    limit: Option<usize>,
) -> (r: Vec<crate::card::Id>)
    requires
        store.wf(),
    ensures
        r@.no_duplicates(),
        forall|j: int|
            0 <= j < r@.len() ==> matching_id(
                *store,
                scope,
                label_set(included@),
                label_set(excluded@),
                #[trigger] r@[j],
            ),
        limit is Some ==> r@.len() <= limit->0,
        (limit is None || r@.len() < limit->0) ==> forall|k: int|
            0 <= k < store.cards@.len() && in_scope(scope, #[trigger] store.cards@[k])
                && spec_matches(
                label_set(included@),
                label_set(excluded@),
                label_set(store.cards@[k].tags@),
            ) ==> r@.contains(store.cards@[k].id),
{
    let ts = TagSets { included, excluded };
    let ghost inc = label_set(ts.included@);
    let ghost exc = label_set(ts.excluded@);

    let mut out: Vec<i64> = Vec::new();
    let has_limit: bool;
    let l: usize;
    match limit {
        Option::Some(m) => {
            has_limit = true;
            l = m;
        },
        Option::None => {
            has_limit = false;
            l = 0;
        },
    }
    if has_limit && l == 0 {
        return out;
    }

    let mut ids = collect_candidates(store, scope);
    let ghost orig = ids@;
    shuffle_ids(&mut ids);
    proof {
        orig.lemma_multiset_has_no_duplicates();
        ids@.lemma_multiset_has_no_duplicates_conv();
        assert forall|x: i64| #![trigger ids@.contains(x)] ids@.contains(x) implies orig.contains(
            x,
        ) by {
            assert(ids@.to_multiset().contains(x) <==> orig.to_multiset().contains(x));
        }
        assert forall|x: i64| #![trigger orig.contains(x)] orig.contains(x) implies ids@.contains(
            x,
        ) by {
            assert(ids@.to_multiset().contains(x) <==> orig.to_multiset().contains(x));
        }
        assert forall|j: int| 0 <= j < ids@.len() implies scoped_card_id(
            *store,
            scope,
            #[trigger] ids@[j],
        ) by {
            assert(ids@.contains(ids@[j]));
            assert(orig.contains(ids@[j]));
            let j3 = choose|j3: int| 0 <= j3 < orig.len() && orig[j3] == ids@[j];
            assert(scoped_card_id(*store, scope, orig[j3]));
        }
    }

    let n = ids.len();
    // For each kept id, the index of its card in the store.
    let ghost mut src: Seq<int> = Seq::empty();
    let mut i: usize = 0;
    while i < n && (!has_limit || out.len() < l)
        invariant
            store.wf(),
            0 <= i <= n,
            n == ids@.len(),
            ids@.no_duplicates(),
            forall|j: int| 0 <= j < ids@.len() ==> scoped_card_id(*store, scope, #[trigger] ids@[j]),
            inc == label_set(ts.included@),
            exc == label_set(ts.excluded@),
            has_limit ==> out@.len() <= l,
            src.len() == out@.len(),
            forall|j: int|
                0 <= j < out@.len() ==> 0 <= #[trigger] src[j] < store.cards@.len() && out@[j]
                    == store.cards@[src[j]].id && in_scope(scope, store.cards@[src[j]])
                    && spec_matches(inc, exc, label_set(store.cards@[src[j]].tags@)),
            out@.no_duplicates(),
            forall|j: int| 0 <= j < out@.len() ==> ids@.take(i as int).contains(#[trigger] out@[j]),
            forall|j: int, k: int|
                #![trigger ids@[j], store.cards@[k]]
                0 <= j < i && 0 <= k < store.cards@.len() && store.cards@[k].id == ids@[j]
                    && spec_matches(inc, exc, label_set(store.cards@[k].tags@)) ==> out@.contains(
                    ids@[j],
                ),
        decreases n - i,
    {
        let id = ids[i];
        let ghost prev = out@;
        proof {
            assert forall|j: int|
                0 <= j < prev.len() && ids@.take(i as int).contains(
                    #[trigger] prev[j],
                ) implies ids@.take(i + 1).contains(prev[j]) by {
                let j2 = choose|j2: int|
                    0 <= j2 < ids@.take(i as int).len() && ids@.take(i as int)[j2] == prev[j];
                assert(ids@.take(i + 1)[j2] == prev[j]);
            }
        }
        if let Some(ci) = find_card(store, id) {
            let scope_ok = match scope {
                Option::None => true,
                Option::Some(p) => store.cards[ci].pack_id == p,
            };
            if scope_ok && ts.matches(&store.cards[ci].tags) {
                proof {
                    assert(!prev.contains(id)) by {
                        if prev.contains(id) {
                            let j = choose|j: int| 0 <= j < prev.len() && prev[j] == id;
                            assert(ids@.take(i as int).contains(prev[j]));
                            let j2 = choose|j2: int|
                                0 <= j2 < ids@.take(i as int).len() && ids@.take(i as int)[j2]
                                    == prev[j];
                            assert(ids@[j2] == ids@[i as int]);
                            assert(false);
                        }
                    }
                }
                out.push(id);
                proof {
                    src = src.push(ci as int);
                    assert(ids@.take(i + 1)[i as int] == id);
                    assert forall|a: int, b: int| 0 <= a < b < out@.len() implies out@[a]
                        != out@[b] by {
                        if b < prev.len() {
                            assert(prev[a] != prev[b]);
                        } else {
                            assert(out@[b] == id);
                            assert(prev[a] != id);
                        }
                    }
                    assert forall|j: int, k: int|
                        #![trigger ids@[j], store.cards@[k]]
                        0 <= j < i + 1 && 0 <= k < store.cards@.len() && store.cards@[k].id
                            == ids@[j] && spec_matches(
                            inc,
                            exc,
                            label_set(store.cards@[k].tags@),
                        ) implies out@.contains(ids@[j]) by {
                        if j < i as int {
                            assert(prev.contains(ids@[j]));
                            let jj = choose|jj: int| 0 <= jj < prev.len() && prev[jj] == ids@[j];
                            assert(out@[jj] == ids@[j]);
                        } else {
                            assert(out@[out@.len() - 1] == ids@[j]);
                        }
                    }
                }
            } else {
                proof {
                    assert forall|j: int, k: int|
                        #![trigger ids@[j], store.cards@[k]]
                        0 <= j < i + 1 && 0 <= k < store.cards@.len() && store.cards@[k].id
                            == ids@[j] && spec_matches(
                            inc,
                            exc,
                            label_set(store.cards@[k].tags@),
                        ) implies out@.contains(ids@[j]) by {
                        if j == i as int {
                            if k != ci as int {
                                assert(store.cards@[k].id != store.cards@[ci as int].id);
                            }
                            assert(ids@[i as int] == id);
                            assert(scoped_card_id(*store, scope, id));
                            let k3 = choose|k3: int|
                                0 <= k3 < store.cards@.len() && (#[trigger] store.cards@[k3]).id
                                    == id && in_scope(scope, store.cards@[k3]);
                            if k3 != ci as int {
                                assert(store.cards@[k3].id != store.cards@[ci as int].id);
                            }
                            assert(false);
                        }
                    }
                }
            }
        } else {
            proof {
                assert forall|j: int, k: int|
                    #![trigger ids@[j], store.cards@[k]]
                    0 <= j < i + 1 && 0 <= k < store.cards@.len() && store.cards@[k].id == ids@[j]
                        && spec_matches(
                        inc,
                        exc,
                        label_set(store.cards@[k].tags@),
                    ) implies out@.contains(ids@[j]) by {
                    if j == i as int {
                        assert(!store.has_card(id));
                        assert(store.cards@[k].id != id);
                        assert(false);
                    }
                }
            }
        }
        i += 1;
    }

    proof {
        if !has_limit || out@.len() < l {
            assert(i == n);
            assert forall|k: int|
                0 <= k < store.cards@.len() && in_scope(scope, #[trigger] store.cards@[k])
                    && spec_matches(
                    inc,
                    exc,
                    label_set(store.cards@[k].tags@),
                ) implies out@.contains(store.cards@[k].id) by {
                assert(orig.contains(store.cards@[k].id));
                assert(ids@.contains(store.cards@[k].id));
                let j = choose|j: int| 0 <= j < ids@.len() && ids@[j] == store.cards@[k].id;
                assert(out@.contains(ids@[j]));
            }
        }
        assert forall|j: int| 0 <= j < out@.len() implies matching_id(
            *store,
            scope,
            inc,
            exc,
            #[trigger] out@[j],
        ) by {
            assert(0 <= src[j] < store.cards@.len() && out@[j] == store.cards@[src[j]].id
                && in_scope(scope, store.cards@[src[j]]) && spec_matches(
                inc,
                exc,
                label_set(store.cards@[src[j]].tags@),
            ));
        }
    }
    out
}

} // verus!
