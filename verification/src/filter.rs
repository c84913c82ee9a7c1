//! Saved tag filters: a filter binds an inclusion/exclusion tag criterion to
//! one pack, and selects cards of that pack whose tag sets satisfy it.

use vstd::prelude::*;

verus! {

use crate::collate::{
    lemma_seq_le_refl, lemma_seq_le_total, lemma_seq_le_trans, lower_of, seq_le, str_le,
    to_lowercase,
};
use crate::error::Error;
use crate::select;
use crate::spec_matches;
use crate::store::{
    find_filter, find_pack, same_except_filters, FilterRow, Store,
};

broadcast use vstd::seq_lib::group_to_multiset_ensures;

pub type Id = u32;

/// One tag membership of a filter: a label and whether the label is excluded.
pub struct Tag {
    pub tag: String,
    pub exclude: bool,
}

impl Clone for Tag {
    fn clone(&self) -> (r: Self)
        ensures
            r == *self,
    {
        Tag { tag: self.tag.clone(), exclude: self.exclude }
    }
}

/// Listing row for a filter.
pub struct Summary {
    pub id: Id,
    pub label: String,
}

/// Full view of a filter as handed to callers.
pub struct Filter {
    pub label: String,
    pub tags: Vec<Tag>,
    pub is_valid: bool,
}

/// The set of labels occurring in a list of labels.
pub open spec fn label_set(labels: Seq<String>) -> Set<Seq<char>> {
    Set::new(|x: Seq<char>| exists|i: int| 0 <= i < labels.len() && labels[i]@ == x)
}

/// The labels of the memberships holding the given role.
pub open spec fn role_set(tags: Seq<Tag>, exclude: bool) -> Set<Seq<char>> {
    Set::new(
        |x: Seq<char>|
            exists|i: int|
                0 <= i < tags.len() && tags[i].exclude == exclude && tags[i].tag@ == x,
    )
}

/// Extending a label list by the next membership of its role keeps the label
/// set in step with the role set of the prefix read so far.
proof fn lemma_role_set_step(
    tags: Seq<Tag>,
    i: int,
    before: Seq<String>,
    after: Seq<String>,
    exclude: bool,
)
    requires
        0 <= i < tags.len(),
        label_set(before) == role_set(tags.take(i), exclude),
        if tags[i].exclude == exclude {
            after.len() == before.len() + 1 && after[before.len() as int]@ == tags[i].tag@
                && (forall|j: int| 0 <= j < before.len() ==> after[j] == before[j])
        } else {
            after == before
        },
    ensures
        label_set(after) == role_set(tags.take(i + 1), exclude),
{
    let prev_t = tags.take(i);
    let next_t = tags.take(i + 1);
    assert forall|x: Seq<char>|
        label_set(after).contains(x) implies role_set(next_t, exclude).contains(x) by {
        let j = choose|j: int| 0 <= j < after.len() && after[j]@ == x;
        if j < before.len() || tags[i].exclude != exclude {
            assert(before[j]@ == x);
            assert(label_set(before).contains(x));
            let k = choose|k: int|
                0 <= k < prev_t.len() && prev_t[k].exclude == exclude && prev_t[k].tag@ == x;
            assert(next_t[k].exclude == exclude && next_t[k].tag@ == x);
        } else {
            assert(next_t[i].exclude == exclude && next_t[i].tag@ == x);
        }
    }
    assert forall|x: Seq<char>|
        role_set(next_t, exclude).contains(x) implies label_set(after).contains(x) by {
        let k = choose|k: int|
            0 <= k < next_t.len() && next_t[k].exclude == exclude && next_t[k].tag@ == x;
        if k < i {
            assert(prev_t[k].exclude == exclude && prev_t[k].tag@ == x);
            assert(role_set(prev_t, exclude).contains(x));
            let j = choose|j: int| 0 <= j < before.len() && before[j]@ == x;
            assert(after[j]@ == x);
        } else {
            assert(tags[i].exclude == exclude && tags[i].tag@ == x);
            assert(after[before.len() as int]@ == x);
        }
    }
    assert(label_set(after) =~= role_set(next_t, exclude));
}

/// A filter criterion split into its two label sets.
pub struct TagSets {
    pub included: Vec<String>,
    pub excluded: Vec<String>,
}

/// Whether a list of labels holds the given label.
pub(crate) fn contains_label(labels: &Vec<String>, label: &String) -> (r: bool)
    ensures
        r == label_set(labels@).contains(label@),
{
    let mut i: usize = 0;
    while i < labels.len()
        invariant
            0 <= i <= labels@.len(),
            forall|j: int| 0 <= j < i ==> labels@[j]@ != label@,
        decreases labels@.len() - i,
    {
        if labels[i].eq(label) {
            assert(label_set(labels@).contains(label@));
            return true;
        }
        i += 1;
    }
    false
}

impl TagSets {
    /// Splits a filter's memberships into the included and the excluded labels.
    pub fn new(tags: &Vec<Tag>) -> (r: TagSets)
        ensures
            label_set(r.included@) == role_set(tags@, false),
            label_set(r.excluded@) == role_set(tags@, true),
    {
        let mut included: Vec<String> = Vec::new();
        let mut excluded: Vec<String> = Vec::new();
        proof {
            assert(label_set(included@) =~= role_set(tags@.take(0), false));
            assert(label_set(excluded@) =~= role_set(tags@.take(0), true));
        }
        let mut i: usize = 0;
        while i < tags.len()
            invariant
                0 <= i <= tags@.len(),
                label_set(included@) == role_set(tags@.take(i as int), false),
                label_set(excluded@) == role_set(tags@.take(i as int), true),
            decreases tags@.len() - i,
        {
            let ghost prev_inc = included@;
            let ghost prev_exc = excluded@;
            if tags[i].exclude {
                excluded.push(tags[i].tag.clone());
            } else {
                included.push(tags[i].tag.clone());
            }
            proof {
                lemma_role_set_step(tags@, i as int, prev_inc, included@, false);
                lemma_role_set_step(tags@, i as int, prev_exc, excluded@, true);
            }
            i += 1;
        }
        proof {
            assert(tags@.take(tags@.len() as int) =~= tags@);
        }
        TagSets { included, excluded }
    }

    /// Decides whether a card's tag set satisfies this criterion: every
    /// included label is present and no excluded label is.
    pub fn matches(&self, tags: &Vec<String>) -> (r: bool)
        ensures
            r == spec_matches(label_set(self.included@), label_set(self.excluded@), label_set(tags@)),
    {
        let ghost inc = label_set(self.included@);
        let ghost exc = label_set(self.excluded@);
        let ghost have = label_set(tags@);

        let mut i: usize = 0;
        while i < self.included.len()
            invariant
                0 <= i <= self.included@.len(),
                inc == label_set(self.included@),
                have == label_set(tags@),
                forall|j: int| 0 <= j < i ==> have.contains(#[trigger] self.included@[j]@),
            decreases self.included@.len() - i,
        {
            if !contains_label(tags, &self.included[i]) {
                assert(inc.contains(self.included@[i as int]@));
                return false;
            }
            i += 1;
        }
        assert(inc.subset_of(have)) by {
            assert forall|x: Seq<char>| inc.contains(x) implies have.contains(x) by {
                let j = choose|j: int|
                    0 <= j < self.included@.len() && self.included@[j]@ == x;
                assert(have.contains(self.included@[j]@));
            }
        }

        let mut k: usize = 0;
        while k < self.excluded.len()
            invariant
                0 <= k <= self.excluded@.len(),
                exc == label_set(self.excluded@),
                have == label_set(tags@),
                forall|j: int| 0 <= j < k ==> !have.contains(#[trigger] self.excluded@[j]@),
            decreases self.excluded@.len() - k,
        {
            if contains_label(tags, &self.excluded[k]) {
                assert(exc.contains(self.excluded@[k as int]@));
                return false;
            }
            k += 1;
        }
        assert(exc.disjoint(have)) by {
            assert forall|x: Seq<char>| exc.contains(x) implies !have.contains(x) by {
                let j = choose|j: int|
                    0 <= j < self.excluded@.len() && self.excluded@[j]@ == x;
                assert(!have.contains(self.excluded@[j]@));
            }
        }
        true
    }
}

/// A filter's memberships as plain (label, excluded) pairs.
pub open spec fn tags_view(tags: Seq<Tag>) -> Seq<(Seq<char>, bool)> {
    tags.map_values(|t: Tag| (t.tag@, t.exclude))
}

/// Whether a membership list holds the label.
pub open spec fn has_label(m: Seq<(Seq<char>, bool)>, label: Seq<char>) -> bool {
    exists|i: int| 0 <= i < m.len() && (#[trigger] m[i]).0 == label
}

/// The position of a label in a membership list (meaningful when present).
pub open spec fn label_idx(m: Seq<(Seq<char>, bool)>, label: Seq<char>) -> int {
    choose|i: int| 0 <= i < m.len() && (#[trigger] m[i]).0 == label
}

/// Every label occurs at most once.
pub open spec fn distinct_labels(m: Seq<(Seq<char>, bool)>) -> bool {
    forall|i: int, j: int| 0 <= i < j < m.len() ==> m[i].0 != m[j].0
}

/// The labels of the memberships holding the given role, in view form.
pub open spec fn role_of(m: Seq<(Seq<char>, bool)>, exclude: bool) -> Set<Seq<char>> {
    Set::new(
        |x: Seq<char>|
            exists|i: int| 0 <= i < m.len() && (#[trigger] m[i]).1 == exclude && m[i].0 == x,
    )
}

/// Upserting a membership: an existing membership for the label changes its
/// role; otherwise the membership is appended.
pub open spec fn spec_upsert(m: Seq<(Seq<char>, bool)>, label: Seq<char>, exclude: bool) -> Seq<
    (Seq<char>, bool),
> {
    if has_label(m, label) {
        m.update(label_idx(m, label), (label, exclude))
    } else {
        m.push((label, exclude))
    }
}

/// Toggling the role of an existing membership; absent labels are left alone.
pub open spec fn spec_set_excluded(
    m: Seq<(Seq<char>, bool)>,
    label: Seq<char>,
    exclude: bool,
) -> Seq<(Seq<char>, bool)> {
    if has_label(m, label) {
        m.update(label_idx(m, label), (label, exclude))
    } else {
        m
    }
}

/// Removing the membership of a label, when present.
pub open spec fn spec_remove_tag(m: Seq<(Seq<char>, bool)>, label: Seq<char>) -> Seq<
    (Seq<char>, bool),
> {
    if has_label(m, label) {
        m.remove(label_idx(m, label))
    } else {
        m
    }
}

/// The two role-set readings of a membership list agree.
pub proof fn lemma_role_set_view(tags: Seq<Tag>, exclude: bool)
    ensures
        role_set(tags, exclude) == role_of(tags_view(tags), exclude),
{
    let m = tags_view(tags);
    assert forall|x: Seq<char>|
        role_set(tags, exclude).contains(x) <==> role_of(m, exclude).contains(x) by {
        if role_set(tags, exclude).contains(x) {
            let i = choose|i: int|
                0 <= i < tags.len() && tags[i].exclude == exclude && tags[i].tag@ == x;
            assert(m[i].1 == exclude && m[i].0 == x);
        }
        if role_of(m, exclude).contains(x) {
            let i = choose|i: int| 0 <= i < m.len() && (#[trigger] m[i]).1 == exclude && m[i].0 == x;
            assert(tags[i].exclude == exclude && tags[i].tag@ == x);
        }
    }
    assert(role_set(tags, exclude) =~= role_of(m, exclude));
}

/// Position of the membership carrying the label, if any.
fn find_tag_pos(tags: &Vec<Tag>, label: &String) -> (r: Option<usize>)
    ensures
        match r {
            Some(p) => p < tags@.len() && tags@[p as int].tag@ == label@,
            None => !has_label(tags_view(tags@), label@),
        },
{
    let mut i: usize = 0;
    while i < tags.len()
        invariant
            0 <= i <= tags@.len(),
            forall|j: int| 0 <= j < i ==> tags@[j].tag@ != label@,
        decreases tags@.len() - i,
    {
        if tags[i].tag.eq(label) {
            return Some(i);
        }
        i += 1;
    }
    proof {
        let m = tags_view(tags@);
        if has_label(m, label@) {
            let j = choose|j: int| 0 <= j < m.len() && (#[trigger] m[j]).0 == label@;
            assert(tags@[j].tag@ == label@);
            assert(false);
        }
    }
    None
}

/// The store after a mutation that replaced one filter's membership list:
/// every other row and table is kept, and the row keeps its id, pack and
/// label while its memberships now read `new_view`.
pub open spec fn filter_tags_updated(
    a: Store,
    b: Store,
    id: Id,
    new_view: Seq<(Seq<char>, bool)>,
) -> bool {
    &&& same_except_filters(a, b)
    &&& b.next_filter_id == a.next_filter_id
    &&& b.filters@.len() == a.filters@.len()
    &&& (forall|i: int|
        0 <= i < a.filters@.len() && i != a.filter_idx(id) ==> b.filters@[i] == a.filters@[i])
    &&& b.filters@[a.filter_idx(id)].id == a.spec_filter(id).id
    &&& b.filters@[a.filter_idx(id)].pack_id == a.spec_filter(id).pack_id
    &&& b.filters@[a.filter_idx(id)].label == a.spec_filter(id).label
    &&& tags_view(b.filters@[a.filter_idx(id)].tags@) == new_view
}

/// Upserts a tag membership on a filter: an existing membership for the
/// label has its role set to `exclude`; otherwise the membership is added.
/// Fails with `NotFound` exactly when the filter is absent.
pub fn add_tag(store: &mut Store, filter_id: Id, tag: &str, exclude: bool) -> (r: Result<
    (),
    Error,
>)
    requires
        old(store).wf(),
    ensures
        final(store).wf(),
        match r {
            Ok(u) => {
                &&& u == ()
                &&& old(store).has_filter(filter_id)
                &&& filter_tags_updated(
                    *old(store),
                    *final(store),
                    filter_id,
                    spec_upsert(
                        tags_view(old(store).spec_filter(filter_id).tags@),
                        tag@,
                        exclude,
                    ),
                )
            },
            Err(e) => {
                &&& e == Error::NotFound
                &&& !old(store).has_filter(filter_id)
                &&& *final(store) == *old(store)
            },
        },
{
    let fi = match find_filter(store, filter_id) {
        Some(fi) => fi,
        None => {
            return Err(Error::NotFound);
        },
    };
    proof {
        store.lemma_filter_idx(fi as int);
    }
    let ghost pre = *store;
    let tag_owned: String = tag.to_owned();
    let mut row = store.filters.remove(fi);
    let ghost old_view = tags_view(row.tags@);
    match find_tag_pos(&row.tags, &tag_owned) {
        Some(p) => {
            let t = row.tags.remove(p);
            row.tags.insert(p, Tag { tag: t.tag, exclude });
            proof {
                assert(label_idx(old_view, tag@) == p as int) by {
                    assert(old_view[p as int].0 == tag@);
                    let k = label_idx(old_view, tag@);
                    if k < p as int {
                        assert(pre.filters@[fi as int].tags@[k].tag@ != pre.filters@[fi as int].tags@[p as int].tag@);
                    } else if k > p as int {
                        assert(pre.filters@[fi as int].tags@[p as int].tag@ != pre.filters@[fi as int].tags@[k].tag@);
                    }
                }
                assert(tags_view(row.tags@) =~= spec_upsert(old_view, tag@, exclude)) by {
                    assert(row.tags@ =~= pre.filters@[fi as int].tags@.update(
                        p as int,
                        Tag { tag: t.tag, exclude },
                    ));
                    assert(t.tag@ == tag@);
                }
            }
        },
        None => {
            row.tags.push(Tag { tag: tag_owned, exclude });
            proof {
                assert(tags_view(row.tags@) =~= spec_upsert(old_view, tag@, exclude));
            }
        },
    }
    store.filters.insert(fi, row);
    proof {
        assert(store.filters@ =~= pre.filters@.update(fi as int, store.filters@[fi as int]));
        assert forall|i: int, j1: int, j2: int|
            0 <= i < store.filters@.len() && 0 <= j1 < j2
                < store.filters@[i].tags@.len() implies store.filters@[i].tags@[j1].tag@
            != store.filters@[i].tags@[j2].tag@ by {
            if i == fi as int {
                let nv = tags_view(store.filters@[i].tags@);
                let ov = tags_view(pre.filters@[i].tags@);
                assert(nv == spec_upsert(ov, tag@, exclude));
                if has_label(ov, tag@) {
                    assert(nv[j1].0 == ov[j1].0 || nv[j1].0 == tag@);
                    assert(ov[label_idx(ov, tag@)].0 == tag@);
                    if j1 != label_idx(ov, tag@) && j2 != label_idx(ov, tag@) {
                        assert(ov[j1].0 != ov[j2].0);
                    } else if j1 == label_idx(ov, tag@) {
                        assert(ov[j1].0 == tag@ && nv[j1].0 == tag@);
                        assert(ov[j2].0 != tag@);
                    } else {
                        assert(ov[j2].0 == tag@ && nv[j2].0 == tag@);
                        assert(ov[j1].0 != tag@);
                    }
                } else {
                    if j2 == nv.len() - 1 {
                        assert(nv[j2].0 == tag@);
                        assert(ov[j1].0 != tag@);
                    } else {
                        assert(ov[j1].0 != ov[j2].0);
                    }
                }
            } else {
                assert(store.filters@[i] == pre.filters@[i]);
            }
        }
    }
    Ok(())
}

/// Sets the role of an existing tag membership; when the filter holds no
/// membership for the label, nothing changes (the criterion is left alone
/// rather than extended).  Fails with `NotFound` exactly when the filter is
/// absent.
pub fn set_excluded(store: &mut Store, filter_id: Id, tag: &str, exclude: bool) -> (r: Result<
    (),
    Error,
>)
    requires
        old(store).wf(),
    ensures
        final(store).wf(),
        match r {
            Ok(u) => {
                &&& u == ()
                &&& old(store).has_filter(filter_id)
                &&& filter_tags_updated(
                    *old(store),
                    *final(store),
                    filter_id,
                    spec_set_excluded(
                        tags_view(old(store).spec_filter(filter_id).tags@),
                        tag@,
                        exclude,
                    ),
                )
            },
            Err(e) => {
                &&& e == Error::NotFound
                &&& !old(store).has_filter(filter_id)
                &&& *final(store) == *old(store)
            },
        },
{
    let fi = match find_filter(store, filter_id) {
        Some(fi) => fi,
        None => {
            return Err(Error::NotFound);
        },
    };
    proof {
        store.lemma_filter_idx(fi as int);
    }
    let ghost pre = *store;
    let tag_owned: String = tag.to_owned();
    let mut row = store.filters.remove(fi);
    let ghost old_view = tags_view(row.tags@);
    match find_tag_pos(&row.tags, &tag_owned) {
        Some(p) => {
            let t = row.tags.remove(p);
            row.tags.insert(p, Tag { tag: t.tag, exclude });
            proof {
                assert(label_idx(old_view, tag@) == p as int) by {
                    assert(old_view[p as int].0 == tag@);
                    let k = label_idx(old_view, tag@);
                    if k < p as int {
                        assert(pre.filters@[fi as int].tags@[k].tag@ != pre.filters@[fi as int].tags@[p as int].tag@);
                    } else if k > p as int {
                        assert(pre.filters@[fi as int].tags@[p as int].tag@ != pre.filters@[fi as int].tags@[k].tag@);
                    }
                }
                assert(tags_view(row.tags@) =~= spec_set_excluded(old_view, tag@, exclude)) by {
                    assert(row.tags@ =~= pre.filters@[fi as int].tags@.update(
                        p as int,
                        Tag { tag: t.tag, exclude },
                    ));
                    assert(t.tag@ == tag@);
                }
            }
        },
        None => {
            proof {
                assert(tags_view(row.tags@) =~= spec_set_excluded(old_view, tag@, exclude));
            }
        },
    }
    store.filters.insert(fi, row);
    proof {
        assert(store.filters@ =~= pre.filters@.update(fi as int, store.filters@[fi as int]));
        assert forall|i: int, j1: int, j2: int|
            0 <= i < store.filters@.len() && 0 <= j1 < j2
                < store.filters@[i].tags@.len() implies store.filters@[i].tags@[j1].tag@
            != store.filters@[i].tags@[j2].tag@ by {
            if i == fi as int {
                let nv = tags_view(store.filters@[i].tags@);
                let ov = tags_view(pre.filters@[i].tags@);
                assert(nv == spec_set_excluded(ov, tag@, exclude));
                if has_label(ov, tag@) {
                    assert(ov[label_idx(ov, tag@)].0 == tag@);
                    if j1 != label_idx(ov, tag@) && j2 != label_idx(ov, tag@) {
                        assert(ov[j1].0 != ov[j2].0);
                    } else if j1 == label_idx(ov, tag@) {
                        assert(ov[j1].0 == tag@ && nv[j1].0 == tag@);
                        assert(ov[j2].0 != tag@);
                    } else {
                        assert(ov[j2].0 == tag@ && nv[j2].0 == tag@);
                        assert(ov[j1].0 != tag@);
                    }
                } else {
                    assert(ov[j1].0 != ov[j2].0);
                }
            } else {
                assert(store.filters@[i] == pre.filters@[i]);
            }
        }
    }
    Ok(())
}

/// Creates a filter with an empty criterion for the pack; the fresh id is
/// returned.  Fails with `NotFound` exactly when the pack is absent.
pub fn create(store: &mut Store, pack_id: crate::pack::Id, label: &str) -> (r: Result<Id, Error>)
    requires
        old(store).wf(),
        old(store).next_filter_id < u32::MAX,
    ensures
        final(store).wf(),
        match r {
            Ok(id) => {
                &&& old(store).has_pack(pack_id)
                &&& id == old(store).next_filter_id
                &&& !old(store).has_filter(id)
                &&& final(store).has_filter(id)
                &&& same_except_filters(*old(store), *final(store))
                &&& final(store).next_filter_id == old(store).next_filter_id + 1
                &&& final(store).filters@.len() == old(store).filters@.len() + 1
                &&& (forall|i: int|
                    0 <= i < old(store).filters@.len() ==> final(store).filters@[i] == old(
                        store,
                    ).filters@[i])
                &&& final(store).filters@.last().id == id
                &&& final(store).filters@.last().pack_id == pack_id
                &&& final(store).filters@.last().label@ == label@
                &&& final(store).filters@.last().tags@.len() == 0
            },
            Err(e) => {
                &&& e == Error::NotFound
                &&& !old(store).has_pack(pack_id)
                &&& *final(store) == *old(store)
            },
        },
{
    if find_pack(store, pack_id).is_none() {
        return Err(Error::NotFound);
    }
    let id = store.next_filter_id;
    let row = FilterRow { id, pack_id, label: label.to_owned(), tags: Vec::new() };
    store.filters.push(row);
    store.next_filter_id = id + 1;
    proof {
        assert(store.has_filter(id)) by {
            assert(store.filters@.last().id == id);
        }
    }
    Ok(id)
}

/// The label of a filter.  Fails with `NotFound` exactly when the filter is
/// absent.
pub fn get_label(store: &Store, id: Id) -> (r: Result<String, Error>)
    requires
        store.wf(),
    ensures
        match r {
            Ok(label) => store.has_filter(id) && label@ == store.spec_filter(id).label@,
            Err(e) => e == Error::NotFound && !store.has_filter(id),
        },
{
    match find_filter(store, id) {
        Some(fi) => {
            proof {
                store.lemma_filter_idx(fi as int);
            }
            Ok(store.filters[fi].label.clone())
        },
        None => Err(Error::NotFound),
    }
}

/// Membership rows ordered ascending by their case-folded labels.
pub open spec fn tags_sorted_by_folded(s: Seq<Tag>) -> bool {
    forall|i: int, j: int|
        #![trigger s[i], s[j]]
        0 <= i < j < s.len() ==> seq_le(lower_of(s[i].tag@), lower_of(s[j].tag@))
}

/// Sorts membership rows ascending by their case-folded labels, keeping the
/// rows exactly.
fn sort_tags_by_folded(input: Vec<Tag>) -> (r: Vec<Tag>)
    ensures
        r@.to_multiset() == input@.to_multiset(),
        tags_sorted_by_folded(r@),
{
    let ghost orig = input@;
    let mut rest = input;
    let mut out: Vec<Tag> = Vec::new();
    while rest.len() > 0
        invariant
            out@.to_multiset().add(rest@.to_multiset()) == orig.to_multiset(),
            tags_sorted_by_folded(out@),
            forall|i: int, j: int|
                #![trigger out@[i], rest@[j]]
                0 <= i < out@.len() && 0 <= j < rest@.len() ==> seq_le(
                    lower_of(out@[i].tag@),
                    lower_of(rest@[j].tag@),
                ),
        decreases rest@.len(),
    {
        let mut m: usize = 0;
        let mut mkey: String = to_lowercase(rest[0].tag.as_str());
        proof {
            lemma_seq_le_refl(mkey@);
        }
        let mut k: usize = 1;
        while k < rest.len()
            invariant
                rest@.len() > 0,
                0 <= m < k <= rest@.len(),
                mkey@ == lower_of(rest@[m as int].tag@),
                forall|j: int|
                    0 <= j < k ==> seq_le(
                        lower_of(rest@[m as int].tag@),
                        lower_of((#[trigger] rest@[j]).tag@),
                    ),
            decreases rest@.len() - k,
        {
            let ckey = to_lowercase(rest[k].tag.as_str());
            if str_le(ckey.as_str(), mkey.as_str()) {
                proof {
                    lemma_seq_le_refl(ckey@);
                    assert forall|j: int| 0 <= j < k + 1 implies seq_le(
                        lower_of(rest@[k as int].tag@),
                        lower_of((#[trigger] rest@[j]).tag@),
                    ) by {
                        if j < k {
                            lemma_seq_le_trans(ckey@, mkey@, lower_of(rest@[j].tag@));
                        }
                    }
                }
                m = k;
                mkey = ckey;
            } else {
                proof {
                    lemma_seq_le_total(ckey@, mkey@);
                }
            }
            k += 1;
        }
        let ghost pre_rest = rest@;
        let ghost prev_out = out@;
        let t = rest.remove(m);
        out.push(t);
        proof {
            assert(out@.to_multiset() =~= prev_out.to_multiset().insert(t));
            assert(rest@.to_multiset() =~= pre_rest.to_multiset().remove(t));
            assert(pre_rest.contains(t)) by {
                assert(pre_rest[m as int] == t);
            }
            assert(pre_rest.to_multiset().count(t) > 0);
            assert(out@.to_multiset().add(rest@.to_multiset()) =~= orig.to_multiset()) by {
                assert forall|x: Tag|
                    out@.to_multiset().add(rest@.to_multiset()).count(x)
                        == orig.to_multiset().count(x) by {
                    assert(prev_out.to_multiset().add(pre_rest.to_multiset()).count(x)
                        == orig.to_multiset().count(x));
                }
            }
            assert forall|i: int, j: int|
                #![trigger out@[i], out@[j]]
                0 <= i < j < out@.len() implies seq_le(
                lower_of(out@[i].tag@),
                lower_of(out@[j].tag@),
            ) by {
                if j == out@.len() - 1 {
                    assert(out@[i] == prev_out[i] && out@[j] == pre_rest[m as int]);
                } else {
                    assert(out@[i] == prev_out[i] && out@[j] == prev_out[j]);
                }
            }
            assert forall|i: int, j: int|
                #![trigger out@[i], rest@[j]]
                0 <= i < out@.len() && 0 <= j < rest@.len() implies seq_le(
                lower_of(out@[i].tag@),
                lower_of(rest@[j].tag@),
            ) by {
                let pj: int = if j < m as int {
                    j
                } else {
                    j + 1
                };
                assert(rest@[j] == pre_rest[pj]);
                if i < prev_out.len() {
                    assert(out@[i] == prev_out[i]);
                } else {
                    assert(out@[i] == pre_rest[m as int]);
                }
            }
        }
    }
    proof {
        assert(out@.to_multiset() =~= orig.to_multiset()) by {
            assert forall|x: Tag| out@.to_multiset().count(x) == orig.to_multiset().count(x) by {
                assert(out@.to_multiset().add(rest@.to_multiset()).count(x)
                    == orig.to_multiset().count(x));
                assert(rest@.to_multiset().count(x) == 0) by {
                    if rest@.to_multiset().count(x) > 0 {
                        assert(rest@.contains(x));
                    }
                }
            }
        }
    }
    out
}

/// The membership rows of a filter, exactly and each at most once, ordered
/// ascending by their case-folded labels.  Fails with `NotFound` exactly
/// when the filter is absent.
pub fn list_tags(store: &Store, id: Id) -> (r: Result<Vec<Tag>, Error>)
    requires
        store.wf(),
    ensures
        match r {
            Ok(tags) => {
                &&& store.has_filter(id)
                &&& tags@.to_multiset() == store.spec_filter(id).tags@.to_multiset()
                &&& tags_sorted_by_folded(tags@)
            },
            Err(e) => e == Error::NotFound && !store.has_filter(id),
        },
{
    match find_filter(store, id) {
        Some(fi) => {
            proof {
                store.lemma_filter_idx(fi as int);
            }
            let source = &store.filters[fi].tags;
            let mut tags: Vec<Tag> = Vec::new();
            let mut i: usize = 0;
            while i < source.len()
                invariant
                    0 <= i <= source@.len(),
                    tags@ == source@.take(i as int),
                decreases source@.len() - i,
            {
                tags.push(source[i].clone());
                proof {
                    assert(tags@ =~= source@.take(i + 1));
                }
                i += 1;
            }
            proof {
                assert(source@.take(source@.len() as int) =~= source@);
            }
            Ok(sort_tags_by_folded(tags))
        },
        None => Err(Error::NotFound),
    }
}

/// Upserting the same tag membership twice leaves the criterion exactly as
/// one upsert does: a single membership for the label, holding the given
/// role, and no label duplicated.
pub proof fn lemma_add_tag_idempotent(m: Seq<(Seq<char>, bool)>, label: Seq<char>, exclude: bool)
    requires
        distinct_labels(m),
    ensures
        spec_upsert(spec_upsert(m, label, exclude), label, exclude) == spec_upsert(
            m,
            label,
            exclude,
        ),
        distinct_labels(spec_upsert(m, label, exclude)),
        has_label(spec_upsert(m, label, exclude), label),
        spec_upsert(m, label, exclude)[label_idx(spec_upsert(m, label, exclude), label)] == (
        label,
        exclude,
        ),
{
    let m1 = spec_upsert(m, label, exclude);
    if has_label(m, label) {
        let i = label_idx(m, label);
        assert(0 <= i < m.len() && m[i].0 == label);
        assert(m1 == m.update(i, (label, exclude)));
        assert(distinct_labels(m1)) by {
            assert forall|a: int, b: int| 0 <= a < b < m1.len() implies m1[a].0 != m1[b].0 by {
                assert(m1[a].0 == m[a].0 && m1[b].0 == m[b].0);
            }
        }
        assert(m1[i] == (label, exclude));
        assert(has_label(m1, label));
        assert(label_idx(m1, label) == i) by {
            let k = label_idx(m1, label);
            assert(0 <= k < m1.len() && m1[k].0 == label);
            if k < i {
                assert(m1[k].0 == m[k].0 && m1[i].0 == m[i].0);
                assert(m[k].0 != m[i].0);
            } else if k > i {
                assert(m1[k].0 == m[k].0);
                assert(m[i].0 != m[k].0);
            }
        }
        assert(spec_upsert(m1, label, exclude) =~= m1);
    } else {
        assert(m1 == m.push((label, exclude)));
        assert(forall|j: int| 0 <= j < m.len() ==> (#[trigger] m[j]).0 != label);
        assert(distinct_labels(m1)) by {
            assert forall|a: int, b: int| 0 <= a < b < m1.len() implies m1[a].0 != m1[b].0 by {
                if b == m1.len() - 1 {
                    assert(m1[b].0 == label && m1[a].0 == m[a].0);
                } else {
                    assert(m1[a].0 == m[a].0 && m1[b].0 == m[b].0);
                }
            }
        }
        assert(m1[m.len() as int] == (label, exclude));
        assert(has_label(m1, label));
        assert(label_idx(m1, label) == m.len()) by {
            let k = label_idx(m1, label);
            assert(0 <= k < m1.len() && m1[k].0 == label);
            if k < m.len() {
                assert(m1[k].0 == m[k].0);
            }
        }
        assert(spec_upsert(m1, label, exclude) =~= m1);
    }
}

/// Moving a membership from its place to the end keeps both role sets.
proof fn lemma_move_to_end_roles(
    m: Seq<(Seq<char>, bool)>,
    i: int,
    label: Seq<char>,
    exclude: bool,
    e: bool,
)
    requires
        0 <= i < m.len(),
        m[i].0 == label,
        m[i].1 == exclude,
    ensures
        role_of(m.remove(i).push((label, exclude)), e) == role_of(m, e),
{
    let m2 = m.remove(i).push((label, exclude));
    assert forall|x: Seq<char>| role_of(m2, e).contains(x) <==> role_of(m, e).contains(x) by {
        if role_of(m2, e).contains(x) {
            let k = choose|k: int|
                0 <= k < m2.len() && (#[trigger] m2[k]).1 == e && m2[k].0 == x;
            if k == m2.len() - 1 {
                assert(m[i].1 == e && m[i].0 == x);
            } else if k < i {
                assert(m[k].1 == e && m[k].0 == x);
            } else {
                assert(m[k + 1].1 == e && m[k + 1].0 == x);
            }
        }
        if role_of(m, e).contains(x) {
            let k = choose|k: int| 0 <= k < m.len() && (#[trigger] m[k]).1 == e && m[k].0 == x;
            if k == i {
                assert(m2[m2.len() - 1].1 == e && m2[m2.len() - 1].0 == x);
            } else if k < i {
                assert(m2[k].1 == e && m2[k].0 == x);
            } else {
                assert(m2[k - 1].1 == e && m2[k - 1].0 == x);
            }
        }
    }
    assert(role_of(m2, e) =~= role_of(m, e));
}

/// Removing a tag membership and re-adding it with the same role restores
/// the criterion's matching behaviour on every tag set.
pub proof fn lemma_remove_readd_round_trip(
    m: Seq<(Seq<char>, bool)>,
    label: Seq<char>,
    exclude: bool,
    tags: Set<Seq<char>>,
)
    requires
        distinct_labels(m),
        has_label(m, label),
        m[label_idx(m, label)].1 == exclude,
    ensures
        spec_matches(
            role_of(spec_upsert(spec_remove_tag(m, label), label, exclude), false),
            role_of(spec_upsert(spec_remove_tag(m, label), label, exclude), true),
            tags,
        ) == spec_matches(role_of(m, false), role_of(m, true), tags),
{
    let i = label_idx(m, label);
    assert(0 <= i < m.len() && m[i].0 == label);
    let mr = m.remove(i);
    assert(spec_remove_tag(m, label) == mr);
    assert(!has_label(mr, label)) by {
        if has_label(mr, label) {
            let k = choose|k: int| 0 <= k < mr.len() && (#[trigger] mr[k]).0 == label;
            if k < i {
                assert(m[k].0 == label);
                assert(m[k].0 != m[i].0);
            } else {
                assert(m[k + 1].0 == label);
                assert(m[i].0 != m[k + 1].0);
            }
            assert(false);
        }
    }
    assert(spec_upsert(mr, label, exclude) == mr.push((label, exclude)));
    lemma_move_to_end_roles(m, i, label, exclude, false);
    lemma_move_to_end_roles(m, i, label, exclude, true);
}

/// The filter would accept this card: the card exists, belongs to the
/// filter's pack, and its tag set satisfies the filter's criterion.
pub open spec fn spec_selects(store: Store, id: Id, cid: crate::card::Id) -> bool {
    select::matching_id(
        store,
        Some(store.spec_filter(id).pack_id),
        role_set(store.spec_filter(id).tags@, false),
        role_set(store.spec_filter(id).tags@, true),
        cid,
    )
}

/// The filter currently selects at least one card of its pack.
pub open spec fn spec_valid(store: Store, id: Id) -> bool {
    select::any_matching(
        store,
        Some(store.spec_filter(id).pack_id),
        role_set(store.spec_filter(id).tags@, false),
        role_set(store.spec_filter(id).tags@, true),
    )
}

/// A filter whose criterion holds some label in both roles is permanently
/// unsatisfiable: it selects no card at all, whatever the store holds, so
/// its card selection is always absent and its validity always false.
pub proof fn lemma_overlapping_filter_selects_nothing(
    store: Store,
    id: Id,
    label: Seq<char>,
)
    requires
        role_set(store.spec_filter(id).tags@, false).contains(label),
        role_set(store.spec_filter(id).tags@, true).contains(label),
    ensures
        !spec_valid(store, id),
        forall|cid: crate::card::Id| !spec_selects(store, id, cid),
{
    let inc = role_set(store.spec_filter(id).tags@, false);
    let exc = role_set(store.spec_filter(id).tags@, true);
    let scope = Some(store.spec_filter(id).pack_id);
    assert(!spec_valid(store, id)) by {
        if select::any_matching(store, scope, inc, exc) {
            let k = choose|k: int|
                0 <= k < store.cards@.len() && select::in_scope(scope, #[trigger] store.cards@[k])
                    && spec_matches(inc, exc, label_set(store.cards@[k].tags@));
            crate::lemma_overlap_unsatisfiable(inc, exc, label, label_set(store.cards@[k].tags@));
            assert(false);
        }
    }
    assert forall|cid: crate::card::Id| !spec_selects(store, id, cid) by {
        if select::matching_id(store, scope, inc, exc, cid) {
            let k = choose|k: int|
                0 <= k < store.cards@.len() && (#[trigger] store.cards@[k]).id == cid
                    && select::in_scope(scope, store.cards@[k]) && spec_matches(
                    inc,
                    exc,
                    label_set(store.cards@[k].tags@),
                );
            crate::lemma_overlap_unsatisfiable(inc, exc, label, label_set(store.cards@[k].tags@));
            assert(false);
        }
    }
}

/// Selects one card of the filter's pack satisfying its criterion, in a
/// fresh random order; absent exactly when no card of the pack satisfies it.
/// Fails with `NotFound` exactly when the filter is absent.
pub fn next_card(store: &Store, filter_id: Id) -> (r: Result<Option<crate::card::Id>, Error>)
    requires
        store.wf(),
    ensures
        match r {
            Ok(c) => store.has_filter(filter_id) && match c {
                Some(cid) => spec_selects(*store, filter_id, cid),
                None => !spec_valid(*store, filter_id),
            },
            Err(e) => e == Error::NotFound && !store.has_filter(filter_id),
        },
{
    let fi = match find_filter(store, filter_id) {
        Some(fi) => fi,
        None => {
            return Err(Error::NotFound);
        },
    };
    proof {
        store.lemma_filter_idx(fi as int);
    }
    let row = &store.filters[fi];
    let ts = TagSets::new(&row.tags);
    Ok(select::find_matching_card(store, Some(row.pack_id), &ts))
}

/// Whether the filter currently selects at least one card.  Fails with
/// `NotFound` exactly when the filter is absent.
pub fn check_validity(store: &Store, id: Id) -> (r: Result<bool, Error>)
    requires
        store.wf(),
    ensures
        match r {
            Ok(b) => store.has_filter(id) && b == spec_valid(*store, id),
            Err(e) => e == Error::NotFound && !store.has_filter(id),
        },
{
    let ghost inc = role_set(store.spec_filter(id).tags@, false);
    let ghost exc = role_set(store.spec_filter(id).tags@, true);
    match next_card(store, id) {
        Ok(Some(cid)) => {
            proof {
                let scope = Some(store.spec_filter(id).pack_id);
                let k = choose|k: int|
                    0 <= k < store.cards@.len() && (#[trigger] store.cards@[k]).id == cid
                        && select::in_scope(scope, store.cards@[k]) && spec_matches(
                        inc,
                        exc,
                        label_set(store.cards@[k].tags@),
                    );
                assert(select::any_matching(*store, scope, inc, exc));
            }
            Ok(true)
        },
        Ok(None) => Ok(false),
        Err(e) => Err(e),
    }
}

/// Full view of a filter: its label, its membership rows, and whether it
/// currently selects any card.  Fails with `NotFound` exactly when the
/// filter is absent.
pub fn get(store: &Store, id: Id) -> (r: Result<Filter, Error>)
    requires
        store.wf(),
    ensures
        match r {
            Ok(f) => {
                &&& store.has_filter(id)
                &&& f.label@ == store.spec_filter(id).label@
                &&& f.tags@.to_multiset() == store.spec_filter(id).tags@.to_multiset()
                &&& tags_sorted_by_folded(f.tags@)
                &&& f.is_valid == spec_valid(*store, id)
            },
            Err(e) => e == Error::NotFound && !store.has_filter(id),
        },
{
    let label = match get_label(store, id) {
        Ok(label) => label,
        Err(e) => {
            return Err(e);
        },
    };
    let tags = match list_tags(store, id) {
        Ok(tags) => tags,
        Err(e) => {
            return Err(e);
        },
    };
    let is_valid = match check_validity(store, id) {
        Ok(b) => b,
        Err(e) => {
            return Err(e);
        },
    };
    Ok(Filter { label, tags, is_valid })
}

/// A summary row drawn from some filter of the pack.
pub open spec fn summary_of_pack(store: Store, pack_id: crate::pack::Id, s: Summary) -> bool {
    exists|i: int|
        0 <= i < store.filters@.len() && (#[trigger] store.filters@[i]).pack_id == pack_id
            && store.filters@[i].id == s.id && store.filters@[i].label == s.label
}

/// The summary list holds a row with the id.
pub open spec fn listed_summary(r: Seq<Summary>, id: Id) -> bool {
    exists|j: int| 0 <= j < r.len() && (#[trigger] r[j]).id == id
}

/// Exactly the filters of the pack, summarised: every row comes from such a
/// filter, every such filter appears, and no id repeats.
pub open spec fn summarises_pack(store: Store, pack_id: crate::pack::Id, r: Seq<Summary>) -> bool {
    &&& (forall|j: int| 0 <= j < r.len() ==> summary_of_pack(store, pack_id, #[trigger] r[j]))
    &&& (forall|i: int|
        0 <= i < store.filters@.len() && (#[trigger] store.filters@[i]).pack_id == pack_id
            ==> listed_summary(r, store.filters@[i].id))
    &&& (forall|a: int, b: int| 0 <= a < b < r.len() ==> r[a].id != r[b].id)
}

/// Summary rows ordered ascending by their case-folded labels.
pub open spec fn summaries_sorted_by_folded(s: Seq<Summary>) -> bool {
    forall|i: int, j: int|
        #![trigger s[i], s[j]]
        0 <= i < j < s.len() ==> seq_le(lower_of(s[i].label@), lower_of(s[j].label@))
}

/// Sorts summary rows ascending by their case-folded labels, keeping the
/// rows (and the distinctness of their ids) exactly.
fn sort_summaries_by_folded(input: Vec<Summary>) -> (r: Vec<Summary>)
    requires
        forall|a: int, b: int| 0 <= a < b < input@.len() ==> input@[a].id != input@[b].id,
    ensures
        r@.to_multiset() == input@.to_multiset(),
        summaries_sorted_by_folded(r@),
        forall|a: int, b: int| 0 <= a < b < r@.len() ==> r@[a].id != r@[b].id,
        forall|j: int| 0 <= j < r@.len() ==> input@.contains(#[trigger] r@[j]),
        forall|j: int| 0 <= j < input@.len() ==> r@.contains(#[trigger] input@[j]),
{
    let ghost orig = input@;
    let mut rest = input;
    let mut out: Vec<Summary> = Vec::new();
    while rest.len() > 0
        invariant
            out@.to_multiset().add(rest@.to_multiset()) == orig.to_multiset(),
            summaries_sorted_by_folded(out@),
            forall|i: int, j: int|
                #![trigger out@[i], rest@[j]]
                0 <= i < out@.len() && 0 <= j < rest@.len() ==> seq_le(
                    lower_of(out@[i].label@),
                    lower_of(rest@[j].label@),
                ) && out@[i].id != rest@[j].id,
            forall|a: int, b: int| 0 <= a < b < out@.len() ==> out@[a].id != out@[b].id,
            forall|a: int, b: int| 0 <= a < b < rest@.len() ==> rest@[a].id != rest@[b].id,
        decreases rest@.len(),
    {
        let mut m: usize = 0;
        let mut mkey: String = to_lowercase(rest[0].label.as_str());
        proof {
            lemma_seq_le_refl(mkey@);
        }
        let mut k: usize = 1;
        while k < rest.len()
            invariant
                rest@.len() > 0,
                0 <= m < k <= rest@.len(),
                mkey@ == lower_of(rest@[m as int].label@),
                forall|j: int|
                    0 <= j < k ==> seq_le(
                        lower_of(rest@[m as int].label@),
                        lower_of((#[trigger] rest@[j]).label@),
                    ),
            decreases rest@.len() - k,
        {
            let ckey = to_lowercase(rest[k].label.as_str());
            if str_le(ckey.as_str(), mkey.as_str()) {
                proof {
                    lemma_seq_le_refl(ckey@);
                    assert forall|j: int| 0 <= j < k + 1 implies seq_le(
                        lower_of(rest@[k as int].label@),
                        lower_of((#[trigger] rest@[j]).label@),
                    ) by {
                        if j < k {
                            lemma_seq_le_trans(ckey@, mkey@, lower_of(rest@[j].label@));
                        }
                    }
                }
                m = k;
                mkey = ckey;
            } else {
                proof {
                    lemma_seq_le_total(ckey@, mkey@);
                }
            }
            k += 1;
        }
        let ghost pre_rest = rest@;
        let ghost prev_out = out@;
        let t = rest.remove(m);
        out.push(t);
        proof {
            assert(out@.to_multiset() =~= prev_out.to_multiset().insert(t));
            assert(rest@.to_multiset() =~= pre_rest.to_multiset().remove(t));
            assert(pre_rest.contains(t)) by {
                assert(pre_rest[m as int] == t);
            }
            assert(pre_rest.to_multiset().count(t) > 0);
            assert(out@.to_multiset().add(rest@.to_multiset()) =~= orig.to_multiset()) by {
                assert forall|x: Summary|
                    out@.to_multiset().add(rest@.to_multiset()).count(x)
                        == orig.to_multiset().count(x) by {
                    assert(prev_out.to_multiset().add(pre_rest.to_multiset()).count(x)
                        == orig.to_multiset().count(x));
                }
            }
            assert forall|i: int, j: int|
                #![trigger out@[i], out@[j]]
                0 <= i < j < out@.len() implies seq_le(
                lower_of(out@[i].label@),
                lower_of(out@[j].label@),
            ) && out@[i].id != out@[j].id by {
                if j == out@.len() - 1 {
                    assert(out@[i] == prev_out[i] && out@[j] == pre_rest[m as int]);
                } else {
                    assert(out@[i] == prev_out[i] && out@[j] == prev_out[j]);
                }
            }
            assert forall|i: int, j: int|
                #![trigger out@[i], rest@[j]]
                0 <= i < out@.len() && 0 <= j < rest@.len() implies seq_le(
                lower_of(out@[i].label@),
                lower_of(rest@[j].label@),
            ) && out@[i].id != rest@[j].id by {
                let pj: int = if j < m as int {
                    j
                } else {
                    j + 1
                };
                assert(rest@[j] == pre_rest[pj]);
                if i < prev_out.len() {
                    assert(out@[i] == prev_out[i]);
                } else {
                    assert(out@[i] == pre_rest[m as int]);
                    if pj < m as int {
                        assert(pre_rest[pj].id != pre_rest[m as int].id);
                    } else {
                        assert(pre_rest[m as int].id != pre_rest[pj].id);
                    }
                }
            }
            assert forall|a: int, b: int| 0 <= a < b < rest@.len() implies rest@[a].id
                != rest@[b].id by {
                let pa: int = if a < m as int {
                    a
                } else {
                    a + 1
                };
                let pb: int = if b < m as int {
                    b
                } else {
                    b + 1
                };
                assert(rest@[a] == pre_rest[pa] && rest@[b] == pre_rest[pb]);
                assert(pre_rest[pa].id != pre_rest[pb].id);
            }
        }
    }
    proof {
        assert(out@.to_multiset() =~= orig.to_multiset()) by {
            assert forall|x: Summary|
                out@.to_multiset().count(x) == orig.to_multiset().count(x) by {
                assert(out@.to_multiset().add(rest@.to_multiset()).count(x)
                    == orig.to_multiset().count(x));
                assert(rest@.to_multiset().count(x) == 0) by {
                    if rest@.to_multiset().count(x) > 0 {
                        assert(rest@.contains(x));
                    }
                }
            }
        }
        assert forall|j: int| 0 <= j < out@.len() implies orig.contains(#[trigger] out@[j]) by {
            assert(out@.contains(out@[j]));
            assert(out@.to_multiset().count(out@[j]) > 0);
            assert(orig.to_multiset().count(out@[j]) > 0);
        }
        assert forall|j: int| 0 <= j < orig.len() implies out@.contains(#[trigger] orig[j]) by {
            assert(orig.contains(orig[j]));
            assert(orig.to_multiset().count(orig[j]) > 0);
            assert(out@.to_multiset().count(orig[j]) > 0);
        }
    }
    out
}

/// The filters of one pack, summarised ascending by their case-folded
/// labels.
pub fn list_by_pack(store: &Store, pack_id: crate::pack::Id) -> (r: Vec<Summary>)
    requires
        store.wf(),
    ensures
        summarises_pack(*store, pack_id, r@),
        summaries_sorted_by_folded(r@),
{
    let mut r: Vec<Summary> = Vec::new();
    // For each summary, the index of its filter in the store.
    let ghost mut src: Seq<int> = Seq::empty();
    let mut i: usize = 0;
    while i < store.filters.len()
        invariant
            store.wf(),
            0 <= i <= store.filters@.len(),
            src.len() == r@.len(),
            forall|a: int, b: int| 0 <= a < b < src.len() ==> src[a] < src[b],
            forall|j: int|
                0 <= j < r@.len() ==> 0 <= #[trigger] src[j] < i && store.filters@[src[j]].pack_id
                    == pack_id && store.filters@[src[j]].id == r@[j].id
                    && store.filters@[src[j]].label == r@[j].label,
            forall|k: int|
                0 <= k < i && (#[trigger] store.filters@[k]).pack_id == pack_id ==> listed_summary(
                    r@,
                    store.filters@[k].id,
                ),
        decreases store.filters@.len() - i,
    {
        if store.filters[i].pack_id == pack_id {
            let ghost prev = r@;
            r.push(Summary { id: store.filters[i].id, label: store.filters[i].label.clone() });
            proof {
                src = src.push(i as int);
                assert forall|k: int|
                    0 <= k < i + 1 && (#[trigger] store.filters@[k]).pack_id == pack_id implies
                    listed_summary(r@, store.filters@[k].id) by {
                    if k < i {
                        let j = choose|j: int|
                            0 <= j < prev.len() && (#[trigger] prev[j]).id == store.filters@[k].id;
                        assert(r@[j].id == store.filters@[k].id);
                    } else {
                        assert(r@[r@.len() - 1].id == store.filters@[k].id);
                    }
                }
            }
        }
        i += 1;
    }
    proof {
        assert forall|j: int| 0 <= j < r@.len() implies summary_of_pack(
            *store,
            pack_id,
            #[trigger] r@[j],
        ) by {
            assert(0 <= src[j] < store.filters@.len() && store.filters@[src[j]].pack_id == pack_id
                && store.filters@[src[j]].id == r@[j].id && store.filters@[src[j]].label
                == r@[j].label);
        }
        assert forall|a: int, b: int| 0 <= a < b < r@.len() implies r@[a].id != r@[b].id by {
            assert(r@[a].id == store.filters@[src[a]].id);
            assert(r@[b].id == store.filters@[src[b]].id);
            assert(src[a] < src[b]);
            assert(store.filters@[src[a]].id != store.filters@[src[b]].id);
        }
    }
    let ghost unsorted = r@;
    let sorted = sort_summaries_by_folded(r);
    proof {
        assert forall|j: int| 0 <= j < sorted@.len() implies summary_of_pack(
            *store,
            pack_id,
            #[trigger] sorted@[j],
        ) by {
            assert(unsorted.contains(sorted@[j]));
            let k = choose|k: int| 0 <= k < unsorted.len() && unsorted[k] == sorted@[j];
            assert(summary_of_pack(*store, pack_id, unsorted[k]));
        }
        assert forall|k: int|
            0 <= k < store.filters@.len() && (#[trigger] store.filters@[k]).pack_id
                == pack_id implies listed_summary(sorted@, store.filters@[k].id) by {
            assert(listed_summary(unsorted, store.filters@[k].id));
            let j = choose|j: int|
                0 <= j < unsorted.len() && (#[trigger] unsorted[j]).id == store.filters@[k].id;
            assert(sorted@.contains(unsorted[j]));
            let j2 = choose|j2: int| 0 <= j2 < sorted@.len() && sorted@[j2] == unsorted[j];
            assert(sorted@[j2].id == store.filters@[k].id);
        }
    }
    sorted
}

/// One listing group: a pack's title with the summaries of its filters.
pub struct FilterGroup {
    pub pack_title: String,
    pub filters: Vec<Summary>,
}

/// The group carries some pack's title together with exactly that pack's
/// filters, summarised.
pub open spec fn group_of_pack(store: Store, g: FilterGroup) -> bool {
    exists|p: int|
        0 <= p < store.packs@.len() && (#[trigger] store.packs@[p]).title == g.pack_title
            && summarises_pack(store, store.packs@[p].id, g.filters@)
}

/// At least one filter belongs to the pack.
pub open spec fn pack_has_filter(store: Store, pack_id: crate::pack::Id) -> bool {
    exists|i: int| 0 <= i < store.filters@.len() && (#[trigger] store.filters@[i]).pack_id == pack_id
}

/// The listing holds a group for the pack at position `p`: its title, with
/// exactly its filters.
pub open spec fn pack_grouped(r: Seq<FilterGroup>, store: Store, p: int) -> bool {
    exists|g: int|
        0 <= g < r.len() && (#[trigger] r[g]).pack_title == store.packs@[p].title
            && summarises_pack(store, store.packs@[p].id, r[g].filters@)
}

/// No filter id appears in two groups: together with each group's own
/// distinct ids, a filter is listed at most once across the whole listing.
pub open spec fn groups_disjoint(r: Seq<FilterGroup>) -> bool {
    forall|g1: int, g2: int, j1: int, j2: int|
        #![trigger r[g1].filters@[j1], r[g2].filters@[j2]]
        0 <= g1 < g2 < r.len() && 0 <= j1 < r[g1].filters@.len() && 0 <= j2
            < r[g2].filters@.len() ==> r[g1].filters@[j1].id != r[g2].filters@[j2].id
}

/// Every filter summarised under its owning pack's title, one group per pack
/// holding filters, in store order, each group ascending by case-folded
/// label.  Packs without filters contribute no group, no filter id appears
/// in two groups, and filters whose pack is gone appear in no group.
pub fn list_all(store: &Store) -> (r: Vec<FilterGroup>)
    requires
        store.wf(),
    ensures
        forall|g: int|
            0 <= g < r@.len() ==> group_of_pack(*store, #[trigger] r@[g]) && r@[g].filters@.len()
                > 0 && summaries_sorted_by_folded(r@[g].filters@),
        forall|p: int|
            0 <= p < store.packs@.len() && pack_has_filter(*store, (#[trigger] store.packs@[p]).id)
                ==> pack_grouped(r@, *store, p),
        groups_disjoint(r@),
{
    let mut r: Vec<FilterGroup> = Vec::new();
    // For each group, the position of its pack.
    let ghost mut src: Seq<int> = Seq::empty();
    let mut p: usize = 0;
    while p < store.packs.len()
        invariant
            store.wf(),
            0 <= p <= store.packs@.len(),
            src.len() == r@.len(),
            forall|a: int, b: int| 0 <= a < b < src.len() ==> src[a] < src[b],
            forall|g: int|
                0 <= g < r@.len() ==> 0 <= #[trigger] src[g] < p && r@[g].pack_title
                    == store.packs@[src[g]].title && summarises_pack(
                    *store,
                    store.packs@[src[g]].id,
                    r@[g].filters@,
                ),
            groups_disjoint(r@),
            forall|g: int|
                0 <= g < r@.len() ==> group_of_pack(*store, #[trigger] r@[g])
                    && r@[g].filters@.len() > 0 && summaries_sorted_by_folded(r@[g].filters@),
            forall|q: int|
                0 <= q < p && pack_has_filter(*store, (#[trigger] store.packs@[q]).id)
                    ==> pack_grouped(r@, *store, q),
        decreases store.packs@.len() - p,
    {
        let filters = list_by_pack(store, store.packs[p].id);
        let ghost prev = r@;
        if filters.len() > 0 {
            r.push(FilterGroup { pack_title: store.packs[p].title.clone(), filters });
            proof {
                src = src.push(p as int);
                assert(group_of_pack(*store, r@[r@.len() - 1])) by {
                    assert(store.packs@[p as int].title == r@[r@.len() - 1].pack_title
                        && summarises_pack(
                        *store,
                        store.packs@[p as int].id,
                        r@[r@.len() - 1].filters@,
                    ));
                }
                assert forall|g1: int, g2: int, j1: int, j2: int|
                    #![trigger r@[g1].filters@[j1], r@[g2].filters@[j2]]
                    0 <= g1 < g2 < r@.len() && 0 <= j1 < r@[g1].filters@.len() && 0 <= j2
                        < r@[g2].filters@.len() implies r@[g1].filters@[j1].id
                    != r@[g2].filters@[j2].id by {
                    if g2 == r@.len() - 1 {
                        assert(r@[g1] == prev[g1]);
                        let pid1 = store.packs@[src[g1]].id;
                        let pid2 = store.packs@[p as int].id;
                        let row1 = r@[g1].filters@[j1];
                        let row2 = r@[g2].filters@[j2];
                        assert(summary_of_pack(*store, pid1, row1));
                        assert(summary_of_pack(*store, pid2, row2));
                        if row1.id == row2.id {
                            let i1 = choose|i: int|
                                0 <= i < store.filters@.len()
                                    && (#[trigger] store.filters@[i]).pack_id == pid1
                                    && store.filters@[i].id == row1.id && store.filters@[i].label
                                    == row1.label;
                            let i2 = choose|i: int|
                                0 <= i < store.filters@.len()
                                    && (#[trigger] store.filters@[i]).pack_id == pid2
                                    && store.filters@[i].id == row2.id && store.filters@[i].label
                                    == row2.label;
                            if i1 < i2 {
                                assert(store.filters@[i1].id != store.filters@[i2].id);
                            } else if i2 < i1 {
                                assert(store.filters@[i2].id != store.filters@[i1].id);
                            } else {
                                assert(pid1 == pid2);
                                assert(src[g1] < p as int);
                                assert(store.packs@[src[g1]].id != store.packs@[p as int].id);
                            }
                            assert(false);
                        }
                    } else {
                        assert(r@[g1] == prev[g1] && r@[g2] == prev[g2]);
                    }
                }
                assert forall|q: int|
                    0 <= q < p + 1 && pack_has_filter(
                        *store,
                        (#[trigger] store.packs@[q]).id,
                    ) implies pack_grouped(r@, *store, q) by {
                    if q < p as int {
                        let g = choose|g: int|
                            0 <= g < prev.len() && (#[trigger] prev[g]).pack_title
                                == store.packs@[q].title && summarises_pack(
                                *store,
                                store.packs@[q].id,
                                prev[g].filters@,
                            );
                        assert(r@[g] == prev[g]);
                    } else {
                        assert(r@[r@.len() - 1].pack_title == store.packs@[q].title
                            && summarises_pack(
                            *store,
                            store.packs@[q].id,
                            r@[r@.len() - 1].filters@,
                        ));
                    }
                }
            }
        } else {
            proof {
                assert forall|q: int|
                    0 <= q < p + 1 && pack_has_filter(
                        *store,
                        (#[trigger] store.packs@[q]).id,
                    ) implies pack_grouped(r@, *store, q) by {
                    if q == p as int {
                        let i = choose|i: int|
                            0 <= i < store.filters@.len() && (#[trigger] store.filters@[i]).pack_id
                                == store.packs@[q].id;
                        assert(listed_summary(filters@, store.filters@[i].id));
                        let j = choose|j: int|
                            0 <= j < filters@.len() && (#[trigger] filters@[j]).id
                                == store.filters@[i].id;
                        assert(false);
                    }
                }
            }
        }
        p += 1;
    }
    r
}

} // verus!
