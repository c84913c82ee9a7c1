//! Studies: saved card queries, each an optional pack scope, a question
//! limit, and an inclusion/exclusion tag criterion.

use vstd::prelude::*;

verus! {

use crate::error::Error;
use crate::filter::Tag;
use crate::store::{find_study, same_except_studies, Store, StudyRow};

pub type Id = u32;

/// Listing row for a saved study query.
pub struct Study {
    pub id: Id,
    pub title: String,
    pub pack_id: Option<crate::pack::Id>,
    pub limit: usize,
}

/// The tag criterion of a study, split by role.
pub struct StudyTags {
    pub included: Vec<String>,
    pub excluded: Vec<String>,
}

/// The store after a mutation that replaced one study row: every other row
/// and table is kept.
pub open spec fn study_row_updated(a: Store, b: Store, id: Id, new_row: StudyRow) -> bool {
    &&& same_except_studies(a, b)
    &&& b.next_study_id == a.next_study_id
    &&& b.studies@.len() == a.studies@.len()
    &&& (forall|i: int|
        0 <= i < a.studies@.len() && i != a.study_idx(id) ==> b.studies@[i] == a.studies@[i])
    &&& b.studies@[a.study_idx(id)] == new_row
}

/// Creates a study query; the fresh id is returned.
pub fn create(store: &mut Store, title: &str, pack_id: Option<crate::pack::Id>, limit: usize) -> (r:
    Id)
    requires
        old(store).wf(),
        old(store).next_study_id < u32::MAX,
        limit <= u32::MAX,
    ensures
        final(store).wf(),
        r == old(store).next_study_id,
        !old(store).has_study(r),
        final(store).has_study(r),
        same_except_studies(*old(store), *final(store)),
        final(store).next_study_id == old(store).next_study_id + 1,
        final(store).studies@.len() == old(store).studies@.len() + 1,
        forall|i: int|
            0 <= i < old(store).studies@.len() ==> final(store).studies@[i] == old(
                store,
            ).studies@[i],
        final(store).studies@.last().id == r,
        final(store).studies@.last().title@ == title@,
        final(store).studies@.last().pack_id == pack_id,
        final(store).studies@.last().limit == limit as u32,
        final(store).studies@.last().tags@.len() == 0,
{
    let id = store.next_study_id;
    store.studies.push(
        StudyRow { id, title: title.to_owned(), pack_id, limit: limit as u32, tags: Vec::new() },
    );
    store.next_study_id = id + 1;
    proof {
        assert(store.has_study(id)) by {
            assert(store.studies@.last().id == id);
        }
    }
    id
}

/// Every study query, listed in store order.
pub fn list_all(store: &Store) -> (r: Vec<Study>)
    requires
        store.wf(),
    ensures
        r@.len() == store.studies@.len(),
        forall|i: int|
            0 <= i < r@.len() ==> (#[trigger] r@[i]).id == store.studies@[i].id && r@[i].title
                == store.studies@[i].title && r@[i].pack_id == store.studies@[i].pack_id
                && r@[i].limit == store.studies@[i].limit as usize,
{
    let mut r: Vec<Study> = Vec::new();
    let mut i: usize = 0;
    while i < store.studies.len()
        invariant
            0 <= i <= store.studies@.len(),
            r@.len() == i,
            forall|j: int|
                0 <= j < i ==> (#[trigger] r@[j]).id == store.studies@[j].id && r@[j].title
                    == store.studies@[j].title && r@[j].pack_id == store.studies@[j].pack_id
                    && r@[j].limit == store.studies@[j].limit as usize,
        decreases store.studies@.len() - i,
    {
        let row = &store.studies[i];
        r.push(
            Study {
                id: row.id,
                title: row.title.clone(),
                pack_id: row.pack_id,
                limit: row.limit as usize,
            },
        );
        i += 1;
    }
    r
}

/// The tag criterion of a study, split into included and excluded labels in
/// row order.  Fails with `NotFound` exactly when the study is absent.
pub fn list_tags(store: &Store, id: Id) -> (r: Result<StudyTags, Error>)
    requires
        store.wf(),
    ensures
        match r {
            Ok(ts) => {
                &&& store.has_study(id)
                &&& crate::filter::label_set(ts.included@) == crate::filter::role_set(
                    store.spec_study(id).tags@,
                    false,
                )
                &&& crate::filter::label_set(ts.excluded@) == crate::filter::role_set(
                    store.spec_study(id).tags@,
                    true,
                )
            },
            Err(e) => e == Error::NotFound && !store.has_study(id),
        },
{
    match find_study(store, id) {
        Some(si) => {
            proof {
                store.lemma_study_idx(si as int);
            }
            let ts = crate::filter::TagSets::new(&store.studies[si].tags);
            Ok(StudyTags { included: ts.included, excluded: ts.excluded })
        },
        None => Err(Error::NotFound),
    }
}

/// Retitles a study.  Fails with `NotFound` exactly when the study is absent.
pub fn rename(store: &mut Store, id: Id, title: &str) -> (r: Result<(), Error>)
    requires
        old(store).wf(),
    ensures
        final(store).wf(),
        match r {
            Ok(u) => {
                &&& u == ()
                &&& old(store).has_study(id)
                &&& same_except_studies(*old(store), *final(store))
                &&& final(store).next_study_id == old(store).next_study_id
                &&& final(store).studies@.len() == old(store).studies@.len()
                &&& (forall|i: int|
                    0 <= i < old(store).studies@.len() && i != old(store).study_idx(id)
                        ==> final(store).studies@[i] == old(store).studies@[i])
                &&& final(store).studies@[old(store).study_idx(id)].id == id
                &&& final(store).studies@[old(store).study_idx(id)].title@ == title@
                &&& final(store).studies@[old(store).study_idx(id)].pack_id == old(
                    store,
                ).spec_study(id).pack_id
                &&& final(store).studies@[old(store).study_idx(id)].limit == old(store).spec_study(
                    id,
                ).limit
                &&& final(store).studies@[old(store).study_idx(id)].tags@ == old(store).spec_study(
                    id,
                ).tags@
            },
            Err(e) => {
                &&& e == Error::NotFound
                &&& !old(store).has_study(id)
                &&& *final(store) == *old(store)
            },
        },
{
    let si = match find_study(store, id) {
        Some(si) => si,
        None => {
            return Err(Error::NotFound);
        },
    };
    proof {
        store.lemma_study_idx(si as int);
    }
    let ghost pre = *store;
    let mut row = store.studies.remove(si);
    row.title = title.to_owned();
    store.studies.insert(si, row);
    proof {
        assert(store.studies@ =~= pre.studies@.update(si as int, store.studies@[si as int]));
    }
    Ok(())
}

/// Rescopes a study to a pack, or to every pack.  Fails with `NotFound`
/// exactly when the study is absent.
pub fn set_pack(store: &mut Store, id: Id, pack_id: Option<crate::pack::Id>) -> (r: Result<
    (),
    Error,
>)
    requires
        old(store).wf(),
    ensures
        final(store).wf(),
        match r {
            Ok(u) => {
                &&& u == ()
                &&& old(store).has_study(id)
                &&& study_row_updated(
                    *old(store),
                    *final(store),
                    id,
                    StudyRow {
                        pack_id,
                        ..old(store).spec_study(id)
                    },
                )
            },
            Err(e) => {
                &&& e == Error::NotFound
                &&& !old(store).has_study(id)
                &&& *final(store) == *old(store)
            },
        },
{
    let si = match find_study(store, id) {
        Some(si) => si,
        None => {
            return Err(Error::NotFound);
        },
    };
    proof {
        store.lemma_study_idx(si as int);
    }
    let ghost pre = *store;
    let mut row = store.studies.remove(si);
    row.pack_id = pack_id;
    store.studies.insert(si, row);
    proof {
        assert(store.studies@ =~= pre.studies@.update(si as int, store.studies@[si as int]));
    }
    Ok(())
}

/// Sets the question limit of a study.  Fails with `NotFound` exactly when
/// the study is absent.
pub fn set_limit(store: &mut Store, id: Id, limit: usize) -> (r: Result<(), Error>)
    requires
        old(store).wf(),
        limit <= u32::MAX,
    ensures
        final(store).wf(),
        match r {
            Ok(u) => {
                &&& u == ()
                &&& old(store).has_study(id)
                &&& study_row_updated(
                    *old(store),
                    *final(store),
                    id,
                    StudyRow {
                        limit: limit as u32,
                        ..old(store).spec_study(id)
                    },
                )
            },
            Err(e) => {
                &&& e == Error::NotFound
                &&& !old(store).has_study(id)
                &&& *final(store) == *old(store)
            },
        },
{
    let si = match find_study(store, id) {
        Some(si) => si,
        None => {
            return Err(Error::NotFound);
        },
    };
    proof {
        store.lemma_study_idx(si as int);
    }
    let ghost pre = *store;
    let mut row = store.studies.remove(si);
    row.limit = limit as u32;
    store.studies.insert(si, row);
    proof {
        assert(store.studies@ =~= pre.studies@.update(si as int, store.studies@[si as int]));
    }
    Ok(())
}

/// Adds one criterion row (label and role) to a study; rows may repeat.
/// Fails with `NotFound` exactly when the study is absent.
pub fn add_tag(store: &mut Store, id: Id, tag: &str, exclude: bool) -> (r: Result<(), Error>)
    requires
        old(store).wf(),
    ensures
        final(store).wf(),
        match r {
            Ok(u) => {
                &&& u == ()
                &&& old(store).has_study(id)
                &&& same_except_studies(*old(store), *final(store))
                &&& final(store).next_study_id == old(store).next_study_id
                &&& final(store).studies@.len() == old(store).studies@.len()
                &&& (forall|i: int|
                    0 <= i < old(store).studies@.len() && i != old(store).study_idx(id)
                        ==> final(store).studies@[i] == old(store).studies@[i])
                &&& final(store).studies@[old(store).study_idx(id)].id == id
                &&& final(store).studies@[old(store).study_idx(id)].title == old(store).spec_study(
                    id,
                ).title
                &&& final(store).studies@[old(store).study_idx(id)].pack_id == old(
                    store,
                ).spec_study(id).pack_id
                &&& final(store).studies@[old(store).study_idx(id)].limit == old(store).spec_study(
                    id,
                ).limit
                &&& final(store).studies@[old(store).study_idx(id)].tags@.len() == old(
                    store,
                ).spec_study(id).tags@.len() + 1
                &&& (forall|j: int|
                    0 <= j < old(store).spec_study(id).tags@.len()
                        ==> final(store).studies@[old(store).study_idx(id)].tags@[j] == old(
                        store,
                    ).spec_study(id).tags@[j])
                &&& final(store).studies@[old(store).study_idx(id)].tags@.last().tag@ == tag@
                &&& final(store).studies@[old(store).study_idx(id)].tags@.last().exclude == exclude
            },
            Err(e) => {
                &&& e == Error::NotFound
                &&& !old(store).has_study(id)
                &&& *final(store) == *old(store)
            },
        },
{
    let si = match find_study(store, id) {
        Some(si) => si,
        None => {
            return Err(Error::NotFound);
        },
    };
    proof {
        store.lemma_study_idx(si as int);
    }
    let ghost pre = *store;
    let mut row = store.studies.remove(si);
    row.tags.push(Tag { tag: tag.to_owned(), exclude });
    store.studies.insert(si, row);
    proof {
        assert(store.studies@ =~= pre.studies@.update(si as int, store.studies@[si as int]));
    }
    Ok(())
}

/// Removes every criterion row carrying the label and role from a study.
/// Fails with `NotFound` exactly when the study is absent.
pub fn remove_tag(store: &mut Store, id: Id, tag: &str, exclude: bool) -> (r: Result<(), Error>)
    requires
        old(store).wf(),
    ensures
        final(store).wf(),
        match r {
            Ok(u) => {
                &&& u == ()
                &&& old(store).has_study(id)
                &&& same_except_studies(*old(store), *final(store))
                &&& final(store).next_study_id == old(store).next_study_id
                &&& final(store).studies@.len() == old(store).studies@.len()
                &&& (forall|i: int|
                    0 <= i < old(store).studies@.len() && i != old(store).study_idx(id)
                        ==> final(store).studies@[i] == old(store).studies@[i])
                &&& final(store).studies@[old(store).study_idx(id)].id == id
                &&& final(store).studies@[old(store).study_idx(id)].title == old(store).spec_study(
                    id,
                ).title
                &&& final(store).studies@[old(store).study_idx(id)].pack_id == old(
                    store,
                ).spec_study(id).pack_id
                &&& final(store).studies@[old(store).study_idx(id)].limit == old(store).spec_study(
                    id,
                ).limit
                &&& (forall|j: int|
                    0 <= j < final(store).studies@[old(store).study_idx(id)].tags@.len()
                        ==> !((#[trigger] final(store).studies@[old(store).study_idx(
                        id,
                    )].tags@[j]).tag@ == tag@ && final(store).studies@[old(store).study_idx(
                        id,
                    )].tags@[j].exclude == exclude))
                &&& (forall|j: int|
                    0 <= j < old(store).spec_study(id).tags@.len() && !((#[trigger] old(
                        store,
                    ).spec_study(id).tags@[j]).tag@ == tag@ && old(store).spec_study(
                        id,
                    ).tags@[j].exclude == exclude) ==> study_tag_listed(
                        final(store).studies@[old(store).study_idx(id)].tags@,
                        old(store).spec_study(id).tags@[j],
                    ))
            },
            Err(e) => {
                &&& e == Error::NotFound
                &&& !old(store).has_study(id)
                &&& *final(store) == *old(store)
            },
        },
{
    let si = match find_study(store, id) {
        Some(si) => si,
        None => {
            return Err(Error::NotFound);
        },
    };
    proof {
        store.lemma_study_idx(si as int);
    }
    let ghost pre = *store;
    let tag_owned: String = tag.to_owned();
    let mut row = store.studies.remove(si);
    let ghost old_tags = row.tags@;
    let mut kept: Vec<Tag> = Vec::new();
    let mut i: usize = 0;
    while i < row.tags.len()
        invariant
            0 <= i <= row.tags@.len(),
            row.tags@ == old_tags,
            tag_owned@ == tag@,
            forall|j: int|
                0 <= j < kept@.len() ==> !((#[trigger] kept@[j]).tag@ == tag@ && kept@[j].exclude
                    == exclude),
            forall|j: int|
                0 <= j < i && !((#[trigger] old_tags[j]).tag@ == tag@ && old_tags[j].exclude
                    == exclude) ==> study_tag_listed(kept@, old_tags[j]),
        decreases row.tags@.len() - i,
    {
        let ghost prev = kept@;
        let keep = !(row.tags[i].tag.eq(&tag_owned) && row.tags[i].exclude == exclude);
        if keep {
            kept.push(row.tags[i].clone());
            proof {
                assert forall|j: int|
                    0 <= j < i + 1 && !((#[trigger] old_tags[j]).tag@ == tag@
                        && old_tags[j].exclude == exclude) implies study_tag_listed(
                    kept@,
                    old_tags[j],
                ) by {
                    if j < i {
                        let q = choose|q: int| 0 <= q < prev.len() && prev[q] == old_tags[j];
                        assert(kept@[q] == old_tags[j]);
                    } else {
                        assert(kept@[kept@.len() - 1] == old_tags[j]);
                    }
                }
            }
        } else {
            proof {
                assert forall|j: int|
                    0 <= j < i + 1 && !((#[trigger] old_tags[j]).tag@ == tag@
                        && old_tags[j].exclude == exclude) implies study_tag_listed(
                    kept@,
                    old_tags[j],
                ) by {
                    if j < i {
                        let q = choose|q: int| 0 <= q < prev.len() && prev[q] == old_tags[j];
                        assert(kept@[q] == old_tags[j]);
                    }
                }
            }
        }
        i += 1;
    }
    row.tags = kept;
    store.studies.insert(si, row);
    proof {
        assert(store.studies@ =~= pre.studies@.update(si as int, store.studies@[si as int]));
    }
    Ok(())
}

/// A criterion row with this value is somewhere in the list.
pub open spec fn study_tag_listed(rows: Seq<Tag>, t: Tag) -> bool {
    exists|i: int| 0 <= i < rows.len() && rows[i] == t
}

/// Deletes a study.  Fails with `NotFound` exactly when the study is absent,
/// and the store is then untouched.
pub fn delete(store: &mut Store, id: Id) -> (r: Result<(), Error>)
    requires
        old(store).wf(),
    ensures
        final(store).wf(),
        match r {
            Ok(u) => {
                &&& u == ()
                &&& old(store).has_study(id)
                &&& same_except_studies(*old(store), *final(store))
                &&& final(store).next_study_id == old(store).next_study_id
                &&& final(store).studies@ == old(store).studies@.remove(old(store).study_idx(id))
                &&& !final(store).has_study(id)
            },
            Err(e) => {
                &&& e == Error::NotFound
                &&& !old(store).has_study(id)
                &&& *final(store) == *old(store)
            },
        },
{
    let si = match find_study(store, id) {
        Some(si) => si,
        None => {
            return Err(Error::NotFound);
        },
    };
    proof {
        store.lemma_study_idx(si as int);
    }
    let ghost pre = *store;
    store.studies.remove(si);
    proof {
        assert forall|a: int, b: int|
            0 <= a < b < store.studies@.len() implies store.studies@[a].id
            != store.studies@[b].id by {
            let pa: int = if a < si as int { a } else { a + 1 };
            let pb: int = if b < si as int { b } else { b + 1 };
            assert(store.studies@[a] == pre.studies@[pa]);
            assert(store.studies@[b] == pre.studies@[pb]);
            assert(pre.studies@[pa].id != pre.studies@[pb].id);
        }
        assert forall|j: int|
            0 <= j < store.studies@.len() implies (#[trigger] store.studies@[j]).id
            < store.next_study_id by {
            let pj: int = if j < si as int { j } else { j + 1 };
            assert(store.studies@[j] == pre.studies@[pj]);
        }
        if store.has_study(id) {
            let j = choose|j: int| 0 <= j < store.studies@.len() && store.studies@[j].id == id;
            let pj: int = if j < si as int { j } else { j + 1 };
            assert(store.studies@[j] == pre.studies@[pj]);
            assert(pre.studies@[pj].id != pre.studies@[si as int].id);
            assert(false);
        }
    }
    Ok(())
}

} // verus!
