//! The temporal tag-association engine.
//!
//! A [`TagStore`] holds the tag catalog, the append-only association
//! ledger, and the record of downstream modification stamps.  The ledger
//! records one event per tag addition; removing the tag later closes that
//! event by stamping it, so the full history stays queryable.  Two
//! invariants govern the ledger: for one (project, tag) pair at most one
//! event is open at a time, and a closed event's removal time is never
//! before its addition time.  An association is considered active during
//! the half-open interval from its addition (inclusive) to its removal
//! (exclusive).

use vstd::prelude::*;

use crate::catalog::{
    clone_rows, entry_of, has_name_nocase, insert_pos, insert_row, lemma_filter_sorted,
    lemma_filter_take_succ, lemma_insert_table_wf, lemma_resolve_in_table, lemma_sorted_names,
    list_names, lookup_name, names_of, resolve_name, table_model, table_wf, NameEntry, NameRow,
};
use crate::db::DatabaseError;
use crate::model::{Owner, Project};
use crate::order::{lemma_sorted_names_distinct, sorted_names};

verus! {

/// The stable identifier of one tag, as issued by the catalog.
#[derive(Clone, Copy, Debug, Eq, PartialEq, Structural)]
pub struct Tag(pub i64);

/// One entry of the association history: project and tag identifiers, who
/// added the association and when, and — once it is closed — who removed
/// it and when.
#[derive(Clone, Copy, Debug, Eq, PartialEq)]
pub struct EventRow {
    pub project: i64,
    pub tag: i64,
    pub added_at: i64,
    pub added_by: i64,
    pub removed_at: Option<i64>,
    pub removed_by: Option<i64>,
}

/// One downstream modification stamp: which project was changed, by whom,
/// and when.
#[derive(Clone, Copy, Debug, Eq, PartialEq, Structural)]
pub struct Mark {
    pub project: i64,
    pub actor: i64,
    pub at: i64,
}

/// The mathematical state of a [`TagStore`].
pub ghost struct StoreModel {
    pub tags: Seq<NameEntry>,
    pub events: Seq<EventRow>,
    pub marks: Seq<Mark>,
    pub next_id: i64,
    pub allow_create: bool,
}

/// The event is the open association of the given pair.
pub open spec fn active_for(e: EventRow, project: i64, tag: i64) -> bool {
    e.project == project && e.tag == tag && e.removed_at is None
}

/// The pair has an open association somewhere in the ledger.
pub open spec fn is_active_in(events: Seq<EventRow>, project: i64, tag: i64) -> bool {
    exists|i: int| 0 <= i < events.len() && active_for(#[trigger] events[i], project, tag)
}

/// The event's interval contains the instant `t`.
pub open spec fn covers_at(e: EventRow, project: i64, tag: i64, t: i64) -> bool {
    e.project == project && e.tag == tag && e.added_at <= t && (match e.removed_at {
        Some(r) => t < r,
        None => true,
    })
}

/// The pair was associated at the instant `t`.
pub open spec fn is_asof_in(events: Seq<EventRow>, project: i64, tag: i64, t: i64) -> bool {
    exists|i: int| 0 <= i < events.len() && covers_at(#[trigger] events[i], project, tag, t)
}

/// Some project holds an open association with the tag.
pub open spec fn tag_in_use(events: Seq<EventRow>, tag: i64) -> bool {
    exists|i: int|
        0 <= i < events.len() && (#[trigger] events[i]).tag == tag
            && events[i].removed_at is None
}

/// At most one open association per (project, tag) pair.
pub open spec fn at_most_one_active(events: Seq<EventRow>) -> bool {
    forall|i: int, j: int|
        0 <= i < j < events.len() ==> !((#[trigger] events[i]).removed_at is None && (
        #[trigger] events[j]).removed_at is None && events[i].project == events[j].project
            && events[i].tag == events[j].tag)
}

/// A closed event's removal time is never before its addition time.
pub open spec fn intervals_ordered(events: Seq<EventRow>) -> bool {
    forall|i: int|
        0 <= i < events.len() ==> (match (#[trigger] events[i]).removed_at {
            Some(r) => events[i].added_at <= r,
            None => true,
        })
}

/// The removal time and the removing actor are set together.
pub open spec fn removal_fields_paired(events: Seq<EventRow>) -> bool {
    forall|i: int|
        0 <= i < events.len() ==> ((#[trigger] events[i]).removed_at is Some) == (
        events[i].removed_by is Some)
}

/// Every event speaks of a tag identifier the catalog has issued.
pub open spec fn event_tags_below(events: Seq<EventRow>, bound: i64) -> bool {
    forall|i: int| 0 <= i < events.len() ==> (#[trigger] events[i]).tag < bound
}

/// No open association of the project was added after the instant `now`.
///
/// Batch updates stamp closures with the caller's clock; this is what the
/// interval invariant needs of that clock.
pub open spec fn no_future_active(events: Seq<EventRow>, project: i64, now: i64) -> bool {
    forall|i: int|
        0 <= i < events.len() && (#[trigger] events[i]).project == project
            && events[i].removed_at is None ==> events[i].added_at <= now
}

impl StoreModel {
    /// Well-formedness: the catalog is a well-formed name table, and the
    /// ledger satisfies the association invariants.
    pub open spec fn wf(self) -> bool {
        &&& table_wf(self.tags, self.next_id)
        &&& at_most_one_active(self.events)
        &&& intervals_ordered(self.events)
        &&& removal_fields_paired(self.events)
        &&& event_tags_below(self.events, self.next_id)
    }
}

/// The index of the first open association of the pair.
pub open spec fn first_active_index(events: Seq<EventRow>, project: i64, tag: i64) -> int
    decreases events.len(),
{
    if events.len() == 0 {
        0
    } else if active_for(events[0], project, tag) {
        0
    } else {
        1 + first_active_index(events.drop_first(), project, tag)
    }
}

/// The addition time of the pair's open association.
pub open spec fn active_added_at(events: Seq<EventRow>, project: i64, tag: i64) -> i64 {
    events[first_active_index(events, project, tag)].added_at
}

/// A fresh, open association event.
pub open spec fn open_event(project: i64, tag: i64, actor: i64, now: i64) -> EventRow {
    EventRow {
        project,
        tag,
        added_at: now,
        added_by: actor,
        removed_at: None,
        removed_by: None,
    }
}

/// The given event, closed by `actor` at `now`.
pub open spec fn closed_copy(e: EventRow, actor: i64, now: i64) -> EventRow {
    EventRow {
        project: e.project,
        tag: e.tag,
        added_at: e.added_at,
        added_by: e.added_by,
        removed_at: Some(now),
        removed_by: Some(actor),
    }
}

/// The ledger with the pair's open association closed by `actor` at `now`.
pub open spec fn close_event(
    events: Seq<EventRow>,
    project: i64,
    tag: i64,
    actor: i64,
    now: i64,
) -> Seq<EventRow> {
    let i = first_active_index(events, project, tag);
    events.update(i, closed_copy(events[i], actor, now))
}

/// A scan that found the pair's open association at `k`, with none
/// before, found the first one.
pub proof fn lemma_first_active_at(events: Seq<EventRow>, project: i64, tag: i64, k: int)
    requires
        0 <= k < events.len(),
        active_for(events[k], project, tag),
        forall|m: int| 0 <= m < k ==> !active_for(#[trigger] events[m], project, tag),
    ensures
        first_active_index(events, project, tag) == k,
        is_active_in(events, project, tag),
    decreases events.len(),
{
    if k == 0 {
    } else {
        let rest = events.drop_first();
        assert forall|m: int| 0 <= m < k - 1 implies !active_for(
            #[trigger] rest[m],
            project,
            tag,
        ) by {
            assert(rest[m] == events[m + 1]);
        }
        assert(rest[k - 1] == events[k]);
        lemma_first_active_at(rest, project, tag, k - 1);
        assert(!active_for(events[0], project, tag));
    }
}

/// Whether the pair has an open association.
fn has_active(events: &Vec<EventRow>, project: i64, tag: i64) -> (r: bool)
    ensures
        r == is_active_in(events@, project, tag),
{
    let mut i: usize = 0;
    while i < events.len()
        invariant
            i <= events@.len(),
            forall|m: int| 0 <= m < i ==> !active_for(#[trigger] events@[m], project, tag),
        decreases events@.len() - i,
    {
        let e = events[i];
        if e.project == project && e.tag == tag && e.removed_at.is_none() {
            proof {
                assert(active_for(events@[i as int], project, tag));
            }
            return true;
        }
        i += 1;
    }
    false
}

/// Whether some project holds an open association with the tag.
fn tag_used(events: &Vec<EventRow>, tag: i64) -> (r: bool)
    ensures
        r == tag_in_use(events@, tag),
{
    let mut i: usize = 0;
    while i < events.len()
        invariant
            i <= events@.len(),
            forall|m: int|
                0 <= m < i ==> !((#[trigger] events@[m]).tag == tag && events@[m].removed_at
                    is None),
        decreases events@.len() - i,
    {
        let e = events[i];
        if e.tag == tag && e.removed_at.is_none() {
            return true;
        }
        i += 1;
    }
    false
}

/// Whether the pair was associated at the instant `t`.
fn has_asof(events: &Vec<EventRow>, project: i64, tag: i64, t: i64) -> (r: bool)
    ensures
        r == is_asof_in(events@, project, tag, t),
{
    let mut i: usize = 0;
    while i < events.len()
        invariant
            i <= events@.len(),
            forall|m: int| 0 <= m < i ==> !covers_at(#[trigger] events@[m], project, tag, t),
        decreases events@.len() - i,
    {
        let e = events[i];
        if e.project == project && e.tag == tag && e.added_at <= t {
            let in_interval = match e.removed_at {
                Some(r) => t < r,
                None => true,
            };
            if in_interval {
                proof {
                    assert(covers_at(events@[i as int], project, tag, t));
                }
                return true;
            }
        }
        i += 1;
    }
    false
}

/// Close the pair's first open association, if there is one; report
/// whether one was closed.
fn close_first_active(
    events: &mut Vec<EventRow>,
    project: i64,
    tag: i64,
    actor: i64,
    now: i64,
) -> (r: bool)
    ensures
        r == is_active_in(old(events)@, project, tag),
        r ==> final(events)@ == close_event(old(events)@, project, tag, actor, now),
        !r ==> final(events)@ == old(events)@,
{
    let mut i: usize = 0;
    while i < events.len()
        invariant
            i <= events@.len(),
            events@ == old(events)@,
            forall|m: int| 0 <= m < i ==> !active_for(#[trigger] events@[m], project, tag),
        decreases events@.len() - i,
    {
        let e = events[i];
        if e.project == project && e.tag == tag && e.removed_at.is_none() {
            proof {
                lemma_first_active_at(events@, project, tag, i as int);
            }
            events[i] = EventRow {
                project: e.project,
                tag: e.tag,
                added_at: e.added_at,
                added_by: e.added_by,
                removed_at: Some(now),
                removed_by: Some(actor),
            };
            return true;
        }
        i += 1;
    }
    false
}

/// Copy a ledger.
fn copy_events(events: &Vec<EventRow>) -> (r: Vec<EventRow>)
    ensures
        r@ == events@,
{
    let mut out: Vec<EventRow> = Vec::new();
    let mut i: usize = 0;
    while i < events.len()
        invariant
            i <= events@.len(),
            out@ =~= events@.take(i as int),
        decreases events@.len() - i,
    {
        out.push(events[i]);
        i += 1;
    }
    proof {
        assert(events@.take(events@.len() as int) =~= events@);
    }
    out
}

/// The names of all tags, in listing order.
pub open spec fn all_tag_names(m: StoreModel) -> Seq<Seq<char>> {
    names_of(m.tags)
}

/// The names of the tags some project currently holds, in listing order.
pub open spec fn active_tag_names(m: StoreModel) -> Seq<Seq<char>> {
    names_of(m.tags.filter(|e: NameEntry| tag_in_use(m.events, e.id)))
}

/// The names of the project's current tags, in listing order.
pub open spec fn project_tag_names(m: StoreModel, project: i64) -> Seq<Seq<char>> {
    names_of(m.tags.filter(|e: NameEntry| is_active_in(m.events, project, e.id)))
}

/// The names of the project's tags as of the instant `t`, in listing
/// order.
pub open spec fn project_tag_names_at(m: StoreModel, project: i64, t: i64) -> Seq<Seq<char>> {
    names_of(m.tags.filter(|e: NameEntry| is_asof_in(m.events, project, e.id, t)))
}

/// The tag catalog, association ledger, and modification stamps of one
/// game library.
pub struct TagStore {
    tags: Vec<NameRow>,
    events: Vec<EventRow>,
    marks: Vec<Mark>,
    next_tag_id: i64,
    allow_tag_creation: bool,
}

impl View for TagStore {
    type V = StoreModel;

    closed spec fn view(&self) -> StoreModel {
        StoreModel {
            tags: table_model(self.tags@),
            events: self.events@,
            marks: self.marks@,
            next_id: self.next_tag_id,
            allow_create: self.allow_tag_creation,
        }
    }
}

impl TagStore {
    /// The store's invariants hold.
    pub open spec fn wf(self) -> bool {
        self@.wf()
    }

    /// An empty store: no tags, no history, tag creation disabled.
    pub fn new() -> (s: TagStore)
        ensures
            s.wf(),
            s@ == (StoreModel {
                tags: Seq::<NameEntry>::empty(),
                events: Seq::<EventRow>::empty(),
                marks: Seq::<Mark>::empty(),
                next_id: 1,
                allow_create: false,
            }),
    {
        let s = TagStore {
            tags: Vec::new(),
            events: Vec::new(),
            marks: Vec::new(),
            next_tag_id: 1,
            allow_tag_creation: false,
        };
        proof {
            assert(s@.tags =~= Seq::<NameEntry>::empty());
        }
        s
    }

    /// Switch the implicit-tag-creation policy of batch additions.
    pub fn set_allow_tag_creation(&mut self, allow: bool)
        ensures
            final(self)@ == (StoreModel { allow_create: allow, ..old(self)@ }),
    {
        self.allow_tag_creation = allow;
    }

    /// Whether batch additions may create unknown tags.
    pub fn allows_tag_creation(&self) -> (r: bool)
        ensures
            r == self@.allow_create,
    {
        self.allow_tag_creation
    }

    /// The modification stamps recorded so far, oldest first.
    pub fn marks(&self) -> (r: &Vec<Mark>)
        ensures
            r@ == self@.marks,
    {
        &self.marks
    }

    /// Resolve a tag name to its identifier: an exact-name lookup that
    /// never creates.
    pub fn get_tag_id(&self, tag: &str) -> (r: Option<Tag>)
        ensures
            match r {
                Some(t) => resolve_name(self@.tags, tag@) == Some(t.0),
                None => resolve_name(self@.tags, tag@) is None,
            },
    {
        match lookup_name(&self.tags, tag) {
            Some(id) => Some(Tag(id)),
            None => None,
        }
    }

    /// Record a fresh tag under the next identifier; refuse a name the
    /// catalog already holds up to case.  Identifier exhaustion is
    /// reported before the name is examined.
    pub fn create_tag(&mut self, tag: &str) -> (r: Result<Tag, DatabaseError>)
        requires
            old(self).wf(),
        ensures
            final(self).wf(),
            match r {
                Ok(t) => {
                    &&& old(self)@.next_id < i64::MAX
                    &&& !has_name_nocase(old(self)@.tags, tag@)
                    &&& t.0 == old(self)@.next_id
                    &&& final(self)@ == (StoreModel {
                        tags: old(self)@.tags.insert(
                            insert_pos(old(self)@.tags, tag@),
                            NameEntry { id: old(self)@.next_id, name: tag@ },
                        ),
                        next_id: (old(self)@.next_id + 1) as i64,
                        ..old(self)@
                    })
                },
                Err(DatabaseError::StoreError) => old(self)@.next_id == i64::MAX && final(self)@
                    == old(self)@,
                Err(DatabaseError::AlreadyExists) => {
                    &&& old(self)@.next_id < i64::MAX
                    &&& has_name_nocase(old(self)@.tags, tag@)
                    &&& final(self)@ == old(self)@
                },
                Err(DatabaseError::NotFound) => false,
            },
    {
        if self.next_tag_id == i64::MAX {
            return Err(DatabaseError::StoreError);
        }
        let id = self.next_tag_id;
        match insert_row(&mut self.tags, id, tag) {
            Ok(()) => {
                proof {
                    lemma_insert_table_wf(old(self)@.tags, tag@, id);
                }
                self.next_tag_id = id + 1;
                Ok(Tag(id))
            },
            Err(e) => Err(e),
        }
    }

    /// All known tag names, ordered case-insensitively.
    pub fn get_tags(&self) -> (r: Vec<String>)
        ensures
            r.deep_view() == all_tag_names(self@),
            self.wf() ==> sorted_names(r.deep_view()),
    {
        proof {
            if self.wf() {
                lemma_sorted_names(self@.tags);
            }
        }
        list_names(&self.tags)
    }

    /// The names of the tags currently associated with at least one
    /// project, ordered case-insensitively, without repetition.
    pub fn get_tags_active(&self) -> (r: Vec<String>)
        ensures
            r.deep_view() == active_tag_names(self@),
            self.wf() ==> sorted_names(r.deep_view()),
            self.wf() ==> (forall|i: int, j: int|
                0 <= i < j < r.deep_view().len() ==> #[trigger] r.deep_view()[i]
                    != #[trigger] r.deep_view()[j]),
    {
        let ghost entries = self@.tags;
        let ghost pred = |e: NameEntry| tag_in_use(self@.events, e.id);
        let mut out: Vec<String> = Vec::new();
        let mut i: usize = 0;
        proof {
            assert(entries.take(0).filter(pred) =~= Seq::<NameEntry>::empty());
            assert(out.deep_view() =~= names_of(entries.take(0).filter(pred)));
        }
        while i < self.tags.len()
            invariant
                i <= self.tags@.len(),
                entries == self@.tags,
                pred == (|e: NameEntry| tag_in_use(self@.events, e.id)),
                entries.len() == self.tags@.len(),
                out.deep_view() =~= names_of(entries.take(i as int).filter(pred)),
            decreases self.tags@.len() - i,
        {
            proof {
                assert(entries[i as int] == entry_of(self.tags@[i as int]));
                lemma_filter_take_succ(entries, pred, i as int);
            }
            let ghost dv0 = out.deep_view();
            if tag_used(&self.events, self.tags[i].id) {
                let nm = self.tags[i].name.clone();
                proof {
                    assert(nm@ == entries[i as int].name);
                }
                out.push(nm);
                proof {
                    assert(out.deep_view() =~= dv0.push(entries[i as int].name));
                    assert(names_of(entries.take(i as int + 1).filter(pred)) =~= dv0.push(
                        entries[i as int].name,
                    ));
                }
            }
            i += 1;
        }
        proof {
            assert(entries.take(entries.len() as int) =~= entries);
            if self.wf() {
                lemma_filter_sorted(entries, pred);
                lemma_sorted_names(entries.filter(pred));
                lemma_sorted_names_distinct(names_of(entries.filter(pred)));
            }
        }
        out
    }

    /// The names of the project's current tags, ordered
    /// case-insensitively.  An unknown project simply has none.
    pub fn get_project_tags(&self, proj: Project) -> (r: Vec<String>)
        ensures
            r.deep_view() == project_tag_names(self@, proj.0),
            self.wf() ==> sorted_names(r.deep_view()),
    {
        let ghost entries = self@.tags;
        let ghost pred = |e: NameEntry| is_active_in(self@.events, proj.0, e.id);
        let mut out: Vec<String> = Vec::new();
        let mut i: usize = 0;
        proof {
            assert(entries.take(0).filter(pred) =~= Seq::<NameEntry>::empty());
            assert(out.deep_view() =~= names_of(entries.take(0).filter(pred)));
        }
        while i < self.tags.len()
            invariant
                i <= self.tags@.len(),
                entries == self@.tags,
                pred == (|e: NameEntry| is_active_in(self@.events, proj.0, e.id)),
                entries.len() == self.tags@.len(),
                out.deep_view() =~= names_of(entries.take(i as int).filter(pred)),
            decreases self.tags@.len() - i,
        {
            proof {
                assert(entries[i as int] == entry_of(self.tags@[i as int]));
                lemma_filter_take_succ(entries, pred, i as int);
            }
            let ghost dv0 = out.deep_view();
            if has_active(&self.events, proj.0, self.tags[i].id) {
                let nm = self.tags[i].name.clone();
                proof {
                    assert(nm@ == entries[i as int].name);
                }
                out.push(nm);
                proof {
                    assert(out.deep_view() =~= dv0.push(entries[i as int].name));
                    assert(names_of(entries.take(i as int + 1).filter(pred)) =~= dv0.push(
                        entries[i as int].name,
                    ));
                }
            }
            i += 1;
        }
        proof {
            assert(entries.take(entries.len() as int) =~= entries);
            if self.wf() {
                lemma_filter_sorted(entries, pred);
                lemma_sorted_names(entries.filter(pred));
            }
        }
        out
    }

    /// The names of the project's tags as of the instant `date`, ordered
    /// case-insensitively.  Instants outside every interval simply yield
    /// none.
    pub fn get_project_tags_at(&self, proj: Project, date: i64) -> (r: Vec<String>)
        ensures
            r.deep_view() == project_tag_names_at(self@, proj.0, date),
            self.wf() ==> sorted_names(r.deep_view()),
    {
        let ghost entries = self@.tags;
        let ghost pred = |e: NameEntry| is_asof_in(self@.events, proj.0, e.id, date);
        let mut out: Vec<String> = Vec::new();
        let mut i: usize = 0;
        proof {
            assert(entries.take(0).filter(pred) =~= Seq::<NameEntry>::empty());
            assert(out.deep_view() =~= names_of(entries.take(0).filter(pred)));
        }
        while i < self.tags.len()
            invariant
                i <= self.tags@.len(),
                entries == self@.tags,
                pred == (|e: NameEntry| is_asof_in(self@.events, proj.0, e.id, date)),
                entries.len() == self.tags@.len(),
                out.deep_view() =~= names_of(entries.take(i as int).filter(pred)),
            decreases self.tags@.len() - i,
        {
            proof {
                assert(entries[i as int] == entry_of(self.tags@[i as int]));
                lemma_filter_take_succ(entries, pred, i as int);
            }
            let ghost dv0 = out.deep_view();
            if has_asof(&self.events, proj.0, self.tags[i].id, date) {
                let nm = self.tags[i].name.clone();
                proof {
                    assert(nm@ == entries[i as int].name);
                }
                out.push(nm);
                proof {
                    assert(out.deep_view() =~= dv0.push(entries[i as int].name));
                    assert(names_of(entries.take(i as int + 1).filter(pred)) =~= dv0.push(
                        entries[i as int].name,
                    ));
                }
            }
            i += 1;
        }
        proof {
            assert(entries.take(entries.len() as int) =~= entries);
            if self.wf() {
                lemma_filter_sorted(entries, pred);
                lemma_sorted_names(entries.filter(pred));
            }
        }
        out
    }

    /// Whether the project currently holds the tag.
    pub fn project_has_tag(&self, proj: Project, tag: Tag) -> (r: bool)
        ensures
            r == is_active_in(self@.events, proj.0, tag.0),
    {
        has_active(&self.events, proj.0, tag.0)
    }

    /// Open an association: record a fresh event for the pair.  Refused
    /// with `AlreadyExists` when the pair is already open — the
    /// uniqueness guard against duplicate opens.  The tag identifier must
    /// have been issued by this catalog.
    pub fn create_project_tag_row(
        &mut self,
        owner: Owner,
        proj: Project,
        tag: Tag,
        now: i64,
    ) -> (r: Result<(), DatabaseError>)
        requires
            old(self).wf(),
            tag.0 < old(self)@.next_id,
        ensures
            final(self).wf(),
            match r {
                Ok(()) => {
                    &&& !is_active_in(old(self)@.events, proj.0, tag.0)
                    &&& final(self)@ == (StoreModel {
                        events: old(self)@.events.push(open_event(proj.0, tag.0, owner.0, now)),
                        ..old(self)@
                    })
                },
                Err(DatabaseError::AlreadyExists) => is_active_in(old(self)@.events, proj.0, tag.0)
                    && final(self)@ == old(self)@,
                Err(DatabaseError::NotFound) => false,
                Err(DatabaseError::StoreError) => false,
            },
    {
        if has_active(&self.events, proj.0, tag.0) {
            return Err(DatabaseError::AlreadyExists);
        }
        self.events.push(
            EventRow {
                project: proj.0,
                tag: tag.0,
                added_at: now,
                added_by: owner.0,
                removed_at: None,
                removed_by: None,
            },
        );
        proof {
            let ev0 = old(self)@.events;
            let ev1 = self@.events;
            assert forall|i: int, j: int| 0 <= i < j < ev1.len() implies !((
            #[trigger] ev1[i]).removed_at is None && (#[trigger] ev1[j]).removed_at is None
                && ev1[i].project == ev1[j].project && ev1[i].tag == ev1[j].tag) by {
                if j == ev1.len() - 1 {
                    if ev1[i].removed_at is None && ev1[j].removed_at is None && ev1[i].project
                        == ev1[j].project && ev1[i].tag == ev1[j].tag {
                        assert(active_for(ev0[i], proj.0, tag.0));
                        assert(is_active_in(ev0, proj.0, tag.0));
                    }
                }
            }
        }
        Ok(())
    }

    /// Close the pair's open association, stamping it with the actor and
    /// the instant.  Exactly one event is affected; when none is open the
    /// call is refused with `NotFound` — the guard against closing what
    /// was never opened.  The instant must not precede the open event's
    /// addition time.
    pub fn retire_project_tag_row(
        &mut self,
        owner: Owner,
        proj: Project,
        tag: Tag,
        now: i64,
    ) -> (r: Result<(), DatabaseError>)
        requires
            old(self).wf(),
            is_active_in(old(self)@.events, proj.0, tag.0) ==> active_added_at(
                old(self)@.events,
                proj.0,
                tag.0,
            ) <= now,
        ensures
            final(self).wf(),
            match r {
                Ok(()) => {
                    &&& is_active_in(old(self)@.events, proj.0, tag.0)
                    &&& final(self)@ == (StoreModel {
                        events: close_event(old(self)@.events, proj.0, tag.0, owner.0, now),
                        ..old(self)@
                    })
                },
                Err(DatabaseError::NotFound) => !is_active_in(old(self)@.events, proj.0, tag.0)
                    && final(self)@ == old(self)@,
                Err(DatabaseError::AlreadyExists) => false,
                Err(DatabaseError::StoreError) => false,
            },
    {
        if close_first_active(&mut self.events, proj.0, tag.0, owner.0, now) {
            proof {
                lemma_close_preserves_wf(old(self)@, proj.0, tag.0, owner.0, now);
            }
            Ok(())
        } else {
            Err(DatabaseError::NotFound)
        }
    }

    /// The change-propagation interface: stamp the project as modified by
    /// the actor at the instant, recording one mark.
    pub fn mark_modified(&mut self, owner: Owner, proj: Project, now: i64)
        ensures
            final(self)@ == (StoreModel {
                marks: old(self)@.marks.push(Mark { project: proj.0, actor: owner.0, at: now }),
                ..old(self)@
            }),
    {
        self.marks.push(Mark { project: proj.0, actor: owner.0, at: now });
    }

    /// Apply one batch of tag removals and additions for the project, as
    /// one atomic unit: on any failure the store is left exactly as it
    /// was.  Removals are processed first, so that a failing addition can
    /// never leave removals behind.  Returns whether any association
    /// actually changed.  The caller's clock must not predate the
    /// project's open associations.
    pub fn update_project_tags_in_trans(
        &mut self,
        owner: Owner,
        proj: Project,
        tags_add: &Vec<String>,
        tags_remove: &Vec<String>,
        now: i64,
    ) -> (r: Result<bool, DatabaseError>)
        requires
            old(self).wf(),
            no_future_active(old(self)@.events, proj.0, now),
        ensures
            final(self).wf(),
            ({
                let res = apply_spec(
                    old(self)@,
                    proj.0,
                    owner.0,
                    tags_add.deep_view(),
                    tags_remove.deep_view(),
                    now,
                );
                match r {
                    Ok(ch) => res == Ok::<(StoreModel, bool), DatabaseError>((final(self)@, ch)),
                    Err(e) => res == Err::<(StoreModel, bool), DatabaseError>(e) && final(self)@
                        == old(self)@,
                }
            }),
    {
        let ghost m0 = self@;
        let ghost removes_dv = tags_remove.deep_view();
        let ghost adds_dv = tags_add.deep_view();
        let ghost rl = remove_list(m0.tags, m0.events, proj.0, owner.0, removes_dv, now);

        let mut events2 = copy_events(&self.events);
        let mut changed_r = false;

        let mut i: usize = 0;
        proof {
            assert(removes_dv.skip(0) =~= removes_dv);
        }
        while i < tags_remove.len()
            invariant
                i <= tags_remove@.len(),
                self@ == m0,
                old(self)@ == m0,
                m0.wf(),
                removes_dv == tags_remove.deep_view(),
                rl == remove_list(m0.tags, m0.events, proj.0, owner.0, removes_dv, now),
                ({
                    let rest = remove_list(
                        m0.tags,
                        events2@,
                        proj.0,
                        owner.0,
                        removes_dv.skip(i as int),
                        now,
                    );
                    rl.0 == rest.0 && rl.1 == (changed_r || rest.1)
                }),
                at_most_one_active(events2@),
                intervals_ordered(events2@),
                removal_fields_paired(events2@),
                event_tags_below(events2@, m0.next_id),
                no_future_active(events2@, proj.0, now),
            decreases tags_remove@.len() - i,
        {
            let ghost evb = events2@;
            proof {
                assert(removes_dv.skip(i as int)[0] == removes_dv[i as int]);
                assert(removes_dv[i as int] == tags_remove@[i as int]@);
                assert(removes_dv.skip(i as int).drop_first() =~= removes_dv.skip(i as int + 1));
            }
            let nm: &String = &tags_remove[i];
            match lookup_name(&self.tags, nm.as_str()) {
                Some(t) => {
                    if close_first_active(&mut events2, proj.0, t, owner.0, now) {
                        changed_r = true;
                        proof {
                            lemma_close_step(evb, proj.0, t, owner.0, now, m0.next_id);
                        }
                    }
                },
                None => {},
            }
            proof {
                let step = remove_one(m0.tags, evb, proj.0, owner.0, removes_dv[i as int], now);
                assert(events2@ == step.0);
                assert(remove_list(m0.tags, evb, proj.0, owner.0, removes_dv.skip(i as int), now)
                    == (
                    remove_list(
                        m0.tags,
                        step.0,
                        proj.0,
                        owner.0,
                        removes_dv.skip(i as int + 1),
                        now,
                    ).0,
                    step.1 || remove_list(
                        m0.tags,
                        step.0,
                        proj.0,
                        owner.0,
                        removes_dv.skip(i as int + 1),
                        now,
                    ).1,
                ));
            }
            i += 1;
        }
        proof {
            assert(removes_dv.skip(tags_remove@.len() as int) =~= Seq::<Seq<char>>::empty());
            assert(events2@ == rl.0);
            assert(changed_r == rl.1);
        }

        let ghost e_mid = events2@;
        let ghost al = add_list(
            m0.tags,
            m0.next_id,
            e_mid,
            proj.0,
            owner.0,
            adds_dv,
            now,
            m0.allow_create,
        );

        let mut tags2 = clone_rows(&self.tags);
        let mut next2 = self.next_tag_id;
        let mut changed_a = false;
        let mut j: usize = 0;
        proof {
            assert(adds_dv.skip(0) =~= adds_dv);
        }
        while j < tags_add.len()
            invariant
                j <= tags_add@.len(),
                self@ == m0,
                old(self)@ == m0,
                m0.wf(),
                adds_dv == tags_add.deep_view(),
                removes_dv == tags_remove.deep_view(),
                rl == remove_list(m0.tags, m0.events, proj.0, owner.0, removes_dv, now),
                e_mid == rl.0,
                changed_r == rl.1,
                al == add_list(
                    m0.tags,
                    m0.next_id,
                    e_mid,
                    proj.0,
                    owner.0,
                    adds_dv,
                    now,
                    m0.allow_create,
                ),
                ({
                    let rest = add_list(
                        table_model(tags2@),
                        next2,
                        events2@,
                        proj.0,
                        owner.0,
                        adds_dv.skip(j as int),
                        now,
                        m0.allow_create,
                    );
                    al == (match rest {
                        Ok(o) => Ok((o.0, o.1, o.2, changed_a || o.3)),
                        Err(x) => Err(x),
                    })
                }),
                table_wf(table_model(tags2@), next2),
                at_most_one_active(events2@),
                intervals_ordered(events2@),
                removal_fields_paired(events2@),
                event_tags_below(events2@, next2),
                no_future_active(events2@, proj.0, now),
            decreases tags_add@.len() - j,
        {
            let ghost tb = table_model(tags2@);
            let ghost nb = next2;
            let ghost evb = events2@;
            proof {
                assert(adds_dv.skip(j as int)[0] == adds_dv[j as int]);
                assert(adds_dv[j as int] == tags_add@[j as int]@);
                assert(adds_dv.skip(j as int).drop_first() =~= adds_dv.skip(j as int + 1));
            }
            let nm: &String = &tags_add[j];
            match lookup_name(&tags2, nm.as_str()) {
                Some(t) => {
                    if !has_active(&events2, proj.0, t) {
                        events2.push(
                            EventRow {
                                project: proj.0,
                                tag: t,
                                added_at: now,
                                added_by: owner.0,
                                removed_at: None,
                                removed_by: None,
                            },
                        );
                        changed_a = true;
                        proof {
                            lemma_resolve_in_table(tb, adds_dv[j as int]);
                            assert(1 <= t < nb);
                            lemma_open_step(evb, proj.0, t, owner.0, now, nb);
                        }
                    }
                },
                None => {
                    if !self.allow_tag_creation {
                        proof {
                            assert(add_one(
                                tb,
                                nb,
                                evb,
                                proj.0,
                                owner.0,
                                adds_dv[j as int],
                                now,
                                m0.allow_create,
                            ) == Err::<(Seq<NameEntry>, i64, Seq<EventRow>, bool), DatabaseError>(
                                DatabaseError::NotFound,
                            ));
                            assert(al == Err::<(Seq<NameEntry>, i64, Seq<EventRow>, bool), DatabaseError>(
                                DatabaseError::NotFound,
                            ));
                        }
                        return Err(DatabaseError::NotFound);
                    }
                    if next2 == i64::MAX {
                        proof {
                            assert(al == Err::<(Seq<NameEntry>, i64, Seq<EventRow>, bool), DatabaseError>(
                                DatabaseError::StoreError,
                            ));
                        }
                        return Err(DatabaseError::StoreError);
                    }
                    match insert_row(&mut tags2, next2, nm.as_str()) {
                        Ok(()) => {
                            events2.push(
                                EventRow {
                                    project: proj.0,
                                    tag: next2,
                                    added_at: now,
                                    added_by: owner.0,
                                    removed_at: None,
                                    removed_by: None,
                                },
                            );
                            proof {
                                lemma_insert_table_wf(tb, adds_dv[j as int], nb);
                                assert forall|a: int| 0 <= a < evb.len() implies !active_for(
                                    #[trigger] evb[a],
                                    proj.0,
                                    nb,
                                ) by {
                                    assert(evb[a].tag < nb);
                                }
                                assert(!is_active_in(evb, proj.0, nb));
                                lemma_open_step(evb, proj.0, nb, owner.0, now, (nb + 1) as i64);
                            }
                            next2 = next2 + 1;
                            changed_a = true;
                        },
                        Err(e) => {
                            proof {
                                assert(e == DatabaseError::AlreadyExists);
                                assert(al == Err::<(Seq<NameEntry>, i64, Seq<EventRow>, bool), DatabaseError>(
                                    DatabaseError::AlreadyExists,
                                ));
                            }
                            return Err(e);
                        },
                    }
                },
            }
            proof {
                let step_res = add_one(
                    tb,
                    nb,
                    evb,
                    proj.0,
                    owner.0,
                    adds_dv[j as int],
                    now,
                    m0.allow_create,
                );
                assert(step_res is Ok);
                let step = step_res->Ok_0;
                assert(table_model(tags2@) == step.0);
                assert(next2 == step.1);
                assert(events2@ == step.2);
                let rest_next = add_list(
                    step.0,
                    step.1,
                    step.2,
                    proj.0,
                    owner.0,
                    adds_dv.skip(j as int + 1),
                    now,
                    m0.allow_create,
                );
                assert(add_list(
                    tb,
                    nb,
                    evb,
                    proj.0,
                    owner.0,
                    adds_dv.skip(j as int),
                    now,
                    m0.allow_create,
                ) == (match rest_next {
                    Ok(o) => Ok::<(Seq<NameEntry>, i64, Seq<EventRow>, bool), DatabaseError>(
                        (o.0, o.1, o.2, step.3 || o.3),
                    ),
                    Err(x) => Err(x),
                }));
            }
            j += 1;
        }
        proof {
            assert(adds_dv.skip(tags_add@.len() as int) =~= Seq::<Seq<char>>::empty());
        }

        self.tags = tags2;
        self.events = events2;
        self.next_tag_id = next2;
        let changed = changed_r || changed_a;
        proof {
            assert(al == Ok::<(Seq<NameEntry>, i64, Seq<EventRow>, bool), DatabaseError>(
                (self@.tags, next2, self@.events, changed_a),
            ));
            assert(apply_spec(m0, proj.0, owner.0, adds_dv, removes_dv, now) == Ok::<
                (StoreModel, bool),
                DatabaseError,
            >((self@, changed)));
        }
        Ok(changed)
    }

    /// Apply one batch of tag removals and additions for the project,
    /// and, when anything actually changed, stamp the project as modified
    /// within the same atomic unit.  A batch that changes nothing records
    /// no stamp and leaves the store untouched.  Any failure leaves the
    /// store exactly as it was.
    pub fn update_project_tags(
        &mut self,
        owner: Owner,
        proj: Project,
        tags_add: &Vec<String>,
        tags_remove: &Vec<String>,
        now: i64,
    ) -> (r: Result<(), DatabaseError>)
        requires
            old(self).wf(),
            no_future_active(old(self)@.events, proj.0, now),
        ensures
            final(self).wf(),
            ({
                let res = apply_spec(
                    old(self)@,
                    proj.0,
                    owner.0,
                    tags_add.deep_view(),
                    tags_remove.deep_view(),
                    now,
                );
                match r {
                    Ok(()) => match res {
                        Ok((m2, ch)) => final(self)@ == (StoreModel {
                            marks: if ch {
                                m2.marks.push(Mark { project: proj.0, actor: owner.0, at: now })
                            } else {
                                m2.marks
                            },
                            ..m2
                        }),
                        Err(_) => false,
                    },
                    Err(e) => res == Err::<(StoreModel, bool), DatabaseError>(e)
                        && final(self)@ == old(self)@,
                }
            }),
    {
        let changed = match self.update_project_tags_in_trans(
            owner,
            proj,
            tags_add,
            tags_remove,
            now,
        ) {
            Ok(c) => c,
            Err(e) => {
                return Err(e);
            },
        };
        if changed {
            self.mark_modified(owner, proj, now);
        }
        Ok(())
    }
}

/// One removal of a batch: resolve the name; close the pair if it is
/// open.  Unknown names and pairs that are not open are no-ops.
pub open spec fn remove_one(
    tags: Seq<NameEntry>,
    events: Seq<EventRow>,
    project: i64,
    actor: i64,
    name: Seq<char>,
    now: i64,
) -> (Seq<EventRow>, bool) {
    match resolve_name(tags, name) {
        Some(t) => if is_active_in(events, project, t) {
            (close_event(events, project, t, actor, now), true)
        } else {
            (events, false)
        },
        None => (events, false),
    }
}

/// The removals of a batch, in order; the flag reports whether any
/// association was closed.
pub open spec fn remove_list(
    tags: Seq<NameEntry>,
    events: Seq<EventRow>,
    project: i64,
    actor: i64,
    names: Seq<Seq<char>>,
    now: i64,
) -> (Seq<EventRow>, bool)
    decreases names.len(),
{
    if names.len() == 0 {
        (events, false)
    } else {
        let step = remove_one(tags, events, project, actor, names[0], now);
        let rest = remove_list(tags, step.0, project, actor, names.drop_first(), now);
        (rest.0, step.1 || rest.1)
    }
}

/// One addition of a batch: resolve the name and open the pair, skipping
/// a pair that is already open.  An unknown name fails with `NotFound`
/// while creation is disabled; with creation enabled it creates the tag
/// and opens the pair, unless the identifier space is exhausted or the
/// name collides up to case with an existing one.
pub open spec fn add_one(
    tags: Seq<NameEntry>,
    next_id: i64,
    events: Seq<EventRow>,
    project: i64,
    actor: i64,
    name: Seq<char>,
    now: i64,
    allow: bool,
) -> Result<(Seq<NameEntry>, i64, Seq<EventRow>, bool), DatabaseError> {
    match resolve_name(tags, name) {
        Some(t) => if is_active_in(events, project, t) {
            Ok((tags, next_id, events, false))
        } else {
            Ok((tags, next_id, events.push(open_event(project, t, actor, now)), true))
        },
        None => if !allow {
            Err(DatabaseError::NotFound)
        } else if next_id == i64::MAX {
            Err(DatabaseError::StoreError)
        } else if has_name_nocase(tags, name) {
            Err(DatabaseError::AlreadyExists)
        } else {
            Ok(
                (
                    tags.insert(insert_pos(tags, name), NameEntry { id: next_id, name }),
                    (next_id + 1) as i64,
                    events.push(open_event(project, next_id, actor, now)),
                    true,
                ),
            )
        },
    }
}

/// The additions of a batch, in order; the first failure aborts.
pub open spec fn add_list(
    tags: Seq<NameEntry>,
    next_id: i64,
    events: Seq<EventRow>,
    project: i64,
    actor: i64,
    names: Seq<Seq<char>>,
    now: i64,
    allow: bool,
) -> Result<(Seq<NameEntry>, i64, Seq<EventRow>, bool), DatabaseError>
    decreases names.len(),
{
    if names.len() == 0 {
        Ok((tags, next_id, events, false))
    } else {
        match add_one(tags, next_id, events, project, actor, names[0], now, allow) {
            Ok(step) => match add_list(
                step.0,
                step.1,
                step.2,
                project,
                actor,
                names.drop_first(),
                now,
                allow,
            ) {
                Ok(rest) => Ok((rest.0, rest.1, rest.2, step.3 || rest.3)),
                Err(e) => Err(e),
            },
            Err(e) => Err(e),
        }
    }
}

/// A whole batch: the removals first, then the additions; the flag
/// reports whether any association actually changed.
pub open spec fn apply_spec(
    m: StoreModel,
    project: i64,
    actor: i64,
    adds: Seq<Seq<char>>,
    removes: Seq<Seq<char>>,
    now: i64,
) -> Result<(StoreModel, bool), DatabaseError> {
    let removed = remove_list(m.tags, m.events, project, actor, removes, now);
    match add_list(m.tags, m.next_id, removed.0, project, actor, adds, now, m.allow_create) {
        Ok(rest) => Ok(
            (
                (StoreModel { tags: rest.0, next_id: rest.1, events: rest.2, ..m }),
                removed.1 || rest.3,
            ),
        ),
        Err(e) => Err(e),
    }
}

/// Closing an open association preserves the ledger invariants, under a
/// clock that no open association of the project postdates.
pub proof fn lemma_close_step(
    events: Seq<EventRow>,
    project: i64,
    tag: i64,
    actor: i64,
    now: i64,
    bound: i64,
)
    requires
        at_most_one_active(events),
        intervals_ordered(events),
        removal_fields_paired(events),
        event_tags_below(events, bound),
        no_future_active(events, project, now),
        is_active_in(events, project, tag),
    ensures
        ({
            let ev1 = close_event(events, project, tag, actor, now);
            &&& at_most_one_active(ev1)
            &&& intervals_ordered(ev1)
            &&& removal_fields_paired(ev1)
            &&& event_tags_below(ev1, bound)
            &&& no_future_active(ev1, project, now)
        }),
{
    let i = lemma_first_active_props(events, project, tag);
    let ev1 = close_event(events, project, tag, actor, now);
    assert(ev1[i] == closed_copy(events[i], actor, now));
    assert(events[i].added_at <= now);
    assert forall|a: int, b: int| 0 <= a < b < ev1.len() implies !((#[trigger] ev1[a]).removed_at
        is None && (#[trigger] ev1[b]).removed_at is None && ev1[a].project == ev1[b].project
        && ev1[a].tag == ev1[b].tag) by {
        if a != i {
            assert(ev1[a] == events[a]);
        }
        if b != i {
            assert(ev1[b] == events[b]);
        }
    }
    assert forall|a: int| 0 <= a < ev1.len() implies (match (#[trigger] ev1[a]).removed_at {
        Some(r) => ev1[a].added_at <= r,
        None => true,
    }) by {
        if a != i {
            assert(ev1[a] == events[a]);
        }
    }
    assert forall|a: int| 0 <= a < ev1.len() implies ((#[trigger] ev1[a]).removed_at is Some) == (
    ev1[a].removed_by is Some) by {
        if a != i {
            assert(ev1[a] == events[a]);
        }
    }
    assert forall|a: int| 0 <= a < ev1.len() implies (#[trigger] ev1[a]).tag < bound by {
        if a != i {
            assert(ev1[a] == events[a]);
        }
    }
    assert forall|a: int|
        0 <= a < ev1.len() && (#[trigger] ev1[a]).project == project && ev1[a].removed_at
            is None implies ev1[a].added_at <= now by {
        if a != i {
            assert(ev1[a] == events[a]);
        }
    }
}

/// Opening an association that is not open preserves the ledger
/// invariants, for a tag identifier the catalog has issued.
pub proof fn lemma_open_step(
    events: Seq<EventRow>,
    project: i64,
    tag: i64,
    actor: i64,
    now: i64,
    bound: i64,
)
    requires
        at_most_one_active(events),
        intervals_ordered(events),
        removal_fields_paired(events),
        event_tags_below(events, bound),
        no_future_active(events, project, now),
        !is_active_in(events, project, tag),
        tag < bound,
    ensures
        ({
            let ev1 = events.push(open_event(project, tag, actor, now));
            &&& at_most_one_active(ev1)
            &&& intervals_ordered(ev1)
            &&& removal_fields_paired(ev1)
            &&& event_tags_below(ev1, bound)
            &&& no_future_active(ev1, project, now)
        }),
{
    let ev1 = events.push(open_event(project, tag, actor, now));
    assert forall|a: int, b: int| 0 <= a < b < ev1.len() implies !((#[trigger] ev1[a]).removed_at
        is None && (#[trigger] ev1[b]).removed_at is None && ev1[a].project == ev1[b].project
        && ev1[a].tag == ev1[b].tag) by {
        if b == ev1.len() - 1 {
            assert(ev1[a] == events[a]);
            if ev1[a].removed_at is None && ev1[a].project == project && ev1[a].tag == tag {
                assert(active_for(events[a], project, tag));
            }
        } else {
            assert(ev1[a] == events[a]);
            assert(ev1[b] == events[b]);
        }
    }
    assert forall|a: int| 0 <= a < ev1.len() implies (match (#[trigger] ev1[a]).removed_at {
        Some(r) => ev1[a].added_at <= r,
        None => true,
    }) && ((ev1[a].removed_at is Some) == (ev1[a].removed_by is Some)) && ev1[a].tag < bound && (
    ev1[a].project == project && ev1[a].removed_at is None ==> ev1[a].added_at <= now) by {
        if a < events.len() {
            assert(ev1[a] == events[a]);
        }
    }
}

/// Closing an open association preserves the store invariants, when the
/// closing instant does not precede the event's addition.
pub proof fn lemma_close_preserves_wf(m: StoreModel, project: i64, tag: i64, actor: i64, now: i64)
    requires
        m.wf(),
        is_active_in(m.events, project, tag),
        active_added_at(m.events, project, tag) <= now,
    ensures
        (StoreModel { events: close_event(m.events, project, tag, actor, now), ..m }).wf(),
{
    let i = lemma_first_active_props(m.events, project, tag);
    let ev1 = close_event(m.events, project, tag, actor, now);
    assert(ev1[i] == closed_copy(m.events[i], actor, now));
    assert forall|a: int| 0 <= a < ev1.len() implies (match (#[trigger] ev1[a]).removed_at {
        Some(r) => ev1[a].added_at <= r,
        None => true,
    }) by {
        if a != i {
            assert(ev1[a] == m.events[a]);
        }
    }
}

/// The first open association of an active pair: its index is in range,
/// it is open for the pair, and nothing before it is.
pub proof fn lemma_first_active_props(events: Seq<EventRow>, project: i64, tag: i64) -> (i: int)
    requires
        is_active_in(events, project, tag),
    ensures
        i == first_active_index(events, project, tag),
        0 <= i < events.len(),
        active_for(events[i], project, tag),
        forall|m: int| 0 <= m < i ==> !active_for(#[trigger] events[m], project, tag),
    decreases events.len(),
{
    if active_for(events[0], project, tag) {
        0
    } else {
        let rest = events.drop_first();
        assert(is_active_in(rest, project, tag)) by {
            let w = choose|w: int|
                0 <= w < events.len() && active_for(#[trigger] events[w], project, tag);
            assert(rest[w - 1] == events[w]);
            assert(active_for(rest[w - 1], project, tag));
        }
        let j = lemma_first_active_props(rest, project, tag);
        assert forall|m: int| 0 <= m < j + 1 implies !active_for(
            #[trigger] events[m],
            project,
            tag,
        ) by {
            if m > 0 {
                assert(rest[m - 1] == events[m]);
            }
        }
        assert(events[j + 1] == rest[j]);
        j + 1
    }
}

} // verus!
