//! The engine's governing properties, stated and proved once, on the
//! mathematical model.
//!
//! Each law here speaks of every store and every batch, over the same
//! spec functions the operations' contracts use: uniqueness of the open
//! association (the ledger invariant), idempotence of additions and
//! removals, and atomicity of a failing batch.

use vstd::prelude::*;

use crate::catalog::{resolve_name, NameEntry};
use crate::db::DatabaseError;
use crate::tags::{
    active_for, add_list, add_one, apply_spec, at_most_one_active, is_active_in, remove_list,
    remove_one, EventRow, StoreModel,
};

verus! {

/// An addition that changes nothing: the name resolves and the project
/// already holds the tag.
pub open spec fn add_is_noop(m: StoreModel, project: i64, name: Seq<char>) -> bool {
    match resolve_name(m.tags, name) {
        Some(t) => is_active_in(m.events, project, t),
        None => false,
    }
}

/// A removal that changes nothing: the name is unknown, or the project
/// does not hold the tag.
pub open spec fn remove_is_noop(m: StoreModel, project: i64, name: Seq<char>) -> bool {
    match resolve_name(m.tags, name) {
        Some(t) => !is_active_in(m.events, project, t),
        None => true,
    }
}

/// Uniqueness of the open association: in a ledger satisfying the
/// invariant — which every store operation preserves — two open events
/// of one (project, tag) pair are one and the same event.
pub proof fn lemma_active_unique(events: Seq<EventRow>, project: i64, tag: i64, i: int, j: int)
    requires
        at_most_one_active(events),
        0 <= i < events.len(),
        0 <= j < events.len(),
        active_for(events[i], project, tag),
        active_for(events[j], project, tag),
    ensures
        i == j,
{
    if i < j {
        assert(!(events[i].removed_at is None && events[j].removed_at is None && events[i].project
            == events[j].project && events[i].tag == events[j].tag));
    } else if j < i {
        assert(!(events[j].removed_at is None && events[i].removed_at is None && events[j].project
            == events[i].project && events[j].tag == events[i].tag));
    }
}

/// Additions of tags the project already holds change nothing.
proof fn lemma_add_list_noop(
    tags: Seq<NameEntry>,
    next_id: i64,
    events: Seq<EventRow>,
    project: i64,
    actor: i64,
    names: Seq<Seq<char>>,
    now: i64,
    allow: bool,
)
    requires
        forall|k: int|
            0 <= k < names.len() ==> (match resolve_name(tags, #[trigger] names[k]) {
                Some(t) => is_active_in(events, project, t),
                None => false,
            }),
    ensures
        add_list(tags, next_id, events, project, actor, names, now, allow) == Ok::<
            (Seq<NameEntry>, i64, Seq<EventRow>, bool),
            DatabaseError,
        >((tags, next_id, events, false)),
    decreases names.len(),
{
    if names.len() == 0 {
    } else {
        assert(add_one(tags, next_id, events, project, actor, names[0], now, allow) == Ok::<
            (Seq<NameEntry>, i64, Seq<EventRow>, bool),
            DatabaseError,
        >((tags, next_id, events, false)));
        assert forall|k: int|
            0 <= k < names.drop_first().len() implies (match resolve_name(
            tags,
            #[trigger] names.drop_first()[k],
        ) {
            Some(t) => is_active_in(events, project, t),
            None => false,
        }) by {
            assert(names.drop_first()[k] == names[k + 1]);
        }
        lemma_add_list_noop(tags, next_id, events, project, actor, names.drop_first(), now, allow);
    }
}

/// Idempotence of addition: a batch that only adds tags the project
/// already holds succeeds, reports no change, and leaves the store —
/// history included — exactly as it was.
pub proof fn lemma_apply_add_active_noop(
    m: StoreModel,
    project: i64,
    actor: i64,
    adds: Seq<Seq<char>>,
    now: i64,
)
    requires
        forall|k: int| 0 <= k < adds.len() ==> add_is_noop(m, project, #[trigger] adds[k]),
    ensures
        apply_spec(m, project, actor, adds, Seq::<Seq<char>>::empty(), now) == Ok::<
            (StoreModel, bool),
            DatabaseError,
        >((m, false)),
{
    let removed = remove_list(m.tags, m.events, project, actor, Seq::<Seq<char>>::empty(), now);
    assert(removed == (m.events, false));
    lemma_add_list_noop(m.tags, m.next_id, m.events, project, actor, adds, now, m.allow_create);
    assert((StoreModel { tags: m.tags, next_id: m.next_id, events: m.events, ..m }) == m);
}

/// Removals that touch nothing change nothing.
proof fn lemma_remove_list_noop(
    tags: Seq<NameEntry>,
    events: Seq<EventRow>,
    project: i64,
    actor: i64,
    names: Seq<Seq<char>>,
    now: i64,
)
    requires
        forall|k: int|
            0 <= k < names.len() ==> (match resolve_name(tags, #[trigger] names[k]) {
                Some(t) => !is_active_in(events, project, t),
                None => true,
            }),
    ensures
        remove_list(tags, events, project, actor, names, now) == (events, false),
    decreases names.len(),
{
    if names.len() == 0 {
    } else {
        assert(remove_one(tags, events, project, actor, names[0], now) == (events, false));
        assert forall|k: int|
            0 <= k < names.drop_first().len() implies (match resolve_name(
            tags,
            #[trigger] names.drop_first()[k],
        ) {
            Some(t) => !is_active_in(events, project, t),
            None => true,
        }) by {
            assert(names.drop_first()[k] == names[k + 1]);
        }
        lemma_remove_list_noop(tags, events, project, actor, names.drop_first(), now);
    }
}

/// Idempotence of removal: a batch that only removes unknown tags, or
/// tags the project does not hold, succeeds, reports no change, and
/// leaves the store exactly as it was; it is not an error.
pub proof fn lemma_apply_remove_inactive_noop(
    m: StoreModel,
    project: i64,
    actor: i64,
    removes: Seq<Seq<char>>,
    now: i64,
)
    requires
        forall|k: int| 0 <= k < removes.len() ==> remove_is_noop(m, project, #[trigger] removes[k]),
    ensures
        apply_spec(m, project, actor, Seq::<Seq<char>>::empty(), removes, now) == Ok::<
            (StoreModel, bool),
            DatabaseError,
        >((m, false)),
{
    lemma_remove_list_noop(m.tags, m.events, project, actor, removes, now);
    assert(add_list(
        m.tags,
        m.next_id,
        m.events,
        project,
        actor,
        Seq::<Seq<char>>::empty(),
        now,
        m.allow_create,
    ) == Ok::<(Seq<NameEntry>, i64, Seq<EventRow>, bool), DatabaseError>(
        (m.tags, m.next_id, m.events, false),
    ));
    assert((StoreModel { tags: m.tags, next_id: m.next_id, events: m.events, ..m }) == m);
}

/// With creation disabled, a list of additions holding an unresolvable
/// name fails with `NotFound`.
proof fn lemma_add_list_unresolved(
    tags: Seq<NameEntry>,
    next_id: i64,
    events: Seq<EventRow>,
    project: i64,
    actor: i64,
    names: Seq<Seq<char>>,
    now: i64,
    k: int,
)
    requires
        0 <= k < names.len(),
        resolve_name(tags, names[k]) is None,
    ensures
        add_list(tags, next_id, events, project, actor, names, now, false) == Err::<
            (Seq<NameEntry>, i64, Seq<EventRow>, bool),
            DatabaseError,
        >(DatabaseError::NotFound),
    decreases names.len(),
{
    if k == 0 {
    } else {
        match add_one(tags, next_id, events, project, actor, names[0], now, false) {
            Ok(step) => {
                assert(step.0 == tags && step.1 == next_id);
                assert(names.drop_first()[k - 1] == names[k]);
                lemma_add_list_unresolved(
                    tags,
                    next_id,
                    step.2,
                    project,
                    actor,
                    names.drop_first(),
                    now,
                    k - 1,
                );
            },
            Err(e) => {
                assert(e == DatabaseError::NotFound);
            },
        }
    }
}

/// Atomicity on failure: with creation disabled, a batch whose additions
/// hold an unresolvable name fails as a whole with `NotFound` — whatever
/// the batch would also have removed or added.  Together with the
/// operation's contract, which returns the store unchanged on every
/// error, no partial application is ever observable.
pub proof fn lemma_apply_unresolved_add_fails(
    m: StoreModel,
    project: i64,
    actor: i64,
    adds: Seq<Seq<char>>,
    removes: Seq<Seq<char>>,
    now: i64,
    k: int,
)
    requires
        !m.allow_create,
        0 <= k < adds.len(),
        resolve_name(m.tags, adds[k]) is None,
    ensures
        apply_spec(m, project, actor, adds, removes, now) == Err::<
            (StoreModel, bool),
            DatabaseError,
        >(DatabaseError::NotFound),
{
    let removed = remove_list(m.tags, m.events, project, actor, removes, now);
    lemma_add_list_unresolved(m.tags, m.next_id, removed.0, project, actor, adds, now, k);
}

} // verus!
