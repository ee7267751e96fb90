//! The publisher table: a sorted name table plus the record of which
//! publishers currently have a project.

use vstd::prelude::*;

use crate::catalog::{
    entry_of, has_name_nocase, id_in, insert_pos, insert_row, lemma_filter_sorted,
    lemma_filter_take_succ, lemma_insert_table_wf, lemma_sorted_names, list_names, lookup_name,
    names_of, resolve_name, table_model, table_wf, NameEntry, NameRow,
};
use crate::db::DatabaseError;
use crate::order::{lemma_sorted_names_distinct, sorted_names};

verus! {

/// The stable identifier of one publisher.
#[derive(Clone, Copy, Debug, Eq, PartialEq, Structural)]
pub struct Publisher(pub i64);

/// The mathematical state of a [`PublisherStore`].
pub ghost struct PublisherModel {
    pub publishers: Seq<NameEntry>,
    pub used: Seq<i64>,
    pub next_id: i64,
}

/// The publisher table and, for each registered project, its publisher.
pub struct PublisherStore {
    publishers: Vec<NameRow>,
    used: Vec<i64>,
    next_id: i64,
}

impl View for PublisherStore {
    type V = PublisherModel;

    closed spec fn view(&self) -> PublisherModel {
        PublisherModel {
            publishers: table_model(self.publishers@),
            used: self.used@,
            next_id: self.next_id,
        }
    }
}

/// The names of the publishers that have at least one project, in table
/// order.
pub open spec fn used_publisher_names(m: PublisherModel) -> Seq<Seq<char>> {
    names_of(m.publishers.filter(|e: NameEntry| m.used.contains(e.id)))
}

impl PublisherStore {
    /// The store's invariants hold.
    pub open spec fn wf(self) -> bool {
        table_wf(self@.publishers, self@.next_id)
    }

    /// An empty table: no publishers, no projects.
    pub fn new() -> (s: PublisherStore)
        ensures
            s.wf(),
            s@ == (PublisherModel {
                publishers: Seq::<NameEntry>::empty(),
                used: Seq::<i64>::empty(),
                next_id: 1,
            }),
    {
        let s = PublisherStore { publishers: Vec::new(), used: Vec::new(), next_id: 1 };
        proof {
            assert(s@.publishers =~= Seq::<NameEntry>::empty());
        }
        s
    }

    /// Resolve a publisher name to its identifier: an exact-name lookup
    /// that never creates.
    pub fn get_publisher_id(&self, publisher: &str) -> (r: Option<Publisher>)
        ensures
            match r {
                Some(p) => resolve_name(self@.publishers, publisher@) == Some(p.0),
                None => resolve_name(self@.publishers, publisher@) is None,
            },
    {
        match lookup_name(&self.publishers, publisher) {
            Some(id) => Some(Publisher(id)),
            None => None,
        }
    }

    /// Record a fresh publisher under the next identifier; refuse a name
    /// the table already holds up to case.  Identifier exhaustion is
    /// reported before the name is examined.
    pub fn create_publisher(&mut self, publisher: &str) -> (r: Result<Publisher, DatabaseError>)
        requires
            old(self).wf(),
        ensures
            final(self).wf(),
            match r {
                Ok(p) => {
                    &&& old(self)@.next_id < i64::MAX
                    &&& !has_name_nocase(old(self)@.publishers, publisher@)
                    &&& p.0 == old(self)@.next_id
                    &&& final(self)@ == (PublisherModel {
                        publishers: old(self)@.publishers.insert(
                            insert_pos(old(self)@.publishers, publisher@),
                            NameEntry { id: old(self)@.next_id, name: publisher@ },
                        ),
                        next_id: (old(self)@.next_id + 1) as i64,
                        ..old(self)@
                    })
                },
                Err(DatabaseError::StoreError) => old(self)@.next_id == i64::MAX && final(self)@
                    == old(self)@,
                Err(DatabaseError::AlreadyExists) => {
                    &&& old(self)@.next_id < i64::MAX
                    &&& has_name_nocase(old(self)@.publishers, publisher@)
                    &&& final(self)@ == old(self)@
                },
                Err(DatabaseError::NotFound) => false,
            },
    {
        if self.next_id == i64::MAX {
            return Err(DatabaseError::StoreError);
        }
        let id = self.next_id;
        match insert_row(&mut self.publishers, id, publisher) {
            Ok(()) => {
                proof {
                    lemma_insert_table_wf(old(self)@.publishers, publisher@, id);
                }
                self.next_id = id + 1;
                Ok(Publisher(id))
            },
            Err(e) => Err(e),
        }
    }

    /// Resolve the publisher, creating it when the table does not know
    /// the name.
    pub fn get_or_create_publisher(&mut self, publisher: &str) -> (r: Result<
        Publisher,
        DatabaseError,
    >)
        requires
            old(self).wf(),
        ensures
            final(self).wf(),
            match resolve_name(old(self)@.publishers, publisher@) {
                Some(t) => r == Ok::<Publisher, DatabaseError>(Publisher(t)) && final(self)@
                    == old(self)@,
                None => match r {
                    Ok(p) => {
                        &&& old(self)@.next_id < i64::MAX
                        &&& p.0 == old(self)@.next_id
                        &&& final(self)@ == (PublisherModel {
                            publishers: old(self)@.publishers.insert(
                                insert_pos(old(self)@.publishers, publisher@),
                                NameEntry { id: old(self)@.next_id, name: publisher@ },
                            ),
                            next_id: (old(self)@.next_id + 1) as i64,
                            ..old(self)@
                        })
                    },
                    Err(DatabaseError::StoreError) => old(self)@.next_id == i64::MAX
                        && final(self)@ == old(self)@,
                    Err(DatabaseError::AlreadyExists) => has_name_nocase(
                        old(self)@.publishers,
                        publisher@,
                    ) && final(self)@ == old(self)@,
                    Err(DatabaseError::NotFound) => false,
                },
            },
    {
        match self.get_publisher_id(publisher) {
            Some(p) => Ok(p),
            None => self.create_publisher(publisher),
        }
    }

    /// Register one project's publisher, so that the publisher counts as
    /// in use.
    pub fn add_project_publisher(&mut self, publisher: Publisher)
        ensures
            final(self)@ == (PublisherModel {
                used: old(self)@.used.push(publisher.0),
                ..old(self)@
            }),
    {
        self.used.push(publisher.0);
    }

    /// All publisher names, ordered case-insensitively.
    pub fn get_publishers(&self) -> (r: Vec<String>)
        ensures
            r.deep_view() == names_of(self@.publishers),
            self.wf() ==> sorted_names(r.deep_view()),
    {
        proof {
            if self.wf() {
                lemma_sorted_names(self@.publishers);
            }
        }
        list_names(&self.publishers)
    }

    /// The names of the publishers with at least one project, ordered
    /// case-insensitively, without repetition.
    pub fn get_publishers_active(&self) -> (r: Vec<String>)
        ensures
            r.deep_view() == used_publisher_names(self@),
            self.wf() ==> sorted_names(r.deep_view()),
            self.wf() ==> (forall|i: int, j: int|
                0 <= i < j < r.deep_view().len() ==> #[trigger] r.deep_view()[i]
                    != #[trigger] r.deep_view()[j]),
    {
        let ghost entries = self@.publishers;
        let ghost pred = |e: NameEntry| self@.used.contains(e.id);
        let mut out: Vec<String> = Vec::new();
        let mut i: usize = 0;
        proof {
            assert(entries.take(0).filter(pred) =~= Seq::<NameEntry>::empty());
            assert(out.deep_view() =~= names_of(entries.take(0).filter(pred)));
        }
        while i < self.publishers.len()
            invariant
                i <= self.publishers@.len(),
                entries == self@.publishers,
                pred == (|e: NameEntry| self@.used.contains(e.id)),
                entries.len() == self.publishers@.len(),
                out.deep_view() =~= names_of(entries.take(i as int).filter(pred)),
            decreases self.publishers@.len() - i,
        {
            proof {
                assert(entries[i as int] == entry_of(self.publishers@[i as int]));
                lemma_filter_take_succ(entries, pred, i as int);
            }
            let ghost dv0 = out.deep_view();
            if id_in(&self.used, self.publishers[i].id) {
                let nm = self.publishers[i].name.clone();
                proof {
                    assert(nm@ == entries[i as int].name);
                }
                out.push(nm);
                proof {
                    assert(out.deep_view() =~= dv0.push(entries[i as int].name));
                    assert(names_of(entries.take(i as int + 1).filter(pred)) =~= dv0.push(
                        entries[i as int].name,
                    ));
                }
            }
            i += 1;
        }
        proof {
            assert(entries.take(entries.len() as int) =~= entries);
            if self.wf() {
                lemma_filter_sorted(entries, pred);
                lemma_sorted_names(entries.filter(pred));
                lemma_sorted_names_distinct(names_of(entries.filter(pred)));
            }
        }
        out
    }
}

} // verus!
