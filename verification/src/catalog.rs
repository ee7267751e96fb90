//! Sorted name tables.
//!
//! Both the tag catalog and the publisher table are tables of
//! (identifier, display name) rows, kept in strictly ascending
//! case-insensitive name order, with display names unique up to case and
//! identifiers issued in ascending order.  This module defines the table's
//! mathematical model and well-formedness, the lookup and insertion
//! routines, and the lemmas that connect filtered listings to the sorted
//! order.

use vstd::prelude::*;

use crate::db::DatabaseError;
use crate::order::{
    fold_char, lemma_nocase_strict, lemma_nocase_trans, nocase_cmp, nocase_eq, nocase_lt,
    sorted_names, str_eq,
};

verus! {

/// One row of a name table: a stable identifier and its display name.
pub struct NameRow {
    pub id: i64,
    pub name: String,
}

/// The mathematical shadow of one row: the identifier and the name's
/// character sequence.
pub ghost struct NameEntry {
    pub id: i64,
    pub name: Seq<char>,
}

/// The mathematical shadow of one exec row.
pub open spec fn entry_of(r: NameRow) -> NameEntry {
    NameEntry { id: r.id, name: r.name@ }
}

/// The mathematical shadow of a whole table.
pub open spec fn table_model(rows: Seq<NameRow>) -> Seq<NameEntry> {
    rows.map_values(|r: NameRow| entry_of(r))
}

/// The display names of the entries, in table order.
pub open spec fn names_of(entries: Seq<NameEntry>) -> Seq<Seq<char>> {
    entries.map_values(|e: NameEntry| e.name)
}

/// Entries are in strictly ascending case-insensitive name order.
pub open spec fn sorted_entries(entries: Seq<NameEntry>) -> bool {
    forall|i: int, j: int|
        0 <= i < j < entries.len() ==> nocase_lt(
            (#[trigger] entries[i]).name,
            (#[trigger] entries[j]).name,
        )
}

/// No two entries share an identifier.
pub open spec fn unique_ids(entries: Seq<NameEntry>) -> bool {
    forall|i: int, j: int|
        0 <= i < entries.len() && 0 <= j < entries.len() && i != j ==> (#[trigger] entries[i]).id
            != (#[trigger] entries[j]).id
}

/// Every identifier was issued below the table's next fresh identifier.
pub open spec fn ids_below(entries: Seq<NameEntry>, bound: i64) -> bool {
    forall|i: int| 0 <= i < entries.len() ==> 1 <= (#[trigger] entries[i]).id < bound
}

/// Well-formedness of a name table with its identifier counter.
pub open spec fn table_wf(entries: Seq<NameEntry>, next_id: i64) -> bool {
    &&& sorted_entries(entries)
    &&& unique_ids(entries)
    &&& ids_below(entries, next_id)
    &&& next_id >= 1
}

/// The identifier of the first entry whose name matches exactly.
pub open spec fn resolve_name(entries: Seq<NameEntry>, name: Seq<char>) -> Option<i64>
    decreases entries.len(),
{
    if entries.len() == 0 {
        None
    } else if entries[0].name == name {
        Some(entries[0].id)
    } else {
        resolve_name(entries.drop_first(), name)
    }
}

/// Some entry's name equals `name` up to case.
pub open spec fn has_name_nocase(entries: Seq<NameEntry>, name: Seq<char>) -> bool {
    exists|i: int| 0 <= i < entries.len() && nocase_eq((#[trigger] entries[i]).name, name)
}

/// Where a new entry named `name` belongs: after every entry sorting
/// before it.
pub open spec fn insert_pos(entries: Seq<NameEntry>, name: Seq<char>) -> int
    decreases entries.len(),
{
    if entries.len() == 0 {
        0
    } else if nocase_lt(entries[0].name, name) {
        1 + insert_pos(entries.drop_first(), name)
    } else {
        0
    }
}

/// The insertion position lies within the table.
pub proof fn lemma_insert_pos_bounds(entries: Seq<NameEntry>, name: Seq<char>)
    ensures
        0 <= insert_pos(entries, name) <= entries.len(),
    decreases entries.len(),
{
    if entries.len() == 0 {
    } else if nocase_lt(entries[0].name, name) {
        lemma_insert_pos_bounds(entries.drop_first(), name);
    }
}

/// Inserting a fresh identifier at the insertion position keeps the
/// identifiers unique and below the advanced counter.
pub proof fn lemma_insert_table_wf(entries: Seq<NameEntry>, name: Seq<char>, next: i64)
    requires
        table_wf(entries, next),
        next < i64::MAX,
    ensures
        ({
            let after = entries.insert(insert_pos(entries, name), NameEntry { id: next, name });
            unique_ids(after) && ids_below(after, (next + 1) as i64)
        }),
{
    lemma_insert_pos_bounds(entries, name);
    let p = insert_pos(entries, name);
    let after = entries.insert(p, NameEntry { id: next, name });
    assert forall|k: int| 0 <= k < after.len() implies 1 <= (#[trigger] after[k]).id < next
        + 1 by {
        if k < p {
            assert(after[k] == entries[k]);
        } else if k > p {
            assert(after[k] == entries[k - 1]);
        }
    }
    assert forall|a: int, b: int|
        0 <= a < after.len() && 0 <= b < after.len() && a != b implies (#[trigger] after[a]).id != (
    #[trigger] after[b]).id by {
        if a != p && b != p {
            let a0 = if a < p {
                a
            } else {
                a - 1
            };
            let b0 = if b < p {
                b
            } else {
                b - 1
            };
            assert(after[a] == entries[a0]);
            assert(after[b] == entries[b0]);
        } else if a == p {
            let b0 = if b < p {
                b
            } else {
                b - 1
            };
            assert(after[b] == entries[b0]);
        } else {
            let a0 = if a < p {
                a
            } else {
                a - 1
            };
            assert(after[a] == entries[a0]);
        }
    }
}

/// Case-insensitive equality of names is symmetric.
pub proof fn lemma_nocase_eq_sym(a: Seq<char>, b: Seq<char>)
    ensures
        nocase_eq(a, b) == nocase_eq(b, a),
{
    if nocase_eq(a, b) {
        assert forall|i: int| 0 <= i < b.len() implies fold_char(b[i]) == fold_char(a[i]) by {
            assert(fold_char(a[i]) == fold_char(b[i]));
        }
    }
    if nocase_eq(b, a) {
        assert forall|i: int| 0 <= i < a.len() implies fold_char(a[i]) == fold_char(b[i]) by {
            assert(fold_char(b[i]) == fold_char(a[i]));
        }
    }
}

/// A resolvable name resolves to an identifier the table holds.
pub proof fn lemma_resolve_in_table(entries: Seq<NameEntry>, name: Seq<char>)
    ensures
        match resolve_name(entries, name) {
            Some(t) => exists|i: int|
                0 <= i < entries.len() && (#[trigger] entries[i]).id == t && entries[i].name
                    == name,
            None => forall|i: int| 0 <= i < entries.len() ==> (#[trigger] entries[i]).name != name,
        },
    decreases entries.len(),
{
    if entries.len() == 0 {
    } else if entries[0].name == name {
    } else {
        lemma_resolve_in_table(entries.drop_first(), name);
        let rest = entries.drop_first();
        match resolve_name(entries, name) {
            Some(t) => {
                let i = choose|i: int|
                    0 <= i < rest.len() && (#[trigger] rest[i]).id == t && rest[i].name == name;
                assert(entries[i + 1] == rest[i]);
            },
            None => {
                assert forall|i: int| 0 <= i < entries.len() implies (#[trigger] entries[i]).name
                    != name by {
                    if i > 0 {
                        assert(rest[i - 1] == entries[i]);
                    }
                }
            },
        }
    }
}

/// A scan that passed `i` entries sorting before `name` and stopped at the
/// table's end, or at an entry sorting after `name`, stopped at `name`'s
/// insertion position.
pub proof fn lemma_insert_pos_at(entries: Seq<NameEntry>, name: Seq<char>, i: int)
    requires
        0 <= i <= entries.len(),
        forall|k: int| 0 <= k < i ==> nocase_lt((#[trigger] entries[k]).name, name),
        i == entries.len() || !nocase_lt(entries[i].name, name),
    ensures
        insert_pos(entries, name) == i,
    decreases entries.len(),
{
    if entries.len() == 0 {
    } else if i == 0 {
    } else {
        assert(nocase_lt(entries[0].name, name));
        let rest = entries.drop_first();
        assert forall|k: int| 0 <= k < i - 1 implies nocase_lt(
            (#[trigger] rest[k]).name,
            name,
        ) by {
            assert(rest[k] == entries[k + 1]);
        }
        if i - 1 < rest.len() {
            assert(rest[i - 1] == entries[i]);
        }
        lemma_insert_pos_at(rest, name, i - 1);
    }
}

/// Everything the filtered table holds, the table holds.
pub proof fn lemma_filter_subset<A>(s: Seq<A>, pred: spec_fn(A) -> bool)
    ensures
        forall|x: A| #[trigger] s.filter(pred).contains(x) ==> s.contains(x),
    decreases s.len(),
{
    reveal(Seq::filter);
    if s.len() == 0 {
    } else {
        let rest = s.drop_last();
        lemma_filter_subset(rest, pred);
        assert forall|x: A| #[trigger] s.filter(pred).contains(x) implies s.contains(x) by {
            if s.filter(pred).contains(x) {
                if x == s.last() {
                    assert(s[s.len() - 1] == x);
                } else {
                    assert(rest.filter(pred).contains(x));
                    assert(rest.contains(x));
                    let k = choose|k: int| 0 <= k < rest.len() && rest[k] == x;
                    assert(s[k] == x);
                }
            }
        }
    }
}

/// Filtering a sorted table keeps it sorted.
pub proof fn lemma_filter_sorted(entries: Seq<NameEntry>, pred: spec_fn(NameEntry) -> bool)
    requires
        sorted_entries(entries),
    ensures
        sorted_entries(entries.filter(pred)),
    decreases entries.len(),
{
    reveal(Seq::filter);
    if entries.len() == 0 {
    } else {
        let rest = entries.drop_last();
        assert(sorted_entries(rest));
        lemma_filter_sorted(rest, pred);
        if pred(entries.last()) {
            let f = rest.filter(pred);
            lemma_filter_subset(rest, pred);
            assert forall|i: int| 0 <= i < f.len() implies nocase_lt(
                (#[trigger] f[i]).name,
                entries.last().name,
            ) by {
                assert(f.contains(f[i]));
                assert(rest.contains(f[i]));
                let k = choose|k: int| 0 <= k < rest.len() && rest[k] == f[i];
                assert(entries[k] == f[i]);
                assert(nocase_lt(entries[k].name, entries[entries.len() - 1].name));
            }
            assert(entries.filter(pred) == f.push(entries.last()));
        } else {
            assert(entries.filter(pred) == rest.filter(pred));
        }
    }
}

/// A sorted table's name listing is sorted.
pub proof fn lemma_sorted_names(entries: Seq<NameEntry>)
    requires
        sorted_entries(entries),
    ensures
        sorted_names(names_of(entries)),
{
    assert forall|i: int, j: int| 0 <= i < j < names_of(entries).len() implies nocase_lt(
        #[trigger] names_of(entries)[i],
        #[trigger] names_of(entries)[j],
    ) by {
        assert(names_of(entries)[i] == entries[i].name);
        assert(names_of(entries)[j] == entries[j].name);
    }
}

/// Taking one more element extends the filtered prefix by that element,
/// when the predicate admits it.
pub proof fn lemma_filter_take_succ<A>(s: Seq<A>, pred: spec_fn(A) -> bool, i: int)
    requires
        0 <= i < s.len(),
    ensures
        s.take(i + 1).filter(pred) == if pred(s[i]) {
            s.take(i).filter(pred).push(s[i])
        } else {
            s.take(i).filter(pred)
        },
{
    reveal(Seq::filter);
    assert(s.take(i + 1).drop_last() =~= s.take(i));
    assert(s.take(i + 1).last() == s[i]);
}

/// The identifier of the first row named exactly `name`, or nothing.
pub fn lookup_name(rows: &Vec<NameRow>, name: &str) -> (r: Option<i64>)
    ensures
        r == resolve_name(table_model(rows@), name@),
{
    let ghost entries = table_model(rows@);
    let mut i: usize = 0;
    proof {
        assert(entries.skip(0) =~= entries);
    }
    while i < rows.len()
        invariant
            i <= rows@.len(),
            entries == table_model(rows@),
            resolve_name(entries, name@) == resolve_name(entries.skip(i as int), name@),
        decreases rows@.len() - i,
    {
        proof {
            assert(entries[i as int] == entry_of(rows@[i as int]));
            assert(entries.skip(i as int)[0] == entries[i as int]);
        }
        if str_eq(rows[i].name.as_str(), name) {
            return Some(rows[i].id);
        }
        proof {
            assert(entries.skip(i as int).drop_first() =~= entries.skip(i as int + 1));
        }
        i += 1;
    }
    proof {
        assert(entries.skip(i as int) =~= Seq::<NameEntry>::empty());
    }
    None
}

/// Insert a fresh row at its sorted position; refuse a name the table
/// already holds up to case.
pub fn insert_row(rows: &mut Vec<NameRow>, id: i64, name: &str) -> (r: Result<(), DatabaseError>)
    requires
        sorted_entries(table_model(old(rows)@)),
    ensures
        match r {
            Ok(()) => {
                &&& !has_name_nocase(table_model(old(rows)@), name@)
                &&& 0 <= insert_pos(table_model(old(rows)@), name@) <= old(rows)@.len()
                &&& table_model(final(rows)@) == table_model(old(rows)@).insert(
                    insert_pos(table_model(old(rows)@), name@),
                    NameEntry { id, name: name@ },
                )
                &&& sorted_entries(table_model(final(rows)@))
            },
            Err(e) => {
                &&& e == DatabaseError::AlreadyExists
                &&& has_name_nocase(table_model(old(rows)@), name@)
                &&& final(rows)@ == old(rows)@
            },
        },
{
    let ghost entries = table_model(rows@);
    let mut i: usize = 0;
    let mut found_after = false;
    while i < rows.len() && !found_after
        invariant
            i <= rows@.len(),
            entries == table_model(rows@),
            rows@.len() == entries.len(),
            forall|k: int| 0 <= k < i ==> nocase_lt((#[trigger] entries[k]).name, name@),
            found_after ==> i < entries.len() && nocase_lt(name@, entries[i as int].name),
        decreases rows@.len() - i + (if found_after { 0int } else { 1int }),
    {
        proof {
            assert(entries[i as int] == entry_of(rows@[i as int]));
        }
        let c = nocase_cmp(rows[i].name.as_str(), name);
        if c == 0 {
            proof {
                assert(nocase_eq(entries[i as int].name, name@));
            }
            return Err(DatabaseError::AlreadyExists);
        }
        if c == 1 {
            found_after = true;
        } else {
            i += 1;
        }
    }
    proof {
        if found_after {
            lemma_nocase_strict(name@, entries[i as int].name);
        }
        lemma_insert_pos_at(entries, name@, i as int);
        assert forall|j: int| 0 <= j < entries.len() implies !nocase_eq(
            (#[trigger] entries[j]).name,
            name@,
        ) by {
            if j < i {
                lemma_nocase_strict(entries[j].name, name@);
            } else {
                if j > i {
                    assert(nocase_lt(entries[i as int].name, entries[j].name));
                    lemma_nocase_trans(name@, entries[i as int].name, entries[j].name);
                }
                lemma_nocase_strict(name@, entries[j].name);
                lemma_nocase_eq_sym(entries[j].name, name@);
            }
        }
        assert(!has_name_nocase(entries, name@));
    }
    let row = NameRow { id, name: String::from_str(name) };
    rows.insert(i, row);
    proof {
        let p = i as int;
        let e = NameEntry { id, name: name@ };
        assert(table_model(rows@) =~= entries.insert(p, e));
        let after = entries.insert(p, e);
        assert forall|a: int, b: int| 0 <= a < b < after.len() implies nocase_lt(
            (#[trigger] after[a]).name,
            (#[trigger] after[b]).name,
        ) by {
            if a < p && b == p {
            } else if a == p && b > p {
                assert(after[b] == entries[b - 1]);
                if b - 1 > p {
                    assert(nocase_lt(entries[p].name, entries[b - 1].name));
                    lemma_nocase_trans(name@, entries[p].name, entries[b - 1].name);
                }
            } else if a < p && b > p {
                assert(after[a] == entries[a]);
                assert(after[b] == entries[b - 1]);
                assert(nocase_lt(entries[a].name, entries[b - 1].name));
            } else {
            }
        }
    }
    Ok(())
}

/// Whether the identifier occurs in the list.
pub fn id_in(ids: &Vec<i64>, id: i64) -> (r: bool)
    ensures
        r == ids@.contains(id),
{
    let mut i: usize = 0;
    while i < ids.len()
        invariant
            i <= ids@.len(),
            forall|k: int| 0 <= k < i ==> ids@[k] != id,
        decreases ids@.len() - i,
    {
        if ids[i] == id {
            return true;
        }
        i += 1;
    }
    false
}

/// Copy a name table, row by row.
pub fn clone_rows(rows: &Vec<NameRow>) -> (r: Vec<NameRow>)
    ensures
        r@ == rows@,
{
    let mut out: Vec<NameRow> = Vec::new();
    let mut i: usize = 0;
    while i < rows.len()
        invariant
            i <= rows@.len(),
            out@ =~= rows@.take(i as int),
        decreases rows@.len() - i,
    {
        let row = NameRow { id: rows[i].id, name: rows[i].name.clone() };
        proof {
            assert(row == rows@[i as int]);
        }
        out.push(row);
        i += 1;
    }
    proof {
        assert(rows@.take(rows@.len() as int) =~= rows@);
    }
    out
}

/// All display names, in table order.
pub fn list_names(rows: &Vec<NameRow>) -> (r: Vec<String>)
    ensures
        r.deep_view() == names_of(table_model(rows@)),
{
    let mut out: Vec<String> = Vec::new();
    let mut i: usize = 0;
    while i < rows.len()
        invariant
            i <= rows@.len(),
            out.deep_view() =~= names_of(table_model(rows@.take(i as int))),
        decreases rows@.len() - i,
    {
        let ghost dv0 = out.deep_view();
        let nm = rows[i].name.clone();
        proof {
            assert(nm@ == rows@[i as int].name@);
        }
        out.push(nm);
        proof {
            let prev = names_of(table_model(rows@.take(i as int)));
            let cur = names_of(table_model(rows@.take(i as int + 1)));
            assert(cur.len() == prev.len() + 1);
            assert forall|k: int| 0 <= k < cur.len() implies cur[k] == out.deep_view()[k] by {
                assert(out.deep_view()[k] == out@[k].deep_view());
                if k < prev.len() {
                    assert(rows@.take(i as int + 1)[k] == rows@.take(i as int)[k]);
                    assert(out@[k].deep_view() == dv0[k]);
                    assert(cur[k] == prev[k]);
                } else {
                    assert(rows@.take(i as int + 1)[k] == rows@[i as int]);
                }
            }
            assert(out.deep_view() =~= cur);
        }
        i += 1;
    }
    proof {
        assert(rows@.take(rows@.len() as int) =~= rows@);
    }
    out
}

} // verus!
