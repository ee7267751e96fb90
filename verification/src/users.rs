//! The user profiles and the session table.
//!
//! Profiles are kept in ascending identifier order, one row per user;
//! storing a profile again replaces it.  Sessions are keyed by their
//! session identifier; storing a session again replaces it, and a
//! session only verifies while it has not expired.

use vstd::prelude::*;

use crate::catalog::{id_in, lemma_filter_take_succ};
use crate::db::DatabaseError;
use crate::order::str_eq;

verus! {

/// One user profile: identifier, name, and avatar template.
#[derive(Clone, Debug, Eq, PartialEq)]
pub struct UserRow {
    pub id: i64,
    pub username: String,
    pub avatar_template: String,
}

/// What a profile listing reports of one user.
#[derive(Clone, Debug, Eq, PartialEq)]
pub struct UserData {
    pub id: i64,
    pub username: String,
}

/// The fields a profile update carries.
#[derive(Clone, Debug, Eq, PartialEq)]
pub struct UserUpdateParams {
    pub id: i64,
    pub username: String,
    pub avatar_template: String,
}

/// One session: its identifier, the user it belongs to, and when it
/// expires.
#[derive(Clone, Debug, Eq, PartialEq)]
pub struct SessionRow {
    pub session_id: String,
    pub user_id: i64,
    pub expires: i64,
}

/// The mathematical shadow of one profile row.
pub ghost struct UserEntry {
    pub id: i64,
    pub username: Seq<char>,
    pub avatar: Seq<char>,
}

/// The mathematical shadow of one session row.
pub ghost struct SessionEntry {
    pub sid: Seq<char>,
    pub user_id: i64,
    pub expires: i64,
}

/// The mathematical shadow of one exec profile row.
pub open spec fn user_entry_of(r: UserRow) -> UserEntry {
    UserEntry { id: r.id, username: r.username@, avatar: r.avatar_template@ }
}

/// The mathematical shadow of a profile table.
pub open spec fn users_model(rows: Seq<UserRow>) -> Seq<UserEntry> {
    rows.map_values(|r: UserRow| user_entry_of(r))
}

/// The mathematical shadow of a session table.
pub open spec fn sessions_model(rows: Seq<SessionRow>) -> Seq<SessionEntry> {
    rows.map_values(
        |r: SessionRow| SessionEntry { sid: r.session_id@, user_id: r.user_id, expires: r.expires },
    )
}

/// Profiles are in strictly ascending identifier order.
pub open spec fn users_sorted(users: Seq<UserEntry>) -> bool {
    forall|i: int, j: int|
        0 <= i < j < users.len() ==> (#[trigger] users[i]).id < (#[trigger] users[j]).id
}

/// No two sessions share an identifier.
pub open spec fn sessions_unique(sessions: Seq<SessionEntry>) -> bool {
    forall|i: int, j: int|
        0 <= i < j < sessions.len() ==> (#[trigger] sessions[i]).sid != (
        #[trigger] sessions[j]).sid
}

/// Where a profile with this identifier stands, or would be inserted:
/// after every profile with a smaller identifier.
pub open spec fn user_pos(users: Seq<UserEntry>, id: i64) -> int
    decreases users.len(),
{
    if users.len() == 0 {
        0
    } else if users[0].id < id {
        1 + user_pos(users.drop_first(), id)
    } else {
        0
    }
}

/// Some profile has this identifier.
pub open spec fn has_user(users: Seq<UserEntry>, id: i64) -> bool {
    exists|i: int| 0 <= i < users.len() && (#[trigger] users[i]).id == id
}

/// The avatar template of the first profile with this name, if any.
pub open spec fn find_avatar(users: Seq<UserEntry>, name: Seq<char>) -> Option<Seq<char>>
    decreases users.len(),
{
    if users.len() == 0 {
        None
    } else if users[0].username == name {
        Some(users[0].avatar)
    } else {
        find_avatar(users.drop_first(), name)
    }
}

/// Some session has this identifier.
pub open spec fn has_session(sessions: Seq<SessionEntry>, sid: Seq<char>) -> bool {
    exists|i: int| 0 <= i < sessions.len() && (#[trigger] sessions[i]).sid == sid
}

/// The index of the first session with this identifier.
pub open spec fn session_pos(sessions: Seq<SessionEntry>, sid: Seq<char>) -> int
    decreases sessions.len(),
{
    if sessions.len() == 0 {
        0
    } else if sessions[0].sid == sid {
        0
    } else {
        1 + session_pos(sessions.drop_first(), sid)
    }
}

/// The user of the session with this identifier, provided it has not
/// expired by `now`.
pub open spec fn session_user(sessions: Seq<SessionEntry>, sid: Seq<char>, now: i64) -> Option<
    i64,
> {
    if has_session(sessions, sid) && sessions[session_pos(sessions, sid)].expires > now {
        Some(sessions[session_pos(sessions, sid)].user_id)
    } else {
        None
    }
}

/// A scan that passed `i` profiles with smaller identifiers and stopped
/// at the table's end, or at one with an identifier not smaller, stopped
/// at the identifier's position.
proof fn lemma_user_pos_at(users: Seq<UserEntry>, id: i64, i: int)
    requires
        0 <= i <= users.len(),
        forall|k: int| 0 <= k < i ==> (#[trigger] users[k]).id < id,
        i == users.len() || users[i].id >= id,
    ensures
        user_pos(users, id) == i,
    decreases users.len(),
{
    if users.len() == 0 {
    } else if i == 0 {
    } else {
        let rest = users.drop_first();
        assert forall|k: int| 0 <= k < i - 1 implies (#[trigger] rest[k]).id < id by {
            assert(rest[k] == users[k + 1]);
        }
        if i - 1 < rest.len() {
            assert(rest[i - 1] == users[i]);
        }
        lemma_user_pos_at(rest, id, i - 1);
    }
}

/// The first session with an identifier a scan found at `k`, with none
/// before, is at position `k`.
proof fn lemma_session_pos_at(sessions: Seq<SessionEntry>, sid: Seq<char>, k: int)
    requires
        0 <= k < sessions.len(),
        sessions[k].sid == sid,
        forall|m: int| 0 <= m < k ==> (#[trigger] sessions[m]).sid != sid,
    ensures
        session_pos(sessions, sid) == k,
        has_session(sessions, sid),
    decreases sessions.len(),
{
    if k == 0 {
    } else {
        let rest = sessions.drop_first();
        assert forall|m: int| 0 <= m < k - 1 implies (#[trigger] rest[m]).sid != sid by {
            assert(rest[m] == sessions[m + 1]);
        }
        assert(rest[k - 1] == sessions[k]);
        lemma_session_pos_at(rest, sid, k - 1);
    }
}

/// The user profiles and sessions of one installation.
pub struct UserStore {
    users: Vec<UserRow>,
    sessions: Vec<SessionRow>,
}

/// The mathematical state of a [`UserStore`].
pub ghost struct UsersModel {
    pub users: Seq<UserEntry>,
    pub sessions: Seq<SessionEntry>,
}

impl View for UserStore {
    type V = UsersModel;

    closed spec fn view(&self) -> UsersModel {
        UsersModel { users: users_model(self.users@), sessions: sessions_model(self.sessions@) }
    }
}

impl UserStore {
    /// The store's invariants hold.
    pub open spec fn wf(self) -> bool {
        users_sorted(self@.users) && sessions_unique(self@.sessions)
    }

    /// An empty store: no profiles, no sessions.
    pub fn new() -> (s: UserStore)
        ensures
            s.wf(),
            s@ == (UsersModel {
                users: Seq::<UserEntry>::empty(),
                sessions: Seq::<SessionEntry>::empty(),
            }),
    {
        let s = UserStore { users: Vec::new(), sessions: Vec::new() };
        proof {
            assert(s@.users =~= Seq::<UserEntry>::empty());
            assert(s@.sessions =~= Seq::<SessionEntry>::empty());
        }
        s
    }

    /// Store a profile: replace the user's profile, or record it fresh,
    /// keeping the table ordered by identifier.
    pub fn update_user(&mut self, params: &UserUpdateParams)
        requires
            old(self).wf(),
        ensures
            final(self).wf(),
            final(self)@.sessions == old(self)@.sessions,
            ({
                let users0 = old(self)@.users;
                let e = UserEntry {
                    id: params.id,
                    username: params.username@,
                    avatar: params.avatar_template@,
                };
                let p = user_pos(users0, params.id);
                &&& 0 <= p <= users0.len()
                &&& if p < users0.len() && users0[p].id == params.id {
                    final(self)@.users == users0.update(p, e)
                } else {
                    final(self)@.users == users0.insert(p, e)
                }
            }),
    {
        let ghost users0 = self@.users;
        let mut i: usize = 0;
        let mut found_ge = false;
        while i < self.users.len() && !found_ge
            invariant
                i <= self.users@.len(),
                users0 == self@.users,
                users0.len() == self.users@.len(),
                forall|k: int| 0 <= k < i ==> (#[trigger] users0[k]).id < params.id,
                found_ge ==> i < users0.len() && users0[i as int].id >= params.id,
            decreases self.users@.len() - i + (if found_ge { 0int } else { 1int }),
        {
            proof {
                assert(users0[i as int] == user_entry_of(self.users@[i as int]));
            }
            if self.users[i].id < params.id {
                i += 1;
            } else {
                found_ge = true;
            }
        }
        proof {
            lemma_user_pos_at(users0, params.id, i as int);
        }
        let row = UserRow {
            id: params.id,
            username: params.username.clone(),
            avatar_template: params.avatar_template.clone(),
        };
        let ghost e = UserEntry {
            id: params.id,
            username: params.username@,
            avatar: params.avatar_template@,
        };
        if i < self.users.len() && self.users[i].id == params.id {
            self.users[i] = row;
            proof {
                assert(self@.users =~= users0.update(i as int, e));
                assert forall|a: int, b: int|
                    0 <= a < b < self@.users.len() implies (#[trigger] self@.users[a]).id < (
                #[trigger] self@.users[b]).id by {
                    if a != i {
                        assert(self@.users[a] == users0[a]);
                    }
                    if b != i {
                        assert(self@.users[b] == users0[b]);
                    }
                }
            }
        } else {
            proof {
                if i < self.users@.len() {
                    assert(users0[i as int].id >= params.id);
                    assert(users0[i as int].id != params.id);
                }
            }
            self.users.insert(i, row);
            proof {
                let p = i as int;
                assert(self@.users =~= users0.insert(p, e));
                assert forall|a: int, b: int|
                    0 <= a < b < self@.users.len() implies (#[trigger] self@.users[a]).id < (
                #[trigger] self@.users[b]).id by {
                    if a < p && b == p {
                        assert(self@.users[a] == users0[a]);
                    } else if a == p && b > p {
                        assert(self@.users[b] == users0[b - 1]);
                    } else if a < p && b > p {
                        assert(self@.users[a] == users0[a]);
                        assert(self@.users[b] == users0[b - 1]);
                        if a < b - 1 {
                        }
                    } else if a < p && b < p {
                        assert(self@.users[a] == users0[a]);
                        assert(self@.users[b] == users0[b]);
                    } else {
                        assert(self@.users[a] == users0[a - 1]);
                        assert(self@.users[b] == users0[b - 1]);
                    }
                }
            }
        }
    }

    /// The identifier and name of every listed user the store knows,
    /// ordered by identifier.  Unknown identifiers are simply absent.
    pub fn get_user_data(&self, uids: &Vec<i64>) -> (r: Vec<UserData>)
        ensures
            r@.map_values(|d: UserData| (d.id, d.username@)) == self@.users.filter(
                |u: UserEntry| uids@.contains(u.id),
            ).map_values(|u: UserEntry| (u.id, u.username)),
    {
        let ghost entries = self@.users;
        let ghost pred = |u: UserEntry| uids@.contains(u.id);
        let ghost f = |d: UserData| (d.id, d.username@);
        let ghost g = |u: UserEntry| (u.id, u.username);
        let mut out: Vec<UserData> = Vec::new();
        let mut i: usize = 0;
        proof {
            assert(entries.take(0).filter(pred) =~= Seq::<UserEntry>::empty());
            assert(out@.map_values(f) =~= entries.take(0).filter(pred).map_values(g));
        }
        while i < self.users.len()
            invariant
                i <= self.users@.len(),
                entries == self@.users,
                pred == (|u: UserEntry| uids@.contains(u.id)),
                f == (|d: UserData| (d.id, d.username@)),
                g == (|u: UserEntry| (u.id, u.username)),
                entries.len() == self.users@.len(),
                out@.map_values(f) =~= entries.take(i as int).filter(pred).map_values(g),
            decreases self.users@.len() - i,
        {
            proof {
                assert(entries[i as int] == user_entry_of(self.users@[i as int]));
                lemma_filter_take_succ(entries, pred, i as int);
            }
            let ghost m0 = out@.map_values(f);
            if id_in(uids, self.users[i].id) {
                let d = UserData { id: self.users[i].id, username: self.users[i].username.clone() };
                proof {
                    assert(f(d) == g(entries[i as int]));
                }
                out.push(d);
                proof {
                    assert(out@.map_values(f) =~= m0.push(g(entries[i as int])));
                    assert(entries.take(i as int + 1).filter(pred).map_values(g) =~= m0.push(
                        g(entries[i as int]),
                    ));
                }
            }
            i += 1;
        }
        proof {
            assert(entries.take(entries.len() as int) =~= entries);
        }
        out
    }

    /// The avatar template of the first profile under this name; an
    /// unknown name is `NotFound`.
    pub fn get_user_avatar_template(&self, username: &str) -> (r: Result<String, DatabaseError>)
        ensures
            match r {
                Ok(s) => find_avatar(self@.users, username@) == Some(s@),
                Err(e) => e == DatabaseError::NotFound && find_avatar(self@.users, username@)
                    is None,
            },
    {
        let ghost entries = self@.users;
        let mut i: usize = 0;
        proof {
            assert(entries.skip(0) =~= entries);
        }
        while i < self.users.len()
            invariant
                i <= self.users@.len(),
                entries == self@.users,
                entries.len() == self.users@.len(),
                find_avatar(entries, username@) == find_avatar(entries.skip(i as int), username@),
            decreases self.users@.len() - i,
        {
            proof {
                assert(entries[i as int] == user_entry_of(self.users@[i as int]));
                assert(entries.skip(i as int)[0] == entries[i as int]);
            }
            if str_eq(self.users[i].username.as_str(), username) {
                return Ok(self.users[i].avatar_template.clone());
            }
            proof {
                assert(entries.skip(i as int).drop_first() =~= entries.skip(i as int + 1));
            }
            i += 1;
        }
        proof {
            assert(entries.skip(i as int) =~= Seq::<UserEntry>::empty());
        }
        Err(DatabaseError::NotFound)
    }

    /// Store a session for the user: replace the session under this
    /// identifier, or record it fresh.
    pub fn create_session(&mut self, uid: i64, session_id: &str, expires: i64)
        requires
            old(self).wf(),
        ensures
            final(self).wf(),
            final(self)@.users == old(self)@.users,
            ({
                let s0 = old(self)@.sessions;
                let e = SessionEntry { sid: session_id@, user_id: uid, expires };
                if has_session(s0, session_id@) {
                    final(self)@.sessions == s0.update(session_pos(s0, session_id@), e)
                } else {
                    final(self)@.sessions == s0.push(e)
                }
            }),
    {
        let ghost s0 = self@.sessions;
        let mut i: usize = 0;
        while i < self.sessions.len()
            invariant
                i <= self.sessions@.len(),
                old(self).wf(),
                s0 == old(self)@.sessions,
                self@ == old(self)@,
                s0.len() == self.sessions@.len(),
                forall|m: int| 0 <= m < i ==> (#[trigger] s0[m]).sid != session_id@,
            decreases self.sessions@.len() - i,
        {
            proof {
                assert(s0[i as int].sid == self.sessions@[i as int].session_id@);
            }
            if str_eq(self.sessions[i].session_id.as_str(), session_id) {
                proof {
                    lemma_session_pos_at(s0, session_id@, i as int);
                }
                let row = SessionRow {
                    session_id: String::from_str(session_id),
                    user_id: uid,
                    expires,
                };
                self.sessions[i] = row;
                proof {
                    let e = SessionEntry { sid: session_id@, user_id: uid, expires };
                    assert(self@.sessions =~= s0.update(i as int, e));
                    assert forall|a: int, b: int|
                        0 <= a < b < self@.sessions.len() implies (
                    #[trigger] self@.sessions[a]).sid != (#[trigger] self@.sessions[b]).sid by {
                        if a != i {
                            assert(self@.sessions[a] == s0[a]);
                        }
                        if b != i {
                            assert(self@.sessions[b] == s0[b]);
                        }
                    }
                }
                return;
            }
            i += 1;
        }
        let row = SessionRow { session_id: String::from_str(session_id), user_id: uid, expires };
        self.sessions.push(row);
        proof {
            let e = SessionEntry { sid: session_id@, user_id: uid, expires };
            assert(self@.sessions =~= s0.push(e));
            assert(!has_session(s0, session_id@));
            assert forall|a: int, b: int|
                0 <= a < b < self@.sessions.len() implies (#[trigger] self@.sessions[a]).sid != (
            #[trigger] self@.sessions[b]).sid by {
                assert(self@.sessions[a] == s0[a]);
                if b < s0.len() {
                    assert(self@.sessions[b] == s0[b]);
                }
            }
        }
    }

    /// The user of the session under this identifier, provided it has
    /// not expired by `now`.
    pub fn verify_session(&self, session_id: &str, now: i64) -> (r: Option<i64>)
        requires
            self.wf(),
        ensures
            r == session_user(self@.sessions, session_id@, now),
    {
        let ghost s0 = self@.sessions;
        let mut i: usize = 0;
        while i < self.sessions.len()
            invariant
                i <= self.sessions@.len(),
                s0 == self@.sessions,
                s0.len() == self.sessions@.len(),
                forall|m: int| 0 <= m < i ==> (#[trigger] s0[m]).sid != session_id@,
            decreases self.sessions@.len() - i,
        {
            proof {
                assert(s0[i as int].sid == self.sessions@[i as int].session_id@);
            }
            if str_eq(self.sessions[i].session_id.as_str(), session_id) {
                proof {
                    lemma_session_pos_at(s0, session_id@, i as int);
                }
                if self.sessions[i].expires > now {
                    return Some(self.sessions[i].user_id);
                } else {
                    return None;
                }
            }
            i += 1;
        }
        proof {
            assert(!has_session(s0, session_id@));
        }
        None
    }

    /// Forget the session under this identifier; forgetting an unknown
    /// one is a no-op.
    pub fn delete_session(&mut self, session_id: &str)
        requires
            old(self).wf(),
        ensures
            final(self).wf(),
            final(self)@.users == old(self)@.users,
            ({
                let s0 = old(self)@.sessions;
                if has_session(s0, session_id@) {
                    final(self)@.sessions == s0.remove(session_pos(s0, session_id@))
                } else {
                    final(self)@.sessions == s0
                }
            }),
    {
        let ghost s0 = self@.sessions;
        let mut i: usize = 0;
        while i < self.sessions.len()
            invariant
                i <= self.sessions@.len(),
                old(self).wf(),
                s0 == old(self)@.sessions,
                self@ == old(self)@,
                s0.len() == self.sessions@.len(),
                forall|m: int| 0 <= m < i ==> (#[trigger] s0[m]).sid != session_id@,
            decreases self.sessions@.len() - i,
        {
            proof {
                assert(s0[i as int].sid == self.sessions@[i as int].session_id@);
            }
            if str_eq(self.sessions[i].session_id.as_str(), session_id) {
                proof {
                    lemma_session_pos_at(s0, session_id@, i as int);
                }
                self.sessions.remove(i);
                proof {
                    assert(self@.sessions =~= s0.remove(i as int));
                    assert forall|a: int, b: int|
                        0 <= a < b < self@.sessions.len() implies (
                    #[trigger] self@.sessions[a]).sid != (#[trigger] self@.sessions[b]).sid by {
                        let a0 = if a < i {
                            a
                        } else {
                            a + 1
                        };
                        let b0 = if b < i {
                            b
                        } else {
                            b + 1
                        };
                        assert(self@.sessions[a] == s0[a0]);
                        assert(self@.sessions[b] == s0[b0]);
                    }
                }
                return;
            }
            i += 1;
        }
        proof {
            assert(!has_session(s0, session_id@));
        }
    }
}

} // verus!
