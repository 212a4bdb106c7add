//! Sessions: per-client state kept across requests, keyed by an opaque,
//! randomly generated identifier.
//!
//! A `Session` is an identifier, a key-value mapping, and the time it was
//! last accessed. The `SessionsManager` owns the live sessions; lookups
//! never return a session that has not been accessed within the
//! configured time-to-live. All reads and writes go through `&mut`
//! methods, so a process that serves requests concurrently serializes
//! them behind one lock around the whole store.

use vstd::prelude::*;
use vstd::string::*;
use crate::pattern::pairs_view;

verus! {

/// The ghost model of a session.
pub struct SessionModel {
    /// The opaque identifier.
    pub id: Seq<char>,
    /// The key-value pairs, newest binding first.
    pub values: Seq<(Seq<char>, Seq<char>)>,
    /// When the session was last accessed, in seconds.
    pub last_access: int,
}

/// One client's session.
pub struct Session {
    /// The opaque identifier.
    pub id: String,
    /// The key-value pairs, newest binding first.
    pub values: Vec<(String, String)>,
    /// When the session was last accessed, in seconds.
    pub last_access: i64,
}

impl View for Session {
    type V = SessionModel;

    open spec fn view(&self) -> SessionModel {
        SessionModel { id: self.id@, values: pairs_view(self.values@), last_access: self.last_access as int }
    }
}

/// The value bound to `key`: the first binding with that key, newest
/// bindings standing first.
pub open spec fn lookup_value(values: Seq<(Seq<char>, Seq<char>)>, key: Seq<char>) -> Option<
    Seq<char>,
>
    decreases values.len(),
{
    if values.len() == 0 {
        None
    } else if values[0].0 == key {
        Some(values[0].1)
    } else {
        lookup_value(values.drop_first(), key)
    }
}

/// Binding a key shadows older bindings of the same key and leaves every
/// other key unchanged.
pub proof fn lemma_lookup_prepend(
    values: Seq<(Seq<char>, Seq<char>)>,
    key: Seq<char>,
    value: Seq<char>,
    k: Seq<char>,
)
    ensures
        lookup_value(seq![(key, value)] + values, k) == if k == key {
            Some(value)
        } else {
            lookup_value(values, k)
        },
{
    let w = seq![(key, value)] + values;
    assert(w[0] == (key, value));
    assert(w.drop_first() =~= values);
}

impl Session {
    /// Binds `key` to `value` in this session, shadowing any older
    /// binding of the same key.
    pub fn set_value(&mut self, key: &str, value: &str)
        ensures
            final(self)@.id == old(self)@.id,
            final(self)@.last_access == old(self)@.last_access,
            final(self)@.values == seq![(key@, value@)] + old(self)@.values,
    {
        self.values.insert(0, (String::from_str(key), String::from_str(value)));
        proof {
            assert(pairs_view(self.values@) =~= seq![(key@, value@)] + pairs_view(
                old(self).values@,
            ));
        }
    }

    /// The value bound to `key`, or `None`.
    pub fn get_value(&self, key: &str) -> (r: Option<&String>)
        ensures
            match r {
                Some(v) => lookup_value(self@.values, key@) == Some(v@),
                None => lookup_value(self@.values, key@) is None,
            },
    {
        let ghost vm = pairs_view(self.values@);
        let mut i: usize = 0;
        proof {
            assert(vm.skip(0) =~= vm);
        }
        while i < self.values.len()
            invariant
                0 <= i <= self.values@.len(),
                vm == pairs_view(self.values@),
                lookup_value(vm, key@) == lookup_value(vm.skip(i as int), key@),
            decreases self.values@.len() - i,
        {
            let ghost sk = vm.skip(i as int);
            proof {
                assert(sk[0] == (self.values@[i as int].0@, self.values@[i as int].1@));
                assert(sk.drop_first() =~= vm.skip(i + 1));
            }
            if self.values[i].0 == String::from_str(key) {
                return Some(&self.values[i].1);
            }
            i = i + 1;
        }
        None
    }

    /// An equal copy of this session.
    pub fn duplicate(&self) -> (r: Session)
        ensures
            r@ == self@,
    {
        let mut values: Vec<(String, String)> = Vec::new();
        let mut i: usize = 0;
        while i < self.values.len()
            invariant
                0 <= i <= self.values@.len(),
                values@.len() == i,
                forall|j: int| 0 <= j < i ==> #[trigger] values@[j].0@ == self.values@[j].0@
                    && values@[j].1@ == self.values@[j].1@,
            decreases self.values@.len() - i,
        {
            values.push((self.values[i].0.clone(), self.values[i].1.clone()));
            i = i + 1;
        }
        let r = Session { id: self.id.clone(), values, last_access: self.last_access };
        proof {
            assert(pairs_view(r.values@) =~= pairs_view(self.values@));
        }
        r
    }
}

/// The views of a list of sessions.
pub open spec fn sessions_view(v: Seq<Session>) -> Seq<SessionModel> {
    Seq::new(v.len(), |i: int| v[i]@)
}

/// The index of the session with this identifier, or -1.
pub open spec fn idx_of(s: Seq<SessionModel>, id: Seq<char>) -> int
    decreases s.len(),
{
    if s.len() == 0 {
        -1
    } else if s[0].id == id {
        0
    } else {
        let r = idx_of(s.drop_first(), id);
        if r == -1 {
            -1
        } else {
            r + 1
        }
    }
}

/// Whether some session in the store carries this identifier.
pub open spec fn has_id(s: Seq<SessionModel>, id: Seq<char>) -> bool {
    exists|i: int| 0 <= i < s.len() && (#[trigger] s[i]).id == id
}

pub proof fn lemma_idx_of_props(s: Seq<SessionModel>, id: Seq<char>)
    ensures
        idx_of(s, id) == -1 <==> !has_id(s, id),
        idx_of(s, id) != -1 ==> {
            let k = idx_of(s, id);
            &&& 0 <= k < s.len()
            &&& s[k].id == id
            &&& forall|i: int| 0 <= i < k ==> s[i].id != id
        },
    decreases s.len(),
{
    if s.len() == 0 {
    } else if s[0].id == id {
    } else {
        let t = s.drop_first();
        lemma_idx_of_props(t, id);
        assert(forall|i: int| 0 <= i < t.len() ==> #[trigger] t[i] == s[i + 1]);
        let rt = idx_of(t, id);
        if rt == -1 {
            assert forall|i: int| 0 <= i < s.len() implies (#[trigger] s[i]).id != id by {
                if i > 0 {
                    assert(s[i] == t[i - 1]);
                    assert(!has_id(t, id));
                    assert(0 <= i - 1 < t.len());
                }
            }
        } else {
            let k = idx_of(s, id);
            assert(k == rt + 1);
            assert(s[k] == t[rt]);
            assert forall|i: int| 0 <= i < k implies s[i].id != id by {
                if i > 0 {
                    assert(s[i] == t[i - 1]);
                }
            }
            assert(has_id(s, id));
        }
    }
}

/// The ghost model of the session store.
pub struct ManagerModel {
    /// The stored sessions, in creation order.
    pub sessions: Seq<SessionModel>,
    /// The time-to-live in seconds: a session not accessed within it is
    /// expired.
    pub ttl: int,
}

/// The session with this identifier, provided it is live at `now`
/// (accessed within the time-to-live); expired sessions are never
/// returned.
pub open spec fn lookup_live(m: ManagerModel, id: Seq<char>, now: int) -> Option<SessionModel> {
    let i = idx_of(m.sessions, id);
    if i >= 0 && now - m.sessions[i].last_access <= m.ttl {
        Some(m.sessions[i])
    } else {
        None
    }
}

/// The sessions accessed within the time-to-live, in order: what a
/// sweep of the store keeps.
pub open spec fn live_filter(s: Seq<SessionModel>, ttl: int, now: int) -> Seq<SessionModel> {
    s.filter(|x: SessionModel| now - x.last_access <= ttl)
}

/// A freshly created session is found by an immediate lookup with its
/// identifier, and comes back whole: same identifier, same value
/// mapping.
pub proof fn lemma_fresh_session_found(m: ManagerModel, s: SessionModel, now: int)
    requires
        !has_id(m.sessions, s.id),
        s.last_access == now,
        m.ttl >= 0,
    ensures
        lookup_live(ManagerModel { sessions: m.sessions.push(s), ttl: m.ttl }, s.id, now)
            == Some(s),
{
    let s2 = m.sessions.push(s);
    lemma_idx_of_props(s2, s.id);
    assert(s2[m.sessions.len() as int] == s);
    assert(has_id(s2, s.id));
    let k = idx_of(s2, s.id);
    if k < m.sessions.len() {
        assert(m.sessions[k] == s2[k]);
        assert(has_id(m.sessions, s.id));
    }
    assert(k == m.sessions.len());
}

/// An identifier no stored session carries is never found, at any time:
/// in particular, after `destroy(id)` a lookup with `id` reports
/// absence.
pub proof fn lemma_absent_lookup(m: ManagerModel, id: Seq<char>, now: int)
    requires
        !has_id(m.sessions, id),
    ensures
        lookup_live(m, id, now) is None,
{
    lemma_idx_of_props(m.sessions, id);
}

/// Whether a character may occur in a generated session identifier:
/// a lower-case letter, an upper-case letter or a digit.
pub open spec fn is_id_char(c: char) -> bool {
    ||| 97 <= c as int <= 122
    ||| 65 <= c as int <= 90
    ||| 48 <= c as int <= 57
}

/// Relies on rand::rng, a thread-local, cryptographically secure
/// generator, and Rng::fill_bytes, which fills the whole buffer: nothing
/// is assumed of the values beyond the count.
#[verifier::external_body]
fn random_bytes(n: usize) -> (r: Vec<u8>)
    ensures
        r@.len() == n,
{
    let mut buf = vec![0u8; n];
    rand::Rng::fill_bytes(&mut rand::rng(), buf.as_mut_slice());
    buf
}

/// Relies on String::from_utf8: bytes below 128 are valid UTF-8 and
/// decode to the characters with the same code points.
#[verifier::external_body]
fn ascii_string(v: &Vec<u8>) -> (r: String)
    requires
        forall|i: int| 0 <= i < v@.len() ==> v@[i] < 128,
    ensures
        r@.len() == v@.len(),
        forall|i: int| 0 <= i < v@.len() ==> r@[i] as int == v@[i] as int,
{
    match String::from_utf8(v.clone()) {
        Ok(s) => s,
        Err(_) => String::new(),
    }
}

/// Relies on time::OffsetDateTime::now_utc and unix_timestamp: the
/// current time as seconds since the Unix epoch. Nothing is assumed of
/// the value.
#[verifier::external_body]
fn now_unix() -> (r: i64)
{
    time::OffsetDateTime::now_utc().unix_timestamp()
}

/// Produces a fresh session identifier: 32 characters drawn from the
/// 62-letter alphanumeric alphabet, from a cryptographically strong
/// random source.
pub fn generate_session_id() -> (r: String)
    ensures
        r@.len() == 32,
        forall|i: int| 0 <= i < r@.len() ==> is_id_char(#[trigger] r@[i]),
{
    let bytes = random_bytes(32);
    let mut codes: Vec<u8> = Vec::new();
    let mut i: usize = 0;
    while i < bytes.len()
        invariant
            0 <= i <= bytes@.len(),
            codes@.len() == i,
            forall|j: int| 0 <= j < i ==> #[trigger] codes@[j] < 128 && is_id_char(
                codes@[j] as char,
            ),
        decreases bytes@.len() - i,
    {
        let x: u8 = bytes[i] % 62;
        let code: u8 = if x < 26 {
            97 + x
        } else if x < 52 {
            65 + (x - 26)
        } else {
            48 + (x - 52)
        };
        proof {
            assert(code < 128);
            assert(is_id_char(code as char));
        }
        codes.push(code);
        i = i + 1;
    }
    let r = ascii_string(&codes);
    proof {
        assert forall|j: int| 0 <= j < r@.len() implies is_id_char(#[trigger] r@[j]) by {
            assert(r@[j] as int == codes@[j] as int);
            assert(is_id_char(codes@[j] as char));
        }
    }
    r
}

/// The process-wide store of live sessions. Reads and writes go through
/// `&mut` methods: a concurrent server wraps the whole store in one
/// mutual-exclusion lock, and no method blocks or calls a handler, so
/// the lock is never held across handler execution.
pub struct SessionsManager {
    /// The stored sessions, in creation order.
    pub sessions: Vec<Session>,
    /// The time-to-live in seconds.
    pub ttl: i64,
}

impl View for SessionsManager {
    type V = ManagerModel;

    open spec fn view(&self) -> ManagerModel {
        ManagerModel { sessions: sessions_view(self.sessions@), ttl: self.ttl as int }
    }
}

impl SessionsManager {
    /// Well-formedness: identifiers are unique among stored sessions,
    /// timestamps are non-negative and the time-to-live is non-negative.
    pub open spec fn wf(&self) -> bool {
        &&& forall|i: int, j: int| 0 <= i < j < self@.sessions.len() ==> self@.sessions[i].id
            != self@.sessions[j].id
        &&& forall|i: int| 0 <= i < self@.sessions.len() ==> (#[trigger] self@.sessions[i]).last_access
            >= 0
        &&& self.ttl >= 0
    }

    /// An empty store with the given time-to-live in seconds.
    pub fn new(ttl: i64) -> (r: SessionsManager)
        requires
            ttl >= 0,
        ensures
            r@.sessions.len() == 0,
            r@.ttl == ttl as int,
            r.wf(),
    {
        SessionsManager { sessions: Vec::new(), ttl }
    }

    /// The index of the session with this identifier, if any.
    fn find_index(&self, id: &String) -> (r: Option<usize>)
        ensures
            match r {
                Some(i) => i == idx_of(self@.sessions, id@),
                None => idx_of(self@.sessions, id@) == -1,
            },
    {
        let ghost sm = self@.sessions;
        let mut i: usize = 0;
        while i < self.sessions.len()
            invariant
                0 <= i <= self.sessions@.len(),
                sm == self@.sessions,
                forall|k: int| 0 <= k < i ==> (#[trigger] sm[k]).id != id@,
            decreases self.sessions@.len() - i,
        {
            if self.sessions[i].id == *id {
                proof {
                    assert(self.sessions@[i as int].id@ == id@);
                    assert(sm[i as int] == self.sessions@[i as int]@);
                    assert(sm[i as int].id == id@);
                    assert(has_id(sm, id@));
                    lemma_idx_of_props(sm, id@);
                    let k = idx_of(sm, id@);
                    if k < i as int {
                        assert(sm[k].id != id@);
                    }
                    if k > i as int {
                        assert(sm[i as int].id != id@);
                    }
                }
                return Some(i);
            }
            i = i + 1;
        }
        proof {
            lemma_idx_of_props(sm, id@);
            if has_id(sm, id@) {
                let w = choose|k: int| 0 <= k < sm.len() && (#[trigger] sm[k]).id == id@;
                assert(sm[w].id != id@);
            }
        }
        None
    }

    /// Read-only lookup: a copy of the live session with this
    /// identifier. Does not create and does not extend the session's
    /// life; an expired session is never returned.
    pub fn get(&self, id: &String, now: i64) -> (r: Option<Session>)
        requires
            self.wf(),
            now >= 0,
        ensures
            match r {
                Some(s) => lookup_live(self@, id@, now as int) == Some(s@),
                None => lookup_live(self@, id@, now as int) is None,
            },
    {
        match self.find_index(id) {
            None => None,
            Some(i) => {
                proof {
                    lemma_idx_of_props(self@.sessions, id@);
                }
                if now - self.sessions[i].last_access <= self.ttl {
                    Some(self.sessions[i].duplicate())
                } else {
                    None
                }
            },
        }
    }

    /// Whether some stored session (live or expired) carries this
    /// identifier.
    pub fn contains_id(&self, id: &String) -> (r: bool)
        ensures
            r == has_id(self@.sessions, id@),
    {
        proof {
            lemma_idx_of_props(self@.sessions, id@);
        }
        match self.find_index(id) {
            Some(_) => true,
            None => false,
        }
    }

    /// Returns the live session with the candidate identifier, its
    /// access time refreshed; otherwise allocates a session under a
    /// freshly generated identifier, distinct from every stored one,
    /// inserts it and returns it. This is the only path by which a
    /// session enters the store.
    pub fn get_or_create(&mut self, candidate: Option<&String>, now: i64) -> (r: Session)
        requires
            old(self).wf(),
            now >= 0,
        ensures
            final(self).wf(),
            final(self)@.ttl == old(self)@.ttl,
            (candidate is Some && lookup_live(old(self)@, candidate->Some_0@, now as int) is Some)
                ==> {
                let i = idx_of(old(self)@.sessions, candidate->Some_0@);
                &&& r@ == SessionModel { last_access: now as int, ..old(self)@.sessions[i] }
                &&& final(self)@.sessions == old(self)@.sessions.update(i, r@)
            },
            (candidate is None || lookup_live(old(self)@, candidate->Some_0@, now as int) is None)
                ==> {
                &&& !has_id(old(self)@.sessions, r@.id)
                &&& r@.values.len() == 0
                &&& r@.last_access == now as int
                &&& r@.id.len() >= 32
                &&& forall|i: int| 0 <= i < r@.id.len() ==> is_id_char(#[trigger] r@.id[i])
                &&& final(self)@.sessions == old(self)@.sessions.push(r@)
            },
    {
        let ghost om = self@.sessions;
        let hit: Option<usize> = match candidate {
            Some(id) => {
                match self.find_index(id) {
                    Some(i) => {
                        proof {
                            lemma_idx_of_props(om, id@);
                        }
                        if now - self.sessions[i].last_access <= self.ttl {
                            Some(i)
                        } else {
                            None
                        }
                    },
                    None => None,
                }
            },
            None => None,
        };
        match hit {
            Some(i) => {
                self.sessions[i].last_access = now;
                let r = self.sessions[i].duplicate();
                proof {
                    assert(sessions_view(self.sessions@) =~= om.update(i as int, r@));
                    assert forall|a: int, b: int|
                        0 <= a < b < self@.sessions.len() implies self@.sessions[a].id
                        != self@.sessions[b].id by {
                        assert(om[a].id != om[b].id);
                    }
                }
                r
            },
            None => {
                let mut maxlen: usize = 0;
                let mut j: usize = 0;
                while j < self.sessions.len()
                    invariant
                        0 <= j <= self.sessions@.len(),
                        om == self@.sessions,
                        forall|t: int| 0 <= t < j ==> (#[trigger] om[t]).id.len() <= maxlen,
                    decreases self.sessions@.len() - j,
                {
                    let l = self.sessions[j].id.as_str().unicode_len();
                    if l > maxlen {
                        maxlen = l;
                    }
                    j = j + 1;
                }
                let mut id = generate_session_id();
                // a collision against a live identifier is retried; each
                // retry lengthens the candidate, so the loop ends at the
                // latest when it outgrows every stored identifier
                while self.contains_id(&id)
                    invariant
                        id@.len() >= 32,
                        forall|i: int| 0 <= i < id@.len() ==> is_id_char(#[trigger] id@[i]),
                        om == self@.sessions,
                        forall|t: int| 0 <= t < om.len() ==> (#[trigger] om[t]).id.len() <= maxlen,
                    decreases (if id@.len() <= maxlen + 1 {
                        maxlen + 1 - id@.len()
                    } else {
                        0int
                    }),
                {
                    proof {
                        let w = choose|t: int| 0 <= t < om.len() && (#[trigger] om[t]).id == id@;
                        assert(om[w].id.len() <= maxlen);
                    }
                    let more = generate_session_id();
                    id.append(more.as_str());
                }
                let sess = Session { id, values: Vec::new(), last_access: now };
                let r = sess.duplicate();
                proof {
                    assert(pairs_view(sess.values@) =~= Seq::<(Seq<char>, Seq<char>)>::empty());
                }
                self.sessions.push(sess);
                proof {
                    assert(sessions_view(self.sessions@) =~= om.push(r@));
                    assert forall|a: int, b: int|
                        0 <= a < b < self@.sessions.len() implies self@.sessions[a].id
                        != self@.sessions[b].id by {
                        if b < om.len() {
                            assert(om[a].id != om[b].id);
                        } else {
                            assert(self@.sessions[b] == r@);
                            assert(!has_id(om, r@.id));
                            assert(self@.sessions[a] == om[a]);
                        }
                    }
                }
                r
            },
        }
    }

    /// Binds `key` to `value` in the stored session with this
    /// identifier, shadowing any older binding; returns whether such a
    /// session exists.
    pub fn set_value(&mut self, id: &String, key: &str, value: &str) -> (r: bool)
        requires
            old(self).wf(),
        ensures
            final(self).wf(),
            final(self)@.ttl == old(self)@.ttl,
            r == has_id(old(self)@.sessions, id@),
            !r ==> final(self)@.sessions == old(self)@.sessions,
            r ==> {
                let i = idx_of(old(self)@.sessions, id@);
                final(self)@.sessions == old(self)@.sessions.update(
                    i,
                    SessionModel {
                        values: seq![(key@, value@)] + old(self)@.sessions[i].values,
                        ..old(self)@.sessions[i]
                    },
                )
            },
    {
        let ghost om = self@.sessions;
        proof {
            lemma_idx_of_props(om, id@);
        }
        match self.find_index(id) {
            None => false,
            Some(i) => {
                self.sessions[i].set_value(key, value);
                proof {
                    let updated = SessionModel {
                        values: seq![(key@, value@)] + om[i as int].values,
                        ..om[i as int]
                    };
                    assert(sessions_view(self.sessions@) =~= om.update(i as int, updated));
                    assert forall|a: int, b: int|
                        0 <= a < b < self@.sessions.len() implies self@.sessions[a].id
                        != self@.sessions[b].id by {
                        assert(om[a].id != om[b].id);
                    }
                }
                true
            },
        }
    }

    /// As `get_or_create`, at the clock's current time. Whatever the
    /// clock read: the returned session is stored, and a `None` candidate
    /// gets an identifier distinct from every previously stored one.
    pub fn get_or_create_now(&mut self, candidate: Option<&String>) -> (r: Session)
        requires
            old(self).wf(),
        ensures
            final(self).wf(),
            final(self)@.ttl == old(self)@.ttl,
            has_id(final(self)@.sessions, r@.id),
            candidate is None ==> !has_id(old(self)@.sessions, r@.id),
    {
        let ghost om = self@.sessions;
        let t = now_unix();
        let now: i64 = if t >= 0 {
            t
        } else {
            0
        };
        let r = self.get_or_create(candidate, now);
        proof {
            lemma_idx_of_props(om, match candidate {
                Some(id) => id@,
                None => Seq::<char>::empty(),
            });
            if candidate is Some && lookup_live(old(self)@, candidate->Some_0@, now as int) is Some {
                let i = idx_of(om, candidate->Some_0@);
                assert(final(self)@.sessions[i] == r@);
            } else {
                assert(final(self)@.sessions[om.len() as int] == r@);
            }
        }
        r
    }

    /// As `get`, at the clock's current time: a returned session always
    /// carries the identifier asked for and is stored.
    pub fn get_now(&self, id: &String) -> (r: Option<Session>)
        requires
            self.wf(),
        ensures
            match r {
                Some(s) => s@.id == id@ && has_id(self@.sessions, id@),
                None => true,
            },
    {
        let t = now_unix();
        let now: i64 = if t >= 0 {
            t
        } else {
            0
        };
        let r = self.get(id, now);
        proof {
            lemma_idx_of_props(self@.sessions, id@);
        }
        r
    }

    /// Removes every expired session at once: the periodic sweep keeps
    /// exactly the sessions accessed within the time-to-live.
    pub fn purge_expired(&mut self, now: i64)
        requires
            old(self).wf(),
            now >= 0,
        ensures
            final(self).wf(),
            final(self)@.ttl == old(self)@.ttl,
            final(self)@.sessions == live_filter(
                old(self)@.sessions,
                old(self)@.ttl,
                now as int,
            ),
    {
        let ghost om = self@.sessions;
        let mut kept: Vec<Session> = Vec::new();
        let ghost p: int = 0;
        proof {
            reveal(Seq::filter);
            assert(om.subrange(0, 0) =~= Seq::<SessionModel>::empty());
            assert(live_filter(om.subrange(0, 0), self.ttl as int, now as int) =~= Seq::<
                SessionModel,
            >::empty());
            assert(sessions_view(self.sessions@) =~= om.subrange(0, om.len() as int));
        }
        while self.sessions.len() > 0
            invariant
                self.ttl == old(self).ttl,
                om == old(self)@.sessions,
                0 <= p <= om.len(),
                sessions_view(self.sessions@) =~= om.subrange(p, om.len() as int),
                sessions_view(kept@) == live_filter(om.subrange(0, p), self.ttl as int, now as int),
                forall|a: int, b: int| 0 <= a < b < kept@.len() ==> sessions_view(kept@)[a].id
                    != sessions_view(kept@)[b].id,
                forall|j: int, i: int| 0 <= j < kept@.len() && p <= i < om.len()
                    ==> sessions_view(kept@)[j].id != om[i].id,
                forall|j: int| 0 <= j < kept@.len() ==> (#[trigger] sessions_view(
                    kept@,
                )[j]).last_access >= 0,
                forall|i: int, j: int| 0 <= i < j < om.len() ==> om[i].id != om[j].id,
                forall|i: int| 0 <= i < om.len() ==> (#[trigger] om[i]).last_access >= 0,
                now >= 0,
            decreases self.sessions@.len(),
        {
            let ghost kv = sessions_view(kept@);
            let ghost pre = self.sessions@;
            let s = self.sessions.remove(0);
            proof {
                assert(sessions_view(pre).len() == pre.len());
                assert(pre.len() == om.len() - p);
                assert(p < om.len());
                assert(s@ == sessions_view(pre)[0]);
                assert(sessions_view(pre)[0] == om.subrange(p, om.len() as int)[0]);
                assert(om.subrange(p, om.len() as int)[0] == om[p]);
                assert(s@ == om[p]);
                assert forall|i: int| 0 <= i < self.sessions@.len() implies sessions_view(
                    self.sessions@,
                )[i] == om.subrange(p + 1, om.len() as int)[i] by {
                    assert(self.sessions@[i] == pre[i + 1]);
                    assert(sessions_view(pre)[i + 1] == om.subrange(p, om.len() as int)[i + 1]);
                }
                assert(sessions_view(self.sessions@) =~= om.subrange(p + 1, om.len() as int));
                assert(om.subrange(0, p + 1).drop_last() =~= om.subrange(0, p));
                assert(om.subrange(0, p + 1).last() == om[p]);
                reveal(Seq::filter);
            }
            if now - s.last_access <= self.ttl {
                kept.push(s);
                proof {
                    assert(sessions_view(kept@) =~= kv.push(om[p]));
                }
            }
            proof {
                p = p + 1;
            }
        }
        proof {
            assert(om.subrange(0, om.len() as int) =~= om);
            assert(p == om.len());
        }
        self.sessions = kept;
    }

    /// Removes the session with this identifier at once; afterwards
    /// lookups behave as if it never existed.
    pub fn destroy(&mut self, id: &String)
        requires
            old(self).wf(),
        ensures
            final(self).wf(),
            final(self)@.ttl == old(self)@.ttl,
            !has_id(final(self)@.sessions, id@),
            idx_of(old(self)@.sessions, id@) == -1 ==> final(self)@.sessions == old(
                self,
            )@.sessions,
            idx_of(old(self)@.sessions, id@) >= 0 ==> final(self)@.sessions == old(
                self,
            )@.sessions.remove(idx_of(old(self)@.sessions, id@)),
    {
        let ghost om = self@.sessions;
        proof {
            lemma_idx_of_props(om, id@);
        }
        match self.find_index(id) {
            None => {
                proof {
                    assert(!has_id(om, id@));
                }
            },
            Some(i) => {
                self.sessions.remove(i);
                proof {
                    assert(sessions_view(self.sessions@) =~= om.remove(i as int));
                    assert forall|j: int| 0 <= j < self@.sessions.len() implies (
                    #[trigger] self@.sessions[j]).id != id@ by {
                        if j < i as int {
                            assert(self@.sessions[j] == om[j]);
                        } else {
                            assert(self@.sessions[j] == om[j + 1]);
                        }
                    }
                }
            },
        }
    }
}

} // verus!
