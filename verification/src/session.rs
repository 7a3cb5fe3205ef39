//! Session state: a mapping from byte-string keys to byte-string values.

use vstd::prelude::*;

use crate::errors::ApiError;

verus! {

/// The mathematical contents of a list of key/value pairs: later pairs win,
/// though a well-formed state never holds a key twice.
pub open spec fn kv_map(s: Seq<(Vec<u8>, Vec<u8>)>) -> Map<Seq<u8>, Seq<u8>>
    decreases s.len(),
{
    if s.len() == 0 {
        Map::empty()
    } else {
        kv_map(s.drop_last()).insert(s.last().0@, s.last().1@)
    }
}

/// No key occurs twice.
pub open spec fn kv_unique(s: Seq<(Vec<u8>, Vec<u8>)>) -> bool {
    forall|i: int, j: int| 0 <= i < j < s.len() ==> s[i].0@ != s[j].0@
}

proof fn lemma_kv_dom(s: Seq<(Vec<u8>, Vec<u8>)>)
    ensures
        forall|k: Seq<u8>|
            kv_map(s).contains_key(k) <==> exists|i: int| 0 <= i < s.len() && #[trigger] s[i].0@ == k,
    decreases s.len(),
{
    if s.len() > 0 {
        let t = s.drop_last();
        lemma_kv_dom(t);
        assert forall|k: Seq<u8>| kv_map(s).contains_key(k) implies exists|i: int|
            0 <= i < s.len() && #[trigger] s[i].0@ == k by {
            if k == s.last().0@ {
                assert(s[s.len() - 1].0@ == k);
            } else {
                assert(kv_map(t).contains_key(k));
                let i = choose|i: int| 0 <= i < t.len() && #[trigger] t[i].0@ == k;
                assert(t[i] == s[i]);
                assert(s[i].0@ == k);
            }
        }
        assert forall|k: Seq<u8>| (exists|i: int| 0 <= i < s.len() && #[trigger] s[i].0@ == k)
            implies kv_map(s).contains_key(k) by {
            let i = choose|i: int| 0 <= i < s.len() && #[trigger] s[i].0@ == k;
            if i < s.len() - 1 {
                assert(t[i] == s[i]);
                assert(t[i].0@ == k);
                assert(kv_map(t).contains_key(k));
            }
        }
    }
}

proof fn lemma_kv_lookup(s: Seq<(Vec<u8>, Vec<u8>)>, i: int)
    requires
        kv_unique(s),
        0 <= i < s.len(),
    ensures
        kv_map(s).contains_key(s[i].0@),
        kv_map(s)[s[i].0@] == s[i].1@,
    decreases s.len(),
{
    if i == s.len() - 1 {
    } else {
        assert(s.drop_last()[i] == s[i]);
        lemma_kv_lookup(s.drop_last(), i);
        assert(s[i].0@ != s.last().0@);
    }
}

proof fn lemma_kv_remove_idx(s: Seq<(Vec<u8>, Vec<u8>)>, i: int)
    requires
        kv_unique(s),
        0 <= i < s.len(),
    ensures
        kv_unique(s.remove(i)),
        kv_map(s.remove(i)) =~= kv_map(s).remove(s[i].0@),
    decreases s.len(),
{
    lemma_kv_dom(s);
    lemma_kv_dom(s.remove(i));
    if i == s.len() - 1 {
        assert(s.remove(i) =~= s.drop_last());
        assert forall|k: Seq<u8>| kv_map(s.drop_last()).contains_key(k) implies k != s[i].0@ by {
            lemma_kv_dom(s.drop_last());
            let j = choose|j: int| 0 <= j < s.len() - 1 && #[trigger] s.drop_last()[j].0@ == k;
            assert(s[j].0@ == k);
        }
        assert forall|k: Seq<u8>| kv_map(s.remove(i)).contains_key(k) && k != s[i].0@ implies
            kv_map(s.remove(i))[k] == kv_map(s).remove(s[i].0@)[k] by {}
    } else {
        let t = s.remove(i);
        assert(t.last() == s.last());
        assert(t.drop_last() =~= s.drop_last().remove(i));
        lemma_kv_remove_idx(s.drop_last(), i);
        assert(kv_map(t) =~= kv_map(s.drop_last().remove(i)).insert(s.last().0@, s.last().1@));
        assert(kv_map(s.drop_last().remove(i)) =~= kv_map(s.drop_last()).remove(s[i].0@));
        assert(s[i].0@ != s.last().0@);
        assert(kv_map(s.drop_last()).remove(s[i].0@).insert(s.last().0@, s.last().1@) =~= kv_map(
            s,
        ).remove(s[i].0@));
    }
}

/// Entry lists whose pairs hold the same byte strings hold the same
/// mapping, and are unique together.
pub proof fn lemma_kv_map_congruence(a: Seq<(Vec<u8>, Vec<u8>)>, b: Seq<(Vec<u8>, Vec<u8>)>)
    requires
        a.len() == b.len(),
        forall|i: int| 0 <= i < a.len() ==> (#[trigger] a[i]).0@ == b[i].0@ && a[i].1@ == b[i].1@,
    ensures
        kv_map(a) == kv_map(b),
        kv_unique(a) == kv_unique(b),
    decreases a.len(),
{
    if a.len() > 0 {
        lemma_kv_map_congruence(a.drop_last(), b.drop_last());
        assert(a.last() == a[a.len() - 1] && b.last() == b[b.len() - 1]);
        assert(kv_map(a) =~= kv_map(b));
        assert forall|i: int, j: int| 0 <= i < j < a.len() implies (a[i].0@ != a[j].0@) == (
        b[i].0@ != b[j].0@) by {}
    }
}

/// Opaque session contents: byte-string values under unique byte-string
/// keys. Insertion order is irrelevant; the view is the mapping itself.
#[derive(Clone, Debug)]
pub struct SessionState {
    pairs: Vec<(Vec<u8>, Vec<u8>)>,
}

impl View for SessionState {
    type V = Map<Seq<u8>, Seq<u8>>;

    closed spec fn view(&self) -> Map<Seq<u8>, Seq<u8>> {
        kv_map(self.pairs@)
    }
}

impl SessionState {
    /// Every constructed state keeps its keys unique.
    pub closed spec fn wf(&self) -> bool {
        kv_unique(self.pairs@)
    }

    /// An empty state.
    pub fn new() -> (r: SessionState)
        ensures
            r.wf(),
            r@ == Map::<Seq<u8>, Seq<u8>>::empty(),
    {
        SessionState { pairs: Vec::new() }
    }

    /// The pairs that make the state up, for encoding and for callers that
    /// walk the whole mapping.
    pub fn entries(&self) -> (r: &Vec<(Vec<u8>, Vec<u8>)>)
        requires
            self.wf(),
        ensures
            kv_unique(r@),
            kv_map(r@) == self@,
    {
        &self.pairs
    }

    /// Rebuild a state from pairs, accepting them exactly when no key
    /// repeats.
    pub fn from_entries(pairs: Vec<(Vec<u8>, Vec<u8>)>) -> (r: Option<SessionState>)
        ensures
            r is Some <==> kv_unique(pairs@),
            r is Some ==> r->0.wf() && r->0@ == kv_map(pairs@),
    {
        let mut i: usize = 0;
        while i < pairs.len()
            invariant
                i <= pairs@.len(),
                forall|a: int, b: int| 0 <= a < b < i ==> pairs@[a].0@ != pairs@[b].0@,
            decreases pairs@.len() - i,
        {
            let mut j: usize = 0;
            while j < i
                invariant
                    j <= i < pairs@.len(),
                    forall|b: int| 0 <= b < j ==> pairs@[b].0@ != pairs@[i as int].0@,
                decreases i - j,
            {
                if bytes_eq(&pairs[j].0, &pairs[i].0) {
                    assert(!kv_unique(pairs@));
                    return None;
                }
                j = j + 1;
            }
            i = i + 1;
        }
        Some(SessionState { pairs })
    }

    fn find(&self, key: &[u8]) -> (r: Option<usize>)
        requires
            self.wf(),
        ensures
            match r {
                Some(i) => i < self.pairs@.len() && self.pairs@[i as int].0@ == key@
                    && self@.contains_key(key@) && self@[key@] == self.pairs@[i as int].1@,
                None => !self@.contains_key(key@),
            },
    {
        let mut i: usize = 0;
        while i < self.pairs.len()
            invariant
                self.wf(),
                i <= self.pairs@.len(),
                forall|j: int| 0 <= j < i ==> self.pairs@[j].0@ != key@,
            decreases self.pairs@.len() - i,
        {
            if bytes_eq(&self.pairs[i].0, key) {
                proof {
                    lemma_kv_lookup(self.pairs@, i as int);
                }
                return Some(i);
            }
            i = i + 1;
        }
        proof {
            lemma_kv_dom(self.pairs@);
        }
        None
    }

    /// Look a key up.
    pub fn get(&self, key: &[u8]) -> (r: Option<&Vec<u8>>)
        requires
            self.wf(),
        ensures
            r is Some <==> self@.contains_key(key@),
            r is Some ==> r->0@ == self@[key@],
    {
        match self.find(key) {
            Some(i) => Some(&self.pairs[i].1),
            None => None,
        }
    }

    /// Bind a key to a value, replacing any previous binding.
    pub fn set(&mut self, key: Vec<u8>, value: Vec<u8>)
        requires
            old(self).wf(),
        ensures
            final(self).wf(),
            final(self)@ == old(self)@.insert(key@, value@),
    {
        match self.find(&key) {
            Some(i) => {
                proof {
                    lemma_kv_remove_idx(self.pairs@, i as int);
                }
                self.pairs.remove(i);
            },
            None => {},
        }
        let ghost mid = self.pairs@;
        proof {
            lemma_kv_dom(mid);
            assert forall|j: int| 0 <= j < mid.len() implies mid[j].0@ != key@ by {
                if mid[j].0@ == key@ {
                    assert(kv_map(mid).contains_key(key@));
                }
            }
        }
        self.pairs.push((key, value));
        proof {
            assert(self.pairs@.drop_last() =~= mid);
            assert(kv_map(self.pairs@) == kv_map(mid).insert(key@, value@));
            assert(kv_map(mid).insert(key@, value@) =~= old(self)@.insert(key@, value@));
            assert forall|a: int, b: int| 0 <= a < b < self.pairs@.len() implies self.pairs@[a].0@
                != self.pairs@[b].0@ by {
                if b < self.pairs@.len() - 1 {
                    assert(self.pairs@[a] == mid[a] && self.pairs@[b] == mid[b]);
                } else {
                    assert(self.pairs@[a] == mid[a]);
                }
            }
        }
    }

    /// Drop a key's binding if there is one.
    pub fn remove(&mut self, key: &[u8])
        requires
            old(self).wf(),
        ensures
            final(self).wf(),
            final(self)@ == old(self)@.remove(key@),
    {
        match self.find(key) {
            Some(i) => {
                proof {
                    lemma_kv_remove_idx(self.pairs@, i as int);
                }
                self.pairs.remove(i);
            },
            None => {
                assert(old(self)@.remove(key@) =~= old(self)@);
            },
        }
    }

    /// Drop every binding.
    pub fn clear(&mut self)
        ensures
            final(self).wf(),
            final(self)@ == Map::<Seq<u8>, Seq<u8>>::empty(),
    {
        self.pairs = Vec::new();
    }
}

/// Compare two byte strings.
pub fn bytes_eq(a: &[u8], b: &[u8]) -> (r: bool)
    ensures
        r == (a@ == b@),
{
    if a.len() != b.len() {
        return false;
    }
    let mut i: usize = 0;
    while i < a.len()
        invariant
            i <= a@.len(),
            a@.len() == b@.len(),
            forall|j: int| 0 <= j < i ==> a@[j] == b@[j],
        decreases a@.len() - i,
    {
        if a[i] != b[i] {
            return false;
        }
        i = i + 1;
    }
    assert(a@ =~= b@);
    true
}

/// The reserved key under which the authenticated user's identifier is kept:
/// the bytes of `user_id`.
pub open spec fn user_id_key() -> Seq<u8> {
    seq![117u8, 115u8, 101u8, 114u8, 95u8, 105u8, 100u8]
}

/// The reserved key under which the current CSRF token is kept: the bytes of
/// `csrf`.
pub open spec fn csrf_key() -> Seq<u8> {
    seq![99u8, 115u8, 114u8, 102u8]
}

/// The `user_id` key as a value.
pub fn user_id_key_vec() -> (r: Vec<u8>)
    ensures
        r@ == user_id_key(),
{
    let v: Vec<u8> = vec![117, 115, 101, 114, 95, 105, 100];
    proof {
        assert(v@ =~= user_id_key());
    }
    v
}

/// The `csrf` key as a value.
pub fn csrf_key_vec() -> (r: Vec<u8>)
    ensures
        r@ == csrf_key(),
{
    let v: Vec<u8> = vec![99, 115, 114, 102];
    proof {
        assert(v@ =~= csrf_key());
    }
    v
}

/// What `uuid::Uuid::parse_str` makes of a byte string: `Some` of the
/// 128-bit value when the bytes are its textual form, `None` otherwise.
pub uninterp spec fn uuid_of(s: Seq<u8>) -> Option<u128>;

/// Relies on uuid's `Uuid::parse_str`: parses the textual form of a UUID;
/// the result is a function of the bytes alone. Bytes that are not UTF-8
/// cannot be any UUID's text.
#[verifier::external_body]
pub fn parse_uuid_bytes(s: &[u8]) -> (r: Option<u128>)
    ensures
        r == uuid_of(s@),
{
    match core::str::from_utf8(s) {
        Ok(t) => match uuid::Uuid::parse_str(t) {
            Ok(u) => Some(u.as_u128()),
            Err(_) => None,
        },
        Err(_) => None,
    }
}

/// The authenticated user a session state names. `Some(None)` is an
/// anonymous session (no reserved entry), `Some(Some(u))` an entry that
/// parses as a UUID, and `None` an entry that is present but corrupt.
pub open spec fn user_of(m: Map<Seq<u8>, Seq<u8>>) -> Option<Option<u128>> {
    if !m.contains_key(user_id_key()) {
        Some(None)
    } else {
        match uuid_of(m[user_id_key()]) {
            Some(u) => Some(Some(u)),
            None => None,
        }
    }
}

/// How a request left its session, deciding how the state is persisted.
#[derive(Clone, Copy, Debug, PartialEq, Eq, Structural)]
pub enum SessionStatus {
    Unchanged,
    Changed,
    Renewed,
    Purged,
}

/// The session handle handed through a request: the state under mutation and
/// what has been decided about its lifetime. Handlers go through this
/// surface only, never through the store or raw state.
#[derive(Clone, Debug)]
pub struct Session {
    state: SessionState,
    status: SessionStatus,
}

impl Session {
    /// The handle keeps its state well-formed.
    pub closed spec fn wf(&self) -> bool {
        self.state.wf()
    }

    /// The session's contents.
    pub closed spec fn contents(&self) -> Map<Seq<u8>, Seq<u8>> {
        self.state@
    }

    /// The lifecycle decision so far.
    pub closed spec fn st(&self) -> SessionStatus {
        self.status
    }

    /// Open a handle on loaded state; nothing has been decided yet.
    pub fn start(state: SessionState) -> (r: Session)
        requires
            state.wf(),
        ensures
            r.wf(),
            r.contents() == state@,
            r.st() == SessionStatus::Unchanged,
    {
        Session { state, status: SessionStatus::Unchanged }
    }

    /// A fresh anonymous session.
    pub fn anonymous() -> (r: Session)
        ensures
            r.wf(),
            r.contents() == Map::<Seq<u8>, Seq<u8>>::empty(),
            r.st() == SessionStatus::Unchanged,
    {
        Session { state: SessionState::new(), status: SessionStatus::Unchanged }
    }

    /// The lifecycle decision so far, for the layer that persists.
    pub fn status(&self) -> (r: SessionStatus)
        ensures
            r == self.st(),
    {
        self.status
    }

    /// The state as it stands, for persisting.
    pub fn state(&self) -> (r: &SessionState)
        ensures
            r@ == self.contents(),
            r.wf() == self.wf(),
    {
        &self.state
    }

    /// Read an entry.
    pub fn get(&self, key: &[u8]) -> (r: Option<&Vec<u8>>)
        requires
            self.wf(),
        ensures
            r is Some <==> self.contents().contains_key(key@),
            r is Some ==> r->0@ == self.contents()[key@],
    {
        self.state.get(key)
    }

    /// Write an entry; an untouched session becomes a changed one.
    pub fn set(&mut self, key: Vec<u8>, value: Vec<u8>)
        requires
            old(self).wf(),
        ensures
            final(self).wf(),
            final(self).contents() == old(self).contents().insert(key@, value@),
            final(self).st() == if old(self).st() == SessionStatus::Unchanged {
                SessionStatus::Changed
            } else {
                old(self).st()
            },
    {
        self.state.set(key, value);
        if matches!(self.status, SessionStatus::Unchanged) {
            self.status = SessionStatus::Changed;
        }
    }

    /// Drop an entry; an untouched session becomes a changed one.
    pub fn remove(&mut self, key: &[u8])
        requires
            old(self).wf(),
        ensures
            final(self).wf(),
            final(self).contents() == old(self).contents().remove(key@),
            final(self).st() == if old(self).st() == SessionStatus::Unchanged {
                SessionStatus::Changed
            } else {
                old(self).st()
            },
    {
        self.state.remove(key);
        if matches!(self.status, SessionStatus::Unchanged) {
            self.status = SessionStatus::Changed;
        }
    }

    /// Ask for the session to continue under a fresh identifier, keeping its
    /// contents.
    pub fn renew(&mut self)
        requires
            old(self).wf(),
        ensures
            final(self).wf(),
            final(self).contents() == old(self).contents(),
            final(self).st() == SessionStatus::Renewed,
    {
        self.status = SessionStatus::Renewed;
    }

    /// Destroy the session: contents dropped, record to be deleted.
    pub fn purge(&mut self)
        ensures
            final(self).wf(),
            final(self).contents() == Map::<Seq<u8>, Seq<u8>>::empty(),
            final(self).st() == SessionStatus::Purged,
    {
        self.state.clear();
        self.status = SessionStatus::Purged;
    }

    /// The session changes that log a user in: continue under a fresh
    /// identifier, clear any CSRF token issued to the anonymous session so it
    /// cannot be replayed across the identity change, and record the user.
    pub fn on_login(&mut self, user_id: Vec<u8>)
        requires
            old(self).wf(),
        ensures
            final(self).wf(),
            final(self).contents() == old(self).contents().remove(csrf_key()).insert(
                user_id_key(),
                user_id@,
            ),
            final(self).st() == SessionStatus::Renewed,
    {
        self.renew();
        let ck = csrf_key_vec();
        self.remove(ck.as_slice());
        self.set(user_id_key_vec(), user_id);
    }

    /// The session changes that log a user out.
    pub fn on_logout(&mut self)
        ensures
            final(self).wf(),
            final(self).contents() == Map::<Seq<u8>, Seq<u8>>::empty(),
            final(self).st() == SessionStatus::Purged,
    {
        self.purge();
    }
}

/// The authenticated user the session carries: `Ok(None)` for an anonymous
/// session, an internal error when the recorded identifier is corrupt.
pub fn get_session_user(session: &Session) -> (r: Result<Option<u128>, ApiError>)
    requires
        session.wf(),
    ensures
        match user_of(session.contents()) {
            Some(u) => r is Ok && r->Ok_0 == u,
            None => r is Err && r->Err_0 is InternalServerError,
        },
{
    let uk = user_id_key_vec();
    match session.get(uk.as_slice()) {
        None => Ok(None),
        Some(v) => match parse_uuid_bytes(v.as_slice()) {
            Some(u) => Ok(Some(u)),
            None => Err(ApiError::InternalServerError),
        },
    }
}

/// The authenticated user, required: an anonymous session is forbidden.
pub fn require_user(session: &Session) -> (r: Result<u128, ApiError>)
    requires
        session.wf(),
    ensures
        match user_of(session.contents()) {
            Some(Some(u)) => r == Ok::<u128, ApiError>(u),
            Some(None) => r is Err && r->Err_0 is Forbidden,
            None => r is Err && r->Err_0 is InternalServerError,
        },
{
    match get_session_user(session)? {
        Some(u) => Ok(u),
        None => Err(ApiError::Forbidden),
    }
}

/// The typed form of the reserved CSRF entry.
pub struct SessionData {
    csrf: Vec<u8>,
}

impl View for SessionData {
    type V = Seq<u8>;

    closed spec fn view(&self) -> Seq<u8> {
        self.csrf@
    }
}

impl SessionData {
    /// The stored token, base64 bytes.
    pub fn csrf(&self) -> (r: &Vec<u8>)
        ensures
            r@ == self@,
    {
        &self.csrf
    }

    /// Read the CSRF entry out of a session state.
    pub fn from_state(state: &SessionState) -> (r: Option<SessionData>)
        requires
            state.wf(),
        ensures
            r is Some <==> state@.contains_key(csrf_key()),
            r is Some ==> r->0@ == state@[csrf_key()],
    {
        let ck = csrf_key_vec();
        match state.get(ck.as_slice()) {
            Some(v) => Some(SessionData { csrf: vstd::slice::slice_to_vec(v.as_slice()) }),
            None => None,
        }
    }
}

} // verus!
