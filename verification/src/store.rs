//! The session store: durable records under random keys, with expiry.
//!
//! The store is modelled as the logical contents of the record table. A
//! record whose `expires_at` has passed is logically absent: a read never
//! returns it even while it is physically present, and the sweeper removes
//! it. The durable backend executes the same operations against its table;
//! everything it decides is decided here.

use vstd::prelude::*;

use crate::errors::StoreError;
use crate::keys::{generate, valid_session_key, SessionKey};
use crate::session::{user_of, SessionState};

verus! {

/// How often the background sweeper runs, in seconds.
pub const SWEEP_INTERVAL_SECONDS: u64 = 60 * 60 * 2;

/// The mathematical contents of one persisted record.
pub struct RecordModel {
    pub expires_at: u64,
    pub data: Map<Seq<u8>, Seq<u8>>,
    pub user_id: Option<u128>,
}

/// One persisted session record: the state blob, when it lapses, and the
/// user identifier denormalized out of the state.
pub struct SessionRecord {
    expires_at: u64,
    data: SessionState,
    user_id: Option<u128>,
}

impl View for SessionRecord {
    type V = RecordModel;

    closed spec fn view(&self) -> RecordModel {
        RecordModel { expires_at: self.expires_at, data: self.data@, user_id: self.user_id }
    }
}

impl SessionRecord {
    /// The record's state keeps its keys unique.
    pub closed spec fn wf(&self) -> bool {
        self.data.wf()
    }

    /// When the record lapses.
    pub fn expires_at(&self) -> (r: u64)
        ensures
            r == self@.expires_at,
    {
        self.expires_at
    }

    /// The persisted state.
    pub fn data(&self) -> (r: &SessionState)
        ensures
            r@ == self@.data,
            r.wf() == self.wf(),
    {
        &self.data
    }

    /// The denormalized user identifier.
    pub fn user_id(&self) -> (r: Option<u128>)
        ensures
            r == self@.user_id,
    {
        self.user_id
    }
}

/// A record is live at `now` when it has not lapsed.
pub open spec fn live(m: Map<Seq<u8>, RecordModel>, key: Seq<u8>, now: u64) -> bool {
    m.contains_key(key) && m[key].expires_at > now
}

/// What a write at `now` with time-to-live `ttl` persists.
pub open spec fn stored_rec(
    data: Map<Seq<u8>, Seq<u8>>,
    now: u64,
    ttl: u64,
    user_id: Option<u128>,
) -> RecordModel {
    RecordModel { expires_at: (now + ttl) as u64, data, user_id }
}

/// What a read of `key` at `now` returns: the state of a live record,
/// nothing otherwise.
pub open spec fn load_result(m: Map<Seq<u8>, RecordModel>, key: Seq<u8>, now: u64) -> Option<
    Map<Seq<u8>, Seq<u8>>,
> {
    if live(m, key, now) {
        Some(m[key].data)
    } else {
        None
    }
}

/// The table after one sweep at `now`: exactly the records that had not
/// lapsed strictly before `now` survive, unchanged.
pub open spec fn swept(m: Map<Seq<u8>, RecordModel>, now: u64) -> Map<Seq<u8>, RecordModel> {
    Map::new(|k: Seq<u8>| m.contains_key(k) && m[k].expires_at >= now, |k: Seq<u8>| m[k])
}

pub open spec fn srec_unique(s: Seq<(SessionKey, SessionRecord)>) -> bool {
    forall|i: int, j: int| 0 <= i < j < s.len() ==> s[i].0@ != s[j].0@
}

pub open spec fn srec_wf(s: Seq<(SessionKey, SessionRecord)>) -> bool {
    &&& srec_unique(s)
    &&& forall|i: int| 0 <= i < s.len() ==> (#[trigger] s[i]).1.wf()
    &&& forall|i: int| 0 <= i < s.len() ==> valid_session_key((#[trigger] s[i]).0@)
}

proof fn lemma_srec_wf_remove(s: Seq<(SessionKey, SessionRecord)>, i: int)
    requires
        srec_wf(s),
        0 <= i < s.len(),
    ensures
        srec_wf(s.remove(i)),
{
    let t = s.remove(i);
    assert forall|j: int| 0 <= j < t.len() implies (#[trigger] t[j]).1.wf() && valid_session_key(
        t[j].0@,
    ) by {
        if j < i {
            assert(t[j] == s[j]);
        } else {
            assert(t[j] == s[j + 1]);
        }
    }
    assert forall|a: int, b: int| 0 <= a < b < t.len() implies t[a].0@ != t[b].0@ by {
        let sa = if a < i { a } else { a + 1 };
        let sb = if b < i { b } else { b + 1 };
        assert(t[a] == s[sa] && t[b] == s[sb]);
        assert(s[sa].0@ != s[sb].0@);
    }
}

/// The mathematical contents of the record list.
pub open spec fn srec_map(s: Seq<(SessionKey, SessionRecord)>) -> Map<Seq<u8>, RecordModel>
    decreases s.len(),
{
    if s.len() == 0 {
        Map::empty()
    } else {
        srec_map(s.drop_last()).insert(s.last().0@, s.last().1@)
    }
}

proof fn lemma_srec_dom(s: Seq<(SessionKey, SessionRecord)>)
    ensures
        forall|k: Seq<u8>|
            srec_map(s).contains_key(k) <==> exists|i: int|
                0 <= i < s.len() && #[trigger] s[i].0@ == k,
    decreases s.len(),
{
    if s.len() > 0 {
        let t = s.drop_last();
        lemma_srec_dom(t);
        assert forall|k: Seq<u8>| srec_map(s).contains_key(k) implies exists|i: int|
            0 <= i < s.len() && #[trigger] s[i].0@ == k by {
            if k == s.last().0@ {
                assert(s[s.len() - 1].0@ == k);
            } else {
                assert(srec_map(t).contains_key(k));
                let i = choose|i: int| 0 <= i < t.len() && #[trigger] t[i].0@ == k;
                assert(t[i] == s[i]);
                assert(s[i].0@ == k);
            }
        }
        assert forall|k: Seq<u8>| (exists|i: int| 0 <= i < s.len() && #[trigger] s[i].0@ == k)
            implies srec_map(s).contains_key(k) by {
            let i = choose|i: int| 0 <= i < s.len() && #[trigger] s[i].0@ == k;
            if i < s.len() - 1 {
                assert(t[i] == s[i]);
                assert(t[i].0@ == k);
                assert(srec_map(t).contains_key(k));
            }
        }
    }
}

proof fn lemma_srec_lookup(s: Seq<(SessionKey, SessionRecord)>, i: int)
    requires
        srec_unique(s),
        0 <= i < s.len(),
    ensures
        srec_map(s).contains_key(s[i].0@),
        srec_map(s)[s[i].0@] == s[i].1@,
    decreases s.len(),
{
    if i == s.len() - 1 {
    } else {
        assert(s.drop_last()[i] == s[i]);
        lemma_srec_lookup(s.drop_last(), i);
        assert(s[i].0@ != s.last().0@);
    }
}

proof fn lemma_srec_remove_idx(s: Seq<(SessionKey, SessionRecord)>, i: int)
    requires
        srec_unique(s),
        0 <= i < s.len(),
    ensures
        srec_unique(s.remove(i)),
        srec_map(s.remove(i)) =~= srec_map(s).remove(s[i].0@),
    decreases s.len(),
{
    lemma_srec_dom(s);
    lemma_srec_dom(s.remove(i));
    if i == s.len() - 1 {
        assert(s.remove(i) =~= s.drop_last());
        assert forall|k: Seq<u8>| srec_map(s.drop_last()).contains_key(k) implies k != s[i].0@ by {
            lemma_srec_dom(s.drop_last());
            let j = choose|j: int| 0 <= j < s.len() - 1 && #[trigger] s.drop_last()[j].0@ == k;
            assert(s[j].0@ == k);
        }
    } else {
        let t = s.remove(i);
        assert(t.last() == s.last());
        assert(t.drop_last() =~= s.drop_last().remove(i));
        lemma_srec_remove_idx(s.drop_last(), i);
        assert(srec_map(t) =~= srec_map(s.drop_last().remove(i)).insert(
            s.last().0@,
            s.last().1@,
        ));
        assert(srec_map(s.drop_last().remove(i)) =~= srec_map(s.drop_last()).remove(s[i].0@));
        assert(s[i].0@ != s.last().0@);
        assert(srec_map(s.drop_last()).remove(s[i].0@).insert(s.last().0@, s.last().1@)
            =~= srec_map(s).remove(s[i].0@));
    }
}

/// The session store: the logical contents of the record table.
pub struct SessionStore {
    records: Vec<(SessionKey, SessionRecord)>,
}

impl View for SessionStore {
    type V = Map<Seq<u8>, RecordModel>;

    closed spec fn view(&self) -> Map<Seq<u8>, RecordModel> {
        srec_map(self.records@)
    }
}

impl SessionStore {
    /// Keys stay unique and well-formed, record states stay well-formed.
    pub closed spec fn wf(&self) -> bool {
        srec_wf(self.records@)
    }

    /// An empty table.
    pub fn new() -> (r: SessionStore)
        ensures
            r.wf(),
            r@ == Map::<Seq<u8>, RecordModel>::empty(),
    {
        SessionStore { records: Vec::new() }
    }

    fn find(&self, key: &SessionKey) -> (r: Option<usize>)
        requires
            self.wf(),
        ensures
            match r {
                Some(i) => i < self.records@.len() && self.records@[i as int].0@ == key@
                    && self@.contains_key(key@) && self@[key@] == self.records@[i as int].1@,
                None => !self@.contains_key(key@),
            },
    {
        let mut i: usize = 0;
        while i < self.records.len()
            invariant
                self.wf(),
                i <= self.records@.len(),
                forall|j: int| 0 <= j < i ==> self.records@[j].0@ != key@,
            decreases self.records@.len() - i,
        {
            if self.records[i].0.key_eq(key) {
                proof {
                    lemma_srec_lookup(self.records@, i as int);
                }
                return Some(i);
            }
            i = i + 1;
        }
        proof {
            lemma_srec_dom(self.records@);
        }
        None
    }

    /// Whether a record is physically present, live or lapsed.
    pub fn contains(&self, key: &SessionKey) -> (r: bool)
        requires
            self.wf(),
        ensures
            r == self@.contains_key(key@),
    {
        self.find(key).is_some()
    }

    /// Read the state persisted under `key`: the record's state when it is
    /// live at `now`, nothing when the record is absent or has lapsed, even
    /// if the sweeper has not yet removed it.
    pub fn load(&self, key: &SessionKey, now: u64) -> (r: Option<&SessionState>)
        requires
            self.wf(),
        ensures
            match load_result(self@, key@, now) {
                Some(m) => r is Some && r->0@ == m && r->0.wf(),
                None => r is None,
            },
    {
        match self.find(key) {
            Some(i) => {
                let rec = &self.records[i].1;
                if rec.expires_at() > now {
                    Some(rec.data())
                } else {
                    None
                }
            },
            None => None,
        }
    }

    fn insert_fresh(&mut self, key: SessionKey, rec: SessionRecord)
        requires
            old(self).wf(),
            rec.wf(),
            key.wf(),
            !old(self)@.contains_key(key@),
        ensures
            final(self).wf(),
            final(self)@ == old(self)@.insert(key@, rec@),
    {
        proof {
            lemma_srec_dom(self.records@);
            assert forall|j: int| 0 <= j < self.records@.len()
                implies self.records@[j].0@ != key@ by {
                if self.records@[j].0@ == key@ {
                    assert(srec_map(self.records@).contains_key(key@));
                }
            }
        }
        let ghost mid = self.records@;
        self.records.push((key, rec));
        proof {
            assert(self.records@.drop_last() =~= mid);
            assert forall|a: int, b: int| 0 <= a < b < self.records@.len()
                implies self.records@[a].0@ != self.records@[b].0@ by {
                if b < self.records@.len() - 1 {
                    assert(self.records@[a] == mid[a] && self.records@[b] == mid[b]);
                } else {
                    assert(self.records@[a] == mid[a]);
                }
            }
            assert forall|i: int| 0 <= i < self.records@.len() implies ((
            #[trigger] self.records@[i]).1.wf() && valid_session_key(self.records@[i].0@)) by {
                if i < self.records@.len() - 1 {
                    assert(self.records@[i] == mid[i]);
                    assert(mid[i].1.wf() && valid_session_key(mid[i].0@));
                }
            }
        }
    }

    /// Persist `state` under a freshly generated key, lapsing `ttl` seconds
    /// after `now`. A state whose user-identifier entry does not parse is
    /// refused with `Serialize`; the only other refusal, `Unavailable`, is a
    /// freshly drawn key colliding with a physically present record, so on a
    /// store without well-formed keys — an empty one in particular — a
    /// well-formed state is always persisted. On success the returned key
    /// was not present before and now holds exactly the given state, with
    /// the parsed user identifier denormalized beside it.
    pub fn save(&mut self, state: SessionState, ttl: u64, now: u64) -> (r: Result<
        SessionKey,
        StoreError,
    >)
        requires
            old(self).wf(),
            state.wf(),
            now + ttl <= u64::MAX,
        ensures
            final(self).wf(),
            r is Err ==> final(self)@ == old(self)@ && *final(self) == *old(self),
            r matches Err(e) ==> (e == StoreError::Serialize <==> user_of(state@) is None),
            (r matches Err(e) && e == StoreError::Unavailable) ==> exists|k: Seq<u8>|
                old(self)@.contains_key(k) && valid_session_key(k),
            r matches Ok(key) ==> {
                &&& user_of(state@) is Some
                &&& key.wf()
                &&& !old(self)@.contains_key(key@)
                &&& final(self)@ == old(self)@.insert(
                    key@,
                    stored_rec(state@, now, ttl, user_of(state@)->0),
                )
            },
    {
        let user_id = match extract_user_id(&state) {
            Ok(u) => u,
            Err(e) => {
                return Err(e);
            },
        };
        let key = generate();
        if self.contains(&key) {
            proof {
                assert(old(self)@.contains_key(key@) && valid_session_key(key@));
            }
            return Err(StoreError::Unavailable);
        }
        let rec = SessionRecord { expires_at: now + ttl, data: state, user_id };
        self.insert_fresh(key.clone_key(), rec);
        Ok(key)
    }

    /// Overwrite the record at `key` with `state` and a refreshed expiry.
    /// When the record is live at `now` the key is preserved and the
    /// denormalized user identifier is left as it was. When the record is
    /// absent or has lapsed, the write falls back to a fresh save and the
    /// caller must use the returned key: the state is then retrievable under
    /// the new key only. The fallback refuses exactly as a save does: a
    /// corrupt user entry is `Serialize`, and `Unavailable` only means the
    /// freshly drawn key collided with a present record.
    pub fn update(&mut self, key: &SessionKey, state: SessionState, ttl: u64, now: u64) -> (r:
        Result<SessionKey, StoreError>)
        requires
            old(self).wf(),
            state.wf(),
            now + ttl <= u64::MAX,
        ensures
            final(self).wf(),
            live(old(self)@, key@, now) ==> (r matches Ok(k) && k@ == key@ && final(self)@ == old(
                self,
            )@.insert(key@, RecordModel {
                expires_at: (now + ttl) as u64,
                data: state@,
                user_id: old(self)@[key@].user_id,
            })),
            !live(old(self)@, key@, now) ==> {
                &&& r is Err ==> final(self)@ == old(self)@
                &&& (r matches Err(e) ==> (e == StoreError::Serialize <==> user_of(state@)
                    is None))
                &&& ((r matches Err(e) && e == StoreError::Unavailable) ==> exists|k2: Seq<u8>|
                    old(self)@.contains_key(k2) && valid_session_key(k2))
                &&& (r matches Ok(k) ==> {
                    &&& user_of(state@) is Some
                    &&& k.wf()
                    &&& !old(self)@.contains_key(k@)
                    &&& final(self)@ == old(self)@.insert(
                        k@,
                        stored_rec(state@, now, ttl, user_of(state@)->0),
                    )
                })
            },
    {
        match self.find(key) {
            Some(i) => {
                if self.records[i].1.expires_at() > now {
                    let ghost s0 = self.records@;
                    proof {
                        lemma_srec_remove_idx(s0, i as int);
                        lemma_srec_wf_remove(s0, i as int);
                        assert(s0[i as int].1.wf() && valid_session_key(s0[i as int].0@));
                    }
                    let pair = self.records.remove(i);
                    let (stored_key, old_rec) = pair;
                    let rec = SessionRecord {
                        expires_at: now + ttl,
                        data: state,
                        user_id: old_rec.user_id(),
                    };
                    let ghost recv = rec@;
                    self.insert_fresh(stored_key, rec);
                    proof {
                        assert(self@ =~= old(self)@.insert(key@, RecordModel {
                            expires_at: (now + ttl) as u64,
                            data: recv.data,
                            user_id: old(self)@[key@].user_id,
                        }));
                    }
                    Ok(key.clone_key())
                } else {
                    self.save(state, ttl, now)
                }
            },
            None => self.save(state, ttl, now),
        }
    }

    /// Extend the expiry of the record at `key` to `ttl` seconds after
    /// `now`, touching nothing else; a missing key is a no-op, not an error.
    pub fn refresh_ttl(&mut self, key: &SessionKey, ttl: u64, now: u64)
        requires
            old(self).wf(),
            now + ttl <= u64::MAX,
        ensures
            final(self).wf(),
            old(self)@.contains_key(key@) ==> final(self)@ == old(self)@.insert(
                key@,
                RecordModel {
                    expires_at: (now + ttl) as u64,
                    data: old(self)@[key@].data,
                    user_id: old(self)@[key@].user_id,
                },
            ),
            !old(self)@.contains_key(key@) ==> final(self)@ == old(self)@,
    {
        match self.find(key) {
            Some(i) => {
                let ghost s0 = self.records@;
                proof {
                    lemma_srec_remove_idx(s0, i as int);
                    lemma_srec_wf_remove(s0, i as int);
                    assert(s0[i as int].1.wf() && valid_session_key(s0[i as int].0@));
                }
                let pair = self.records.remove(i);
                let (stored_key, old_rec) = pair;
                let SessionRecord { expires_at: _, data, user_id } = old_rec;
                let rec = SessionRecord { expires_at: now + ttl, data, user_id };
                self.insert_fresh(stored_key, rec);
                proof {
                    assert(self@ =~= old(self)@.insert(key@, RecordModel {
                        expires_at: (now + ttl) as u64,
                        data: old(self)@[key@].data,
                        user_id: old(self)@[key@].user_id,
                    }));
                }
            },
            None => {},
        }
    }

    /// Remove the record at `key`; deleting an absent key is not an error.
    pub fn delete(&mut self, key: &SessionKey)
        requires
            old(self).wf(),
        ensures
            final(self).wf(),
            final(self)@ == old(self)@.remove(key@),
    {
        match self.find(key) {
            Some(i) => {
                proof {
                    lemma_srec_remove_idx(self.records@, i as int);
                }
                self.records.remove(i);
            },
            None => {
                assert(old(self)@.remove(key@) =~= old(self)@);
            },
        }
    }

    /// One sweep cycle at `now`: physically remove every record that lapsed
    /// strictly before `now`, leaving the rest untouched.
    pub fn sweep(&mut self, now: u64)
        requires
            old(self).wf(),
        ensures
            final(self).wf(),
            final(self)@ == swept(old(self)@, now),
    {
        let ghost orig = self@;
        let mut i: usize = 0;
        while i < self.records.len()
            invariant
                self.wf(),
                i <= self.records@.len(),
                orig == old(self)@,
                forall|j: int| 0 <= j < i ==> #[trigger] self.records@[j].1@.expires_at >= now,
                forall|k: Seq<u8>| #[trigger] self@.contains_key(k) ==> orig.contains_key(k)
                    && self@[k] == orig[k],
                forall|k: Seq<u8>| orig.contains_key(k) && orig[k].expires_at >= now
                    ==> #[trigger] self@.contains_key(k),
            decreases self.records@.len() - i,
        {
            if self.records[i].1.expires_at() < now {
                let ghost s0 = self.records@;
                let ghost k0 = s0[i as int].0@;
                let ghost m0 = self@;
                proof {
                    lemma_srec_lookup(s0, i as int);
                    lemma_srec_remove_idx(s0, i as int);
                    lemma_srec_wf_remove(s0, i as int);
                }
                self.records.remove(i);
                proof {
                    assert(self@ =~= m0.remove(k0));
                    assert forall|k: Seq<u8>| self@.contains_key(k) implies orig.contains_key(k)
                        && self@[k] == orig[k] by {
                        assert(m0.remove(k0).contains_key(k));
                        assert(k != k0);
                        assert(m0.contains_key(k));
                        assert(orig.contains_key(k));
                        assert(m0[k] == orig[k]);
                        assert(self@[k] == m0[k]);
                    }
                    assert forall|k: Seq<u8>| orig.contains_key(k) && orig[k].expires_at >= now
                        implies self@.contains_key(k) by {
                        assert(m0.contains_key(k));
                        if k == k0 {
                            assert(m0[k0] == orig[k0]);
                            assert(m0[k0].expires_at < now);
                        }
                    }
                    assert forall|j: int| 0 <= j < i implies (#[trigger] self.records@[j]).1@
                        .expires_at >= now by {
                        assert(self.records@[j] == s0[j]);
                    }
                }
            } else {
                i = i + 1;
            }
        }
        proof {
            lemma_srec_dom(self.records@);
            assert forall|k: Seq<u8>| self@.contains_key(k) implies self@[k].expires_at >= now by {
                let j = choose|j: int|
                    0 <= j < self.records@.len() && #[trigger] self.records@[j].0@ == k;
                lemma_srec_lookup(self.records@, j);
            }
            assert(self@ =~= swept(old(self)@, now));
        }
    }
}

/// A save is read back exactly while it lasts: after persisting `data` at
/// `now` with time-to-live `ttl`, a load of the key strictly before the
/// expiry returns `data` itself, and a load at or after the expiry returns
/// nothing — whether or not the sweeper has run.
pub proof fn lemma_save_then_load(
    m: Map<Seq<u8>, RecordModel>,
    key: Seq<u8>,
    data: Map<Seq<u8>, Seq<u8>>,
    now: u64,
    ttl: u64,
    user_id: Option<u128>,
    later: u64,
)
    requires
        now + ttl <= u64::MAX,
    ensures
        later < now + ttl ==> load_result(m.insert(key, stored_rec(data, now, ttl, user_id)), key, later)
            == Some(data),
        later >= now + ttl ==> load_result(m.insert(key, stored_rec(data, now, ttl, user_id)), key, later)
            is None,
{
}

/// An update of a live record keeps its key: what was written is read back
/// under the same key for the whole refreshed window.
pub proof fn lemma_update_live_keeps_key(
    m: Map<Seq<u8>, RecordModel>,
    key: Seq<u8>,
    data: Map<Seq<u8>, Seq<u8>>,
    now: u64,
    ttl: u64,
    user_id: Option<u128>,
)
    requires
        live(m, key, now),
        0 < ttl,
        now + ttl <= u64::MAX,
    ensures
        load_result(
            m.insert(key, RecordModel { expires_at: (now + ttl) as u64, data, user_id }),
            key,
            now,
        ) == Some(data),
{
}

/// An update of an absent or lapsed record falls back to a fresh save: the
/// state is then retrievable under the returned key only. The new key
/// differs from the old one whenever the old record is still physically
/// present, the old key reads as nothing both before and after, and the new
/// key reads back the state.
pub proof fn lemma_update_fallback_rotates_key(
    m: Map<Seq<u8>, RecordModel>,
    old_key: Seq<u8>,
    new_key: Seq<u8>,
    data: Map<Seq<u8>, Seq<u8>>,
    now: u64,
    ttl: u64,
    user_id: Option<u128>,
)
    requires
        !live(m, old_key, now),
        // the fallback save inserts a key that was not present
        !m.contains_key(new_key),
        0 < ttl,
        now + ttl <= u64::MAX,
    ensures
        m.contains_key(old_key) ==> new_key != old_key,
        load_result(m, old_key, now) is None,
        load_result(m.insert(new_key, stored_rec(data, now, ttl, user_id)), new_key, now) == Some(
            data,
        ),
        old_key != new_key ==> load_result(
            m.insert(new_key, stored_rec(data, now, ttl, user_id)),
            old_key,
            now,
        ) is None,
{
}

/// The sweeper removes exactly what has lapsed: a record whose expiry lies
/// in the past is hidden from loads even before the sweep runs, is
/// physically gone after one sweep cycle, and every record still live at
/// the sweep survives it unchanged.
pub proof fn lemma_sweep_removes_lapsed(m: Map<Seq<u8>, RecordModel>, key: Seq<u8>, now: u64)
    requires
        m.contains_key(key),
        m[key].expires_at < now,
    ensures
        load_result(m, key, now) is None,
        !swept(m, now).contains_key(key),
        forall|k: Seq<u8>|
            live(m, k, now) ==> #[trigger] swept(m, now).contains_key(k) && swept(m, now)[k]
                == m[k],
{
}

/// Parse the user-identifier entry a state carries: `Ok(None)` when there is
/// none, `Serialize` when it is present but not a UUID.
pub fn extract_user_id(state: &SessionState) -> (r: Result<Option<u128>, StoreError>)
    requires
        state.wf(),
    ensures
        match user_of(state@) {
            Some(u) => r == Ok::<Option<u128>, StoreError>(u),
            None => r == Err::<Option<u128>, StoreError>(StoreError::Serialize),
        },
{
    let uk = crate::session::user_id_key_vec();
    match state.get(uk.as_slice()) {
        None => Ok(None),
        Some(v) => match crate::session::parse_uuid_bytes(v.as_slice()) {
            Some(u) => Ok(Some(u)),
            None => Err(StoreError::Serialize),
        },
    }
}

} // verus!
