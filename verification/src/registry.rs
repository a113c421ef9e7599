//! The session registry: which streams are live, and which of them have
//! been asked to stop.

use vstd::prelude::*;
use crate::bytes::{bytes_equal, to_vec};

verus! {

/// What the registry knows of a live session, besides its id.
#[derive(Debug, Clone, Copy, PartialEq, Eq, Structural)]
pub struct SessionInfo {
    /// Set once the session has been asked to stop.
    pub cancelled: bool,
    /// When the session started, as its caller gave it.
    pub started_at: u64,
}

/// The record of one live session.
struct SessionState {
    id: Vec<u8>,
    cancelled: bool,
    started_at: u64,
}

/// Why a session could not be registered.
#[derive(Debug, Clone, Copy, PartialEq, Eq, Structural)]
pub enum RegistryError {
    /// A session with this id is live.
    AlreadyLive,
}

/// The live sessions by stream id. No two records share an id.
pub struct SessionRegistry {
    sessions: Vec<SessionState>,
}

/// What a record says besides the id.
spec fn info_of(state: SessionState) -> SessionInfo {
    SessionInfo { cancelled: state.cancelled, started_at: state.started_at }
}

/// No two records share an id.
spec fn distinct_ids(entries: Seq<SessionState>) -> bool {
    forall|i: int, j: int|
        0 <= i < j < entries.len() ==> (#[trigger] entries[i]).id@ != (#[trigger] entries[j]).id@
}

/// Whether one of the records has this id.
spec fn holds(entries: Seq<SessionState>, id: Seq<u8>) -> bool {
    exists|i: int| 0 <= i < entries.len() && (#[trigger] entries[i]).id@ == id
}

/// Where the record with this id stands.
spec fn slot(entries: Seq<SessionState>, id: Seq<u8>) -> int {
    choose|i: int| 0 <= i < entries.len() && (#[trigger] entries[i]).id@ == id
}

/// The records as a map from id to the rest.
spec fn table(entries: Seq<SessionState>) -> Map<Seq<u8>, SessionInfo> {
    Map::new(|id: Seq<u8>| holds(entries, id), |id: Seq<u8>| info_of(entries[slot(entries, id)]))
}

/// The registry after a request to stop `id`: its flag is set, where the
/// registry knows it; nothing changes where it does not.
pub open spec fn after_cancel(sessions: Map<Seq<u8>, SessionInfo>, id: Seq<u8>) -> Map<
    Seq<u8>,
    SessionInfo,
> {
    if sessions.contains_key(id) {
        sessions.insert(id, SessionInfo { cancelled: true, started_at: sessions[id].started_at })
    } else {
        sessions
    }
}

/// Whether `id` is live and has been asked to stop.
pub open spec fn cancelled_in(sessions: Map<Seq<u8>, SessionInfo>, id: Seq<u8>) -> bool {
    sessions.contains_key(id) && sessions[id].cancelled
}

proof fn lemma_table_value(entries: Seq<SessionState>, m: int)
    requires
        distinct_ids(entries),
        0 <= m < entries.len(),
    ensures
        table(entries).contains_key(entries[m].id@),
        table(entries)[entries[m].id@] == info_of(entries[m]),
{
    let id = entries[m].id@;
    assert(holds(entries, id));
    let chosen = slot(entries, id);
    if chosen < m {
        assert(entries[chosen].id@ != entries[m].id@);
    } else if m < chosen {
        assert(entries[m].id@ != entries[chosen].id@);
    }
}

proof fn lemma_table_push(entries: Seq<SessionState>, state: SessionState)
    requires
        distinct_ids(entries),
        !holds(entries, state.id@),
    ensures
        distinct_ids(entries.push(state)),
        table(entries.push(state)) == table(entries).insert(state.id@, info_of(state)),
{
    let grown = entries.push(state);
    assert forall|i: int, j: int| 0 <= i < j < grown.len() implies (#[trigger] grown[i]).id@ != (
    #[trigger] grown[j]).id@ by {
        if j == entries.len() {
            assert(entries[i].id@ != state.id@);
        } else {
            assert(entries[i].id@ != entries[j].id@);
        }
    }
    let want = table(entries).insert(state.id@, info_of(state));
    assert forall|id: Seq<u8>| table(grown).contains_key(id) <==> want.contains_key(id) by {
        if holds(grown, id) {
            let i = slot(grown, id);
            if i < entries.len() {
                assert(entries[i].id@ == id);
            }
        }
        if holds(entries, id) {
            let i = slot(entries, id);
            assert(grown[i].id@ == id);
        }
        if id == state.id@ {
            assert(grown[entries.len() as int].id@ == id);
        }
    }
    assert forall|id: Seq<u8>| table(grown).contains_key(id) implies table(grown)[id] == want[id] by {
        let i = slot(grown, id);
        lemma_table_value(grown, i);
        if i < entries.len() {
            lemma_table_value(entries, i);
        }
    }
    assert(table(grown) =~= want);
}

proof fn lemma_table_update(entries: Seq<SessionState>, m: int, state: SessionState)
    requires
        distinct_ids(entries),
        0 <= m < entries.len(),
        state.id@ == entries[m].id@,
    ensures
        distinct_ids(entries.update(m, state)),
        table(entries.update(m, state)) == table(entries).insert(state.id@, info_of(state)),
{
    let changed = entries.update(m, state);
    assert forall|i: int, j: int| 0 <= i < j < changed.len() implies (#[trigger] changed[i]).id@
        != (#[trigger] changed[j]).id@ by {
        assert(entries[i].id@ != entries[j].id@);
    }
    let want = table(entries).insert(state.id@, info_of(state));
    assert forall|id: Seq<u8>| table(changed).contains_key(id) <==> want.contains_key(id) by {
        if holds(changed, id) {
            let i = slot(changed, id);
            assert(entries[i].id@ == id);
        }
        if holds(entries, id) {
            let i = slot(entries, id);
            assert(changed[i].id@ == id);
        }
        if id == state.id@ {
            assert(changed[m].id@ == id);
        }
    }
    assert forall|id: Seq<u8>| table(changed).contains_key(id) implies table(changed)[id]
        == want[id] by {
        let i = slot(changed, id);
        lemma_table_value(changed, i);
        if i != m {
            lemma_table_value(entries, i);
        }
    }
    assert(table(changed) =~= want);
}

proof fn lemma_table_remove(entries: Seq<SessionState>, m: int)
    requires
        distinct_ids(entries),
        0 <= m < entries.len(),
    ensures
        distinct_ids(entries.remove(m)),
        table(entries.remove(m)) == table(entries).remove(entries[m].id@),
{
    let rest = entries.remove(m);
    let gone = entries[m].id@;
    assert forall|i: int, j: int| 0 <= i < j < rest.len() implies (#[trigger] rest[i]).id@ != (
    #[trigger] rest[j]).id@ by {
        let a = if i < m {
            i
        } else {
            i + 1
        };
        let b = if j < m {
            j
        } else {
            j + 1
        };
        assert(entries[a].id@ != entries[b].id@);
    }
    let want = table(entries).remove(gone);
    assert forall|id: Seq<u8>| table(rest).contains_key(id) <==> want.contains_key(id) by {
        if holds(rest, id) {
            let i = slot(rest, id);
            let a = if i < m {
                i
            } else {
                i + 1
            };
            assert(entries[a].id@ == id);
            if a < m {
                assert(entries[a].id@ != entries[m].id@);
            } else {
                assert(entries[m].id@ != entries[a].id@);
            }
        }
        if holds(entries, id) && id != gone {
            let a = slot(entries, id);
            let i = if a < m {
                a
            } else {
                a - 1
            };
            assert(rest[i].id@ == id);
        }
    }
    assert forall|id: Seq<u8>| table(rest).contains_key(id) implies table(rest)[id] == want[id] by {
        let i = slot(rest, id);
        let a = if i < m {
            i
        } else {
            i + 1
        };
        lemma_table_value(rest, i);
        lemma_table_value(entries, a);
    }
    assert(table(rest) =~= want);
}

proof fn lemma_table_absent(entries: Seq<SessionState>, id: Seq<u8>)
    requires
        forall|i: int| 0 <= i < entries.len() ==> (#[trigger] entries[i]).id@ != id,
    ensures
        !holds(entries, id),
        !table(entries).contains_key(id),
{
}

impl SessionRegistry {
    #[verifier::type_invariant]
    spec fn well_formed(self) -> bool {
        distinct_ids(self.sessions@)
    }

    /// The live sessions, by id.
    pub closed spec fn view(&self) -> Map<Seq<u8>, SessionInfo> {
        table(self.sessions@)
    }

    /// A registry without sessions.
    pub fn new() -> (registry: SessionRegistry)
        ensures
            registry@ == Map::<Seq<u8>, SessionInfo>::empty(),
    {
        let registry = SessionRegistry { sessions: Vec::new() };
        assert(registry@ =~= Map::<Seq<u8>, SessionInfo>::empty()) by {
            lemma_table_absent_all(registry.sessions@);
        }
        registry
    }

    fn position(&self, id: &[u8]) -> (found: Option<usize>)
        ensures
            found matches Some(i) ==> i < self.sessions@.len() && self.sessions@[i as int].id@
                == id@,
            found is None ==> !holds(self.sessions@, id@),
            found is Some <==> self@.contains_key(id@),
    {
        let mut k: usize = 0;
        while k < self.sessions.len()
            invariant
                k <= self.sessions@.len(),
                forall|i: int| 0 <= i < k ==> (#[trigger] self.sessions@[i]).id@ != id@,
            decreases self.sessions@.len() - k,
        {
            if bytes_equal(self.sessions[k].id.as_slice(), id) {
                assert(holds(self.sessions@, id@));
                return Some(k);
            }
            k += 1;
        }
        proof {
            lemma_table_absent(self.sessions@, id@);
        }
        None
    }

    /// How many sessions are live.
    pub fn len(&self) -> (n: usize)
        ensures
            n == self@.dom().len(),
            self@.dom().finite(),
    {
        proof {
            use_type_invariant(self);
            lemma_table_size(self.sessions@);
        }
        self.sessions.len()
    }

    /// Whether a session with this id is live.
    pub fn contains(&self, id: &[u8]) -> (known: bool)
        ensures
            known == self@.contains_key(id@),
    {
        self.position(id).is_some()
    }

    /// What the registry holds of the session `id`.
    pub fn get(&self, id: &[u8]) -> (info: Option<SessionInfo>)
        ensures
            info == if self@.contains_key(id@) {
                Some(self@[id@])
            } else {
                None
            },
    {
        match self.position(id) {
            None => None,
            Some(i) => {
                proof {
                    use_type_invariant(self);
                    lemma_table_value(self.sessions@, i as int);
                }
                Some(
                    SessionInfo {
                        cancelled: self.sessions[i].cancelled,
                        started_at: self.sessions[i].started_at,
                    },
                )
            },
        }
    }

    /// Whether the session `id` is live and has been asked to stop.
    pub fn is_cancelled(&self, id: &[u8]) -> (stop: bool)
        ensures
            stop == cancelled_in(self@, id@),
    {
        match self.get(id) {
            None => false,
            Some(info) => info.cancelled,
        }
    }

    /// Enters a session that starts at `started_at`.
    ///
    /// Where a session with this id is live, nothing changes and the call
    /// fails: the live session is neither replaced nor stopped.
    pub fn register(&mut self, id: &[u8], started_at: u64) -> (res: Result<(), RegistryError>)
        ensures
            old(self)@.contains_key(id@) ==> res == Err::<(), RegistryError>(
                RegistryError::AlreadyLive,
            ) && final(self)@ == old(self)@,
            !old(self)@.contains_key(id@) ==> res is Ok && final(self)@ == old(self)@.insert(
                id@,
                SessionInfo { cancelled: false, started_at },
            ),
    {
        match self.position(id) {
            Some(_) => Err(RegistryError::AlreadyLive),
            None => {
                let state = SessionState { id: to_vec(id), cancelled: false, started_at };
                proof {
                    use_type_invariant(&*self);
                    lemma_table_push(self.sessions@, state);
                }
                let mut sessions: Vec<SessionState> = Vec::new();
                core::mem::swap(&mut self.sessions, &mut sessions);
                sessions.push(state);
                core::mem::swap(&mut self.sessions, &mut sessions);
                Ok(())
            },
        }
    }

    /// Asks the session `id` to stop. Returns whether the registry knows it.
    ///
    /// For an id that the registry does not know this does nothing.
    pub fn cancel(&mut self, id: &[u8]) -> (known: bool)
        ensures
            known == old(self)@.contains_key(id@),
            final(self)@ == after_cancel(old(self)@, id@),
            !known ==> final(self)@ == old(self)@,
    {
        match self.position(id) {
            None => false,
            Some(i) => {
                let state = SessionState {
                    id: to_vec(id),
                    cancelled: true,
                    started_at: self.sessions[i].started_at,
                };
                proof {
                    use_type_invariant(&*self);
                    lemma_table_value(self.sessions@, i as int);
                    lemma_table_update(self.sessions@, i as int, state);
                }
                let mut sessions: Vec<SessionState> = Vec::new();
                core::mem::swap(&mut self.sessions, &mut sessions);
                sessions.set(i, state);
                core::mem::swap(&mut self.sessions, &mut sessions);
                true
            },
        }
    }

    /// Takes the session `id` out. Returns whether it was there.
    ///
    /// A second call for the same id changes nothing.
    pub fn remove(&mut self, id: &[u8]) -> (known: bool)
        ensures
            known == old(self)@.contains_key(id@),
            final(self)@ == old(self)@.remove(id@),
    {
        match self.position(id) {
            None => {
                assert(self@.remove(id@) =~= self@);
                false
            },
            Some(i) => {
                proof {
                    use_type_invariant(&*self);
                    lemma_table_remove(self.sessions@, i as int);
                }
                let mut sessions: Vec<SessionState> = Vec::new();
                core::mem::swap(&mut self.sessions, &mut sessions);
                sessions.remove(i);
                core::mem::swap(&mut self.sessions, &mut sessions);
                true
            },
        }
    }
}

proof fn lemma_table_absent_all(entries: Seq<SessionState>)
    requires
        entries.len() == 0,
    ensures
        table(entries) =~= Map::<Seq<u8>, SessionInfo>::empty(),
{
}

proof fn lemma_table_size(entries: Seq<SessionState>)
    requires
        distinct_ids(entries),
    ensures
        table(entries).dom().finite(),
        table(entries).dom().len() == entries.len(),
    decreases entries.len(),
{
    if entries.len() == 0 {
        lemma_table_absent_all(entries);
        assert(table(entries).dom() =~= Set::<Seq<u8>>::empty());
    } else {
        let last = entries.last();
        let front = entries.drop_last();
        assert forall|i: int, j: int| 0 <= i < j < front.len() implies (#[trigger] front[i]).id@
            != (#[trigger] front[j]).id@ by {
            assert(entries[i].id@ != entries[j].id@);
        }
        assert(!holds(front, last.id@)) by {
            if holds(front, last.id@) {
                let i = slot(front, last.id@);
                assert(entries[i].id@ != entries[entries.len() - 1].id@);
            }
        }
        lemma_table_size(front);
        lemma_table_push(front, last);
        assert(front.push(last) =~= entries);
        assert(table(entries).dom() =~= table(front).dom().insert(last.id@));
    }
}

} // verus!
