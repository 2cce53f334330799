//! Bookkeeping of audio playbacks by id. The sinks themselves are of the
//! caller's type `S`; this registry decides which id a playback gets and
//! which sink a stop request takes.
use vstd::prelude::*;

verus! {

/// One registered playback: its id and its sink, until the sink is taken.
pub struct AudioEntry<S> {
    pub id: String,
    pub sink: Option<S>,
}

/// The playbacks known by id; no two entries share an id.
pub struct AudioPlayers<S> {
    pub entries: Vec<AudioEntry<S>>,
}

/// Whether an entry of `entries` has id `id` and still holds its sink.
pub open spec fn playing<S>(entries: Seq<AudioEntry<S>>, id: Seq<char>) -> bool {
    exists|k: int| 0 <= k < entries.len() && (#[trigger] entries[k]).id@ == id && entries[k].sink is Some
}

/// Whether an entry of `entries` has id `id`.
pub open spec fn registered<S>(entries: Seq<AudioEntry<S>>, id: Seq<char>) -> bool {
    exists|k: int| 0 <= k < entries.len() && (#[trigger] entries[k]).id@ == id
}

/// The message of a play request for a file that does not exist.
pub open spec fn not_found_message(file_path: Seq<char>) -> Seq<char> {
    "Audio file not found: "@ + file_path
}

impl<S> AudioPlayers<S> {
    /// No two entries share an id.
    pub open spec fn wf(&self) -> bool {
        forall|a: int, b: int|
            0 <= a < self.entries@.len() && 0 <= b < self.entries@.len() && a != b ==> (#[trigger] self.entries@[a]).id@
                != (#[trigger] self.entries@[b]).id@
    }

    /// An empty registry.
    pub fn new() -> (r: Self)
        ensures
            r.wf(),
            r.entries@.len() == 0,
    {
        AudioPlayers { entries: Vec::new() }
    }

    /// Index of the entry with id `id`.
    pub fn find(&self, id: &String) -> (r: Option<usize>)
        requires
            self.wf(),
        ensures
            r matches Some(k) ==> k < self.entries@.len() && self.entries@[k as int].id@ == id@,
            r is None ==> !registered(self.entries@, id@),
    {
        let mut k: usize = 0;
        while k < self.entries.len()
            invariant
                k <= self.entries@.len(),
                forall|j: int| 0 <= j < k ==> (#[trigger] self.entries@[j]).id@ != id@,
            decreases self.entries@.len() - k,
        {
            if self.entries[k].id == *id {
                return Some(k);
            }
            k = k + 1;
        }
        None
    }

    /// Registers `sink` under `id`, replacing an earlier entry of that id;
    /// returns the sink that entry still held.
    pub fn insert(&mut self, id: String, sink: S) -> (r: Option<S>)
        requires
            old(self).wf(),
        ensures
            final(self).wf(),
            playing(final(self).entries@, id@),
            forall|k: int|
                0 <= k < old(self).entries@.len() && (#[trigger] old(self).entries@[k]).id@ == id@ ==> r == old(
                    self,
                ).entries@[k].sink && final(self).entries@ == old(self).entries@.update(
                    k,
                    AudioEntry { id, sink: Some(sink) },
                ),
            !registered(old(self).entries@, id@) ==> r is None && final(self).entries@ == old(self).entries@.push(
                AudioEntry { id, sink: Some(sink) },
            ),
    {
        let ghost id_view = id@;
        match self.find(&id) {
            Some(k) => {
                proof {
                    assert forall|k2: int|
                        0 <= k2 < self.entries@.len() && (#[trigger] self.entries@[k2]).id@ == id@ implies k2 == k by {
                        if k2 != k {
                            assert(self.entries@[k2].id@ != self.entries@[k as int].id@);
                        }
                    }
                }
                let ghost before = self.entries@;
                let old_sink = self.entries.remove(k);
                self.entries.insert(k, AudioEntry { id, sink: Some(sink) });
                assert(self.entries@ =~= before.update(k as int, self.entries@[k as int]));
                assert(self.entries@[k as int].id@ == id_view);
                old_sink.sink
            },
            None => {
                self.entries.push(AudioEntry { id, sink: Some(sink) });
                assert(self.entries@[self.entries@.len() - 1].id@ == id_view);
                None
            },
        }
    }

    /// Drops the entry with id `id`, once its playback has ended.
    pub fn remove(&mut self, id: &String)
        requires
            old(self).wf(),
        ensures
            final(self).wf(),
            !registered(final(self).entries@, id@),
            forall|k: int|
                0 <= k < old(self).entries@.len() && (#[trigger] old(self).entries@[k]).id@ == id@
                    ==> final(self).entries@ == old(self).entries@.remove(k),
            !registered(old(self).entries@, id@) ==> final(self).entries@ == old(self).entries@,
    {
        match self.find(id) {
            Some(k) => {
                proof {
                    assert forall|k2: int|
                        0 <= k2 < self.entries@.len() && (#[trigger] self.entries@[k2]).id@ == id@ implies k2 == k by {
                        if k2 != k {
                            assert(self.entries@[k2].id@ != self.entries@[k as int].id@);
                        }
                    }
                }
                let ghost before = self.entries@;
                self.entries.remove(k);
                proof {
                    assert forall|j: int| 0 <= j < self.entries@.len() implies (#[trigger] self.entries@[j]).id@ != id@ by {
                        let j0 = if j < k { j } else { j + 1 };
                        assert(self.entries@[j] == before[j0]);
                        assert(j0 != k);
                    }
                    assert forall|a: int, b: int|
                        0 <= a < self.entries@.len() && 0 <= b < self.entries@.len() && a != b implies (
                        #[trigger] self.entries@[a]).id@ != (#[trigger] self.entries@[b]).id@ by {
                        assert(self.entries@[a] == before[if a < k { a } else { a + 1 }]);
                        assert(self.entries@[b] == before[if b < k { b } else { b + 1 }]);
                    }
                }
            },
            None => {},
        }
    }
}

/// Accepts a request to play `file_path` under `id`, the file path when no
/// id is given. A file that does not exist is refused with a message that
/// names it. Returns the id the playback goes by.
pub fn play_audio(file_path: String, id: Option<String>, file_exists: bool) -> (r: Result<String, String>)
    ensures
        file_exists ==> (r matches Ok(a) && a@ == (match id {
            Some(i) => i@,
            None => file_path@,
        })),
        !file_exists ==> (r matches Err(e) && e@ == not_found_message(file_path@)),
{
    if !file_exists {
        let mut e = String::from_str("Audio file not found: ");
        e.append(file_path.as_str());
        return Err(e);
    }
    match id {
        Some(i) => Ok(i),
        None => Ok(file_path),
    }
}

/// Takes the sink of playback `id` out of the registry so that the caller
/// stops it; the entry stays, no longer playing. `None` where no sink is
/// held under that id.
pub fn stop_audio<S>(players: &mut AudioPlayers<S>, id: &String) -> (r: Option<S>)
    requires
        old(players).wf(),
    ensures
        final(players).wf(),
        !playing(final(players).entries@, id@),
        r is Some <==> playing(old(players).entries@, id@),
        forall|k: int|
            0 <= k < old(players).entries@.len() && (#[trigger] old(players).entries@[k]).id@ == id@ ==> r == old(
                players,
            ).entries@[k].sink && final(players).entries@ == old(players).entries@.update(
                k,
                AudioEntry { id: old(players).entries@[k].id, sink: None },
            ),
        !registered(old(players).entries@, id@) ==> final(players).entries@ == old(players).entries@,
{
    match players.find(id) {
        Some(k) => {
            proof {
                assert forall|k2: int|
                    0 <= k2 < players.entries@.len() && (#[trigger] players.entries@[k2]).id@ == id@ implies k2 == k by {
                    if k2 != k {
                        assert(players.entries@[k2].id@ != players.entries@[k as int].id@);
                    }
                }
            }
            let ghost before = players.entries@;
            let entry = players.entries.remove(k);
            let AudioEntry { id: entry_id, sink } = entry;
            players.entries.insert(k, AudioEntry { id: entry_id, sink: None });
            proof {
                assert(players.entries@ =~= before.update(k as int, AudioEntry { id: before[k as int].id, sink: None }));
                assert forall|j: int| 0 <= j < players.entries@.len() && (#[trigger] players.entries@[j]).id@ == id@ implies players.entries@[j].sink is None by {
                    if j != k {
                        assert(before[j].id@ != before[k as int].id@);
                    }
                }
            }
            sink
        },
        None => None,
    }
}

/// Whether playback `id` still holds its sink.
pub fn is_audio_playing<S>(players: &AudioPlayers<S>, id: &String) -> (r: bool)
    requires
        players.wf(),
    ensures
        r == playing(players.entries@, id@),
{
    match players.find(id) {
        Some(k) => {
            proof {
                assert forall|k2: int|
                    0 <= k2 < players.entries@.len() && (#[trigger] players.entries@[k2]).id@ == id@ implies k2 == k by {
                    if k2 != k {
                        assert(players.entries@[k2].id@ != players.entries@[k as int].id@);
                    }
                }
            }
            players.entries[k].sink.is_some()
        },
        None => false,
    }
}

} // verus!
