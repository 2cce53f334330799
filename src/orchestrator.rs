//! The control loop's decisions: what to do when a notification arrives, when
//! a surface is ready, and when a surface is closed. Each handler updates the
//! manager and returns the one action that the surface provider must carry
//! out; the provider's answers come back as further events.
use vstd::prelude::*;

use crate::layout::{move_views, next_slot, restack_moves, restacked, NotificationPosition, SurfaceMove};
use crate::manager::{
    all_assigned_in, first_unassigned_in, has_id, lemma_first_unassigned_unique, lemma_id_at_only, lemma_label_at_only, has_label, holds, is_assigned, labelled, stamped, NotificationManager,
    NotifyError,
};
use crate::notification::Notification;

verus! {

/// What the surface provider has to do after an event.
#[derive(Debug)]
pub enum Action {
    /// Nothing, until the next event.
    Wait,
    /// Show the pooled surface `surface` again, at `(x, y)`; its content then
    /// reports ready.
    Show { surface: String, x: u32, y: u32 },
    /// Create surface `surface` of the given size at `(x, y)`; its content
    /// then reports ready.
    Create { surface: String, x: u32, y: u32, width: u32, height: u32 },
    /// The visible surface `surface` holds a new notification: have its
    /// content report ready to fetch it.
    Refresh { surface: String },
    /// Hide the surface `surface`, now pooled, and move the visible ones.
    Hide { surface: String, moves: Vec<SurfaceMove> },
}

/// Position of the record with this id in `s`.
pub open spec fn index_of(s: Seq<Notification>, id: Seq<char>) -> int {
    choose|i: int| 0 <= i < s.len() && (#[trigger] s[i]).id@ == id
}

/// The pending list once the record that `held` names is archived.
pub open spec fn retired_pending(pending: Seq<Notification>, held: Option<String>) -> Seq<Notification> {
    match held {
        Some(id) => pending.remove(index_of(pending, id@)),
        None => pending,
    }
}

/// The history once the record that `held` names is archived.
pub open spec fn retired_history(pending: Seq<Notification>, history: Seq<Notification>, held: Option<String>) -> Seq<
    Notification,
> {
    match held {
        Some(id) => history.push(pending[index_of(pending, id@)]),
        None => history,
    }
}

impl NotificationManager {
    /// Decides how the oldest unassigned pending record gets a surface: reuse
    /// a pooled surface; else create one if the cap allows, labelled with the
    /// record's id; else take an active surface that holds nothing; else wait.
    /// A surface to be created is registered and bound here, in the same
    /// step that tests the cap, so two arrivals cannot both claim the last
    /// free place; if creation then fails, `discard_surface` gives it back.
    pub fn on_new_notification(&mut self, screen_width: u32) -> (r: Action)
        requires
            old(self).wf(),
        ensures
            final(self).wf(),
            old(self).all_assigned() ==> r is Wait && *final(self) == *old(self),
            forall|i: int|
                old(self).is_first_unassigned(i) ==> {
                    let n = #[trigger] old(self).pending@[i];
                    let p = next_slot(old(self).slots@, screen_width, old(self).config.width, old(self).config.margin);
                    if old(self).idle@.len() > 0 && old(self).next_position_id < usize::MAX {
                        let s = old(self).idle@.last();
                        &&& r == (Action::Show { surface: s.label, x: p.0, y: p.1 })
                        &&& final(self).idle@ == old(self).idle@.drop_last()
                        &&& final(self).slots@ == old(self).slots@.push(
                            NotificationPosition { id: old(self).next_position_id, label: s.label, x: p.0, y: p.1, height: s.height },
                        )
                        &&& final(self).assigned@ == old(self).assigned@.push(Some(n.id))
                        &&& final(self).pending@ == old(self).pending@.update(i, labelled(n, s.label))
                        &&& final(self).next_position_id == old(self).next_position_id + 1
                    } else if old(self).spec_has_capacity() && old(self).next_position_id < usize::MAX
                        && !old(self).knows_surface(n.id@) {
                        &&& r == (Action::Create {
                            surface: n.id,
                            x: p.0,
                            y: p.1,
                            width: old(self).config.width,
                            height: old(self).config.height,
                        })
                        &&& final(self).idle == old(self).idle
                        &&& final(self).slots@ == old(self).slots@.push(
                            NotificationPosition {
                                id: old(self).next_position_id,
                                label: n.id,
                                x: p.0,
                                y: p.1,
                                height: old(self).config.height,
                            },
                        )
                        &&& final(self).assigned@ == old(self).assigned@.push(Some(n.id))
                        &&& final(self).pending@ == old(self).pending@.update(i, labelled(n, n.id))
                        &&& final(self).next_position_id == old(self).next_position_id + 1
                    } else if old(self).all_busy() {
                        r is Wait && *final(self) == *old(self)
                    } else {
                        forall|k: int|
                            old(self).is_first_free(k) ==> {
                                &&& r == (Action::Refresh { surface: old(self).slots@[k].label })
                                &&& final(self).idle == old(self).idle
                                &&& final(self).slots == old(self).slots
                                &&& final(self).assigned@ == old(self).assigned@.update(k, Some(n.id))
                                &&& final(self).pending@ == old(self).pending@.update(i, labelled(n, old(self).slots@[k].label))
                                &&& final(self).next_position_id == old(self).next_position_id
                            }
                    }
                },
            final(self).history == old(self).history,
            final(self).config == old(self).config,
            final(self).last_cleanup_ms == old(self).last_cleanup_ms,
    {
        let ghost before = *self;
        let i = match self.first_unassigned() {
            Some(i) => i,
            None => {
                return Action::Wait;
            },
        };
        let nid = self.pending[i].id.clone();
        proof {
            lemma_first_unassigned_unique(before.pending@, before.assigned@, i as int);
            assert(has_id(before.pending@, nid@));
            assert(forall|j: int| 0 <= j < before.assigned@.len() ==> !holds(#[trigger] before.assigned@[j], nid@));
        }
        if self.idle.len() > 0 && self.next_position_id < usize::MAX {
            let label = match self.reuse_one(screen_width) {
                Some(l) => l,
                None => {
                    return Action::Wait;
                },
            };
            let ghost mid = *self;
            let last = self.slots.len() - 1;
            proof {
                assert(mid.slots@[last as int].label@ == label@);
                assert(has_label(mid.slots@, label@));
                assert(has_id(mid.pending@, nid@)) by {
                    assert(mid.pending@[i as int].id@ == nid@);
                }
                assert(forall|j: int| 0 <= j < mid.assigned@.len() ==> !holds(#[trigger] mid.assigned@[j], nid@)) by {
                    assert forall|j: int| 0 <= j < mid.assigned@.len() implies !holds(#[trigger] mid.assigned@[j], nid@) by {
                        if j < before.assigned@.len() {
                            assert(mid.assigned@[j] == before.assigned@[j]);
                        }
                    }
                }
            }
            let res = self.assign(&label, &nid);
            proof {
                assert(res is Ok);
                assert(mid.slots@[last as int].label@ == label@);
                assert(mid.pending@[i as int].id@ == nid@);
            }
            let x = self.slots[last].x;
            let y = self.slots[last].y;
            return Action::Show { surface: label, x, y };
        }
        if self.has_capacity() && self.next_position_id < usize::MAX && self.active_index(&nid).is_none()
            && self.idle_index(&nid).is_none() {
            let (x, y) = self.get_next_position(screen_width);
            let height = self.config.height;
            let width = self.config.width;
            let res = self.register(nid.clone(), x, y, height);
            let ghost mid = *self;
            let last = self.slots.len() - 1;
            proof {
                assert(res is Ok);
                assert(mid.slots@[last as int].label@ == nid@);
                assert(has_label(mid.slots@, nid@));
                assert(has_id(mid.pending@, nid@)) by {
                    assert(mid.pending@[i as int].id@ == nid@);
                }
                assert forall|j: int| 0 <= j < mid.assigned@.len() implies !holds(#[trigger] mid.assigned@[j], nid@) by {
                    if j < before.assigned@.len() {
                        assert(mid.assigned@[j] == before.assigned@[j]);
                    }
                }
            }
            let res2 = self.assign(&nid, &nid);
            proof {
                assert(res2 is Ok);
                assert(mid.pending@[i as int].id@ == nid@);
            }
            return Action::Create { surface: nid, x, y, width, height };
        }
        match self.first_free() {
            Some(k) => {
                let label = self.slots[k].label.clone();
                let res = self.assign(&label, &nid);
                proof {
                    assert(res is Ok);
                    assert forall|k2: int| before.is_first_free(k2) implies k2 == k by {
                        if k2 < k {
                            assert(before.assigned@[k2] is Some);
                        } else if k2 > k {
                            assert(before.assigned@[k as int] is Some);
                        }
                    }
                    assert(before.pending@[i as int].id@ == nid@);
                }
                Action::Refresh { surface: label }
            },
            None => Action::Wait,
        }
    }
}

impl NotificationManager {
    /// The content of active surface `surface` is ready: hand it the record
    /// it holds, stamped with its first display time; a surface that holds
    /// nothing first takes the oldest unassigned record. `NotFound` where the
    /// surface is not active, or holds nothing and nothing is waiting.
    pub fn surface_ready(&mut self, surface: &String, now_ms: u64) -> (r: Result<Notification, NotifyError>)
        requires
            old(self).wf(),
        ensures
            final(self).wf(),
            !has_label(old(self).slots@, surface@) ==> r == Err::<Notification, NotifyError>(NotifyError::NotFound)
                && *final(self) == *old(self),
            forall|k: int|
                0 <= k < old(self).slots@.len() && (#[trigger] old(self).slots@[k]).label@ == surface@ ==> {
                    &&& old(self).assigned@[k] is Some ==> forall|i: int|
                        0 <= i < old(self).pending@.len() && (#[trigger] old(self).pending@[i]).id@
                            == old(self).assigned@[k]->0@ ==> {
                            &&& r == Ok::<Notification, NotifyError>(stamped(old(self).pending@[i], (now_ms / 1000) as u64))
                            &&& final(self).pending@ == old(self).pending@.update(
                                i,
                                stamped(old(self).pending@[i], (now_ms / 1000) as u64),
                            )
                            &&& final(self).assigned == old(self).assigned
                        }
                    &&& old(self).assigned@[k] is None && old(self).all_assigned() ==> r == Err::<
                        Notification,
                        NotifyError,
                    >(NotifyError::NotFound) && *final(self) == *old(self)
                    &&& old(self).assigned@[k] is None ==> forall|i: int|
                        #[trigger] old(self).is_first_unassigned(i) ==> {
                            let n = stamped(labelled(old(self).pending@[i], *surface), (now_ms / 1000) as u64);
                            &&& r == Ok::<Notification, NotifyError>(n)
                            &&& final(self).pending@ == old(self).pending@.update(i, n)
                            &&& final(self).assigned@ == old(self).assigned@.update(k, Some(old(self).pending@[i].id))
                        }
                },
            final(self).slots == old(self).slots,
            final(self).idle == old(self).idle,
            final(self).history == old(self).history,
            final(self).config == old(self).config,
            final(self).next_position_id == old(self).next_position_id,
            final(self).last_cleanup_ms == old(self).last_cleanup_ms,
    {
        let ghost before = *self;
        let now_secs = now_ms / 1000;
        let k = match self.active_index(surface) {
            Some(k) => k,
            None => {
                return Err(NotifyError::NotFound);
            },
        };
        proof {
            lemma_label_at_only(self.slots@, k as int, surface@);
        }
        let nid = match &self.assigned[k] {
            Some(n) => n.clone(),
            None => {
                let i = match self.first_unassigned() {
                    Some(i) => i,
                    None => {
                        return Err(NotifyError::NotFound);
                    },
                };
                let nid = self.pending[i].id.clone();
                proof {
                    lemma_first_unassigned_unique(before.pending@, before.assigned@, i as int);
                    assert(has_label(before.slots@, surface@));
                    assert(has_id(before.pending@, nid@));
                    assert(forall|j: int| 0 <= j < before.assigned@.len() ==> !holds(#[trigger] before.assigned@[j], nid@));
                }
                let res = self.assign(surface, &nid);
                assert(res is Ok);
                let ghost mid = *self;
                assert(mid.pending@[i as int].id@ == nid@);
                let res2 = self.set_displayed_timestamp(&nid, now_secs);
                assert(res2 is Ok);
                assert(self.pending@[i as int] == stamped(labelled(before.pending@[i as int], *surface), now_secs));
                return Ok(self.pending[i].clone());
            },
        };
        assert(holds(self.assigned@[k as int], nid@));
        let i = match self.pending_index(&nid) {
            Some(i) => i,
            None => {
                return Err(NotifyError::NotFound);
            },
        };
        proof {
            lemma_id_at_only(before.pending@, i as int, nid@);
        }
        let res = self.set_displayed_timestamp(&nid, now_secs);
        assert(res is Ok);
        Ok(self.pending[i].clone())
    }

    /// Surface `surface` was dismissed: archive what it holds, then give it
    /// the oldest unassigned record if there is one, else pool it and restack
    /// the remaining visible surfaces. Pooling never breaks the cap, since
    /// the surface only moves from active to idle. `NotFound` where it is
    /// not active.
    pub fn close(&mut self, surface: &String) -> (r: Result<Action, NotifyError>)
        requires
            old(self).wf(),
        ensures
            final(self).wf(),
            !has_label(old(self).slots@, surface@) ==> r == Err::<Action, NotifyError>(NotifyError::NotFound)
                && *final(self) == *old(self),
            forall|k: int|
                0 <= k < old(self).slots@.len() && (#[trigger] old(self).slots@[k]).label@ == surface@ ==> {
                    let held = old(self).assigned@[k];
                    let remaining = retired_pending(old(self).pending@, held);
                    let cleared = old(self).assigned@.update(k, None);
                    let rest = old(self).slots@.remove(k);
                    &&& final(self).history@ == retired_history(old(self).pending@, old(self).history@, held)
                    &&& forall|i: int|
                        first_unassigned_in(remaining, cleared, i) ==> {
                            &&& r == Ok::<Action, NotifyError>(Action::Refresh { surface: *surface })
                            &&& final(self).assigned@ == cleared.update(k, Some(#[trigger] remaining[i].id))
                            &&& final(self).pending@ == remaining.update(i, labelled(remaining[i], *surface))
                            &&& final(self).slots == old(self).slots
                            &&& final(self).idle == old(self).idle
                        }
                    &&& all_assigned_in(remaining, cleared) ==> {
                        &&& final(self).pending@ == remaining
                        &&& final(self).assigned@ == cleared.remove(k)
                        &&& final(self).idle@ == old(self).idle@.push(old(self).slots@[k])
                        &&& final(self).slots@ == restacked(rest, old(self).config.margin)
                        &&& r matches Ok(Action::Hide { surface: l, moves }) && l == *surface && move_views(moves@)
                            == restack_moves(rest, old(self).config.margin)
                    }
                },
            final(self).config == old(self).config,
            final(self).next_position_id == old(self).next_position_id,
            final(self).last_cleanup_ms == old(self).last_cleanup_ms,
    {
        let ghost before = *self;
        let k = match self.active_index(surface) {
            Some(k) => k,
            None => {
                return Err(NotifyError::NotFound);
            },
        };
        proof {
            lemma_label_at_only(self.slots@, k as int, surface@);
        }
        let removed = self.remove_notification(surface);
        let ghost mid = *self;
        let ghost held = before.assigned@[k as int];
        proof {
            let cleared = before.assigned@.update(k as int, None);
            match held {
                Some(id) => {
                    let w = choose|w: int|
                        0 <= w < before.pending@.len() && (#[trigger] before.pending@[w]).id@ == before.assigned@[k as int]->0@
                            && removed == Some(before.pending@[w])
                            && mid.pending@ == before.pending@.remove(w)
                            && mid.history@ == before.history@.push(before.pending@[w]);
                    let c = index_of(before.pending@, id@);
                    assert(0 <= c < before.pending@.len() && before.pending@[c].id@ == id@);
                    if c != w {
                        assert(before.pending@[c].id@ != before.pending@[w].id@);
                    }
                    assert(mid.pending@ == retired_pending(before.pending@, held));
                    assert(mid.history@ == retired_history(before.pending@, before.history@, held));
                    assert(mid.assigned@ == cleared);
                },
                None => {
                    assert(mid.assigned@ == before.assigned@);
                    assert(mid.assigned@ =~= cleared);
                },
            }
        }
        match self.first_unassigned() {
            Some(i) => {
                let nid = self.pending[i].id.clone();
                proof {
                    assert(has_label(mid.slots@, surface@)) by {
                        assert(mid.slots@[k as int].label@ == surface@);
                    }
                    assert(has_id(mid.pending@, nid@));
                    assert forall|j: int|
                        0 <= j < mid.slots@.len() && holds(mid.assigned@[j], nid@) implies (#[trigger] mid.slots@[j]).label@
                            == surface@ by {
                        assert(is_assigned(mid.assigned@, nid@));
                    }
                }
                let res = self.assign(surface, &nid);
                proof {
                    assert(res is Ok);
                    lemma_label_at_only(mid.slots@, k as int, surface@);
                    assert(mid.pending@[i as int].id@ == nid@);
                    lemma_first_unassigned_unique(mid.pending@, mid.assigned@, i as int);
                }
                Ok(Action::Refresh { surface: surface.clone() })
            },
            None => {
                assert(mid.assigned@[k as int] is None);
                let res = self.pool(surface);
                assert(res is Ok);
                let moves = self.reposition_notifications();
                proof {
                    assert forall|i: int| !first_unassigned_in(mid.pending@, mid.assigned@, i) by {
                        if 0 <= i < mid.pending@.len() {
                            assert(is_assigned(mid.assigned@, mid.pending@[i].id@));
                        }
                    }
                }
                Ok(Action::Hide { surface: surface.clone(), moves })
            },
        }
    }
}

} // verus!
