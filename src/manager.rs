//! The notification manager: pending queue, assignment of notifications to
//! surfaces, the bounded surface pool, layout and history.
use vstd::prelude::*;

use crate::ids::random_id;
use crate::layout::{
    move_views, next_position, next_slot, reflow, restack_moves, restacked, NotificationPosition, SurfaceMove,
};
use crate::notification::Notification;

verus! {

/// A pending record whose first display is older than this is dropped by
/// cleanup, unless a surface still shows it.
pub const RETENTION_SECS: u64 = 86400;

/// Parameters fixed when the manager is built.
pub struct Config {
    /// Cap on active plus idle surfaces.
    pub max_windows: usize,
    /// Nominal surface width.
    pub width: u32,
    /// Nominal surface height, used until a surface reports its own.
    pub height: u32,
    /// Gap between stacked surfaces and between them and the screen edge.
    pub margin: u32,
    /// History is trimmed from its oldest end down to this length.
    pub max_history_size: usize,
    /// Least time between two cleanup passes.
    pub cleanup_interval_ms: u64,
    /// Retention policy for records never displayed: when set, cleanup also
    /// drops those enqueued more than `RETENTION_SECS` ago; when clear, it
    /// keeps them however old.
    pub purge_undisplayed: bool,
}

/// What went wrong.
#[derive(Clone, Copy, Debug, PartialEq, Eq, Structural)]
pub enum NotifyError {
    /// An unknown surface or notification id.
    NotFound,
    /// No display, or the surface provider failed.
    Unavailable,
    /// Another surface would exceed the cap.
    CapacityExceeded,
    /// The request does not fit the record's current state.
    StateConflict,
}

impl NotifyError {
    /// A human-readable description of the error.
    pub fn message(&self) -> (r: String)
        ensures
            r@ == (match self {
                NotifyError::NotFound => "unknown surface or notification"@,
                NotifyError::Unavailable => "display or surface provider unavailable"@,
                NotifyError::CapacityExceeded => "surface cap reached"@,
                NotifyError::StateConflict => "notification is not in a state that allows this"@,
            }),
    {
        match self {
            NotifyError::NotFound => String::from_str("unknown surface or notification"),
            NotifyError::Unavailable => String::from_str("display or surface provider unavailable"),
            NotifyError::CapacityExceeded => String::from_str("surface cap reached"),
            NotifyError::StateConflict => String::from_str("notification is not in a state that allows this"),
        }
    }
}

/// Whether the optional id `a` is `id`.
pub open spec fn holds(a: Option<String>, id: Seq<char>) -> bool {
    match a {
        Some(s) => s@ == id,
        None => false,
    }
}

/// Whether some surface holds notification `id`.
pub open spec fn is_assigned(assigned: Seq<Option<String>>, id: Seq<char>) -> bool {
    exists|j: int| 0 <= j < assigned.len() && holds(#[trigger] assigned[j], id)
}

/// Whether a record with this id is in `s`.
pub open spec fn has_id(s: Seq<Notification>, id: Seq<char>) -> bool {
    exists|i: int| 0 <= i < s.len() && (#[trigger] s[i]).id@ == id
}

/// Whether a slot with this label is in `s`.
pub open spec fn has_label(s: Seq<NotificationPosition>, l: Seq<char>) -> bool {
    exists|i: int| 0 <= i < s.len() && (#[trigger] s[i]).label@ == l
}

/// No two records of `s` share an id.
pub open spec fn ids_distinct(s: Seq<Notification>) -> bool {
    forall|a: int, b: int| 0 <= a < s.len() && 0 <= b < s.len() && a != b ==> (#[trigger] s[a]).id@ != (#[trigger] s[b]).id@
}

/// No two slots of `s` share a label.
pub open spec fn labels_distinct(s: Seq<NotificationPosition>) -> bool {
    forall|a: int, b: int| 0 <= a < s.len() && 0 <= b < s.len() && a != b ==> (#[trigger] s[a]).label@ != (#[trigger] s[b]).label@
}

/// No notification id is held by two surfaces.
pub open spec fn assignments_distinct(assigned: Seq<Option<String>>) -> bool {
    forall|a: int, b: int, id: Seq<char>|
        0 <= a < assigned.len() && 0 <= b < assigned.len() && #[trigger] holds(assigned[a], id) && #[trigger] holds(assigned[b], id) ==> a == b
}

/// Whether `pending[i]` is the oldest record of `pending` that no entry of
/// `assigned` holds.
pub open spec fn first_unassigned_in(pending: Seq<Notification>, assigned: Seq<Option<String>>, i: int) -> bool {
    &&& 0 <= i < pending.len()
    &&& !is_assigned(assigned, pending[i].id@)
    &&& forall|k: int| 0 <= k < i ==> is_assigned(assigned, (#[trigger] pending[k]).id@)
}

/// Whether every record of `pending` is held by an entry of `assigned`.
pub open spec fn all_assigned_in(pending: Seq<Notification>, assigned: Seq<Option<String>>) -> bool {
    forall|k: int| 0 <= k < pending.len() ==> is_assigned(assigned, (#[trigger] pending[k]).id@)
}

/// A label found at index `k` of slots with distinct labels is found at no
/// other index.
pub proof fn lemma_label_at_only(s: Seq<NotificationPosition>, k: int, l: Seq<char>)
    requires
        labels_distinct(s),
        0 <= k < s.len(),
        s[k].label@ == l,
    ensures
        forall|k2: int| 0 <= k2 < s.len() && (#[trigger] s[k2]).label@ == l ==> k2 == k,
{
    assert forall|k2: int| 0 <= k2 < s.len() && (#[trigger] s[k2]).label@ == l implies k2 == k by {
        if k2 != k {
            assert(s[k2].label@ != s[k].label@);
        }
    }
}

/// An id found at index `i` of records with distinct ids is found at no
/// other index.
pub proof fn lemma_id_at_only(s: Seq<Notification>, i: int, id: Seq<char>)
    requires
        ids_distinct(s),
        0 <= i < s.len(),
        s[i].id@ == id,
    ensures
        forall|i2: int| 0 <= i2 < s.len() && (#[trigger] s[i2]).id@ == id ==> i2 == i,
{
    assert forall|i2: int| 0 <= i2 < s.len() && (#[trigger] s[i2]).id@ == id implies i2 == i by {
        if i2 != i {
            assert(s[i2].id@ != s[i].id@);
        }
    }
}

/// There is at most one oldest unassigned record.
pub proof fn lemma_first_unassigned_unique(pending: Seq<Notification>, assigned: Seq<Option<String>>, i: int)
    requires
        first_unassigned_in(pending, assigned, i),
    ensures
        forall|i2: int| #[trigger] first_unassigned_in(pending, assigned, i2) ==> i2 == i,
{
    assert forall|i2: int| #[trigger] first_unassigned_in(pending, assigned, i2) implies i2 == i by {
        if i2 < i {
            assert(is_assigned(assigned, pending[i2].id@));
        } else if i2 > i {
            assert(is_assigned(assigned, pending[i].id@));
        }
    }
}

/// The manager's whole state. Active surfaces are `slots`, in creation
/// order, with `assigned[k]` the notification that `slots[k]` holds; idle
/// surfaces are hidden and kept for reuse.
pub struct NotificationManager {
    pub config: Config,
    /// Records not yet archived, oldest first.
    pub pending: Vec<Notification>,
    /// Archived records, oldest first.
    pub history: Vec<Notification>,
    pub slots: Vec<NotificationPosition>,
    pub assigned: Vec<Option<String>>,
    pub idle: Vec<NotificationPosition>,
    pub next_position_id: usize,
    pub last_cleanup_ms: u64,
}

impl NotificationManager {
    /// The state invariant.
    pub open spec fn wf(&self) -> bool {
        &&& self.slots@.len() == self.assigned@.len()
        &&& self.slots@.len() + self.idle@.len() <= self.config.max_windows
        &&& forall|a: int, b: int| 0 <= a < b < self.slots@.len() ==> (#[trigger] self.slots@[a]).id < (#[trigger] self.slots@[b]).id
        &&& forall|a: int| 0 <= a < self.slots@.len() ==> (#[trigger] self.slots@[a]).id < self.next_position_id
        &&& labels_distinct(self.slots@)
        &&& labels_distinct(self.idle@)
        &&& forall|a: int, b: int|
            0 <= a < self.slots@.len() && 0 <= b < self.idle@.len() ==> (#[trigger] self.slots@[a]).label@ != (#[trigger] self.idle@[b]).label@
        &&& assignments_distinct(self.assigned@)
        &&& forall|a: int, id: Seq<char>|
            0 <= a < self.assigned@.len() && #[trigger] holds(self.assigned@[a], id) ==> has_id(self.pending@, id)
        &&& ids_distinct(self.pending@)
        &&& ids_distinct(self.history@)
        &&& forall|a: int, b: int|
            0 <= a < self.pending@.len() && 0 <= b < self.history@.len() ==> (#[trigger] self.pending@[a]).id@ != (#[trigger] self.history@[b]).id@
    }

    /// Whether `label` names a surface, active or idle.
    pub open spec fn knows_surface(&self, label: Seq<char>) -> bool {
        has_label(self.slots@, label) || has_label(self.idle@, label)
    }

    /// Whether one more surface fits under the cap.
    pub open spec fn spec_has_capacity(&self) -> bool {
        self.slots@.len() + self.idle@.len() < self.config.max_windows
    }

    /// A manager with no records and no surfaces.
    pub fn with_config(config: Config) -> (r: Self)
        ensures
            r.wf(),
            r.config == config,
            r.pending@.len() == 0,
            r.history@.len() == 0,
            r.slots@.len() == 0,
            r.idle@.len() == 0,
            r.next_position_id == 0,
            r.last_cleanup_ms == 0,
    {
        NotificationManager {
            config,
            pending: Vec::new(),
            history: Vec::new(),
            slots: Vec::new(),
            assigned: Vec::new(),
            idle: Vec::new(),
            next_position_id: 0,
            last_cleanup_ms: 0,
        }
    }

    /// A manager with surfaces of 400 by 500, a margin of 10, at most four
    /// surfaces, a history of 100, a cleanup pass at most once a minute, and
    /// records never displayed kept however old.
    pub fn new() -> (r: Self)
        ensures
            r.wf(),
            r.config.max_windows == 4,
            r.config.width == 400,
            r.config.height == 500,
            r.config.margin == 10,
            r.config.max_history_size == 100,
            r.config.cleanup_interval_ms == 60000,
            !r.config.purge_undisplayed,
            r.pending@.len() == 0,
            r.history@.len() == 0,
            r.slots@.len() == 0,
            r.idle@.len() == 0,
            r.next_position_id == 0,
            r.last_cleanup_ms == 0,
    {
        Self::with_config(
            Config {
                max_windows: 4,
                width: 400,
                height: 500,
                margin: 10,
                max_history_size: 100,
                cleanup_interval_ms: 60000,
                purge_undisplayed: false,
            },
        )
    }

    /// The nominal surface size, width then height.
    pub fn get_dimensions(&self) -> (r: (u32, u32))
        ensures
            r == (self.config.width, self.config.height),
    {
        (self.config.width, self.config.height)
    }

    /// Whether one more surface fits under the cap.
    pub fn has_capacity(&self) -> (r: bool)
        requires
            self.wf(),
        ensures
            r == self.spec_has_capacity(),
    {
        self.slots.len() < self.config.max_windows - self.idle.len()
    }

    /// Index of the active surface `label`.
    pub fn active_index(&self, label: &String) -> (r: Option<usize>)
        requires
            self.wf(),
        ensures
            r matches Some(k) ==> k < self.slots@.len() && self.slots@[k as int].label@ == label@,
            r is None ==> !has_label(self.slots@, label@),
    {
        let mut k: usize = 0;
        while k < self.slots.len()
            invariant
                k <= self.slots@.len(),
                forall|j: int| 0 <= j < k ==> (#[trigger] self.slots@[j]).label@ != label@,
            decreases self.slots@.len() - k,
        {
            if self.slots[k].label == *label {
                return Some(k);
            }
            k = k + 1;
        }
        None
    }

    /// Index of the idle surface `label`.
    pub fn idle_index(&self, label: &String) -> (r: Option<usize>)
        requires
            self.wf(),
        ensures
            r matches Some(k) ==> k < self.idle@.len() && self.idle@[k as int].label@ == label@,
            r is None ==> !has_label(self.idle@, label@),
    {
        let mut k: usize = 0;
        while k < self.idle.len()
            invariant
                k <= self.idle@.len(),
                forall|j: int| 0 <= j < k ==> (#[trigger] self.idle@[j]).label@ != label@,
            decreases self.idle@.len() - k,
        {
            if self.idle[k].label == *label {
                return Some(k);
            }
            k = k + 1;
        }
        None
    }

    /// Index of the pending record `id`.
    pub fn pending_index(&self, id: &String) -> (r: Option<usize>)
        requires
            self.wf(),
        ensures
            r matches Some(k) ==> k < self.pending@.len() && self.pending@[k as int].id@ == id@,
            r is None ==> !has_id(self.pending@, id@),
    {
        let mut k: usize = 0;
        while k < self.pending.len()
            invariant
                k <= self.pending@.len(),
                forall|j: int| 0 <= j < k ==> (#[trigger] self.pending@[j]).id@ != id@,
            decreases self.pending@.len() - k,
        {
            if self.pending[k].id == *id {
                return Some(k);
            }
            k = k + 1;
        }
        None
    }

    /// Whether an archived record has this id.
    pub fn in_history(&self, id: &String) -> (r: bool)
        requires
            self.wf(),
        ensures
            r == has_id(self.history@, id@),
    {
        let mut k: usize = 0;
        while k < self.history.len()
            invariant
                k <= self.history@.len(),
                forall|j: int| 0 <= j < k ==> (#[trigger] self.history@[j]).id@ != id@,
            decreases self.history@.len() - k,
        {
            if self.history[k].id == *id {
                return true;
            }
            k = k + 1;
        }
        false
    }

    /// Index of the active surface that holds notification `id`.
    pub fn holder_index(&self, id: &String) -> (r: Option<usize>)
        requires
            self.wf(),
        ensures
            r matches Some(k) ==> k < self.assigned@.len() && holds(self.assigned@[k as int], id@),
            r is None ==> !is_assigned(self.assigned@, id@),
    {
        let mut k: usize = 0;
        while k < self.assigned.len()
            invariant
                k <= self.assigned@.len(),
                forall|j: int| 0 <= j < k ==> !holds(#[trigger] self.assigned@[j], id@),
            decreases self.assigned@.len() - k,
        {
            match &self.assigned[k] {
                Some(n) => {
                    if *n == *id {
                        return Some(k);
                    }
                },
                None => {},
            }
            k = k + 1;
        }
        None
    }
    /// Whether `i` is the oldest pending record that no surface holds.
    pub open spec fn is_first_unassigned(&self, i: int) -> bool {
        first_unassigned_in(self.pending@, self.assigned@, i)
    }

    /// Whether every pending record is held by a surface.
    pub open spec fn all_assigned(&self) -> bool {
        all_assigned_in(self.pending@, self.assigned@)
    }

    /// Whether `k` is the first active surface that holds nothing.
    pub open spec fn is_first_free(&self, k: int) -> bool {
        &&& 0 <= k < self.assigned@.len()
        &&& self.assigned@[k] is None
        &&& forall|j: int| 0 <= j < k ==> (#[trigger] self.assigned@[j]) is Some
    }

    /// Whether every active surface holds a notification.
    pub open spec fn all_busy(&self) -> bool {
        forall|j: int| 0 <= j < self.assigned@.len() ==> (#[trigger] self.assigned@[j]) is Some
    }

    /// Index of the oldest pending record that no surface holds.
    pub fn first_unassigned(&self) -> (r: Option<usize>)
        requires
            self.wf(),
        ensures
            r matches Some(i) ==> self.is_first_unassigned(i as int),
            r is None ==> self.all_assigned(),
    {
        let mut i: usize = 0;
        while i < self.pending.len()
            invariant
                self.wf(),
                i <= self.pending@.len(),
                forall|k: int| 0 <= k < i ==> is_assigned(self.assigned@, (#[trigger] self.pending@[k]).id@),
            decreases self.pending@.len() - i,
        {
            if self.holder_index(&self.pending[i].id).is_none() {
                return Some(i);
            }
            i = i + 1;
        }
        None
    }

    /// The oldest pending record that no surface holds, first in first out.
    pub fn next_unassigned(&self) -> (r: Option<&Notification>)
        requires
            self.wf(),
        ensures
            r matches Some(n) ==> exists|i: int| self.is_first_unassigned(i) && self.pending@[i] == *n,
            r is None ==> self.all_assigned(),
    {
        match self.first_unassigned() {
            Some(i) => Some(&self.pending[i]),
            None => None,
        }
    }

    /// Index of the first active surface that holds nothing.
    pub fn first_free(&self) -> (r: Option<usize>)
        requires
            self.wf(),
        ensures
            r matches Some(k) ==> self.is_first_free(k as int),
            r is None ==> self.all_busy(),
    {
        let mut k: usize = 0;
        while k < self.assigned.len()
            invariant
                k <= self.assigned@.len(),
                forall|j: int| 0 <= j < k ==> (#[trigger] self.assigned@[j]) is Some,
            decreases self.assigned@.len() - k,
        {
            if self.assigned[k].is_none() {
                return Some(k);
            }
            k = k + 1;
        }
        None
    }

    /// The first active surface that holds no notification.
    pub fn find_unassigned_active(&self) -> (r: Option<String>)
        requires
            self.wf(),
        ensures
            r matches Some(l) ==> exists|k: int| self.is_first_free(k) && self.slots@[k].label == l,
            r is None ==> self.all_busy(),
    {
        match self.first_free() {
            Some(k) => Some(self.slots[k].label.clone()),
            None => None,
        }
    }
}

/// `n` with its assigned-surface field set to `label`.
pub open spec fn labelled(n: Notification, label: String) -> Notification {
    Notification { window_label: Some(label), ..n }
}

impl NotificationManager {
    /// Records a newly created surface as active, below the others in
    /// creation order and holding nothing.
    pub fn register(&mut self, label: String, x: u32, y: u32, height: u32) -> (r: Result<(), NotifyError>)
        requires
            old(self).wf(),
        ensures
            final(self).wf(),
            !old(self).spec_has_capacity() || old(self).next_position_id == usize::MAX ==> r == Err::<(), NotifyError>(NotifyError::CapacityExceeded),
            old(self).spec_has_capacity() && old(self).next_position_id < usize::MAX && old(self).knows_surface(label@)
                ==> r == Err::<(), NotifyError>(NotifyError::StateConflict),
            r is Ok <==> old(self).spec_has_capacity() && old(self).next_position_id < usize::MAX && !old(self).knows_surface(label@),
            r is Err ==> *final(self) == *old(self),
            r is Ok ==> {
                &&& final(self).slots@ == old(self).slots@.push(
                    NotificationPosition { id: old(self).next_position_id, label, x, y, height },
                )
                &&& final(self).assigned@ == old(self).assigned@.push(None)
                &&& final(self).next_position_id == old(self).next_position_id + 1
                &&& final(self).idle == old(self).idle
                &&& final(self).pending == old(self).pending
                &&& final(self).history == old(self).history
                &&& final(self).config == old(self).config
                &&& final(self).last_cleanup_ms == old(self).last_cleanup_ms
            },
    {
        if !self.has_capacity() || self.next_position_id == usize::MAX {
            return Err(NotifyError::CapacityExceeded);
        }
        if self.active_index(&label).is_some() || self.idle_index(&label).is_some() {
            return Err(NotifyError::StateConflict);
        }
        let slot = NotificationPosition { id: self.next_position_id, label, x, y, height };
        self.slots.push(slot);
        self.assigned.push(None);
        self.next_position_id = self.next_position_id + 1;
        assert(forall|a: int| 0 <= a < self.idle@.len() ==> (#[trigger] self.idle@[a]).label@ != label@);
        Ok(())
    }

    /// Binds notification `notification_id` to the active surface `surface`,
    /// replacing what that surface held, and stamps the record with the surface.
    pub fn assign(&mut self, surface: &String, notification_id: &String) -> (r: Result<(), NotifyError>)
        requires
            old(self).wf(),
        ensures
            final(self).wf(),
            !has_label(old(self).slots@, surface@) || !has_id(old(self).pending@, notification_id@)
                <==> r == Err::<(), NotifyError>(NotifyError::NotFound),
            r == Err::<(), NotifyError>(NotifyError::StateConflict) <==> {
                &&& has_label(old(self).slots@, surface@)
                &&& has_id(old(self).pending@, notification_id@)
                &&& exists|j: int|
                    0 <= j < old(self).slots@.len() && holds(old(self).assigned@[j], notification_id@)
                        && (#[trigger] old(self).slots@[j]).label@ != surface@
            },
            r is Ok <==> {
                &&& has_label(old(self).slots@, surface@)
                &&& has_id(old(self).pending@, notification_id@)
                &&& forall|j: int|
                    0 <= j < old(self).slots@.len() && holds(old(self).assigned@[j], notification_id@)
                        ==> (#[trigger] old(self).slots@[j]).label@ == surface@
            },
            r is Err ==> *final(self) == *old(self),
            r is Ok ==> {
                &&& forall|k: int|
                    0 <= k < old(self).slots@.len() && (#[trigger] old(self).slots@[k]).label@ == surface@
                        ==> final(self).assigned@ == old(self).assigned@.update(k, Some(*notification_id))
                &&& forall|i: int|
                    0 <= i < old(self).pending@.len() && (#[trigger] old(self).pending@[i]).id@ == notification_id@
                        ==> final(self).pending@ == old(self).pending@.update(i, labelled(old(self).pending@[i], *surface))
                &&& final(self).slots == old(self).slots
                &&& final(self).idle == old(self).idle
                &&& final(self).history == old(self).history
                &&& final(self).config == old(self).config
                &&& final(self).next_position_id == old(self).next_position_id
                &&& final(self).last_cleanup_ms == old(self).last_cleanup_ms
            },
    {
        let k = match self.active_index(surface) {
            Some(k) => k,
            None => {
                return Err(NotifyError::NotFound);
            },
        };
        let i = match self.pending_index(notification_id) {
            Some(i) => i,
            None => {
                return Err(NotifyError::NotFound);
            },
        };
        match self.holder_index(notification_id) {
            Some(h) => {
                if h != k {
                    assert(self.slots@[h as int].label@ != surface@);
                    return Err(NotifyError::StateConflict);
                }
            },
            None => {},
        }
        proof {
            assert forall|j: int|
                0 <= j < self.slots@.len() && holds(self.assigned@[j], notification_id@) implies
                    (#[trigger] self.slots@[j]).label@ == surface@ by {
                if j != k {
                    assert(self.slots@[j].label@ != self.slots@[k as int].label@);
                }
            }
        }
        let ghost before = *self;
        self.assigned.set(k, Some(notification_id.clone()));
        let mut rec = self.pending[i].clone();
        rec.window_label = Some(surface.clone());
        self.pending.set(i, rec);
        proof {
            assert forall|a: int, id: Seq<char>|
                0 <= a < self.assigned@.len() && #[trigger] holds(self.assigned@[a], id) implies has_id(self.pending@, id) by {
                if a != k {
                    assert(holds(before.assigned@[a], id));
                    let w = choose|w: int| 0 <= w < before.pending@.len() && (#[trigger] before.pending@[w]).id@ == id;
                    assert(self.pending@[w].id@ == id);
                } else {
                    assert(self.pending@[i as int].id@ == id);
                }
            }
            assert forall|a: int, b: int, id: Seq<char>|
                0 <= a < self.assigned@.len() && 0 <= b < self.assigned@.len() && #[trigger] holds(self.assigned@[a], id)
                    && #[trigger] holds(self.assigned@[b], id) implies a == b by {
                if a != k && b != k {
                    assert(holds(before.assigned@[a], id));
                    assert(holds(before.assigned@[b], id));
                } else if a != k {
                    assert(holds(before.assigned@[a], id));
                } else if b != k {
                    assert(holds(before.assigned@[b], id));
                }
            }
            lemma_label_at_only(before.slots@, k as int, surface@);
            lemma_id_at_only(before.pending@, i as int, notification_id@);
        }
        Ok(())
    }
}

impl NotificationManager {
    /// Clears what the active surface `surface` holds, moves that record from
    /// the pending list to the end of history, and returns it; `None` where
    /// the surface is not active or holds nothing.
    pub fn remove_notification(&mut self, surface: &String) -> (r: Option<Notification>)
        requires
            old(self).wf(),
        ensures
            final(self).wf(),
            r is Some <==> exists|k: int|
                0 <= k < old(self).slots@.len() && (#[trigger] old(self).slots@[k]).label@ == surface@
                    && old(self).assigned@[k] is Some,
            r is None ==> *final(self) == *old(self),
            forall|k: int|
                0 <= k < old(self).slots@.len() && (#[trigger] old(self).slots@[k]).label@ == surface@
                    && old(self).assigned@[k] is Some ==> {
                    &&& final(self).assigned@ == old(self).assigned@.update(k, None)
                    &&& exists|i: int|
                        0 <= i < old(self).pending@.len() && (#[trigger] old(self).pending@[i]).id@ == old(self).assigned@[k]->0@
                            && r == Some(old(self).pending@[i])
                            && final(self).pending@ == old(self).pending@.remove(i)
                            && final(self).history@ == old(self).history@.push(old(self).pending@[i])
                },
            final(self).slots == old(self).slots,
            final(self).idle == old(self).idle,
            final(self).config == old(self).config,
            final(self).next_position_id == old(self).next_position_id,
            final(self).last_cleanup_ms == old(self).last_cleanup_ms,
    {
        let k = match self.active_index(surface) {
            Some(k) => k,
            None => {
                return None;
            },
        };
        proof {
            lemma_label_at_only(self.slots@, k as int, surface@);
        }
        let nid = match &self.assigned[k] {
            Some(n) => n.clone(),
            None => {
                return None;
            },
        };
        assert(holds(self.assigned@[k as int], nid@));
        let i = match self.pending_index(&nid) {
            Some(i) => i,
            None => {
                return None;
            },
        };
        let ghost before = *self;
        let rec = self.pending.remove(i);
        self.assigned.set(k, None);
        self.history.push(rec.clone());
        proof {
            assert forall|a: int, id: Seq<char>|
                0 <= a < self.assigned@.len() && #[trigger] holds(self.assigned@[a], id) implies has_id(self.pending@, id) by {
                assert(a != k);
                assert(holds(before.assigned@[a], id));
                assert(id != nid@);
                let w = choose|w: int| 0 <= w < before.pending@.len() && (#[trigger] before.pending@[w]).id@ == id;
                assert(w != i);
                if w < i {
                    assert(self.pending@[w].id@ == id);
                } else {
                    assert(self.pending@[w - 1].id@ == id);
                }
            }
            assert forall|a: int, b: int, id: Seq<char>|
                0 <= a < self.assigned@.len() && 0 <= b < self.assigned@.len() && #[trigger] holds(self.assigned@[a], id)
                    && #[trigger] holds(self.assigned@[b], id) implies a == b by {
                assert(holds(before.assigned@[a], id));
                assert(holds(before.assigned@[b], id));
            }
            assert forall|a: int, b: int|
                0 <= a < self.pending@.len() && 0 <= b < self.pending@.len() && a != b implies
                    (#[trigger] self.pending@[a]).id@ != (#[trigger] self.pending@[b]).id@ by {
                let a0 = if a < i { a } else { a + 1 };
                let b0 = if b < i { b } else { b + 1 };
                assert(self.pending@[a] == before.pending@[a0]);
                assert(self.pending@[b] == before.pending@[b0]);
            }
            assert forall|a: int, b: int|
                0 <= a < self.pending@.len() && 0 <= b < self.history@.len() implies
                    (#[trigger] self.pending@[a]).id@ != (#[trigger] self.history@[b]).id@ by {
                let a0 = if a < i { a } else { a + 1 };
                assert(self.pending@[a] == before.pending@[a0]);
                if b < before.history@.len() {
                    assert(self.history@[b] == before.history@[b]);
                } else {
                    assert(self.history@[b] == before.pending@[i as int]);
                }
            }
        }
        Some(rec)
    }

    /// Moves the active surface `surface`, which must hold nothing, to the
    /// idle pool for later reuse.
    pub fn pool(&mut self, surface: &String) -> (r: Result<(), NotifyError>)
        requires
            old(self).wf(),
        ensures
            final(self).wf(),
            r == Err::<(), NotifyError>(NotifyError::NotFound) <==> !has_label(old(self).slots@, surface@),
            r == Err::<(), NotifyError>(NotifyError::StateConflict) <==> exists|k: int|
                0 <= k < old(self).slots@.len() && (#[trigger] old(self).slots@[k]).label@ == surface@
                    && old(self).assigned@[k] is Some,
            r is Err ==> *final(self) == *old(self),
            forall|k: int|
                0 <= k < old(self).slots@.len() && (#[trigger] old(self).slots@[k]).label@ == surface@
                    && old(self).assigned@[k] is None ==> {
                    &&& r is Ok
                    &&& final(self).slots@ == old(self).slots@.remove(k)
                    &&& final(self).assigned@ == old(self).assigned@.remove(k)
                    &&& final(self).idle@ == old(self).idle@.push(old(self).slots@[k])
                },
            final(self).pending == old(self).pending,
            final(self).history == old(self).history,
            final(self).config == old(self).config,
            final(self).next_position_id == old(self).next_position_id,
            final(self).last_cleanup_ms == old(self).last_cleanup_ms,
    {
        let k = match self.active_index(surface) {
            Some(k) => k,
            None => {
                return Err(NotifyError::NotFound);
            },
        };
        proof {
            lemma_label_at_only(self.slots@, k as int, surface@);
        }
        if self.assigned[k].is_some() {
            return Err(NotifyError::StateConflict);
        }
        let ghost before = *self;
        let slot = self.slots.remove(k);
        self.assigned.remove(k);
        self.idle.push(slot);
        proof {
            assert forall|a: int| 0 <= a < self.slots@.len() implies
                #[trigger] self.slots@[a] == before.slots@[if a < k { a } else { a + 1 }] by {}
            assert forall|a: int| 0 <= a < self.assigned@.len() implies
                #[trigger] self.assigned@[a] == before.assigned@[if a < k { a } else { a + 1 }] by {}
            assert forall|a: int, b: int| 0 <= a < b < self.slots@.len() implies
                (#[trigger] self.slots@[a]).id < (#[trigger] self.slots@[b]).id by {
                assert(self.slots@[a] == before.slots@[if a < k { a } else { a + 1 }]);
                assert(self.slots@[b] == before.slots@[if b < k { b } else { b + 1 }]);
            }
            assert forall|a: int, b: int|
                0 <= a < self.slots@.len() && 0 <= b < self.slots@.len() && a != b implies
                    (#[trigger] self.slots@[a]).label@ != (#[trigger] self.slots@[b]).label@ by {
                assert(self.slots@[a] == before.slots@[if a < k { a } else { a + 1 }]);
                assert(self.slots@[b] == before.slots@[if b < k { b } else { b + 1 }]);
            }
            assert forall|a: int, b: int|
                0 <= a < self.idle@.len() && 0 <= b < self.idle@.len() && a != b implies
                    (#[trigger] self.idle@[a]).label@ != (#[trigger] self.idle@[b]).label@ by {
                if a == before.idle@.len() {
                    assert(before.idle@[b].label@ != before.slots@[k as int].label@);
                } else if b == before.idle@.len() {
                    assert(before.idle@[a].label@ != before.slots@[k as int].label@);
                }
            }
            assert forall|a: int, b: int|
                0 <= a < self.slots@.len() && 0 <= b < self.idle@.len() implies
                    (#[trigger] self.slots@[a]).label@ != (#[trigger] self.idle@[b]).label@ by {
                let a0 = if a < k { a } else { a + 1 };
                assert(self.slots@[a] == before.slots@[a0]);
                if b == before.idle@.len() {
                    assert(a0 != k);
                    assert(before.slots@[a0].label@ != before.slots@[k as int].label@);
                } else {
                    assert(self.idle@[b] == before.idle@[b]);
                }
            }
            assert forall|a: int, id: Seq<char>|
                0 <= a < self.assigned@.len() && #[trigger] holds(self.assigned@[a], id) implies has_id(self.pending@, id) by {
                assert(holds(before.assigned@[if a < k { a } else { a + 1 }], id));
            }
            assert forall|a: int, b: int, id: Seq<char>|
                0 <= a < self.assigned@.len() && 0 <= b < self.assigned@.len() && #[trigger] holds(self.assigned@[a], id)
                    && #[trigger] holds(self.assigned@[b], id) implies a == b by {
                assert(holds(before.assigned@[if a < k { a } else { a + 1 }], id));
                assert(holds(before.assigned@[if b < k { b } else { b + 1 }], id));
            }
        }
        Ok(())
    }
}

/// `n` with its first-display time set to `t` unless it already has one.
pub open spec fn stamped(n: Notification, t: u64) -> Notification {
    if n.timestamp is Some {
        n
    } else {
        Notification { timestamp: Some(t), ..n }
    }
}

impl NotificationManager {
    /// Takes the most recently pooled idle surface back into use: it becomes
    /// active, holds nothing, keeps its measured height and goes to the next
    /// free slot. `None` where the pool is empty or creation-order ids are
    /// exhausted.
    pub fn reuse_one(&mut self, screen_width: u32) -> (r: Option<String>)
        requires
            old(self).wf(),
        ensures
            final(self).wf(),
            old(self).idle@.len() == 0 || old(self).next_position_id == usize::MAX ==> r is None && *final(self) == *old(self),
            old(self).idle@.len() > 0 && old(self).next_position_id < usize::MAX ==> {
                let s = old(self).idle@.last();
                let p = next_slot(old(self).slots@, screen_width, old(self).config.width, old(self).config.margin);
                &&& r == Some(s.label)
                &&& final(self).idle@ == old(self).idle@.drop_last()
                &&& final(self).slots@ == old(self).slots@.push(
                    NotificationPosition { id: old(self).next_position_id, label: s.label, x: p.0, y: p.1, height: s.height },
                )
                &&& final(self).assigned@ == old(self).assigned@.push(None)
                &&& final(self).next_position_id == old(self).next_position_id + 1
                &&& final(self).pending == old(self).pending
                &&& final(self).history == old(self).history
                &&& final(self).config == old(self).config
                &&& final(self).last_cleanup_ms == old(self).last_cleanup_ms
            },
    {
        if self.idle.len() == 0 || self.next_position_id == usize::MAX {
            return None;
        }
        let ghost before = *self;
        let (x, y) = next_position(&self.slots, screen_width, self.config.width, self.config.margin);
        let s = match self.idle.pop() {
            Some(s) => s,
            None => {
                return None;
            },
        };
        let label = s.label.clone();
        self.slots.push(NotificationPosition { id: self.next_position_id, label: s.label, x, y, height: s.height });
        self.assigned.push(None);
        self.next_position_id = self.next_position_id + 1;
        proof {
            let n = before.idle@.len() - 1;
            assert(s == before.idle@[n]);
            assert forall|a: int, b: int|
                0 <= a < self.slots@.len() && 0 <= b < self.slots@.len() && a != b implies
                    (#[trigger] self.slots@[a]).label@ != (#[trigger] self.slots@[b]).label@ by {
                if a == before.slots@.len() {
                    assert(before.slots@[b].label@ != before.idle@[n].label@);
                } else if b == before.slots@.len() {
                    assert(before.slots@[a].label@ != before.idle@[n].label@);
                }
            }
            assert forall|a: int, b: int|
                0 <= a < self.slots@.len() && 0 <= b < self.idle@.len() implies
                    (#[trigger] self.slots@[a]).label@ != (#[trigger] self.idle@[b]).label@ by {
                assert(self.idle@[b] == before.idle@[b]);
                if a == before.slots@.len() {
                    assert(before.idle@[b].label@ != before.idle@[n].label@);
                }
            }
            assert forall|a: int, b: int|
                0 <= a < self.idle@.len() && 0 <= b < self.idle@.len() && a != b implies
                    (#[trigger] self.idle@[a]).label@ != (#[trigger] self.idle@[b]).label@ by {
                assert(self.idle@[a] == before.idle@[a]);
                assert(self.idle@[b] == before.idle@[b]);
            }
            assert forall|a: int, id: Seq<char>|
                0 <= a < self.assigned@.len() && #[trigger] holds(self.assigned@[a], id) implies has_id(self.pending@, id) by {
                assert(holds(before.assigned@[a], id));
            }
            assert forall|a: int, b: int, id: Seq<char>|
                0 <= a < self.assigned@.len() && 0 <= b < self.assigned@.len() && #[trigger] holds(self.assigned@[a], id)
                    && #[trigger] holds(self.assigned@[b], id) implies a == b by {
                assert(holds(before.assigned@[a], id));
                assert(holds(before.assigned@[b], id));
            }
        }
        Some(label)
    }

    /// Drops the active surface `surface` from the manager altogether (its
    /// creation failed, or it was destroyed). What it held stays pending and
    /// becomes unassigned.
    pub fn discard_surface(&mut self, surface: &String) -> (r: Result<(), NotifyError>)
        requires
            old(self).wf(),
        ensures
            final(self).wf(),
            r is Err <==> !has_label(old(self).slots@, surface@),
            r is Err ==> r == Err::<(), NotifyError>(NotifyError::NotFound) && *final(self) == *old(self),
            forall|k: int|
                0 <= k < old(self).slots@.len() && (#[trigger] old(self).slots@[k]).label@ == surface@ ==> {
                    &&& final(self).slots@ == old(self).slots@.remove(k)
                    &&& final(self).assigned@ == old(self).assigned@.remove(k)
                },
            final(self).idle == old(self).idle,
            final(self).pending == old(self).pending,
            final(self).history == old(self).history,
            final(self).config == old(self).config,
            final(self).next_position_id == old(self).next_position_id,
            final(self).last_cleanup_ms == old(self).last_cleanup_ms,
    {
        let k = match self.active_index(surface) {
            Some(k) => k,
            None => {
                return Err(NotifyError::NotFound);
            },
        };
        proof {
            lemma_label_at_only(self.slots@, k as int, surface@);
        }
        let ghost before = *self;
        self.slots.remove(k);
        self.assigned.remove(k);
        proof {
            assert forall|a: int| 0 <= a < self.slots@.len() implies
                #[trigger] self.slots@[a] == before.slots@[if a < k { a } else { a + 1 }] by {}
            assert forall|a: int| 0 <= a < self.assigned@.len() implies
                #[trigger] self.assigned@[a] == before.assigned@[if a < k { a } else { a + 1 }] by {}
            assert forall|a: int, b: int| 0 <= a < b < self.slots@.len() implies
                (#[trigger] self.slots@[a]).id < (#[trigger] self.slots@[b]).id by {
                assert(self.slots@[a] == before.slots@[if a < k { a } else { a + 1 }]);
                assert(self.slots@[b] == before.slots@[if b < k { b } else { b + 1 }]);
            }
            assert forall|a: int, b: int|
                0 <= a < self.slots@.len() && 0 <= b < self.slots@.len() && a != b implies
                    (#[trigger] self.slots@[a]).label@ != (#[trigger] self.slots@[b]).label@ by {
                assert(self.slots@[a] == before.slots@[if a < k { a } else { a + 1 }]);
                assert(self.slots@[b] == before.slots@[if b < k { b } else { b + 1 }]);
            }
            assert forall|a: int, b: int|
                0 <= a < self.slots@.len() && 0 <= b < self.idle@.len() implies
                    (#[trigger] self.slots@[a]).label@ != (#[trigger] self.idle@[b]).label@ by {
                assert(self.slots@[a] == before.slots@[if a < k { a } else { a + 1 }]);
            }
            assert forall|a: int, id: Seq<char>|
                0 <= a < self.assigned@.len() && #[trigger] holds(self.assigned@[a], id) implies has_id(self.pending@, id) by {
                assert(holds(before.assigned@[if a < k { a } else { a + 1 }], id));
            }
            assert forall|a: int, b: int, id: Seq<char>|
                0 <= a < self.assigned@.len() && 0 <= b < self.assigned@.len() && #[trigger] holds(self.assigned@[a], id)
                    && #[trigger] holds(self.assigned@[b], id) implies a == b by {
                assert(holds(before.assigned@[if a < k { a } else { a + 1 }], id));
                assert(holds(before.assigned@[if b < k { b } else { b + 1 }], id));
            }
        }
        Ok(())
    }

    /// Records the content height that the active surface `surface` reported
    /// after it was created.
    pub fn set_measured_height(&mut self, surface: &String, height: u32) -> (r: Result<(), NotifyError>)
        requires
            old(self).wf(),
        ensures
            final(self).wf(),
            r is Err <==> !has_label(old(self).slots@, surface@),
            r is Err ==> r == Err::<(), NotifyError>(NotifyError::NotFound) && *final(self) == *old(self),
            forall|k: int|
                0 <= k < old(self).slots@.len() && (#[trigger] old(self).slots@[k]).label@ == surface@
                    ==> final(self).slots@ == old(self).slots@.update(k, NotificationPosition { height, ..old(self).slots@[k] }),
            final(self).assigned == old(self).assigned,
            final(self).idle == old(self).idle,
            final(self).pending == old(self).pending,
            final(self).history == old(self).history,
            final(self).config == old(self).config,
            final(self).next_position_id == old(self).next_position_id,
            final(self).last_cleanup_ms == old(self).last_cleanup_ms,
    {
        let k = match self.active_index(surface) {
            Some(k) => k,
            None => {
                return Err(NotifyError::NotFound);
            },
        };
        proof {
            lemma_label_at_only(self.slots@, k as int, surface@);
        }
        let ghost before = *self;
        let mut p = self.slots[k].clone();
        p.height = height;
        self.slots.set(k, p);
        proof {
            assert forall|a: int| 0 <= a < self.slots@.len() implies
                (#[trigger] self.slots@[a]).label == before.slots@[a].label && self.slots@[a].id == before.slots@[a].id by {}
        }
        Ok(())
    }

    /// Sets the first-display time of pending record `notification_id` to
    /// `now_secs`, unless it already has one.
    pub fn set_displayed_timestamp(&mut self, notification_id: &String, now_secs: u64) -> (r: Result<(), NotifyError>)
        requires
            old(self).wf(),
        ensures
            final(self).wf(),
            r is Err <==> !has_id(old(self).pending@, notification_id@),
            r is Err ==> r == Err::<(), NotifyError>(NotifyError::NotFound) && *final(self) == *old(self),
            forall|i: int|
                0 <= i < old(self).pending@.len() && (#[trigger] old(self).pending@[i]).id@ == notification_id@
                    ==> final(self).pending@ == old(self).pending@.update(i, stamped(old(self).pending@[i], now_secs)),
            final(self).slots == old(self).slots,
            final(self).assigned == old(self).assigned,
            final(self).idle == old(self).idle,
            final(self).history == old(self).history,
            final(self).config == old(self).config,
            final(self).next_position_id == old(self).next_position_id,
            final(self).last_cleanup_ms == old(self).last_cleanup_ms,
    {
        let i = match self.pending_index(notification_id) {
            Some(i) => i,
            None => {
                return Err(NotifyError::NotFound);
            },
        };
        proof {
            lemma_id_at_only(self.pending@, i as int, notification_id@);
        }
        let ghost before = *self;
        if self.pending[i].timestamp.is_none() {
            let mut rec = self.pending[i].clone();
            rec.timestamp = Some(now_secs);
            self.pending.set(i, rec);
        }
        proof {
            assert(self.pending@ == before.pending@.update(i as int, stamped(before.pending@[i as int], now_secs)));
            assert forall|a: int| 0 <= a < self.pending@.len() implies
                (#[trigger] self.pending@[a]).id == before.pending@[a].id by {}
            assert forall|a: int, id: Seq<char>|
                0 <= a < self.assigned@.len() && #[trigger] holds(self.assigned@[a], id) implies has_id(self.pending@, id) by {
                assert(holds(before.assigned@[a], id));
                let w = choose|w: int| 0 <= w < before.pending@.len() && (#[trigger] before.pending@[w]).id@ == id;
                assert(self.pending@[w].id@ == id);
            }
        }
        Ok(())
    }
}

/// Whether cleanup at `now_secs` drops pending record `n`: no surface holds
/// it, and it was first displayed more than `RETENTION_SECS` ago or, under
/// the `purge_undisplayed` policy, never displayed and enqueued more than
/// `RETENTION_SECS` ago.
pub open spec fn expired(n: Notification, assigned: Seq<Option<String>>, now_secs: u64, purge_undisplayed: bool) -> bool {
    &&& !is_assigned(assigned, n.id@)
    &&& match n.timestamp {
        Some(t) => now_secs as int - t as int > RETENTION_SECS as int,
        None => purge_undisplayed && now_secs as int - n.enqueued_at as int > RETENTION_SECS as int,
    }
}

/// The records of `s` that cleanup keeps, in their order.
pub open spec fn survivors(
    s: Seq<Notification>,
    assigned: Seq<Option<String>>,
    now_secs: u64,
    purge_undisplayed: bool,
) -> Seq<Notification>
    decreases s.len(),
{
    if s.len() == 0 {
        s
    } else {
        let kept = survivors(s.drop_last(), assigned, now_secs, purge_undisplayed);
        if expired(s.last(), assigned, now_secs, purge_undisplayed) {
            kept
        } else {
            kept.push(s.last())
        }
    }
}

/// `h` without its oldest records beyond the newest `max`.
pub open spec fn trimmed(h: Seq<Notification>, max: usize) -> Seq<Notification> {
    if h.len() > max {
        h.subrange(h.len() - max, h.len() as int)
    } else {
        h
    }
}

/// `n` as it enters the queue at `now_secs`: assigned to no surface and
/// never displayed.
pub open spec fn fresh(n: Notification, now_secs: u64) -> Notification {
    Notification { window_label: None, timestamp: None, enqueued_at: now_secs, ..n }
}

impl NotificationManager {
    /// Whether a cleanup pass is due at `now_ms`.
    pub open spec fn cleanup_due(&self, now_ms: u64) -> bool {
        now_ms as int >= self.last_cleanup_ms as int + self.config.cleanup_interval_ms as int
    }

    /// The pending list after the cleanup, if any, that an enqueue at
    /// `now_ms` runs first.
    pub open spec fn pending_after_cleanup(&self, now_ms: u64) -> Seq<Notification> {
        if self.cleanup_due(now_ms) {
            survivors(self.pending@, self.assigned@, now_ms / 1000, self.config.purge_undisplayed)
        } else {
            self.pending@
        }
    }

    /// The history after the cleanup, if any, that an enqueue at `now_ms`
    /// runs first.
    pub open spec fn history_after_cleanup(&self, now_ms: u64) -> Seq<Notification> {
        if self.cleanup_due(now_ms) {
            trimmed(self.history@, self.config.max_history_size)
        } else {
            self.history@
        }
    }

    /// Trims history to its newest `max_history_size` records and drops the
    /// expired pending records. Idle surfaces are held by value, so none of
    /// them can outlive its surface and there is nothing to prune there.
    pub fn cleanup(&mut self, now_ms: u64)
        requires
            old(self).wf(),
        ensures
            final(self).wf(),
            final(self).history@ == trimmed(old(self).history@, old(self).config.max_history_size),
            final(self).pending@ == survivors(
                old(self).pending@,
                old(self).assigned@,
                now_ms / 1000,
                old(self).config.purge_undisplayed,
            ),
            final(self).last_cleanup_ms == now_ms,
            final(self).slots == old(self).slots,
            final(self).assigned == old(self).assigned,
            final(self).idle == old(self).idle,
            final(self).config == old(self).config,
            final(self).next_position_id == old(self).next_position_id,
    {
        let ghost before = *self;
        let now_secs = now_ms / 1000;
        let purge = self.config.purge_undisplayed;
        let mut out: Vec<Notification> = Vec::new();
        let mut i: usize = 0;
        while i < self.pending.len()
            invariant
                *self == before,
                before.wf(),
                purge == before.config.purge_undisplayed,
                i <= self.pending@.len(),
                out@ == survivors(self.pending@.subrange(0, i as int), self.assigned@, now_secs, purge),
                ids_distinct(out@),
                forall|a: int| 0 <= a < out@.len() ==> exists|k: int| 0 <= k < i && #[trigger] out@[a] == self.pending@[k],
                forall|k: int|
                    0 <= k < i && !expired(#[trigger] self.pending@[k], self.assigned@, now_secs, purge) ==> has_id(out@, self.pending@[k].id@),
            decreases self.pending@.len() - i,
        {
            assert(self.pending@.subrange(0, i + 1).drop_last() == self.pending@.subrange(0, i as int));
            let n = &self.pending[i];
            let old_enough = match n.timestamp {
                Some(t) => now_secs > t && now_secs - t > RETENTION_SECS,
                None => purge && now_secs > n.enqueued_at && now_secs - n.enqueued_at > RETENTION_SECS,
            };
            let drop = old_enough && self.holder_index(&n.id).is_none();
            assert(drop == expired(self.pending@[i as int], self.assigned@, now_secs, purge));
            if !drop {
                let ghost old_out = out@;
                out.push(n.clone());
                proof {
                    assert forall|a: int| 0 <= a < old_out.len() implies (#[trigger] out@[a]).id@ != self.pending@[i as int].id@ by {
                        let k = choose|k: int| 0 <= k < i && #[trigger] old_out[a] == self.pending@[k];
                        assert(self.pending@[k].id@ != self.pending@[i as int].id@);
                    }
                    assert forall|a: int| 0 <= a < out@.len() implies exists|k: int| 0 <= k < i + 1 && #[trigger] out@[a] == self.pending@[k] by {
                        if a < old_out.len() {
                            let k = choose|k: int| 0 <= k < i && #[trigger] old_out[a] == self.pending@[k];
                            assert(out@[a] == self.pending@[k]);
                        } else {
                            assert(out@[a] == self.pending@[i as int]);
                        }
                    }
                    assert forall|k: int|
                        0 <= k < i + 1 && !expired(#[trigger] self.pending@[k], self.assigned@, now_secs, purge) implies has_id(out@, self.pending@[k].id@) by {
                        if k < i {
                            let w = choose|w: int| 0 <= w < old_out.len() && (#[trigger] old_out[w]).id@ == self.pending@[k].id@;
                            assert(out@[w] == old_out[w]);
                        } else {
                            assert(out@[old_out.len() as int] == self.pending@[k]);
                        }
                    }
                }
            } else {
                proof {
                    assert forall|a: int| 0 <= a < out@.len() implies exists|k: int| 0 <= k < i + 1 && #[trigger] out@[a] == self.pending@[k] by {
                        let k = choose|k: int| 0 <= k < i && #[trigger] out@[a] == self.pending@[k];
                    }
                }
            }
            i = i + 1;
        }
        assert(self.pending@.subrange(0, self.pending@.len() as int) == self.pending@);
        let max = self.config.max_history_size;
        if self.history.len() > max {
            let at = self.history.len() - max;
            self.history = self.history.split_off(at);
        }
        self.pending = out;
        self.last_cleanup_ms = now_ms;
        proof {
            assert forall|a: int, id: Seq<char>|
                0 <= a < self.assigned@.len() && #[trigger] holds(self.assigned@[a], id) implies has_id(self.pending@, id) by {
                let w = choose|w: int| 0 <= w < before.pending@.len() && (#[trigger] before.pending@[w]).id@ == id;
                assert(is_assigned(self.assigned@, before.pending@[w].id@));
                assert(!expired(before.pending@[w], before.assigned@, now_secs, purge));
            }
            assert forall|a: int, b: int|
                0 <= a < self.pending@.len() && 0 <= b < self.history@.len() implies
                    (#[trigger] self.pending@[a]).id@ != (#[trigger] self.history@[b]).id@ by {
                let k = choose|k: int| 0 <= k < before.pending@.len() && #[trigger] self.pending@[a] == before.pending@[k];
                if before.history@.len() > max {
                    assert(self.history@[b] == before.history@[b + (before.history@.len() - max)]);
                } else {
                    assert(self.history@[b] == before.history@[b]);
                }
            }
        }
    }

    /// Appends `record` to the pending list, assigned to no surface, never
    /// displayed and enqueued at `now_ms`, after a cleanup pass if one is due. Refused with
    /// `StateConflict` where a pending or archived record has the same id.
    pub fn enqueue(&mut self, record: Notification, now_ms: u64) -> (r: Result<(), NotifyError>)
        requires
            old(self).wf(),
        ensures
            final(self).wf(),
            final(self).history@ == old(self).history_after_cleanup(now_ms),
            final(self).last_cleanup_ms == (if old(self).cleanup_due(now_ms) { now_ms } else { old(self).last_cleanup_ms }),
            r is Err <==> has_id(old(self).pending_after_cleanup(now_ms), record.id@) || has_id(
                old(self).history_after_cleanup(now_ms),
                record.id@,
            ),
            r is Err ==> r == Err::<(), NotifyError>(NotifyError::StateConflict) && final(self).pending@ == old(self).pending_after_cleanup(now_ms),
            r is Ok ==> final(self).pending@ == old(self).pending_after_cleanup(now_ms).push(fresh(record, (now_ms / 1000) as u64)),
            final(self).slots == old(self).slots,
            final(self).assigned == old(self).assigned,
            final(self).idle == old(self).idle,
            final(self).config == old(self).config,
            final(self).next_position_id == old(self).next_position_id,
    {
        if now_ms >= self.last_cleanup_ms && now_ms - self.last_cleanup_ms >= self.config.cleanup_interval_ms {
            self.cleanup(now_ms);
        }
        if self.pending_index(&record.id).is_some() || self.in_history(&record.id) {
            return Err(NotifyError::StateConflict);
        }
        let ghost before = *self;
        let rec = Notification { window_label: None, timestamp: None, enqueued_at: now_ms / 1000, ..record };
        self.pending.push(rec);
        proof {
            assert forall|a: int, id: Seq<char>|
                0 <= a < self.assigned@.len() && #[trigger] holds(self.assigned@[a], id) implies has_id(self.pending@, id) by {
                let w = choose|w: int| 0 <= w < before.pending@.len() && (#[trigger] before.pending@[w]).id@ == id;
                assert(self.pending@[w] == before.pending@[w]);
            }
            assert forall|a: int, b: int|
                0 <= a < self.pending@.len() && 0 <= b < self.pending@.len() && a != b implies
                    (#[trigger] self.pending@[a]).id@ != (#[trigger] self.pending@[b]).id@ by {
                if a == before.pending@.len() {
                    assert(self.pending@[b] == before.pending@[b]);
                } else if b == before.pending@.len() {
                    assert(self.pending@[a] == before.pending@[a]);
                }
            }
        }
        Ok(())
    }
}

/// The pool's counts and the labels of its idle surfaces.
#[derive(Debug)]
pub struct PoolStatus {
    pub pooled_count: usize,
    pub total_count: usize,
    pub max_windows: usize,
    pub pooled_ids: Vec<String>,
}

impl NotificationManager {
    /// Creates a record with a fresh random id, the given title and message,
    /// a duration of `duration` seconds (5 when absent) and type tag `kind`
    /// (empty when absent), and enqueues it at `now_ms`. Returns the id.
    pub fn create(
        &mut self,
        title: String,
        message: String,
        duration: Option<u64>,
        kind: Option<String>,
        now_ms: u64,
    ) -> (r: Result<String, NotifyError>)
        requires
            old(self).wf(),
        ensures
            final(self).wf(),
            final(self).history@ == old(self).history_after_cleanup(now_ms),
            r matches Ok(id) ==> {
                let n = final(self).pending@.last();
                &&& id@.len() == 36
                &&& final(self).pending@ == old(self).pending_after_cleanup(now_ms).push(n)
                &&& n.id == id
                &&& n.title == title
                &&& n.message == message
                &&& n.duration == (match duration {
                    Some(d) => d,
                    None => 5,
                })
                &&& n.kind@ == (match kind {
                    Some(k) => k@,
                    None => Seq::<char>::empty(),
                })
                &&& n.window_label is None
                &&& n.timestamp is None
                &&& n.enqueued_at == now_ms / 1000
            },
            r is Err ==> r == Err::<String, NotifyError>(NotifyError::StateConflict) && final(self).pending@ == old(self).pending_after_cleanup(now_ms),
            r is Err ==> exists|id: Seq<char>|
                id.len() == 36 && (has_id(old(self).pending_after_cleanup(now_ms), id) || has_id(
                    old(self).history_after_cleanup(now_ms),
                    id,
                )),
            (forall|id: Seq<char>|
                id.len() == 36 ==> !has_id(old(self).pending_after_cleanup(now_ms), id) && !has_id(
                    old(self).history_after_cleanup(now_ms),
                    id,
                )) ==> r is Ok,
            final(self).last_cleanup_ms == (if old(self).cleanup_due(now_ms) { now_ms } else { old(self).last_cleanup_ms }),
            final(self).slots == old(self).slots,
            final(self).assigned == old(self).assigned,
            final(self).idle == old(self).idle,
            final(self).config == old(self).config,
            final(self).next_position_id == old(self).next_position_id,
    {
        let id = random_id();
        let duration = match duration {
            Some(d) => d,
            None => 5,
        };
        let kind = match kind {
            Some(k) => k,
            None => String::new(),
        };
        let record = Notification::new(id.clone(), title, message, duration, kind);
        let ghost drawn = id@;
        match self.enqueue(record, now_ms) {
            Ok(()) => Ok(id),
            Err(e) => {
                assert(drawn.len() == 36);
                Err(e)
            },
        }
    }
}

impl NotificationManager {
    /// Where the next surface goes on a screen `screen_width` wide: the
    /// top-right anchor when no surface is active, else one margin below the
    /// lowest active surface.
    pub fn get_next_position(&self, screen_width: u32) -> (r: (u32, u32))
        ensures
            r == next_slot(self.slots@, screen_width, self.config.width, self.config.margin),
    {
        next_position(&self.slots, screen_width, self.config.width, self.config.margin)
    }

    /// Restacks the active surfaces from the top margin down in creation
    /// order, each at its measured height, and lists the moves to make.
    pub fn reposition_notifications(&mut self) -> (moves: Vec<SurfaceMove>)
        requires
            old(self).wf(),
        ensures
            final(self).wf(),
            final(self).slots@ == restacked(old(self).slots@, old(self).config.margin),
            move_views(moves@) == restack_moves(old(self).slots@, old(self).config.margin),
            final(self).assigned == old(self).assigned,
            final(self).idle == old(self).idle,
            final(self).pending == old(self).pending,
            final(self).history == old(self).history,
            final(self).config == old(self).config,
            final(self).next_position_id == old(self).next_position_id,
            final(self).last_cleanup_ms == old(self).last_cleanup_ms,
    {
        let margin = self.config.margin;
        reflow(&mut self.slots, margin)
    }

    /// The record that the active surface `surface` holds.
    pub fn get_notification(&self, surface: &String) -> (r: Option<&Notification>)
        requires
            self.wf(),
        ensures
            r is Some <==> exists|k: int|
                0 <= k < self.slots@.len() && (#[trigger] self.slots@[k]).label@ == surface@ && self.assigned@[k] is Some,
            r matches Some(n) ==> exists|k: int|
                0 <= k < self.slots@.len() && (#[trigger] self.slots@[k]).label@ == surface@ && holds(self.assigned@[k], n.id@)
                    && exists|i: int| 0 <= i < self.pending@.len() && #[trigger] self.pending@[i] == *n,
    {
        let k = match self.active_index(surface) {
            Some(k) => k,
            None => {
                return None;
            },
        };
        proof {
            lemma_label_at_only(self.slots@, k as int, surface@);
        }
        match &self.assigned[k] {
            Some(nid) => {
                assert(holds(self.assigned@[k as int], nid@));
                match self.pending_index(nid) {
                    Some(i) => Some(&self.pending[i]),
                    None => None,
                }
            },
            None => None,
        }
    }

    /// The archived records, oldest first.
    pub fn history(&self) -> (r: &Vec<Notification>)
        ensures
            r@ == self.history@,
    {
        &self.history
    }

    /// How many surfaces are pooled, how many exist, the cap, and the pooled
    /// surfaces' labels in pool order.
    pub fn pool_status(&self) -> (r: PoolStatus)
        requires
            self.wf(),
        ensures
            r.pooled_count == self.idle@.len(),
            r.total_count == self.slots@.len() + self.idle@.len(),
            r.max_windows == self.config.max_windows,
            r.pooled_ids@.len() == self.idle@.len(),
            forall|k: int| 0 <= k < self.idle@.len() ==> #[trigger] r.pooled_ids@[k] == self.idle@[k].label,
    {
        let mut ids: Vec<String> = Vec::new();
        let mut k: usize = 0;
        while k < self.idle.len()
            invariant
                k <= self.idle@.len(),
                ids@.len() == k,
                forall|j: int| 0 <= j < k ==> #[trigger] ids@[j] == self.idle@[j].label,
            decreases self.idle@.len() - k,
        {
            ids.push(self.idle[k].label.clone());
            k = k + 1;
        }
        PoolStatus {
            pooled_count: self.idle.len(),
            total_count: self.slots.len() + self.idle.len(),
            max_windows: self.config.max_windows,
            pooled_ids: ids,
        }
    }
}

/// Whether `l` is one of the labels in `live`.
pub open spec fn label_listed(live: Seq<String>, l: Seq<char>) -> bool {
    exists|j: int| 0 <= j < live.len() && (#[trigger] live[j])@ == l
}

/// The idle surfaces of `idle` whose label is in `live`, in their order.
pub open spec fn live_idle(idle: Seq<NotificationPosition>, live: Seq<String>) -> Seq<NotificationPosition>
    decreases idle.len(),
{
    if idle.len() == 0 {
        idle
    } else {
        let kept = live_idle(idle.drop_last(), live);
        if label_listed(live, idle.last().label@) {
            kept.push(idle.last())
        } else {
            kept
        }
    }
}

/// Whether `l` is one of the labels in `live`.
fn listed(live: &Vec<String>, l: &String) -> (r: bool)
    ensures
        r == label_listed(live@, l@),
{
    let mut j: usize = 0;
    while j < live.len()
        invariant
            j <= live@.len(),
            forall|k: int| 0 <= k < j ==> (#[trigger] live@[k])@ != l@,
        decreases live@.len() - j,
    {
        if live[j] == *l {
            return true;
        }
        j = j + 1;
    }
    false
}

impl NotificationManager {
    /// Forgets the idle surfaces that the window system no longer has:
    /// keeps those whose label is in `live`, in their order.
    pub fn prune_idle(&mut self, live: &Vec<String>)
        requires
            old(self).wf(),
        ensures
            final(self).wf(),
            final(self).idle@ == live_idle(old(self).idle@, live@),
            final(self).slots == old(self).slots,
            final(self).assigned == old(self).assigned,
            final(self).pending == old(self).pending,
            final(self).history == old(self).history,
            final(self).config == old(self).config,
            final(self).next_position_id == old(self).next_position_id,
            final(self).last_cleanup_ms == old(self).last_cleanup_ms,
    {
        let ghost before = *self;
        let mut out: Vec<NotificationPosition> = Vec::new();
        let mut i: usize = 0;
        while i < self.idle.len()
            invariant
                *self == before,
                before.wf(),
                i <= self.idle@.len(),
                out@.len() <= i,
                out@ == live_idle(self.idle@.subrange(0, i as int), live@),
                labels_distinct(out@),
                forall|a: int| 0 <= a < out@.len() ==> exists|k: int| 0 <= k < i && #[trigger] out@[a] == self.idle@[k],
            decreases self.idle@.len() - i,
        {
            assert(self.idle@.subrange(0, i + 1).drop_last() == self.idle@.subrange(0, i as int));
            let keep = listed(live, &self.idle[i].label);
            if keep {
                let ghost old_out = out@;
                out.push(self.idle[i].clone());
                proof {
                    assert forall|a: int| 0 <= a < old_out.len() implies (#[trigger] out@[a]).label@ != self.idle@[i as int].label@ by {
                        let k = choose|k: int| 0 <= k < i && #[trigger] old_out[a] == self.idle@[k];
                        assert(self.idle@[k].label@ != self.idle@[i as int].label@);
                    }
                    assert forall|a: int| 0 <= a < out@.len() implies exists|k: int| 0 <= k < i + 1 && #[trigger] out@[a] == self.idle@[k] by {
                        if a < old_out.len() {
                            let k = choose|k: int| 0 <= k < i && #[trigger] old_out[a] == self.idle@[k];
                            assert(out@[a] == self.idle@[k]);
                        } else {
                            assert(out@[a] == self.idle@[i as int]);
                        }
                    }
                }
            } else {
                proof {
                    assert forall|a: int| 0 <= a < out@.len() implies exists|k: int| 0 <= k < i + 1 && #[trigger] out@[a] == self.idle@[k] by {
                        let k = choose|k: int| 0 <= k < i && #[trigger] out@[a] == self.idle@[k];
                    }
                }
            }
            i = i + 1;
        }
        assert(self.idle@.subrange(0, self.idle@.len() as int) == self.idle@);
        self.idle = out;
        proof {
            assert forall|a: int, b: int|
                0 <= a < self.slots@.len() && 0 <= b < self.idle@.len() implies
                    (#[trigger] self.slots@[a]).label@ != (#[trigger] self.idle@[b]).label@ by {
                let k = choose|k: int| 0 <= k < before.idle@.len() && #[trigger] self.idle@[b] == before.idle@[k];
                assert(before.slots@[a].label@ != before.idle@[k].label@);
            }
        }
    }
}

impl NotificationManager {
    /// Undoes the reuse of a pooled surface that could not be shown: the
    /// active surface `surface` gives up what it holds, which stays pending
    /// and unassigned, and goes back to the end of the idle pool.
    pub fn return_to_pool(&mut self, surface: &String) -> (r: Result<(), NotifyError>)
        requires
            old(self).wf(),
        ensures
            final(self).wf(),
            r is Err <==> !has_label(old(self).slots@, surface@),
            r is Err ==> r == Err::<(), NotifyError>(NotifyError::NotFound) && *final(self) == *old(self),
            forall|k: int|
                0 <= k < old(self).slots@.len() && (#[trigger] old(self).slots@[k]).label@ == surface@ ==> {
                    &&& final(self).slots@ == old(self).slots@.remove(k)
                    &&& final(self).assigned@ == old(self).assigned@.remove(k)
                    &&& final(self).idle@ == old(self).idle@.push(old(self).slots@[k])
                },
            final(self).pending == old(self).pending,
            final(self).history == old(self).history,
            final(self).config == old(self).config,
            final(self).next_position_id == old(self).next_position_id,
            final(self).last_cleanup_ms == old(self).last_cleanup_ms,
    {
        let k = match self.active_index(surface) {
            Some(k) => k,
            None => {
                return Err(NotifyError::NotFound);
            },
        };
        proof {
            lemma_label_at_only(self.slots@, k as int, surface@);
        }
        let ghost before = *self;
        self.assigned.set(k, None);
        proof {
            assert forall|a: int, id: Seq<char>|
                0 <= a < self.assigned@.len() && #[trigger] holds(self.assigned@[a], id) implies has_id(self.pending@, id) by {
                assert(holds(before.assigned@[a], id));
            }
            assert forall|a: int, b: int, id: Seq<char>|
                0 <= a < self.assigned@.len() && 0 <= b < self.assigned@.len() && #[trigger] holds(self.assigned@[a], id)
                    && #[trigger] holds(self.assigned@[b], id) implies a == b by {
                assert(holds(before.assigned@[a], id));
                assert(holds(before.assigned@[b], id));
            }
            assert(self.slots@[k as int].label@ == surface@);
        }
        let res = self.pool(surface);
        proof {
            assert(res is Ok);
            assert(before.assigned@.update(k as int, None).remove(k as int) =~= before.assigned@.remove(k as int));
        }
        Ok(())
    }

    /// Undoes the pooling of a surface that could not be hidden: the idle
    /// surface `surface` becomes active again, holding nothing, last in
    /// creation order and at the place it had. `NotFound` where it is not
    /// idle; `CapacityExceeded` where creation-order ids are exhausted.
    pub fn unpool(&mut self, surface: &String) -> (r: Result<(), NotifyError>)
        requires
            old(self).wf(),
        ensures
            final(self).wf(),
            !has_label(old(self).idle@, surface@) <==> r == Err::<(), NotifyError>(NotifyError::NotFound),
            has_label(old(self).idle@, surface@) && old(self).next_position_id == usize::MAX
                <==> r == Err::<(), NotifyError>(NotifyError::CapacityExceeded),
            r is Err ==> *final(self) == *old(self),
            forall|k: int|
                0 <= k < old(self).idle@.len() && (#[trigger] old(self).idle@[k]).label@ == surface@
                    && old(self).next_position_id < usize::MAX ==> {
                    &&& r is Ok
                    &&& final(self).idle@ == old(self).idle@.remove(k)
                    &&& final(self).slots@ == old(self).slots@.push(
                        NotificationPosition { id: old(self).next_position_id, ..old(self).idle@[k] },
                    )
                    &&& final(self).assigned@ == old(self).assigned@.push(None)
                    &&& final(self).next_position_id == old(self).next_position_id + 1
                },
            final(self).pending == old(self).pending,
            final(self).history == old(self).history,
            final(self).config == old(self).config,
            final(self).last_cleanup_ms == old(self).last_cleanup_ms,
    {
        let k = match self.idle_index(surface) {
            Some(k) => k,
            None => {
                return Err(NotifyError::NotFound);
            },
        };
        proof {
            lemma_label_at_only(self.idle@, k as int, surface@);
        }
        if self.next_position_id == usize::MAX {
            return Err(NotifyError::CapacityExceeded);
        }
        let ghost before = *self;
        let mut s = self.idle.remove(k);
        s.id = self.next_position_id;
        self.slots.push(s);
        self.assigned.push(None);
        self.next_position_id = self.next_position_id + 1;
        proof {
            let n = before.slots@.len() as int;
            assert forall|a: int| 0 <= a < self.idle@.len() implies
                #[trigger] self.idle@[a] == before.idle@[if a < k { a } else { a + 1 }] by {}
            assert forall|a: int, b: int|
                0 <= a < self.slots@.len() && 0 <= b < self.slots@.len() && a != b implies
                    (#[trigger] self.slots@[a]).label@ != (#[trigger] self.slots@[b]).label@ by {
                if a == n {
                    assert(before.slots@[b].label@ != before.idle@[k as int].label@);
                } else if b == n {
                    assert(before.slots@[a].label@ != before.idle@[k as int].label@);
                }
            }
            assert forall|a: int, b: int|
                0 <= a < self.idle@.len() && 0 <= b < self.idle@.len() && a != b implies
                    (#[trigger] self.idle@[a]).label@ != (#[trigger] self.idle@[b]).label@ by {
                assert(self.idle@[a] == before.idle@[if a < k { a } else { a + 1 }]);
                assert(self.idle@[b] == before.idle@[if b < k { b } else { b + 1 }]);
            }
            assert forall|a: int, b: int|
                0 <= a < self.slots@.len() && 0 <= b < self.idle@.len() implies
                    (#[trigger] self.slots@[a]).label@ != (#[trigger] self.idle@[b]).label@ by {
                let b0 = if b < k { b } else { b + 1 };
                assert(self.idle@[b] == before.idle@[b0]);
                if a == n {
                    assert(before.idle@[b0].label@ != before.idle@[k as int].label@);
                }
            }
            assert forall|a: int, id: Seq<char>|
                0 <= a < self.assigned@.len() && #[trigger] holds(self.assigned@[a], id) implies has_id(self.pending@, id) by {
                assert(holds(before.assigned@[a], id));
            }
            assert forall|a: int, b: int, id: Seq<char>|
                0 <= a < self.assigned@.len() && 0 <= b < self.assigned@.len() && #[trigger] holds(self.assigned@[a], id)
                    && #[trigger] holds(self.assigned@[b], id) implies a == b by {
                assert(holds(before.assigned@[a], id));
                assert(holds(before.assigned@[b], id));
            }
        }
        Ok(())
    }
}

} // verus!
