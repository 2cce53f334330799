//! Properties that hold of every state the manager can reach. Every state is
//! built by `with_config` or `new`, which establish `wf`, and changed only by
//! methods that require and preserve it; so a property of every `wf` state
//! holds of every reachable one.
use vstd::prelude::*;

use crate::manager::{has_id, holds, ids_distinct, stamped, NotificationManager};
use crate::notification::Notification;
use crate::orchestrator::{index_of, retired_history, retired_pending};

verus! {

/// Active and idle surfaces together never exceed the cap.
pub proof fn surfaces_within_cap(m: &NotificationManager)
    requires
        m.wf(),
    ensures
        m.slots@.len() + m.idle@.len() <= m.config.max_windows,
{
}

/// No notification id is held by two surfaces.
pub proof fn assignments_unique(m: &NotificationManager)
    requires
        m.wf(),
    ensures
        forall|a: int, b: int|
            0 <= a < m.assigned@.len() && 0 <= b < m.assigned@.len() && a != b && (#[trigger] m.assigned@[a]) is Some && (
            #[trigger] m.assigned@[b]) is Some ==> m.assigned@[a]->0@ != m.assigned@[b]->0@,
{
    assert forall|a: int, b: int|
        0 <= a < m.assigned@.len() && 0 <= b < m.assigned@.len() && a != b && (#[trigger] m.assigned@[a]) is Some && (
        #[trigger] m.assigned@[b]) is Some implies m.assigned@[a]->0@ != m.assigned@[b]->0@ by {
        let id = m.assigned@[a]->0@;
        if m.assigned@[b]->0@ == id {
            assert(holds(m.assigned@[a], id) && holds(m.assigned@[b], id));
        }
    }
}

/// Delivering a record a second time keeps the display time of the first
/// delivery: `surface_ready` stamps with `stamped`, which sets the time once.
pub proof fn second_delivery_keeps_timestamp(n: Notification, first: u64, second: u64)
    ensures
        stamped(stamped(n, first), second) == stamped(n, first),
        stamped(n, first).timestamp is Some,
        n.timestamp is Some ==> stamped(n, first).timestamp == n.timestamp,
{
}

/// Archiving what surface `k` holds, as `close` does, leaves that record in
/// the new history exactly once and nowhere in the new pending list.
pub proof fn close_archives_once(m: &NotificationManager, k: int)
    requires
        m.wf(),
        0 <= k < m.assigned@.len(),
        m.assigned@[k] is Some,
    ensures
        ({
            let id = m.assigned@[k]->0@;
            let h = retired_history(m.pending@, m.history@, m.assigned@[k]);
            let p = retired_pending(m.pending@, m.assigned@[k]);
            &&& h.last() == m.pending@[index_of(m.pending@, id)]
            &&& h.last().id@ == id
            &&& forall|j: int| 0 <= j < h.len() && (#[trigger] h[j]).id@ == id ==> j == h.len() - 1
            &&& !has_id(p, id)
        }),
{
    let id = m.assigned@[k]->0@;
    assert(holds(m.assigned@[k], id));
    assert(has_id(m.pending@, id));
    let i = index_of(m.pending@, id);
    let h = retired_history(m.pending@, m.history@, m.assigned@[k]);
    let p = retired_pending(m.pending@, m.assigned@[k]);
    assert forall|j: int| 0 <= j < h.len() && (#[trigger] h[j]).id@ == id implies j == h.len() - 1 by {
        if j < m.history@.len() {
            assert(m.history@[j].id@ != m.pending@[i].id@);
        }
    }
    assert forall|j: int| 0 <= j < p.len() implies (#[trigger] p[j]).id@ != id by {
        let j0 = if j < i { j } else { j + 1 };
        assert(p[j] == m.pending@[j0]);
        assert(m.pending@[j0].id@ != m.pending@[i].id@);
    }
}

/// History never holds two records with the same id.
pub proof fn history_holds_each_id_once(m: &NotificationManager)
    requires
        m.wf(),
    ensures
        ids_distinct(m.history@),
{
}

/// An archived record is never pending again while history holds it: the
/// pending list does not hold its id, and `enqueue` refuses that id. Once
/// trimming has dropped it from the bounded history, the id is forgotten.
pub proof fn archived_never_pending(m: &NotificationManager, id: Seq<char>)
    requires
        m.wf(),
        has_id(m.history@, id),
    ensures
        !has_id(m.pending@, id),
{
    let b = choose|b: int| 0 <= b < m.history@.len() && (#[trigger] m.history@[b]).id@ == id;
    assert forall|a: int| 0 <= a < m.pending@.len() implies (#[trigger] m.pending@[a]).id@ != id by {
        assert(m.pending@[a].id@ != m.history@[b].id@);
    }
}

} // verus!
