//! Stacking layout: where the next surface goes, and where the visible
//! surfaces move after one leaves.
use vstd::prelude::*;

verus! {

/// Clamps a mathematical integer into the `u32` range from above.
pub open spec fn clamp_u32(v: int) -> u32 {
    if v > u32::MAX as int {
        u32::MAX
    } else if v < 0 {
        0
    } else {
        v as u32
    }
}

/// Where one visible surface stands and how tall it is.
#[derive(Debug)]
pub struct NotificationPosition {
    /// Creation-order id: larger means created later.
    pub id: usize,
    /// The surface this position belongs to.
    pub label: String,
    pub x: u32,
    pub y: u32,
    /// Measured content height of the surface.
    pub height: u32,
}

impl Clone for NotificationPosition {
    fn clone(&self) -> (r: Self)
        ensures
            r == *self,
    {
        NotificationPosition {
            id: self.id,
            label: self.label.clone(),
            x: self.x,
            y: self.y,
            height: self.height,
        }
    }
}

/// Where a surface has to be moved to.
#[derive(Debug)]
pub struct SurfaceMove {
    pub label: String,
    pub x: u32,
    pub y: u32,
}

/// The edge just below a slot, one margin further down.
pub open spec fn slot_bottom(p: NotificationPosition, margin: u32) -> int {
    p.y as int + p.height as int + margin as int
}

/// The largest `slot_bottom` over `slots` (0 for no slots).
pub open spec fn lowest_bottom(slots: Seq<NotificationPosition>, margin: u32) -> int
    decreases slots.len(),
{
    if slots.len() == 0 {
        0
    } else {
        let rest = lowest_bottom(slots.drop_last(), margin);
        let b = slot_bottom(slots.last(), margin);
        if b > rest {
            b
        } else {
            rest
        }
    }
}

/// The x coordinate of the top-right anchor.
pub open spec fn anchor_x(screen_width: u32, width: u32, margin: u32) -> u32 {
    clamp_u32(screen_width as int - width as int - margin as int)
}

/// The slot after the ones in `slots`: the top-right anchor when there are
/// none, else one margin below the lowest bottom edge.
pub open spec fn next_slot(
    slots: Seq<NotificationPosition>,
    screen_width: u32,
    width: u32,
    margin: u32,
) -> (u32, u32) {
    if slots.len() == 0 {
        (anchor_x(screen_width, width, margin), margin)
    } else {
        (anchor_x(screen_width, width, margin), clamp_u32(lowest_bottom(slots, margin)))
    }
}

/// The y of the `k`-th slot when the slots are stacked from the top margin
/// down, each one margin below the previous one.
pub open spec fn stacked_y(slots: Seq<NotificationPosition>, margin: u32, k: int) -> u32
    decreases k,
{
    if k <= 0 {
        margin
    } else {
        let prev = stacked_y(slots, margin, k - 1);
        clamp_u32(prev as int + slots[k - 1].height as int + margin as int)
    }
}

/// `slots` stacked from the top margin down, in their order.
pub open spec fn restacked(slots: Seq<NotificationPosition>, margin: u32) -> Seq<NotificationPosition> {
    Seq::new(slots.len(), |k: int| NotificationPosition { y: stacked_y(slots, margin, k), ..slots[k] })
}

/// The moves that take each of `slots` to its place in `restacked`.
pub open spec fn restack_moves(slots: Seq<NotificationPosition>, margin: u32) -> Seq<(Seq<char>, u32, u32)> {
    Seq::new(slots.len(), |k: int| (slots[k].label@, slots[k].x, stacked_y(slots, margin, k)))
}

/// The label and target of a move, as a plain triple.
pub open spec fn move_view(m: SurfaceMove) -> (Seq<char>, u32, u32) {
    (m.label@, m.x, m.y)
}

/// The moves of `ms` as plain triples.
pub open spec fn move_views(ms: Seq<SurfaceMove>) -> Seq<(Seq<char>, u32, u32)> {
    Seq::new(ms.len(), |k: int| move_view(ms[k]))
}

/// Computes `next_slot` over `slots`: the anchor `(screen_width - width - margin,
/// margin)` when empty, else the anchor's x and the lowest bottom edge.
pub fn next_position(slots: &Vec<NotificationPosition>, screen_width: u32, width: u32, margin: u32) -> (r: (u32, u32))
    ensures
        r == next_slot(slots@, screen_width, width, margin),
{
    let x = screen_width.saturating_sub(width).saturating_sub(margin);
    if slots.len() == 0 {
        return (x, margin);
    }
    let mut lowest: u64 = 0;
    let mut i: usize = 0;
    while i < slots.len()
        invariant
            i <= slots.len(),
            lowest as int == lowest_bottom(slots@.subrange(0, i as int), margin),
        decreases slots.len() - i,
    {
        assert(slots@.subrange(0, i + 1).drop_last() == slots@.subrange(0, i as int));
        let p = &slots[i];
        let b: u64 = p.y as u64 + p.height as u64 + margin as u64;
        if b > lowest {
            lowest = b;
        }
        i = i + 1;
    }
    assert(slots@.subrange(0, slots.len() as int) == slots@);
    let y = if lowest > u32::MAX as u64 {
        u32::MAX
    } else {
        lowest as u32
    };
    (x, y)
}

/// Restacks `slots` from the top margin down, in the order given, and lists
/// the moves that put each surface at its new place.
pub fn reflow(slots: &mut Vec<NotificationPosition>, margin: u32) -> (moves: Vec<SurfaceMove>)
    ensures
        final(slots)@ == restacked(old(slots)@, margin),
        move_views(moves@) == restack_moves(old(slots)@, margin),
{
    let ghost before = slots@;
    let mut moves: Vec<SurfaceMove> = Vec::new();
    let mut y: u32 = margin;
    let mut i: usize = 0;
    while i < slots.len()
        invariant
            i <= slots@.len(),
            slots@.len() == before.len(),
            moves@.len() == i,
            y == stacked_y(before, margin, i as int),
            forall|k: int| i <= k < before.len() ==> #[trigger] slots@[k] == before[k],
            forall|k: int|
                0 <= k < i ==> {
                    let p = #[trigger] slots@[k];
                    let q = before[k];
                    &&& p.id == q.id
                    &&& p.label == q.label
                    &&& p.x == q.x
                    &&& p.height == q.height
                    &&& p.y == stacked_y(before, margin, k)
                    &&& moves@[k].label == q.label
                    &&& moves@[k].x == q.x
                    &&& moves@[k].y == p.y
                },
        decreases slots@.len() - i,
    {
        let mut p = slots[i].clone();
        p.y = y;
        let next: u64 = y as u64 + p.height as u64 + margin as u64;
        moves.push(SurfaceMove { label: p.label.clone(), x: p.x, y });
        slots.set(i, p);
        y = if next > u32::MAX as u64 {
            u32::MAX
        } else {
            next as u32
        };
        i = i + 1;
    }
    assert(slots@ == restacked(before, margin));
    assert(move_views(moves@) =~= restack_moves(before, margin)) by {
        assert forall|k: int| 0 <= k < moves@.len() implies
            #[trigger] move_views(moves@)[k] == restack_moves(before, margin)[k] by {
            assert(slots@[k].y == stacked_y(before, margin, k));
        }
    }
    moves
}

} // verus!
