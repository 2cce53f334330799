//! Choosing the work area of a monitor by name.
use vstd::prelude::*;

verus! {

/// A screen rectangle by its edges, in physical pixels.
#[derive(Clone, Copy, Debug, PartialEq, Eq, Structural)]
pub struct Area {
    pub left: u32,
    pub top: u32,
    pub right: u32,
    pub bottom: u32,
}

/// A monitor as the operating system reports it: its whole area and the
/// part left free of panels and docks.
pub struct MonitorInfo {
    pub name: String,
    pub area: Area,
    pub work_area: Area,
}

/// A monitor as the window system reports it: a name if it has one, its
/// position and its size.
pub struct MonitorGeometry {
    pub name: Option<String>,
    pub x: i32,
    pub y: i32,
    pub width: u32,
    pub height: u32,
}

/// Height reserved at the top and at the bottom of a monitor whose work
/// area is not known.
pub const EDGE_RESERVE: u32 = 60;

/// The area returned when no monitor has the name asked for.
pub open spec fn fallback_area() -> Area {
    Area { left: 55, top: 55, right: 555, bottom: 555 }
}

/// A coordinate as the unsigned value with the same bits.
pub open spec fn as_unsigned(v: i32) -> u32 {
    if v >= 0 {
        v as u32
    } else {
        (v as int + 0x1_0000_0000) as u32
    }
}

/// The work area assumed for a monitor known only by its geometry: its
/// whole area less `EDGE_RESERVE` at the top and at the bottom, with
/// unsigned wrap-around.
pub open spec fn reserved_area(g: MonitorGeometry) -> Area {
    let x = as_unsigned(g.x);
    let y = as_unsigned(g.y);
    Area {
        left: x,
        top: y.wrapping_add(EDGE_RESERVE),
        right: x.wrapping_add(g.width),
        bottom: y.wrapping_add(g.height).wrapping_sub(EDGE_RESERVE),
    }
}

/// Whether `name` is the name of `g`.
pub open spec fn geometry_named(g: MonitorGeometry, name: Seq<char>) -> bool {
    match g.name {
        Some(n) => n@ == name,
        None => false,
    }
}

/// The unsigned value with the same bits as `v`.
fn to_unsigned(v: i32) -> (r: u32)
    ensures
        r == as_unsigned(v),
{
    if v >= 0 {
        v as u32
    } else {
        (v as i64 + 0x1_0000_0000i64) as u32
    }
}

/// The work area of the monitor named `monitor_name`: that of the first
/// operating-system monitor of that name; else, for the first window-system
/// monitor of that name, its area less `EDGE_RESERVE` top and bottom; else
/// the fallback area.
pub fn select_work_area(monitor_name: &String, os_monitors: &Vec<MonitorInfo>, available: &Vec<MonitorGeometry>) -> (r: Area)
    ensures
        forall|i: int|
            0 <= i < os_monitors@.len() && (#[trigger] os_monitors@[i]).name@ == monitor_name@ && (forall|j: int|
                0 <= j < i ==> (#[trigger] os_monitors@[j]).name@ != monitor_name@) ==> r == os_monitors@[i].work_area,
        (forall|i: int| 0 <= i < os_monitors@.len() ==> (#[trigger] os_monitors@[i]).name@ != monitor_name@) ==> {
            &&& forall|i: int|
                0 <= i < available@.len() && geometry_named(#[trigger] available@[i], monitor_name@) && (forall|j: int|
                    0 <= j < i ==> !geometry_named(#[trigger] available@[j], monitor_name@)) ==> r == reserved_area(
                    available@[i],
                )
            &&& (forall|i: int| 0 <= i < available@.len() ==> !geometry_named(#[trigger] available@[i], monitor_name@))
                ==> r == fallback_area()
        },
{
    let mut i: usize = 0;
    while i < os_monitors.len()
        invariant
            i <= os_monitors@.len(),
            forall|j: int| 0 <= j < i ==> (#[trigger] os_monitors@[j]).name@ != monitor_name@,
        decreases os_monitors@.len() - i,
    {
        if os_monitors[i].name == *monitor_name {
            return os_monitors[i].work_area;
        }
        i = i + 1;
    }
    let mut k: usize = 0;
    while k < available.len()
        invariant
            k <= available@.len(),
            forall|j: int| 0 <= j < os_monitors@.len() ==> (#[trigger] os_monitors@[j]).name@ != monitor_name@,
            forall|j: int| 0 <= j < k ==> !geometry_named(#[trigger] available@[j], monitor_name@),
        decreases available@.len() - k,
    {
        let g = &available[k];
        let named = match &g.name {
            Some(n) => *n == *monitor_name,
            None => false,
        };
        if named {
            let x = to_unsigned(g.x);
            let y = to_unsigned(g.y);
            return Area {
                left: x,
                top: y.wrapping_add(EDGE_RESERVE),
                right: x.wrapping_add(g.width),
                bottom: y.wrapping_add(g.height).wrapping_sub(EDGE_RESERVE),
            };
        }
        k = k + 1;
    }
    Area { left: 55, top: 55, right: 555, bottom: 555 }
}

} // verus!
