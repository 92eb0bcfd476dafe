//! Pointer event kinds and scroll bar descriptions shared with the host.

use vstd::prelude::*;

verus! {

/// The mouse events that reach scripts.
#[derive(Clone, Copy, Debug, PartialEq, Eq, Structural)]
pub enum MouseEventKind {
    Click,
    Wheel,
}

/// The DOM event type name of a mouse event.
pub fn js_event_type(kind: MouseEventKind) -> (r: &'static str)
    ensures
        kind == MouseEventKind::Click ==> r@ == "click"@,
        kind == MouseEventKind::Wheel ==> r@ == "wheel"@,
{
    match kind {
        MouseEventKind::Click => "click",
        MouseEventKind::Wheel => "wheel",
    }
}

/// The axis a scroll bar scrolls.
#[derive(Clone, Copy, Debug, PartialEq, Eq, Structural)]
pub enum ScrollbarAxis {
    Horizontal,
    Vertical,
}

/// A scroll bar: its axis, its track and its thumb, in whatever rectangle
/// type the renderer uses.
#[derive(Clone, Copy, Debug)]
pub struct Scrollbar<R> {
    pub axis: ScrollbarAxis,
    pub track: R,
    pub thumb: R,
}

} // verus!
