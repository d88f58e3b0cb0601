use vstd::prelude::*;

verus! {

/// An input event: a key pressed or released.
#[derive(Debug, Clone, Copy, PartialEq, Eq, Structural)]
pub enum Event {
    KeyPress(u8),
    KeyRelease(u8),
}

/// An input event as userspace receives it: class 0 for a key press, 1 for a key release,
/// and the key.
#[derive(Debug, Clone, Copy, PartialEq, Eq, Structural)]
pub struct CEvent {
    pub class: usize,
    pub param1: usize,
}

/// The userspace form of `event`.
pub open spec fn c_event_of(event: Event) -> CEvent {
    match event {
        Event::KeyPress(key) => CEvent { class: 0, param1: key as usize },
        Event::KeyRelease(key) => CEvent { class: 1, param1: key as usize },
    }
}

impl From<Event> for CEvent {
    fn from(event: Event) -> (r: Self) {
        let (class, param1) = match event {
            Event::KeyPress(key) => (0, key as usize),
            Event::KeyRelease(key) => (1, key as usize),
        };
        CEvent { class, param1 }
    }
}

impl vstd::std_specs::convert::FromSpecImpl<Event> for CEvent {
    open spec fn obeys_from_spec() -> bool {
        true
    }

    open spec fn from_spec(event: Event) -> Self {
        c_event_of(event)
    }
}

} // verus!
