use vstd::prelude::*;

use crate::device::Device;
use crate::queue::Queue;

pub mod color;
pub mod console;
pub mod event;

use console::Console;
use event::Event;

verus! {

/// The part of a session that takes its input and shows its output.
pub enum SubSession<D: Device> {
    Console(Console<D>),
}

impl<D: Device> SubSession<D> {
    pub open spec fn wf(&self) -> bool {
        match self {
            SubSession::Console(c) => c.wf(),
        }
    }

    /// The input events waiting, oldest first.
    pub open spec fn events(&self) -> Seq<Event> {
        match self {
            SubSession::Console(c) => c.events(),
        }
    }

    /// Queues an input event.
    pub fn push_event(&mut self, event: Event)
        requires
            old(self).wf(),
            old(self).events().len() < usize::MAX,
        ensures
            final(self).wf(),
            final(self).events() == old(self).events().push(event),
    {
        match self {
            SubSession::Console(console) => console.push_event(event),
        }
    }

    /// Takes the oldest waiting input event, if any.
    pub fn peek_event(&mut self) -> (r: Option<Event>)
        requires
            old(self).wf(),
        ensures
            final(self).wf(),
            old(self).events().len() == 0 ==> r is None && final(self).events() == old(self).events(),
            old(self).events().len() > 0 ==> r == Some(old(self).events()[0]) && final(self).events()
                == old(self).events().drop_first(),
    {
        match self {
            SubSession::Console(console) => console.peek_event(),
        }
    }
}

} // verus!
