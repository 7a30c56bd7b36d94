//! The editor's input alphabet, and the interface a component offers the
//! event loop.

use vstd::prelude::*;

verus! {

/// One discrete input event, already decoded from whatever protocol the
/// backend reads.
#[derive(Clone, Copy, Debug, PartialEq, Eq, Structural)]
pub enum Event {
    /// A printable character was typed.
    Edit(char),
    /// Remove the last character of the addressed text.
    EditBackspace,
    /// Remove the addressed element from its parent.
    EditDelete,
    /// Wrap the addressed node in a fresh list.
    EditWrap,
    /// Replace a one-element list or quotation by its content.
    EditUnwrap,
    /// Mark the addressed node as quoted data.
    EditQuote,
    /// Insert a fresh element after the addressed one.
    EditInsert,
    /// Move the cursor out of the current list.
    NavLeft,
    /// Move the cursor into the addressed list.
    NavRight,
    /// Move the cursor to the previous sibling, wrapping around.
    NavUp,
    /// Move the cursor to the next sibling, wrapping around.
    NavDown,
    /// The viewport was resized.
    Resize(usize, usize),
    /// Leave the editor.
    Terminate,
    /// Anything the backend could not decode.
    Unknown,
}

/// A component that reacts to input events. `handle_event` returns whether
/// the event was consumed; an unconsumed event changes nothing and is the
/// caller's to act on.
pub trait EventHandler<E>: Sized {
    /// The component's internal consistency, kept across events.
    spec fn inv(&self) -> bool;

    /// Which events this component acts on.
    spec fn consumes(&self, event: E) -> bool;

    /// What one consumed event does: how the state after the event relates
    /// to the state before it.
    spec fn step(&self, event: E, post: Self) -> bool;

    fn handle_event(&mut self, event: &E) -> (r: bool)
        requires
            old(self).inv(),
        ensures
            final(self).inv(),
            r == old(self).consumes(*event),
            r ==> old(self).step(*event, *final(self)),
            !r ==> *final(self) == *old(self),
    ;
}

} // verus!
