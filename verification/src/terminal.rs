//! The terminal the effects draw on: its size, and which events end an
//! effect.

use vstd::prelude::*;
use crate::input::{Key, KeyCode};

verus! {

/// What the terminal reports.
#[derive(Clone, Copy, PartialEq, Eq, Structural)]
pub enum TerminalEvent {
    Key(Key),
    /// The terminal now has this many columns and rows.
    Resize(u16, u16),
    Other,
}

/// The size of the terminal, as last reported.
pub struct Terminal {
    width: u16,
    height: u16,
}

/// Whether the key quits the effect: `q` or Escape, whatever the modifiers.
pub open spec fn is_quit_key(key: Key) -> bool {
    key.code == KeyCode::Char('q') || key.code == KeyCode::Esc
}

impl Terminal {
    /// The columns and rows recorded.
    pub closed spec fn spec_size(&self) -> (u16, u16) {
        (self.width, self.height)
    }

    /// A terminal of `width` columns and `height` rows.
    pub fn with_size(width: u16, height: u16) -> (t: Self)
        ensures
            t.spec_size() == (width, height),
    {
        Terminal { width, height }
    }

    /// The columns and rows, as last reported.
    pub fn size(&self) -> (s: (u16, u16))
        ensures
            s == self.spec_size(),
    {
        (self.width, self.height)
    }

    /// Records a size read from the terminal.
    pub fn set_size(&mut self, width: u16, height: u16)
        ensures
            final(self).spec_size() == (width, height),
    {
        self.width = width;
        self.height = height;
    }

    /// Handles one event while an effect runs: returns whether it asks to
    /// quit (`q` or Escape), and records the size a resize reports.
    pub fn handle_event(&mut self, event: &TerminalEvent) -> (quit: bool)
        ensures
            quit == (*event matches TerminalEvent::Key(k) && is_quit_key(k)),
            final(self).spec_size() == (match *event {
                TerminalEvent::Resize(w, h) => (w, h),
                _ => old(self).spec_size(),
            }),
    {
        match event {
            TerminalEvent::Key(k) => match k.code {
                KeyCode::Char(c) => c == 'q',
                KeyCode::Esc => true,
                _ => false,
            },
            TerminalEvent::Resize(w, h) => {
                self.width = *w;
                self.height = *h;
                false
            },
            TerminalEvent::Other => false,
        }
    }
}

} // verus!
