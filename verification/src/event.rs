use crate::app::{App, Session};
use vstd::prelude::*;

verus! {

/// What the operator can ask of a session.
#[derive(Clone, Copy, Debug)]
pub enum InputEvent {
    /// A character typed at the cursor.
    Character(char),
    /// Delete and step back.
    DeleteLeft,
    /// Delete in place.
    DeleteRight,
    /// To the first column.
    Home,
    /// To the last column.
    End,
    /// One column to the left.
    Left,
    /// One column to the right.
    Right,
    /// One row up.
    Up,
    /// One row down.
    Down,
    /// A jump to a position on the screen.
    Jump { column: usize, row: usize },
    /// The end of the session.
    Terminate,
    /// Anything else.
    Other,
}

impl Session {
    /// The session after an event.
    pub open spec fn after_event(self, event: InputEvent) -> Session {
        match event {
            InputEvent::Character(c) => self.entered(c),
            InputEvent::DeleteLeft => self.deleted(true),
            InputEvent::DeleteRight => self.deleted(false),
            InputEvent::Home => self.moved_home(),
            InputEvent::End => self.moved_end(),
            InputEvent::Left => self.moved_left(),
            InputEvent::Right => self.moved_right(),
            InputEvent::Up => self.moved_up(),
            InputEvent::Down => self.moved_down(),
            InputEvent::Jump { column, row } => self.moved_to(column as int, row as int),
            InputEvent::Terminate => self,
            InputEvent::Other => self,
        }
    }
}

impl App {
    /// Applies one event to the session and says whether the session is
    /// over.
    pub fn handle_event(&mut self, event: InputEvent) -> (quit: bool)
        ensures
            quit == (event is Terminate),
            final(self)@ == old(self)@.after_event(event),
    {
        match event {
            InputEvent::Character(to_insert) => {
                self.enter_char(to_insert);
            },
            InputEvent::DeleteLeft => {
                self.delete_char(true);
            },
            InputEvent::DeleteRight => {
                self.delete_char(false);
            },
            InputEvent::Home => {
                self.move_cursor_home();
            },
            InputEvent::End => {
                self.move_cursor_end();
            },
            InputEvent::Left => {
                self.move_cursor_left();
            },
            InputEvent::Right => {
                self.move_cursor_right();
            },
            InputEvent::Up => {
                self.move_cursor_up();
            },
            InputEvent::Down => {
                self.move_cursor_down();
            },
            InputEvent::Jump { column, row } => {
                self.move_cursor_to_position(column, row);
            },
            InputEvent::Terminate => {
                return true;
            },
            InputEvent::Other => {},
        }
        false
    }
}

/// No event moves the cursor out of the bounds.
pub proof fn lemma_event_keeps_cursor_in_bounds(s: Session, event: InputEvent)
    requires
        s.cursor_in_bounds(),
        0 <= s.min_x,
        0 <= s.min_y,
    ensures
        s.after_event(event).cursor_in_bounds(),
{
}

} // verus!
