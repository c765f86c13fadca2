//! A minimal prompt line: the text being typed and a cursor into it.

use vstd::prelude::*;

verus! {

/// The command-line prompt's editable state.
#[derive(Debug)]
pub struct Prompt {
    pub line: Vec<char>,
    pub cursor: usize,
}

impl Prompt {
    pub open spec fn well_formed(self) -> bool {
        self.cursor <= self.line@.len()
    }

    pub fn new() -> (r: Prompt)
        ensures
            r.well_formed(),
            r.line@.len() == 0,
            r.cursor == 0,
    {
        Prompt { line: Vec::new(), cursor: 0 }
    }

    /// Insert `c` at the cursor and move the cursor past it.
    pub fn insert_char(&mut self, c: char)
        requires
            old(self).well_formed(),
            old(self).line@.len() < usize::MAX,
        ensures
            final(self).well_formed(),
            final(self).line@ == old(self).line@.insert(old(self).cursor as int, c),
            final(self).cursor == old(self).cursor + 1,
    {
        self.line.insert(self.cursor, c);
        self.cursor = self.cursor + 1;
    }
}

} // verus!
