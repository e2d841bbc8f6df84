use vstd::prelude::*;

use crate::position::Position;
use crate::strutil::{pop_char, push_char};
use crate::unicode::{count_unicode_words, unicode_word_count};

verus! {

/// The not-yet-committed text a user is typing, its word count, and the
/// display coordinate at which its rows visually continue the committed
/// file's rows.
pub struct AppendBuffer {
    pub buffer: String,
    pub word_count: usize,
    pub join_pos: Position,
}

impl AppendBuffer {
    /// An empty buffer joining at the top left corner.
    pub fn new() -> (b: AppendBuffer)
        ensures
            b.buffer@ == Seq::<char>::empty(),
            b.word_count == 0,
            b.join_pos == (Position { x: 0, y: 0 }),
    {
        AppendBuffer { buffer: String::new(), word_count: 0, join_pos: Position { x: 0, y: 0 } }
    }

    /// Appends one character to the buffer. The caller reflows afterwards;
    /// this has no wrapping side effect of its own.
    pub fn insert(&mut self, c: char)
        ensures
            final(self).buffer@ == old(self).buffer@.push(c),
            final(self).word_count == old(self).word_count,
            final(self).join_pos == old(self).join_pos,
    {
        push_char(&mut self.buffer, c);
    }

    /// Recounts the Unicode words of the whole buffer.
    pub fn count_words(&mut self)
        ensures
            final(self).word_count as nat == unicode_word_count(old(self).buffer@),
            final(self).buffer == old(self).buffer,
            final(self).join_pos == old(self).join_pos,
    {
        self.word_count = count_unicode_words(self.buffer.as_str());
    }

    /// Removes the last character of the buffer; does nothing when the
    /// buffer is empty.
    pub fn delete(&mut self)
        ensures
            old(self).buffer@.len() == 0 ==> final(self).buffer@ == old(self).buffer@,
            old(self).buffer@.len() > 0 ==> final(self).buffer@ == old(self).buffer@.drop_last(),
            final(self).word_count == old(self).word_count,
            final(self).join_pos == old(self).join_pos,
    {
        pop_char(&mut self.buffer);
    }

    /// Whether the buffer holds uncommitted text.
    pub fn is_dirty(&self) -> (dirty: bool)
        ensures
            dirty == (self.buffer@.len() > 0),
    {
        !self.buffer.as_str().is_empty()
    }
}

} // verus!
