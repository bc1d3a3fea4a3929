//! A single-line text editor with a cursor counted in characters.

use vstd::prelude::*;
use vstd::string::*;
use vstd::utf8::encode_utf8;

verus! {

pub struct LineEditor {
    pub content: String,
    /// The cursor, as a number of characters from the start.
    pub cursor_pos: usize,
}

/// Relies on std's `ToString` for `char`: the one-character string.
#[verifier::external_body]
fn char_to_string(ch: char) -> (r: String)
    ensures
        r@ == seq![ch],
{
    ch.to_string()
}

pub open spec fn min(a: int, b: int) -> int {
    if a <= b {
        a
    } else {
        b
    }
}

impl LineEditor {
    /// An editor holding `content`, with the cursor after its last character.
    pub fn from(content: String) -> (r: Self)
        ensures
            r.content@ == content@,
            r.cursor_pos == content@.len(),
    {
        let n = content.as_str().unicode_len();
        LineEditor { cursor_pos: n, content }
    }

    pub fn content(&self) -> (r: &str)
        ensures
            r@ == self.content@,
    {
        self.content.as_str()
    }

    /// Inserts `ch` at the cursor (or at the end, if the cursor is past it)
    /// and moves the cursor right.
    pub fn insert_char(&mut self, ch: char)
        ensures
            final(self).content@ == old(self).content@.insert(
                min(old(self).cursor_pos as int, old(self).content@.len() as int),
                ch,
            ),
            final(self).cursor_pos == min(
                if old(self).cursor_pos == usize::MAX {
                    usize::MAX as int
                } else {
                    old(self).cursor_pos + 1
                },
                final(self).content@.len() as int,
            ),
    {
        let s = self.content.as_str();
        let n = s.unicode_len();
        let k = if self.cursor_pos <= n { self.cursor_pos } else { n };
        let head = s.substring_char(0, k);
        let tail = s.substring_char(k, n);
        let inserted = head.to_owned().concat(char_to_string(ch).as_str()).concat(tail);
        proof {
            assert(inserted@ =~= old(self).content@.insert(k as int, ch));
        }
        self.content = inserted;
        self.move_cursor_right();
    }

    /// The byte offset of the character under the cursor; the content's
    /// byte length when the cursor is at or past the end.
    pub fn cursor_byte_index(&mut self) -> (r: usize)
        ensures
            r == encode_utf8(
                old(self).content@.subrange(
                    0,
                    min(old(self).cursor_pos as int, old(self).content@.len() as int),
                ),
            ).len() as usize,
            *final(self) == *old(self),
    {
        let s = self.content.as_str();
        let n = s.unicode_len();
        let k = if self.cursor_pos <= n { self.cursor_pos } else { n };
        s.substring_char(0, k).len()
    }

    /// Deletes the character before the cursor and moves the cursor left;
    /// at the start nothing changes.
    pub fn delete_char(&mut self)
        ensures
            old(self).cursor_pos == 0 ==> *final(self) == *old(self),
            old(self).cursor_pos > 0 ==> {
                let s = old(self).content@;
                let c = old(self).cursor_pos as int;
                &&& final(self).content@ == s.subrange(0, min(c - 1, s.len() as int)) + s.subrange(
                    min(c, s.len() as int),
                    s.len() as int,
                )
                &&& final(self).cursor_pos == min(c - 1, final(self).content@.len() as int)
            },
    {
        if self.cursor_pos == 0 {
            return;
        }
        let s = self.content.as_str();
        let n = s.unicode_len();
        let before = if self.cursor_pos - 1 <= n { self.cursor_pos - 1 } else { n };
        let after = if self.cursor_pos <= n { self.cursor_pos } else { n };
        let kept = s.substring_char(0, before).to_owned().concat(s.substring_char(after, n));
        self.content = kept;
        self.move_cursor_left();
    }

    /// Moves the cursor one character left, not below the start and not
    /// past the end.
    pub fn move_cursor_left(&mut self)
        ensures
            final(self).content == old(self).content,
            final(self).cursor_pos == min(
                if old(self).cursor_pos == 0 {
                    0
                } else {
                    old(self).cursor_pos - 1
                },
                old(self).content@.len() as int,
            ),
    {
        let new_pos = if self.cursor_pos == 0 { 0 } else { self.cursor_pos - 1 };
        let n = self.content.as_str().unicode_len();
        self.cursor_pos = if new_pos <= n { new_pos } else { n };
    }

    /// Moves the cursor one character right, not past the end.
    pub fn move_cursor_right(&mut self)
        ensures
            final(self).content == old(self).content,
            final(self).cursor_pos == min(
                if old(self).cursor_pos == usize::MAX {
                    usize::MAX as int
                } else {
                    old(self).cursor_pos + 1
                },
                old(self).content@.len() as int,
            ),
    {
        let new_pos = if self.cursor_pos == usize::MAX { usize::MAX } else { self.cursor_pos + 1 };
        let n = self.content.as_str().unicode_len();
        self.cursor_pos = if new_pos <= n { new_pos } else { n };
    }
}

} // verus!
