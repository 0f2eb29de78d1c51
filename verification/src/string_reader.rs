//! A cursor over the characters of a command line.

use vstd::prelude::*;

verus! {

/// The characters that may stand in a word read without quotes.
pub open spec fn allowed_in_unquoted(c: char) -> bool {
    ('0' <= c && c <= '9') || ('A' <= c && c <= 'Z') || ('a' <= c && c <= 'z') || c == '_' || c
        == '-' || c == '.' || c == '+'
}

/// Tests whether `c` may stand in a word read without quotes.
pub fn is_allowed_in_unquoted(c: char) -> (r: bool)
    ensures
        r == allowed_in_unquoted(c),
{
    ('0' <= c && c <= '9') || ('A' <= c && c <= 'Z') || ('a' <= c && c <= 'z') || c == '_' || c
        == '-' || c == '.' || c == '+'
}

/// The characters of `s`, in order.
pub fn str_chars(s: &str) -> (r: Vec<char>)
    ensures
        r@ == s@,
{
    let mut chars: Vec<char> = Vec::new();
    for c in it: s.chars()
        invariant
            chars@ == it.seq().take(it.index() as int),
            it.seq() == s@,
    {
        chars.push(c);
    }
    chars
}

/// The characters of `v` from `from` up to, not including, `to`.
pub fn char_range(v: &Vec<char>, from: usize, to: usize) -> (r: Vec<char>)
    requires
        from <= to <= v@.len(),
    ensures
        r@ == v@.subrange(from as int, to as int),
{
    let mut r: Vec<char> = Vec::new();
    let mut i: usize = from;
    while i < to
        invariant
            from <= i <= to <= v@.len(),
            r@ == v@.subrange(from as int, i as int),
        decreases to - i,
    {
        r.push(v[i]);
        i = i + 1;
    }
    r
}

/// A command line and the position up to which it has been read.
pub struct StringReader {
    chars: Vec<char>,
    cursor: usize,
}

impl StringReader {
    #[verifier::type_invariant]
    spec fn inv(self) -> bool {
        self.cursor <= self.chars.len()
    }

    /// The whole command line.
    pub closed spec fn text(self) -> Seq<char> {
        self.chars@
    }

    /// The position of the next character to read.
    pub closed spec fn pos(self) -> int {
        self.cursor as int
    }

    /// A reader at the start of `chars`.
    pub fn new(chars: Vec<char>) -> (r: StringReader)
        ensures
            r.text() == chars@,
            r.pos() == 0,
    {
        StringReader { chars, cursor: 0 }
    }

    /// A reader at the start of the characters of `s`.
    pub fn from_str(s: &str) -> (r: StringReader)
        ensures
            r.text() == s@,
            r.pos() == 0,
    {
        StringReader { chars: str_chars(s), cursor: 0 }
    }
    /// The position of the next character to read (the line it reads fits in
    /// a `usize`).
    pub fn cursor(&self) -> (r: usize)
        ensures
            r == self.pos(),
            r <= self.text().len() <= usize::MAX,
    {
        proof {
            use_type_invariant(self);
        }
        assert(self.chars@.len() == self.chars.len());
        self.cursor
    }

    /// The number of characters of the whole line.
    pub fn total_length(&self) -> (r: usize)
        ensures
            r == self.text().len(),
            self.pos() <= r,
    {
        proof {
            use_type_invariant(self);
        }
        self.chars.len()
    }

    /// A copy of the whole line.
    pub fn text_chars(&self) -> (r: Vec<char>)
        ensures
            r@ == self.text(),
    {
        let r = char_range(&self.chars, 0, self.chars.len());
        assert(self.chars@.subrange(0, self.chars@.len() as int) == self.chars@);
        r
    }

    /// Moves the position to `cursor`.
    pub fn set_cursor(&mut self, cursor: usize)
        requires
            cursor <= old(self).text().len(),
        ensures
            final(self).text() == old(self).text(),
            final(self).pos() == cursor,
    {
        self.cursor = cursor;
    }

    /// Whether a character is left to read.
    pub fn can_read(&self) -> (r: bool)
        ensures
            r == (self.pos() < self.text().len()),
    {
        proof {
            use_type_invariant(self);
        }
        self.cursor < self.chars.len()
    }

    /// The next character, if any, without moving past it.
    pub fn peek(&self) -> (r: Option<char>)
        ensures
            self.pos() < self.text().len() ==> r == Some(self.text()[self.pos()]),
            self.pos() >= self.text().len() ==> r is None,
    {
        proof {
            use_type_invariant(self);
        }
        if self.cursor < self.chars.len() {
            Some(self.chars[self.cursor])
        } else {
            None
        }
    }

    /// Moves past the next character.
    pub fn skip(&mut self)
        requires
            old(self).pos() < old(self).text().len(),
        ensures
            final(self).text() == old(self).text(),
            final(self).pos() == old(self).pos() + 1,
    {
        assert(self.chars@.len() == self.chars.len());
        self.cursor = self.cursor + 1;
    }

    /// The characters from the position to the end of the line.
    pub fn remaining_part(&self) -> (r: Vec<char>)
        ensures
            r@ == self.text().subrange(self.pos(), self.text().len() as int),
    {
        proof {
            use_type_invariant(self);
        }
        char_range(&self.chars, self.cursor, self.chars.len())
    }

    /// Reads the longest run of characters allowed in an unquoted word,
    /// starting at the position, and moves past it.
    pub fn read_unquoted_string(&mut self) -> (r: Vec<char>)
        ensures
            final(self).text() == old(self).text(),
            old(self).pos() <= final(self).pos() <= old(self).text().len(),
            forall|k: int|
                old(self).pos() <= k < final(self).pos() ==> allowed_in_unquoted(
                    #[trigger] old(self).text()[k],
                ),
            final(self).pos() == old(self).text().len() || !allowed_in_unquoted(
                old(self).text()[final(self).pos()],
            ),
            r@ == old(self).text().subrange(old(self).pos(), final(self).pos()),
    {
        proof {
            use_type_invariant(&*self);
        }
        let start = self.cursor;
        let mut r: Vec<char> = Vec::new();
        while self.cursor < self.chars.len() && is_allowed_in_unquoted(self.chars[self.cursor])
            invariant
                self.chars@ == old(self).chars@,
                start == old(self).cursor,
                start <= self.cursor <= self.chars.len(),
                forall|k: int| start <= k < self.cursor ==> allowed_in_unquoted(#[trigger] self.chars@[k]),
                r@ == self.chars@.subrange(start as int, self.cursor as int),
            decreases self.chars.len() - self.cursor,
        {
            r.push(self.chars[self.cursor]);
            self.cursor = self.cursor + 1;
        }
        r
    }
}

} // verus!
