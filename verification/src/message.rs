//! The message argument: the rest of a command line, in which entity
//! selectors such as `@p` may stand, and how a message is laid out again
//! around what its selectors resolve to.

use vstd::prelude::*;
use crate::string_reader::{char_range, StringReader};

verus! {

/// The longest message, counted in UTF-16 code units.
pub const MAX_MESSAGE_LENGTH: usize = 256;

/// The number of UTF-16 code units that encode `c`.
pub open spec fn utf16_units(c: char) -> nat {
    if c as u32 >= 0x10000 {
        2
    } else {
        1
    }
}

/// The number of UTF-16 code units that encode `s`.
pub open spec fn utf16_len(s: Seq<char>) -> nat
    decreases s.len(),
{
    if s.len() == 0 {
        0
    } else {
        utf16_len(s.drop_last()) + utf16_units(s.last())
    }
}

proof fn lemma_utf16_len_bound(s: Seq<char>)
    ensures
        utf16_len(s) <= 2 * s.len(),
    decreases s.len(),
{
    if s.len() > 0 {
        lemma_utf16_len_bound(s.drop_last());
    }
}

/// Whether `c` lies in the Basic Multilingual Plane, below U+10000.
pub open spec fn in_bmp(c: char) -> bool {
    (c as u32) < 0x10000
}

/// The number of characters of `s` from U+10000 on, which UTF-16 writes as
/// surrogate pairs.
pub open spec fn supplementary_count(s: Seq<char>) -> nat
    decreases s.len(),
{
    if s.len() == 0 {
        0
    } else {
        supplementary_count(s.drop_last()) + if !in_bmp(s.last()) {
            1nat
        } else {
            0nat
        }
    }
}

/// UTF-16 writes every character below U+10000 as one code unit and every
/// other character as two: the length of a text is its number of
/// characters plus the number of those from U+10000 on. So a text of
/// characters all below U+10000 has as many code units as characters.
pub proof fn lemma_utf16_len_counts_units(s: Seq<char>)
    ensures
        utf16_len(s) == s.len() + supplementary_count(s),
        supplementary_count(s) <= s.len(),
        (forall|i: int| 0 <= i < s.len() ==> in_bmp(#[trigger] s[i])) ==> utf16_len(s) == s.len(),
        (forall|i: int| 0 <= i < s.len() ==> !in_bmp(#[trigger] s[i])) ==> utf16_len(s) == 2 * s.len(),
    decreases s.len(),
{
    if s.len() > 0 {
        let d = s.drop_last();
        lemma_utf16_len_counts_units(d);
        if forall|i: int| 0 <= i < s.len() ==> in_bmp(#[trigger] s[i]) {
            assert forall|i: int| 0 <= i < d.len() implies in_bmp(#[trigger] d[i]) by {
                assert(d[i] == s[i]);
            }
            assert(in_bmp(s[s.len() - 1]));
        }
        if forall|i: int| 0 <= i < s.len() ==> !in_bmp(#[trigger] s[i]) {
            assert forall|i: int| 0 <= i < d.len() implies !in_bmp(#[trigger] d[i]) by {
                assert(d[i] == s[i]);
            }
            assert(!in_bmp(s[s.len() - 1]));
        }
    }
}

/// A message of at most 256 characters, all below U+10000, is never too
/// long: its UTF-16 length, counted as a `usize`, is its number of
/// characters.
pub proof fn lemma_short_bmp_message_fits(s: Seq<char>)
    requires
        s.len() <= MAX_MESSAGE_LENGTH,
        forall|i: int| 0 <= i < s.len() ==> in_bmp(#[trigger] s[i]),
    ensures
        utf16_count(s) == s.len(),
        utf16_len(s) <= MAX_MESSAGE_LENGTH,
{
    lemma_utf16_len_counts_units(s);
}

/// The number of UTF-16 code units that encode `s`, as a `usize`: the
/// largest `usize` where the number is larger.
pub open spec fn utf16_count(s: Seq<char>) -> usize {
    if utf16_len(s) <= usize::MAX {
        utf16_len(s) as usize
    } else {
        usize::MAX
    }
}

/// Counts the UTF-16 code units that encode `s`.
pub fn utf16_length(s: &Vec<char>) -> (r: usize)
    ensures
        r == utf16_count(s@),
{
    let mut n: usize = 0;
    let mut i: usize = 0;
    while i < s.len()
        invariant
            i <= s@.len(),
            n == utf16_count(s@.subrange(0, i as int)),
        decreases s.len() - i,
    {
        proof {
            let next = s@.subrange(0, i + 1);
            assert(next.drop_last() == s@.subrange(0, i as int));
        }
        let units: usize = if s[i] as u32 >= 0x10000 { 2 } else { 1 };
        if n > usize::MAX - units {
            n = usize::MAX;
        } else {
            n = n + units;
        }
        i = i + 1;
    }
    assert(s@.subrange(0, s@.len() as int) == s@);
    n
}

/// A range of character positions, from `start` up to but not including `end`.
#[derive(Clone, Copy, Debug, PartialEq, Eq, Structural)]
pub struct StringRange {
    pub start: usize,
    pub end: usize,
}

/// An entity selector inside a message, with the characters it takes.
pub struct MessagePart<S> {
    pub range: StringRange,
    pub entity_selector: S,
}

/// A parsed message: its text, and the selectors found in it, in order.
pub struct Message<S> {
    pub text: Vec<char>,
    pub parts: Vec<MessagePart<S>>,
}

/// The ranges of the parts of a message.
pub open spec fn part_ranges<S>(parts: Seq<MessagePart<S>>) -> Seq<(int, int)> {
    parts.map_values(|p: MessagePart<S>| (p.range.start as int, p.range.end as int))
}

/// Ranges that lie within a text of `len` characters, are not empty, and come
/// one after the other without overlapping.
pub open spec fn ranges_ordered(ranges: Seq<(int, int)>, len: int) -> bool {
    &&& forall|i: int| 0 <= i < ranges.len() ==> 0 <= #[trigger] ranges[i].0 < ranges[i].1 <= len
    &&& forall|i: int, j: int|
        0 <= i < j < ranges.len() ==> #[trigger] ranges[i].1 <= #[trigger] ranges[j].0
}

/// Ranges that lie within a text of `len` characters and come one after
/// the other without overlapping; a range may be empty.
pub open spec fn ranges_in_order(ranges: Seq<(int, int)>, len: int) -> bool {
    &&& forall|i: int| 0 <= i < ranges.len() ==> 0 <= #[trigger] ranges[i].0 <= ranges[i].1 <= len
    &&& forall|i: int, j: int|
        0 <= i < j < ranges.len() ==> #[trigger] ranges[i].1 <= #[trigger] ranges[j].0
}

/// What the message argument refuses.
#[derive(Clone, Copy, Debug, PartialEq, Eq, Structural)]
pub enum MessageError {
    /// The message is longer than `max` UTF-16 code units; `cursor` is where
    /// the message starts in the command line.
    TooLong { length: usize, max: usize, cursor: usize },
}

/// How parsing an entity selector failed.
#[derive(Clone, Copy, Debug, PartialEq, Eq, Structural)]
pub enum SelectorFailure {
    /// An `@` without a selector type after it.
    MissingSelectorType,
    /// An `@` followed by a selector type that does not exist.
    UnknownSelectorType,
    /// Any other failure.
    Other,
}

/// A message being parsed: where the scan for selectors stands and the
/// selectors found so far.
pub struct MessageScan<S> {
    line: Ghost<Seq<char>>,
    text: Vec<char>,
    offset: usize,
    pos: usize,
    allow_selectors: bool,
    pending: Option<usize>,
    parts: Vec<MessagePart<S>>,
}

impl<S> MessageScan<S> {
    #[verifier::type_invariant]
    spec fn inv(self) -> bool {
        &&& self.offset + self.text@.len() == self.line@.len()
        &&& self.line@.len() <= usize::MAX
        &&& self.text@ == self.line@.subrange(self.offset as int, self.line@.len() as int)
        &&& self.pos <= self.text@.len()
        &&& self.pending matches Some(start) ==> start == self.pos && start < self.text@.len()
            && self.text@[start as int] == '@'
        &&& ranges_ordered(part_ranges(self.parts@), self.pos as int)
        &&& forall|i: int|
            0 <= i < self.parts@.len() ==> self.text@[#[trigger] self.parts@[i].range.start as int]
                == '@'
    }

    /// The command line the message was read from.
    pub closed spec fn line(self) -> Seq<char> {
        self.line@
    }

    /// The text of the message.
    pub closed spec fn text(self) -> Seq<char> {
        self.text@
    }

    /// Where the message starts in the command line.
    pub closed spec fn offset(self) -> int {
        self.offset as int
    }

    /// How far into the message the scan has come.
    pub closed spec fn pos(self) -> int {
        self.pos as int
    }

    /// Whether selectors are looked for.
    pub closed spec fn allow_selectors(self) -> bool {
        self.allow_selectors
    }

    /// The position in the message of the `@` whose selector is being parsed.
    pub closed spec fn pending(self) -> Option<int> {
        match self.pending {
            Some(s) => Some(s as int),
            None => None,
        }
    }

    /// The selectors found so far.
    pub closed spec fn parts(self) -> Seq<MessagePart<S>> {
        self.parts@
    }
}

impl MessageArgumentType {
    /// Starts parsing a message from the reader's position to the end of the
    /// line. A message longer than 256 UTF-16 code units is refused.
    pub fn parse_with_allow_selectors<S>(reader: &StringReader, allow_selectors: bool) -> (r: Result<MessageScan<S>, MessageError>)
        ensures
            ({
                let rest = reader.text().subrange(reader.pos(), reader.text().len() as int);
                match r {
                    Ok(scan) => {
                        &&& utf16_len(rest) <= MAX_MESSAGE_LENGTH
                        &&& scan.line() == reader.text()
                        &&& scan.text() == rest
                        &&& scan.offset() == reader.pos()
                        &&& scan.pos() == 0
                        &&& scan.allow_selectors() == allow_selectors
                        &&& scan.pending() is None
                        &&& scan.parts().len() == 0
                    },
                    Err(e) => {
                        &&& utf16_len(rest) > MAX_MESSAGE_LENGTH
                        &&& e == MessageError::TooLong {
                            length: utf16_count(rest),
                            max: MAX_MESSAGE_LENGTH,
                            cursor: reader.pos() as usize,
                        }
                    },
                }
            }),
    {
        let text = reader.remaining_part();
        let offset = reader.cursor();
        let length = utf16_length(&text);
        if length > MAX_MESSAGE_LENGTH {
            return Err(MessageError::TooLong { length, max: MAX_MESSAGE_LENGTH, cursor: offset });
        }
        let parts: Vec<MessagePart<S>> = Vec::new();
        assert(part_ranges(parts@) =~= Seq::<(int, int)>::empty());
        Ok(
            MessageScan {
                line: Ghost(reader.text()),
                text,
                offset,
                pos: 0,
                allow_selectors,
                pending: None,
                parts,
            },
        )
    }
}

impl<S> MessageScan<S> {
    /// Looks for the next `@` from the scan position on. When selectors are
    /// allowed and one is found, the scan stops there and gives back its
    /// position in the command line, where the caller parses the selector.
    /// Otherwise the scan runs to the end of the message.
    pub fn next_selector(&mut self) -> (r: Option<usize>)
        requires
            old(self).pending() is None,
        ensures
            final(self).line() == old(self).line(),
            final(self).text() == old(self).text(),
            final(self).offset() == old(self).offset(),
            final(self).allow_selectors() == old(self).allow_selectors(),
            final(self).parts() == old(self).parts(),
            old(self).pos() <= final(self).pos() <= final(self).text().len(),
            !old(self).allow_selectors() ==> r is None && final(self).pos() == final(self).text().len(),
            old(self).allow_selectors() ==> forall|k: int|
                old(self).pos() <= k < final(self).pos() ==> #[trigger] old(self).text()[k] != '@',
            r is None ==> final(self).pending() is None && final(self).pos() == final(self).text().len(),
            r matches Some(at) ==> {
                &&& old(self).allow_selectors()
                &&& final(self).pos() < final(self).text().len()
                &&& final(self).text()[final(self).pos()] == '@'
                &&& final(self).pending() == Some(final(self).pos())
                &&& at == final(self).offset() + final(self).pos()
            },
    {
        proof {
            use_type_invariant(&*self);
        }
        if !self.allow_selectors {
            self.pos = self.text.len();
            return None;
        }
        let ghost start = self.pos;
        while self.pos < self.text.len() && self.text[self.pos] != '@'
            invariant
                self.line == old(self).line,
                self.text@ == old(self).text@,
                self.offset == old(self).offset,
                self.allow_selectors == old(self).allow_selectors,
                self.parts@ == old(self).parts@,
                self.pending is None,
                start == old(self).pos,
                start <= self.pos <= self.text@.len(),
                forall|k: int| start <= k < self.pos ==> #[trigger] self.text@[k] != '@',
                self.offset + self.text@.len() == self.line@.len(),
                self.line@.len() <= usize::MAX,
                self.text@ == self.line@.subrange(self.offset as int, self.line@.len() as int),
                ranges_ordered(part_ranges(self.parts@), start as int),
                forall|i: int|
                    0 <= i < self.parts@.len() ==> self.text@[#[trigger] self.parts@[i].range.start as int]
                        == '@',
            decreases self.text.len() - self.pos,
        {
            self.pos = self.pos + 1;
        }
        if self.pos < self.text.len() {
            self.pending = Some(self.pos);
            Some(self.offset + self.pos)
        } else {
            None
        }
    }

    /// Records the selector that was parsed from the pending `@` up to `end`,
    /// a position in the command line, and goes on after it.
    pub fn selector_parsed(&mut self, end: usize, entity_selector: S)
        requires
            old(self).pending() is Some,
            old(self).offset() + old(self).pos() < end <= old(self).line().len(),
        ensures
            final(self).line() == old(self).line(),
            final(self).text() == old(self).text(),
            final(self).offset() == old(self).offset(),
            final(self).allow_selectors() == old(self).allow_selectors(),
            final(self).pending() is None,
            final(self).pos() == end - old(self).offset(),
            final(self).parts() == old(self).parts().push(
                MessagePart {
                    range: StringRange {
                        start: old(self).pos() as usize,
                        end: (end - old(self).offset()) as usize,
                    },
                    entity_selector,
                },
            ),
    {
        proof {
            use_type_invariant(&*self);
        }
        let start = self.pos;
        let rel_end = end - self.offset;
        let ghost before = self.parts@;
        let mut parts: Vec<MessagePart<S>> = Vec::new();
        std::mem::swap(&mut parts, &mut self.parts);
        parts.push(MessagePart { range: StringRange { start, end: rel_end }, entity_selector });
        proof {
            let old_r = part_ranges(before);
            let new_r = part_ranges(parts@);
            assert(new_r == old_r.push((start as int, rel_end as int)));
            assert(ranges_ordered(new_r, rel_end as int)) by {
                assert forall|i: int, j: int| 0 <= i < j < new_r.len() implies #[trigger] new_r[i].1 <= #[trigger] new_r[j].0 by {
                    if j < old_r.len() {
                        assert(old_r[i].1 <= old_r[j].0);
                    } else {
                        assert(0 <= old_r[i].0 < old_r[i].1 <= start);
                    }
                }
            }
            assert forall|i: int| 0 <= i < parts@.len() implies self.text@[#[trigger] parts@[i].range.start as int] == '@' by {
                if i < before.len() {
                    assert(parts@[i] == before[i]);
                }
            }
        }
        self.pending = None;
        self.pos = rel_end;
        self.parts = parts;
    }

    /// Handles a selector that could not be parsed at the pending `@`: an
    /// unknown selector type ends the whole parse with that failure, and
    /// `true` is given back; any other failure is passed over and the scan
    /// goes on just after the `@`.
    pub fn selector_failed(&mut self, failure: SelectorFailure) -> (r: bool)
        requires
            old(self).pending() is Some,
        ensures
            r == (failure == SelectorFailure::UnknownSelectorType),
            final(self).line() == old(self).line(),
            final(self).text() == old(self).text(),
            final(self).offset() == old(self).offset(),
            final(self).allow_selectors() == old(self).allow_selectors(),
            final(self).parts() == old(self).parts(),
            r ==> final(self).pending() == old(self).pending() && final(self).pos() == old(self).pos(),
            !r ==> final(self).pending() is None && final(self).pos() == old(self).pos() + 1,
    {
        proof {
            use_type_invariant(&*self);
        }
        let missing = matches!(failure, SelectorFailure::MissingSelectorType);
        let unknown = matches!(failure, SelectorFailure::UnknownSelectorType);
        if !missing && unknown {
            return true;
        }
        let next = self.pos + 1;
        self.pending = None;
        self.pos = next;
        false
    }

    /// Ends a scan that has reached the end of the message: the reader is
    /// moved to the end of the line and the message is given back.
    pub fn finish(self, reader: &mut StringReader) -> (m: Message<S>)
        requires
            self.pending() is None,
            self.pos() == self.text().len(),
            old(reader).text() == self.line(),
        ensures
            final(reader).text() == old(reader).text(),
            final(reader).pos() == old(reader).text().len(),
            m.text@ == self.text(),
            m.text@ == old(reader).text().subrange(self.offset(), old(reader).text().len() as int),
            m.parts@ == self.parts(),
            ranges_ordered(part_ranges(m.parts@), m.text@.len() as int),
            forall|i: int| 0 <= i < m.parts@.len() ==> m.text@[#[trigger] m.parts@[i].range.start as int] == '@',
    {
        proof {
            use_type_invariant(&self);
        }
        let total = reader.total_length();
        reader.set_cursor(total);
        Message { text: self.text, parts: self.parts }
    }
}

/// Why parsing a message with a selector parser failed.
#[derive(Debug)]
pub enum MessageParseError<E> {
    /// The message itself was refused.
    Message(MessageError),
    /// A selector with an unknown type stands in the message; the error is
    /// the one the selector parser gave.
    Selector(E),
}

/// Whether position `k` lies inside one of `ranges`.
pub open spec fn in_some_range(ranges: Seq<(int, int)>, k: int) -> bool {
    exists|i: int| 0 <= i < ranges.len() && #[trigger] ranges[i].0 <= k < ranges[i].1
}

/// What a selector parser answers when asked at a position of the line: the
/// selector and the position where it ends, or how it failed, its error and
/// the position where it stopped.
pub type SelectorAnswer<S, E> = Result<(S, usize), (SelectorFailure, E, usize)>;

/// Whether the selector parser can answer the `@` at `at` in the line with
/// a failure other than an unknown selector type.
pub open spec fn passed_over<S, E, F: Fn(usize) -> SelectorAnswer<S, E>>(parse_selector: F, at: usize) -> bool {
    exists|f: SelectorFailure, e: E, stop: usize|
        f != SelectorFailure::UnknownSelectorType && #[trigger] parse_selector.ensures(
            (at,),
            Err::<(S, usize), (SelectorFailure, E, usize)>((f, e, stop)),
        )
}

/// Whether `parts` are the selectors that scanning the message `text`, which
/// starts at `off` in the line, finds before position `upto`: their ranges
/// come in order and end by `upto`, each starts at an `@` and is what the
/// selector parser gives there, and every other `@` before `upto` that lies
/// in none of them is one the parser passes over.
pub open spec fn scanned_up_to<S, E, F: Fn(usize) -> SelectorAnswer<S, E>>(
    parse_selector: F,
    text: Seq<char>,
    off: int,
    parts: Seq<MessagePart<S>>,
    upto: int,
) -> bool {
    &&& ranges_ordered(part_ranges(parts), upto)
    &&& forall|i: int| 0 <= i < parts.len() ==> text[#[trigger] parts[i].range.start as int] == '@'
    &&& forall|i: int|
        #![trigger parts[i]]
        0 <= i < parts.len() ==> parse_selector.ensures(
            ((off + parts[i].range.start) as usize,),
            Ok::<(S, usize), (SelectorFailure, E, usize)>(
                (parts[i].entity_selector, (off + parts[i].range.end) as usize),
            ),
        )
    &&& forall|k: int|
        0 <= k < upto && #[trigger] text[k] == '@' && !in_some_range(part_ranges(parts), k)
            ==> passed_over(parse_selector, (off + k) as usize)
}

impl MessageArgumentType {
    /// Parses the rest of the line as a message. Where selectors are allowed,
    /// the text is scanned from its start: at each `@` reached,
    /// `parse_selector` is asked (given the `@`'s position in the line) for
    /// the selector that starts there and the position where it ends, and
    /// the scan goes on from there; a failure other than an unknown selector
    /// type is passed over and the scan goes on after the `@`; an unknown
    /// selector type ends the parse with the parser's error, the reader left
    /// where the parser stopped. An accepted message leaves the reader at the
    /// end of the line; a message that is too long leaves it where it was.
    #[verifier::rlimit(40)]
    #[verifier::spinoff_prover]
    pub fn parse_with_selector_parser<S, E, F: Fn(usize) -> SelectorAnswer<S, E>>(
        reader: &mut StringReader,
        allow_selectors: bool,
        parse_selector: F,
    ) -> (r: Result<Message<S>, MessageParseError<E>>)
        requires
            forall|at: usize| #[trigger] parse_selector.requires((at,)),
            forall|at: usize, res: SelectorAnswer<S, E>|
                #[trigger] parse_selector.ensures((at,), res) ==> match res {
                    Ok((_, end)) => at < end <= old(reader).text().len(),
                    Err((_, _, stop)) => stop <= old(reader).text().len(),
                },
        ensures
            final(reader).text() == old(reader).text(),
            ({
                let off = old(reader).pos();
                let rest = old(reader).text().subrange(off, old(reader).text().len() as int);
                match r {
                    Ok(m) => {
                        &&& utf16_len(rest) <= MAX_MESSAGE_LENGTH
                        &&& m.text@ == rest
                        &&& final(reader).pos() == old(reader).text().len()
                        &&& ranges_ordered(part_ranges(m.parts@), m.text@.len() as int)
                        &&& forall|i: int|
                            0 <= i < m.parts@.len() ==> m.text@[#[trigger] m.parts@[i].range.start as int] == '@'
                        &&& !allow_selectors ==> m.parts@.len() == 0
                        &&& allow_selectors ==> scanned_up_to(parse_selector, rest, off, m.parts@, rest.len() as int)
                    },
                    Err(MessageParseError::Message(e)) => {
                        &&& utf16_len(rest) > MAX_MESSAGE_LENGTH
                        &&& e == MessageError::TooLong {
                            length: utf16_count(rest),
                            max: MAX_MESSAGE_LENGTH,
                            cursor: off as usize,
                        }
                        &&& final(reader).pos() == off
                    },
                    Err(MessageParseError::Selector(e)) => {
                        &&& allow_selectors
                        &&& utf16_len(rest) <= MAX_MESSAGE_LENGTH
                        &&& exists|k: int, parts: Seq<MessagePart<S>>|
                            0 <= k < rest.len() && rest[k] == '@' && #[trigger] scanned_up_to(
                                parse_selector,
                                rest,
                                off,
                                parts,
                                k,
                            ) && parse_selector.ensures(
                                ((off + k) as usize,),
                                Err::<(S, usize), (SelectorFailure, E, usize)>(
                                    (SelectorFailure::UnknownSelectorType, e, final(reader).pos() as usize),
                                ),
                            )
                    },
                }
            }),
    {
        let ghost line = reader.text();
        let ghost off = reader.pos();
        let ghost rest = line.subrange(off, line.len() as int);
        let mut scan: MessageScan<S> = match Self::parse_with_allow_selectors(reader, allow_selectors) {
            Ok(scan) => scan,
            Err(e) => return Err(MessageParseError::Message(e)),
        };
        loop
            invariant
                reader.text() == line,
                reader.pos() == off,
                line == old(reader).text(),
                off == old(reader).pos(),
                rest == line.subrange(off, line.len() as int),
                utf16_len(rest) <= MAX_MESSAGE_LENGTH,
                scan.line() == line,
                scan.text() == rest,
                scan.offset() == off,
                scan.allow_selectors() == allow_selectors,
                scan.pending() is None,
                scan.pos() <= scan.text().len(),
                !allow_selectors ==> scan.parts().len() == 0,
                forall|at: usize| #[trigger] parse_selector.requires((at,)),
                forall|at: usize, res: SelectorAnswer<S, E>|
                    #[trigger] parse_selector.ensures((at,), res) ==> match res {
                        Ok((_, end)) => at < end <= line.len(),
                        Err((_, _, stop)) => stop <= line.len(),
                    },
                allow_selectors ==> scanned_up_to(parse_selector, rest, off, scan.parts(), scan.pos()),
            decreases scan.text().len() - scan.pos(),
        {
            proof {
                use_type_invariant(&scan);
            }
            let ghost p0 = scan.pos();
            let ghost parts0 = scan.parts();
            match scan.next_selector() {
                Some(at) => {
                    let ghost p1 = scan.pos();
                    proof {
                        use_type_invariant(&scan);
                        assert(scanned_up_to(parse_selector, rest, off, parts0, p1)) by {
                            assert forall|k: int|
                                0 <= k < p1 && #[trigger] rest[k] == '@' && !in_some_range(part_ranges(parts0), k)
                                implies passed_over(parse_selector, (off + k) as usize) by {
                                if k >= p0 {
                                    assert(rest[k] != '@');
                                }
                            }
                        }
                    }
                    match parse_selector(at) {
                        Ok((selector, end)) => {
                            scan.selector_parsed(end, selector);
                            proof {
                                let old_r = part_ranges(parts0);
                                let new_r = part_ranges(scan.parts());
                                assert(new_r == old_r.push((p1, end - off)));
                                assert forall|k: int|
                                    0 <= k < scan.pos() && #[trigger] rest[k] == '@' && !in_some_range(new_r, k)
                                    implies passed_over(parse_selector, (off + k) as usize) by {
                                    if k >= p1 {
                                        let last = old_r.len() as int;
                                        assert(new_r[last] == (p1, end - off));
                                        assert(new_r[last].0 <= k < new_r[last].1);
                                        assert(in_some_range(new_r, k));
                                    } else if in_some_range(old_r, k) {
                                        let i = choose|i: int| 0 <= i < old_r.len() && #[trigger] old_r[i].0 <= k < old_r[i].1;
                                        assert(new_r[i] == old_r[i]);
                                        assert(new_r[i].0 <= k < new_r[i].1);
                                        assert(in_some_range(new_r, k));
                                    }
                                }
                                assert forall|i: int|
                                    #![trigger scan.parts()[i]]
                                    0 <= i < scan.parts().len() implies parse_selector.ensures(
                                        ((off + scan.parts()[i].range.start) as usize,),
                                        Ok::<(S, usize), (SelectorFailure, E, usize)>(
                                            (scan.parts()[i].entity_selector, (off + scan.parts()[i].range.end) as usize),
                                        ),
                                    ) by {
                                    if i < parts0.len() {
                                        assert(scan.parts()[i] == parts0[i]);
                                    }
                                }
                                use_type_invariant(&scan);
                            }
                        },
                        Err((failure, error, stop)) => {
                            if scan.selector_failed(failure) {
                                reader.set_cursor(stop);
                                proof {
                                    assert(rest[p1] == '@');
                                    assert(failure == SelectorFailure::UnknownSelectorType);
                                    assert((off + p1) as usize == at);
                                    assert(scan.parts() == parts0);
                                    assert(scanned_up_to(parse_selector, rest, off, parts0, p1));
                                    assert(0 <= p1 < rest.len());
                                }
                                return Err(MessageParseError::Selector(error));
                            }
                            proof {
                                let ranges = part_ranges(scan.parts());
                                assert(!in_some_range(ranges, p1)) by {
                                    if in_some_range(ranges, p1) {
                                        let i = choose|i: int| 0 <= i < ranges.len() && #[trigger] ranges[i].0 <= p1 < ranges[i].1;
                                        assert(ranges[i].1 <= p1);
                                    }
                                }
                                assert(passed_over(parse_selector, (off + p1) as usize));
                                use_type_invariant(&scan);
                            }
                        },
                    }
                },
                None => {
                    proof {
                        if allow_selectors {
                            assert forall|k: int|
                                0 <= k < rest.len() && #[trigger] rest[k] == '@' && !in_some_range(part_ranges(parts0), k)
                                implies passed_over(parse_selector, (off + k) as usize) by {
                                if k >= p0 {
                                    assert(rest[k] != '@');
                                }
                            }
                        }
                    }
                    let m = scan.finish(reader);
                    return Ok(m);
                },
            }
        }
    }
}

/// A piece of a resolved message: either a run of its text, or the place of
/// the selector with the given index, where what that selector resolves to
/// is put.
#[derive(Debug)]
pub enum Segment {
    Text(Vec<char>),
    Selector(usize),
}

/// The contents of a `Segment`.
pub enum SegmentView {
    Text(Seq<char>),
    Selector(int),
}

impl View for Segment {
    type V = SegmentView;

    open spec fn view(&self) -> SegmentView {
        match self {
            Segment::Text(t) => SegmentView::Text(t@),
            Segment::Selector(i) => SegmentView::Selector(*i as int),
        }
    }
}

/// The contents of a list of segments.
pub open spec fn segments_view(segs: Seq<Segment>) -> Seq<SegmentView> {
    segs.map_values(|s: Segment| s@)
}

/// The segments laid out for the first `k` selectors, and the position up to
/// which the text has been laid out: first the text before the first
/// selector, then for each selector the text between the previous one and
/// it, when there is any, and the selector itself.
pub open spec fn layout_prefix(text: Seq<char>, ranges: Seq<(int, int)>, k: nat) -> (Seq<SegmentView>, int)
    decreases k,
{
    if k == 0 {
        (seq![SegmentView::Text(text.subrange(0, ranges[0].0))], ranges[0].0)
    } else {
        let (segs, reading_to) = layout_prefix(text, ranges, (k - 1) as nat);
        let r = ranges[k - 1];
        let with_gap = if reading_to < r.0 {
            segs.push(SegmentView::Text(text.subrange(reading_to, r.0)))
        } else {
            segs
        };
        (with_gap.push(SegmentView::Selector(k - 1)), r.1)
    }
}

/// How a message with the given text and selector ranges is laid out: the
/// whole text alone when there are no selectors or they are not allowed;
/// otherwise the pieces of `layout_prefix` for all selectors, then the text
/// after the last one, when there is any.
pub open spec fn layout(text: Seq<char>, ranges: Seq<(int, int)>, allow_selectors: bool) -> Seq<SegmentView> {
    if ranges.len() > 0 && allow_selectors {
        let (segs, reading_to) = layout_prefix(text, ranges, ranges.len());
        if reading_to < text.len() {
            segs.push(SegmentView::Text(text.subrange(reading_to, text.len() as int)))
        } else {
            segs
        }
    } else {
        seq![SegmentView::Text(text)]
    }
}

impl<S> Message<S> {
    /// The text component of the message, laid out around its selectors:
    /// the runs of text between them, and the places where what each
    /// selector resolves to is put. When the source may not use selectors
    /// the whole text stands alone.
    pub fn resolve_text_component(&self, allow_selectors: bool) -> (r: Vec<Segment>)
        requires
            allow_selectors ==> forall|i: int|
                0 <= i < self.parts@.len() ==> #[trigger] self.parts@[i].range.start <= self.text@.len(),
        ensures
            segments_view(r@) == layout(self.text@, part_ranges(self.parts@), allow_selectors),
    {
        let ghost ranges = part_ranges(self.parts@);
        if self.parts.len() > 0 && allow_selectors {
            let mut reading_to: usize = self.parts[0].range.start;
            let mut result: Vec<Segment> = Vec::new();
            result.push(Segment::Text(char_range(&self.text, 0, reading_to)));
            proof {
                assert(segments_view(result@) =~= layout_prefix(self.text@, ranges, 0).0);
            }
            let n = self.parts.len();
            let mut i: usize = 0;
            while i < n
                invariant
                    n == self.parts@.len(),
                    allow_selectors,
                    ranges == part_ranges(self.parts@),
                    forall|i: int| 0 <= i < self.parts@.len() ==> #[trigger] self.parts@[i].range.start <= self.text@.len(),
                    i <= n,
                    (segments_view(result@), reading_to as int) == layout_prefix(self.text@, ranges, i as nat),
                decreases n - i,
            {
                let start = self.parts[i].range.start;
                let end = self.parts[i].range.end;
                let ghost before = result@;
                if reading_to < start {
                    result.push(Segment::Text(char_range(&self.text, reading_to, start)));
                }
                let ghost mid = result@;
                result.push(Segment::Selector(i));
                proof {
                    assert(segments_view(mid) =~= if (reading_to as int) < ranges[i as int].0 {
                        segments_view(before).push(SegmentView::Text(self.text@.subrange(reading_to as int, ranges[i as int].0)))
                    } else {
                        segments_view(before)
                    });
                    assert(segments_view(result@) =~= segments_view(mid).push(SegmentView::Selector(i as int)));
                }
                reading_to = end;
                i = i + 1;
            }
            if reading_to < self.text.len() {
                let ghost before = result@;
                result.push(Segment::Text(char_range(&self.text, reading_to, self.text.len())));
                proof {
                    assert(segments_view(result@) =~= segments_view(before).push(SegmentView::Text(self.text@.subrange(reading_to as int, self.text@.len() as int))));
                }
            }
            result
        } else {
            let mut result: Vec<Segment> = Vec::new();
            result.push(Segment::Text(char_range(&self.text, 0, self.text.len())));
            proof {
                assert(self.text@.subrange(0, self.text@.len() as int) =~= self.text@);
                assert(segments_view(result@) =~= seq![SegmentView::Text(self.text@)]);
            }
            result
        }
    }
}

/// The characters that a segment stands for in the message text: a run of
/// text stands for itself, a selector for the characters it was parsed from.
pub open spec fn segment_source(seg: SegmentView, text: Seq<char>, ranges: Seq<(int, int)>) -> Seq<char> {
    match seg {
        SegmentView::Text(t) => t,
        SegmentView::Selector(k) => text.subrange(ranges[k].0, ranges[k].1),
    }
}

/// The characters that a list of segments stands for, one after the other.
pub open spec fn render_source(segs: Seq<SegmentView>, text: Seq<char>, ranges: Seq<(int, int)>) -> Seq<char>
    decreases segs.len(),
{
    if segs.len() == 0 {
        Seq::empty()
    } else {
        render_source(segs.drop_last(), text, ranges) + segment_source(segs.last(), text, ranges)
    }
}

/// The indices of the selector segments, in order.
pub open spec fn selector_order(segs: Seq<SegmentView>) -> Seq<int>
    decreases segs.len(),
{
    if segs.len() == 0 {
        Seq::empty()
    } else {
        let rest = selector_order(segs.drop_last());
        match segs.last() {
            SegmentView::Selector(k) => rest.push(k),
            SegmentView::Text(_) => rest,
        }
    }
}

proof fn lemma_layout_prefix(text: Seq<char>, ranges: Seq<(int, int)>, k: nat)
    requires
        ranges_in_order(ranges, text.len() as int),
        0 < ranges.len(),
        k <= ranges.len(),
    ensures
        ({
            let (segs, reading_to) = layout_prefix(text, ranges, k);
            &&& reading_to == if k == 0 { ranges[0].0 } else { ranges[k - 1].1 }
            &&& render_source(segs, text, ranges) == text.subrange(0, reading_to)
            &&& selector_order(segs) == Seq::new(k, |i: int| i)
        }),
    decreases k,
{
    let (segs, reading_to) = layout_prefix(text, ranges, k);
    if k == 0 {
        let s0 = seq![SegmentView::Text(text.subrange(0, ranges[0].0))];
        assert(s0.drop_last() =~= Seq::<SegmentView>::empty());
        assert(render_source(s0.drop_last(), text, ranges) == Seq::<char>::empty());
        assert(selector_order(s0.drop_last()) == Seq::<int>::empty());
        assert(render_source(s0, text, ranges) =~= text.subrange(0, ranges[0].0));
        assert(selector_order(s0) =~= Seq::new(0, |i: int| i));
    } else {
        lemma_layout_prefix(text, ranges, (k - 1) as nat);
        let (prev, rt) = layout_prefix(text, ranges, (k - 1) as nat);
        let r = ranges[k - 1];
        assert(0 <= r.0 <= r.1 <= text.len());
        assert(rt <= r.0) by {
            if k >= 2 {
                assert(ranges[k - 2].1 <= ranges[k - 1].0);
            }
        }
        let with_gap = if rt < r.0 {
            prev.push(SegmentView::Text(text.subrange(rt, r.0)))
        } else {
            prev
        };
        if rt < r.0 {
            assert(with_gap.drop_last() == prev);
            assert(render_source(with_gap, text, ranges) =~= text.subrange(0, r.0));
            assert(selector_order(with_gap) == selector_order(prev));
        } else {
            assert(render_source(with_gap, text, ranges) =~= text.subrange(0, r.0));
        }
        assert(segs == with_gap.push(SegmentView::Selector(k - 1)));
        assert(segs.drop_last() == with_gap);
        assert(render_source(segs, text, ranges) =~= text.subrange(0, r.1));
        assert(selector_order(segs) =~= Seq::new(k, |i: int| i));
    }
}

/// Laying a message out loses none of its text: when the selector ranges
/// lie in order within the text (empty ones too), the runs of text and the
/// characters of the selectors, one after the other, give back the whole
/// text, and every selector has its place exactly once, in order.
pub proof fn lemma_layout_keeps_text(text: Seq<char>, ranges: Seq<(int, int)>, allow_selectors: bool)
    requires
        ranges_in_order(ranges, text.len() as int),
    ensures
        render_source(layout(text, ranges, allow_selectors), text, ranges) == text,
        selector_order(layout(text, ranges, allow_selectors)) == if ranges.len() > 0 && allow_selectors {
            Seq::new(ranges.len(), |i: int| i)
        } else {
            Seq::empty()
        },
{
    let l = layout(text, ranges, allow_selectors);
    if ranges.len() > 0 && allow_selectors {
        lemma_layout_prefix(text, ranges, ranges.len());
        let (segs, rt) = layout_prefix(text, ranges, ranges.len());
        if rt < text.len() {
            assert(l.drop_last() == segs);
            assert(render_source(l, text, ranges) =~= text);
        } else {
            assert(text.subrange(0, rt) =~= text);
        }
    } else {
        assert(l.drop_last() =~= Seq::<SegmentView>::empty());
        assert(render_source(l.drop_last(), text, ranges) == Seq::<char>::empty());
        assert(selector_order(l.drop_last()) == Seq::<int>::empty());
        assert(render_source(l, text, ranges) =~= text);
        assert(selector_order(l) =~= Seq::<int>::empty());
    }
}

/// A message that a scan ends with can always be laid out: every selector
/// starts within the text, so laying it out takes no slice outside it, and
/// the layout gives back its whole text with each selector once, in order.
pub proof fn lemma_parsed_message_lays_out<S>(m: Message<S>, allow_selectors: bool)
    requires
        ranges_ordered(part_ranges(m.parts@), m.text@.len() as int),
    ensures
        forall|i: int| 0 <= i < m.parts@.len() ==> #[trigger] m.parts@[i].range.start <= m.text@.len(),
        render_source(layout(m.text@, part_ranges(m.parts@), allow_selectors), m.text@, part_ranges(m.parts@))
            == m.text@,
        selector_order(layout(m.text@, part_ranges(m.parts@), allow_selectors)) == if m.parts@.len() > 0
            && allow_selectors {
            Seq::new(m.parts@.len(), |i: int| i)
        } else {
            Seq::empty()
        },
{
    let ranges = part_ranges(m.parts@);
    assert forall|i: int| 0 <= i < m.parts@.len() implies #[trigger] m.parts@[i].range.start <= m.text@.len() by {
        assert(ranges[i].0 == m.parts@[i].range.start);
    }
    lemma_layout_keeps_text(m.text@, ranges, allow_selectors);
}

/// The message argument type.
pub struct MessageArgumentType;

impl MessageError {
    /// The translation key of the error message, whose arguments are the
    /// length and the limit.
    pub fn translation_key(&self) -> (r: &'static str)
        ensures
            r@ == "argument.message.too_long"@,
    {
        "argument.message.too_long"
    }
}

} // verus!
