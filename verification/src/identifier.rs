//! Namespaced identifiers such as `minecraft:overworld`, read from a
//! command line.

use vstd::prelude::*;
use crate::string_reader::{char_range, StringReader};

verus! {

/// The namespace of an identifier written without one.
pub open spec fn default_namespace() -> Seq<char> {
    "minecraft"@
}

/// The characters that an identifier read from a command line may hold.
pub open spec fn allowed_in_identifier(c: char) -> bool {
    ('0' <= c && c <= '9') || ('a' <= c && c <= 'z') || c == '_' || c == ':' || c == '/' || c
        == '.' || c == '-'
}

/// The characters a namespace may hold.
pub open spec fn valid_namespace_char(c: char) -> bool {
    ('0' <= c && c <= '9') || ('a' <= c && c <= 'z') || c == '_' || c == '.' || c == '-'
}

/// The characters a path may hold.
pub open spec fn valid_path_char(c: char) -> bool {
    valid_namespace_char(c) || c == '/'
}

/// The position of the first `:` in `s`, if any.
pub open spec fn first_colon(s: Seq<char>) -> Option<int>
    decreases s.len(),
{
    if s.len() == 0 {
        None
    } else {
        match first_colon(s.drop_last()) {
            Some(i) => Some(i),
            None => if s.last() == ':' {
                Some(s.len() - 1)
            } else {
                None
            },
        }
    }
}

/// The namespace and the path that `s` is split into: at its first `:`,
/// with the default namespace when there is no `:` or nothing before it.
pub open spec fn split_identifier(s: Seq<char>) -> (Seq<char>, Seq<char>) {
    match first_colon(s) {
        None => (default_namespace(), s),
        Some(i) => if i == 0 {
            (default_namespace(), s.subrange(1, s.len() as int))
        } else {
            (s.subrange(0, i), s.subrange(i + 1, s.len() as int))
        },
    }
}

/// The identifier that `s` spells, if it is a valid one.
pub open spec fn parse_identifier(s: Seq<char>) -> Option<(Seq<char>, Seq<char>)> {
    let (namespace, path) = split_identifier(s);
    if (forall|k: int| 0 <= k < namespace.len() ==> valid_namespace_char(#[trigger] namespace[k]))
        && (forall|k: int| 0 <= k < path.len() ==> valid_path_char(#[trigger] path[k])) {
        Some((namespace, path))
    } else {
        None
    }
}

/// An identifier: a namespace and a path.
#[derive(Debug)]
pub struct Identifier {
    pub namespace: Vec<char>,
    pub path: Vec<char>,
}

/// What reading an identifier refuses.
#[derive(Clone, Copy, Debug, PartialEq, Eq, Structural)]
pub enum IdentifierError {
    /// The characters at `cursor` do not spell a valid identifier.
    Invalid { cursor: usize },
}

fn is_allowed_in_identifier(c: char) -> (r: bool)
    ensures
        r == allowed_in_identifier(c),
{
    ('0' <= c && c <= '9') || ('a' <= c && c <= 'z') || c == '_' || c == ':' || c == '/' || c
        == '.' || c == '-'
}

proof fn lemma_first_colon(s: Seq<char>)
    ensures
        first_colon(s) matches Some(i) ==> 0 <= i < s.len() && s[i] == ':' && forall|k: int| 0 <= k < i ==> s[k] != ':',
        first_colon(s) is None ==> forall|k: int| 0 <= k < s.len() ==> s[k] != ':',
    decreases s.len(),
{
    if s.len() > 0 {
        let d = s.drop_last();
        lemma_first_colon(d);
        assert forall|k: int| 0 <= k < d.len() implies d[k] == s[k] by {}
    }
}

/// Finds the first `:` in `s`.
fn find_colon(s: &Vec<char>) -> (r: Option<usize>)
    ensures
        match r {
            Some(i) => first_colon(s@) == Some(i as int),
            None => first_colon(s@) is None,
        },
{
    let mut i: usize = 0;
    while i < s.len()
        invariant
            i <= s@.len(),
            first_colon(s@.subrange(0, i as int)) is None,
        decreases s.len() - i,
    {
        proof {
            assert(s@.subrange(0, i + 1).drop_last() == s@.subrange(0, i as int));
        }
        if s[i] == ':' {
            proof {
                lemma_first_colon(s@);
                lemma_first_colon(s@.subrange(0, i as int));
                assert forall|k: int| 0 <= k < i implies s@[k] != ':' by {
                    assert(s@.subrange(0, i as int)[k] == s@[k]);
                }
                if first_colon(s@) != Some(i as int) {
                    match first_colon(s@) {
                        Some(j) => {
                            if j < i {
                            } else {
                                assert(s@[i as int] != ':');
                            }
                        },
                        None => {},
                    }
                }
            }
            return Some(i);
        }
        i = i + 1;
    }
    assert(s@.subrange(0, s@.len() as int) == s@);
    None
}

fn all_valid(s: &Vec<char>, allow_slash: bool) -> (r: bool)
    ensures
        r == forall|k: int|
            0 <= k < s@.len() ==> (if allow_slash {
                valid_path_char(#[trigger] s@[k])
            } else {
                valid_namespace_char(s@[k])
            }),
{
    let mut i: usize = 0;
    while i < s.len()
        invariant
            i <= s@.len(),
            forall|k: int|
                0 <= k < i ==> (if allow_slash {
                    valid_path_char(#[trigger] s@[k])
                } else {
                    valid_namespace_char(s@[k])
                }),
        decreases s.len() - i,
    {
        let c = s[i];
        let ok = ('0' <= c && c <= '9') || ('a' <= c && c <= 'z') || c == '_' || c == '.' || c
            == '-' || (allow_slash && c == '/');
        if !ok {
            return false;
        }
        i = i + 1;
    }
    true
}

impl Identifier {
    /// The characters of `namespace:path`.
    pub fn to_chars(&self) -> (r: Vec<char>)
        ensures
            r@ == self.namespace@ + seq![':'] + self.path@,
    {
        let mut r: Vec<char> = char_range(&self.namespace, 0, self.namespace.len());
        r.push(':');
        let mut i: usize = 0;
        while i < self.path.len()
            invariant
                i <= self.path@.len(),
                r@ == self.namespace@ + seq![':'] + self.path@.subrange(0, i as int),
            decreases self.path.len() - i,
        {
            r.push(self.path[i]);
            i = i + 1;
        }
        proof {
            assert(self.namespace@.subrange(0, self.namespace@.len() as int) == self.namespace@);
            assert(self.path@.subrange(0, self.path@.len() as int) == self.path@);
        }
        r
    }

    /// Reads the longest run of identifier characters from the reader's
    /// position and gives back the identifier it spells. When it spells none,
    /// the reader goes back to where the run started and the read is refused.
    pub fn from_reader(reader: &mut StringReader) -> (r: Result<Identifier, IdentifierError>)
        ensures
            final(reader).text() == old(reader).text(),
            ({
                let start = old(reader).pos();
                let text = old(reader).text();
                match r {
                    Ok(id) => {
                        &&& start <= final(reader).pos() <= text.len()
                        &&& forall|k: int| start <= k < final(reader).pos() ==> allowed_in_identifier(#[trigger] text[k])
                        &&& final(reader).pos() == text.len() || !allowed_in_identifier(text[final(reader).pos()])
                        &&& parse_identifier(text.subrange(start, final(reader).pos())) == Some((id.namespace@, id.path@))
                    },
                    Err(e) => {
                        &&& final(reader).pos() == start
                        &&& e == IdentifierError::Invalid { cursor: start as usize }
                        &&& exists|end: int| #![trigger text.subrange(start, end)]
                            start <= end <= text.len()
                            && (forall|k: int| start <= k < end ==> allowed_in_identifier(#[trigger] text[k]))
                            && (end == text.len() || !allowed_in_identifier(text[end]))
                            && parse_identifier(text.subrange(start, end)) is None
                    },
                }
            }),
    {
        let start = reader.cursor();
        while reader.can_read() && is_allowed_in_identifier(reader.peek().unwrap())
            invariant
                reader.text() == old(reader).text(),
                start == old(reader).pos(),
                start <= reader.pos() <= reader.text().len(),
                forall|k: int| start <= k < reader.pos() ==> allowed_in_identifier(#[trigger] reader.text()[k]),
            decreases reader.text().len() - reader.pos(),
        {
            reader.skip();
        }
        let end = reader.cursor();
        let line = reader.text_chars();
        let word = char_range(&line, start, end);
        proof {
            lemma_first_colon(word@);
        }
        let (namespace, path) = match find_colon(&word) {
            None => (str_to_chars_minecraft(), word),
            Some(i) => {
                if i == 0 {
                    (str_to_chars_minecraft(), char_range(&word, 1, word.len()))
                } else {
                    (char_range(&word, 0, i), char_range(&word, i + 1, word.len()))
                }
            },
        };
        if all_valid(&namespace, false) && all_valid(&path, true) {
            Ok(Identifier { namespace, path })
        } else {
            reader.set_cursor(start);
            Err(IdentifierError::Invalid { cursor: start })
        }
    }
}

fn str_to_chars_minecraft() -> (r: Vec<char>)
    ensures
        r@ == default_namespace(),
{
    crate::string_reader::str_chars("minecraft")
}

impl IdentifierError {
    /// The translation key of the error message.
    pub fn translation_key(&self) -> (r: &'static str)
        ensures
            r@ == "argument.id.invalid"@,
    {
        "argument.id.invalid"
    }
}

} // verus!
