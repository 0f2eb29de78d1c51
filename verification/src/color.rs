//! The color argument: one of the sixteen named text colors, or `reset`.

use vstd::prelude::*;
use crate::string_reader::{StringReader, allowed_in_unquoted, str_chars};

verus! {

/// The sixteen named text colors.
#[derive(Clone, Copy, Debug, PartialEq, Eq, Structural, PartialOrd, Ord, Hash)]
pub enum NamedColor {
    Black,
    DarkBlue,
    DarkGreen,
    DarkAqua,
    DarkRed,
    DarkPurple,
    Gold,
    Gray,
    DarkGray,
    Blue,
    Green,
    Aqua,
    Red,
    LightPurple,
    Yellow,
    White,
}

/// A color that can either be `Reset` or a [`NamedColor`].
#[derive(Clone, Copy, Debug, PartialEq, Eq, Structural, PartialOrd, Ord, Hash)]
pub enum NonRgbColor {
    Reset,
    Named(NamedColor),
}

impl Default for NonRgbColor {
    fn default() -> (r: NonRgbColor)
        ensures
            r == NonRgbColor::Reset,
    {
        NonRgbColor::Reset
    }
}

/// The color argument type.
pub struct ColorArgumentType;

/// What the color argument refuses.
#[derive(Debug)]
pub enum ColorError {
    /// The word, once cleaned, names no color; `given` is the cleaned word.
    InvalidValue { given: Vec<char> },
}

/// `c` with an ASCII upper-case letter turned into lower case.
pub open spec fn ascii_lower(c: char) -> char {
    if 'A' <= c && c <= 'Z' {
        ((c as u32) + 32) as char
    } else {
        c
    }
}

/// The characters that are left out of a color name before it is looked up.
pub open spec fn ignored_in_color(c: char) -> bool {
    c == '.' || c == '_' || c == '+' || c == '-' || ('0' <= c && c <= '9')
}

/// A word in lower case, without the characters that are left out.
pub open spec fn clean_color_word(s: Seq<char>) -> Seq<char>
    decreases s.len(),
{
    if s.len() == 0 {
        Seq::empty()
    } else {
        let rest = clean_color_word(s.drop_last());
        let c = ascii_lower(s.last());
        if ignored_in_color(c) {
            rest
        } else {
            rest.push(c)
        }
    }
}

/// The color a cleaned word names, if any.
pub open spec fn color_by_name(s: Seq<char>) -> Option<NonRgbColor> {
    if s == "black"@ {
        Some(NonRgbColor::Named(NamedColor::Black))
    } else if s == "darkblue"@ {
        Some(NonRgbColor::Named(NamedColor::DarkBlue))
    } else if s == "darkgreen"@ {
        Some(NonRgbColor::Named(NamedColor::DarkGreen))
    } else if s == "darkaqua"@ {
        Some(NonRgbColor::Named(NamedColor::DarkAqua))
    } else if s == "darkred"@ {
        Some(NonRgbColor::Named(NamedColor::DarkRed))
    } else if s == "darkpurple"@ {
        Some(NonRgbColor::Named(NamedColor::DarkPurple))
    } else if s == "gold"@ {
        Some(NonRgbColor::Named(NamedColor::Gold))
    } else if s == "gray"@ {
        Some(NonRgbColor::Named(NamedColor::Gray))
    } else if s == "darkgray"@ {
        Some(NonRgbColor::Named(NamedColor::DarkGray))
    } else if s == "blue"@ {
        Some(NonRgbColor::Named(NamedColor::Blue))
    } else if s == "green"@ {
        Some(NonRgbColor::Named(NamedColor::Green))
    } else if s == "aqua"@ {
        Some(NonRgbColor::Named(NamedColor::Aqua))
    } else if s == "red"@ {
        Some(NonRgbColor::Named(NamedColor::Red))
    } else if s == "lightpurple"@ {
        Some(NonRgbColor::Named(NamedColor::LightPurple))
    } else if s == "yellow"@ {
        Some(NonRgbColor::Named(NamedColor::Yellow))
    } else if s == "white"@ {
        Some(NonRgbColor::Named(NamedColor::White))
    } else if s == "reset"@ {
        Some(NonRgbColor::Reset)
    } else {
        None
    }
}

/// Turns an ASCII upper-case letter into lower case.
pub fn to_ascii_lower(c: char) -> (r: char)
    ensures
        r == ascii_lower(c),
{
    if 'A' <= c && c <= 'Z' {
        let b: u8 = (c as u32 + 32) as u8;
        b as char
    } else {
        c
    }
}

/// Whether the characters `s` are those of `lit`.
pub fn chars_eq_str(s: &Vec<char>, lit: &str) -> (r: bool)
    ensures
        r == (s@ == lit@),
{
    let n = lit.unicode_len();
    if n != s.len() {
        return false;
    }
    let mut i: usize = 0;
    while i < n
        invariant
            n == lit@.len() == s@.len(),
            i <= n,
            forall|k: int| 0 <= k < i ==> s@[k] == lit@[k],
        decreases n - i,
    {
        if s[i] != lit.get_char(i) {
            return false;
        }
        i = i + 1;
    }
    assert(s@ =~= lit@);
    true
}

/// Cleans a word: ASCII letters to lower case, and the characters that are
/// left out removed.
pub fn clean_word(word: &Vec<char>) -> (r: Vec<char>)
    ensures
        r@ == clean_color_word(word@),
{
    let mut r: Vec<char> = Vec::new();
    let mut i: usize = 0;
    while i < word.len()
        invariant
            i <= word@.len(),
            r@ == clean_color_word(word@.subrange(0, i as int)),
        decreases word.len() - i,
    {
        proof {
            assert(word@.subrange(0, i + 1).drop_last() == word@.subrange(0, i as int));
        }
        let c = to_ascii_lower(word[i]);
        if !(c == '.' || c == '_' || c == '+' || c == '-' || ('0' <= c && c <= '9')) {
            r.push(c);
        }
        i = i + 1;
    }
    assert(word@.subrange(0, word@.len() as int) == word@);
    r
}

/// Looks a cleaned word up among the color names.
pub fn color_for_name(s: &Vec<char>) -> (r: Option<NonRgbColor>)
    ensures
        r == color_by_name(s@),
{
    if chars_eq_str(s, "black") {
        Some(NonRgbColor::Named(NamedColor::Black))
    } else if chars_eq_str(s, "darkblue") {
        Some(NonRgbColor::Named(NamedColor::DarkBlue))
    } else if chars_eq_str(s, "darkgreen") {
        Some(NonRgbColor::Named(NamedColor::DarkGreen))
    } else if chars_eq_str(s, "darkaqua") {
        Some(NonRgbColor::Named(NamedColor::DarkAqua))
    } else if chars_eq_str(s, "darkred") {
        Some(NonRgbColor::Named(NamedColor::DarkRed))
    } else if chars_eq_str(s, "darkpurple") {
        Some(NonRgbColor::Named(NamedColor::DarkPurple))
    } else if chars_eq_str(s, "gold") {
        Some(NonRgbColor::Named(NamedColor::Gold))
    } else if chars_eq_str(s, "gray") {
        Some(NonRgbColor::Named(NamedColor::Gray))
    } else if chars_eq_str(s, "darkgray") {
        Some(NonRgbColor::Named(NamedColor::DarkGray))
    } else if chars_eq_str(s, "blue") {
        Some(NonRgbColor::Named(NamedColor::Blue))
    } else if chars_eq_str(s, "green") {
        Some(NonRgbColor::Named(NamedColor::Green))
    } else if chars_eq_str(s, "aqua") {
        Some(NonRgbColor::Named(NamedColor::Aqua))
    } else if chars_eq_str(s, "red") {
        Some(NonRgbColor::Named(NamedColor::Red))
    } else if chars_eq_str(s, "lightpurple") {
        Some(NonRgbColor::Named(NamedColor::LightPurple))
    } else if chars_eq_str(s, "yellow") {
        Some(NonRgbColor::Named(NamedColor::Yellow))
    } else if chars_eq_str(s, "white") {
        Some(NonRgbColor::Named(NamedColor::White))
    } else if chars_eq_str(s, "reset") {
        Some(NonRgbColor::Reset)
    } else {
        None
    }
}

impl ColorArgumentType {
    /// Reads a word without quotes, cleans it (ASCII letters to lower case;
    /// `.`, `_`, `+`, `-` and digits removed) and gives back the color it
    /// names; a word that names none is refused with the cleaned word.
    pub fn parse(&self, reader: &mut StringReader) -> (r: Result<NonRgbColor, ColorError>)
        ensures
            final(reader).text() == old(reader).text(),
            old(reader).pos() <= final(reader).pos() <= old(reader).text().len(),
            forall|k: int|
                old(reader).pos() <= k < final(reader).pos() ==> allowed_in_unquoted(
                    #[trigger] old(reader).text()[k],
                ),
            final(reader).pos() == old(reader).text().len() || !allowed_in_unquoted(
                old(reader).text()[final(reader).pos()],
            ),
            ({
                let cleaned = clean_color_word(old(reader).text().subrange(old(reader).pos(), final(reader).pos()));
                match r {
                    Ok(c) => color_by_name(cleaned) == Some(c),
                    Err(ColorError::InvalidValue { given }) => color_by_name(cleaned) is None && given@ == cleaned,
                }
            }),
    {
        let id = reader.read_unquoted_string();
        let checked_id = clean_word(&id);
        match color_for_name(&checked_id) {
            Some(c) => Ok(c),
            None => Err(ColorError::InvalidValue { given: checked_id }),
        }
    }
}

/// The names offered as suggestions, in order.
pub open spec fn color_suggestion_names() -> Seq<Seq<char>> {
    seq![
        "black"@,
        "dark_blue"@,
        "dark_green"@,
        "dark_aqua"@,
        "dark_red"@,
        "dark_purple"@,
        "gold"@,
        "gray"@,
        "dark_gray"@,
        "blue"@,
        "green"@,
        "aqua"@,
        "red"@,
        "light_purple"@,
        "yellow"@,
        "white"@,
        "reset"@,
    ]
}

/// `s` with its ASCII upper-case letters in lower case.
pub open spec fn lower_ascii_word(s: Seq<char>) -> Seq<char> {
    s.map_values(|c: char| ascii_lower(c))
}

/// Whether `input` stands in `candidate` at its start or just after one of
/// its underscores.
pub open spec fn matches_at_word_start(input: Seq<char>, candidate: Seq<char>) -> bool {
    exists|i: int|
        0 <= i && i + input.len() <= candidate.len() && (i == 0 || candidate[i - 1] == '_')
            && #[trigger] candidate.subrange(i, i + input.len()) == input
}

/// The candidates, in order, that `input` matches.
pub open spec fn suggestions_for(input: Seq<char>, candidates: Seq<Seq<char>>) -> Seq<Seq<char>>
    decreases candidates.len(),
{
    if candidates.len() == 0 {
        Seq::empty()
    } else {
        let rest = suggestions_for(input, candidates.drop_last());
        if matches_at_word_start(input, candidates.last()) {
            rest.push(candidates.last())
        } else {
            rest
        }
    }
}

/// Whether `input` stands in `candidate` at its start or just after one of
/// its underscores.
pub fn matches_sub_str(input: &Vec<char>, candidate: &Vec<char>) -> (r: bool)
    ensures
        r == matches_at_word_start(input@, candidate@),
{
    if input.len() > candidate.len() {
        return false;
    }
    let last = candidate.len() - input.len();
    let mut i: usize = 0;
    loop
        invariant
            last + input.len() == candidate.len(),
            i <= last,
            forall|j: int|
                0 <= j < i && (j == 0 || candidate@[j - 1] == '_') ==> #[trigger] candidate@.subrange(j, j + input@.len()) != input@,
        decreases last - i,
    {
        if i == 0 || candidate[i - 1] == '_' {
            let mut k: usize = 0;
            let mut same = true;
            while k < input.len()
                invariant
                    i <= last,
                    last + input.len() == candidate.len(),
                    k <= input@.len(),
                    same == forall|m: int| 0 <= m < k ==> candidate@[i + m] == input@[m],
                decreases input.len() - k,
            {
                if candidate[i + k] != input[k] {
                    same = false;
                }
                k = k + 1;
            }
            if same {
                assert(candidate@.subrange(i as int, i + input@.len()) =~= input@);
                return true;
            } else {
                assert(candidate@.subrange(i as int, i + input@.len()) != input@) by {
                    let m = choose|m: int| 0 <= m < input@.len() && candidate@[i + m] != input@[m];
                    assert(candidate@.subrange(i as int, i + input@.len())[m] != input@[m]);
                }
            }
        }
        if i == last {
            return false;
        }
        i = i + 1;
    }
}

impl ColorArgumentType {
    /// The color names that the typed part of the argument matches, in the
    /// order in which they are offered: a name is offered when the typed
    /// part, with its ASCII letters in lower case, stands at its start or
    /// just after one of its underscores.
    pub fn list_suggestions(&self, remaining: &Vec<char>) -> (r: Vec<&'static str>)
        ensures
            r@.map_values(|s: &str| s@) == suggestions_for(lower_ascii_word(remaining@), color_suggestion_names()),
    {
        let names: Vec<&'static str> = vec![
            "black",
            "dark_blue",
            "dark_green",
            "dark_aqua",
            "dark_red",
            "dark_purple",
            "gold",
            "gray",
            "dark_gray",
            "blue",
            "green",
            "aqua",
            "red",
            "light_purple",
            "yellow",
            "white",
            "reset",
        ];
        let ghost all = color_suggestion_names();
        assert(names@.map_values(|s: &str| s@) =~= all);
        let mut input: Vec<char> = Vec::new();
        let mut j: usize = 0;
        while j < remaining.len()
            invariant
                j <= remaining@.len(),
                input@ == lower_ascii_word(remaining@.subrange(0, j as int)),
            decreases remaining.len() - j,
        {
            input.push(to_ascii_lower(remaining[j]));
            j = j + 1;
            assert(input@ =~= lower_ascii_word(remaining@.subrange(0, j as int)));
        }
        assert(remaining@.subrange(0, remaining@.len() as int) == remaining@);
        let mut r: Vec<&'static str> = Vec::new();
        let mut i: usize = 0;
        while i < names.len()
            invariant
                names@.map_values(|s: &str| s@) == all,
                input@ == lower_ascii_word(remaining@),
                i <= names@.len(),
                r@.map_values(|s: &str| s@) == suggestions_for(input@, all.subrange(0, i as int)),
            decreases names.len() - i,
        {
            let name = names[i];
            let cand = str_chars(name);
            let ghost before = r@;
            proof {
                assert(all.subrange(0, i + 1).drop_last() == all.subrange(0, i as int));
                assert(all[i as int] == name@);
            }
            if matches_sub_str(&input, &cand) {
                r.push(name);
                assert(r@.map_values(|s: &str| s@) =~= before.map_values(|s: &str| s@).push(name@));
            }
            i = i + 1;
        }
        assert(all.subrange(0, names@.len() as int) == all);
        r
    }
}

/// The colors that the suggestions name, in the same order.
pub open spec fn suggested_colors() -> Seq<NonRgbColor> {
    seq![
        NonRgbColor::Named(NamedColor::Black),
        NonRgbColor::Named(NamedColor::DarkBlue),
        NonRgbColor::Named(NamedColor::DarkGreen),
        NonRgbColor::Named(NamedColor::DarkAqua),
        NonRgbColor::Named(NamedColor::DarkRed),
        NonRgbColor::Named(NamedColor::DarkPurple),
        NonRgbColor::Named(NamedColor::Gold),
        NonRgbColor::Named(NamedColor::Gray),
        NonRgbColor::Named(NamedColor::DarkGray),
        NonRgbColor::Named(NamedColor::Blue),
        NonRgbColor::Named(NamedColor::Green),
        NonRgbColor::Named(NamedColor::Aqua),
        NonRgbColor::Named(NamedColor::Red),
        NonRgbColor::Named(NamedColor::LightPurple),
        NonRgbColor::Named(NamedColor::Yellow),
        NonRgbColor::Named(NamedColor::White),
        NonRgbColor::Reset,
    ]
}

proof fn lemma_candidates_accepted()
    ensures
        forall|i: int| 0 <= i < 17 ==> color_by_name(clean_color_word(#[trigger] color_suggestion_names()[i])) == Some(suggested_colors()[i]),
        forall|c: NonRgbColor| suggested_colors().contains(c),
{
    reveal_strlit("aqua");
    reveal_strlit("black");
    reveal_strlit("blue");
    reveal_strlit("dark_aqua");
    reveal_strlit("dark_blue");
    reveal_strlit("dark_gray");
    reveal_strlit("dark_green");
    reveal_strlit("dark_purple");
    reveal_strlit("dark_red");
    reveal_strlit("darkaqua");
    reveal_strlit("darkblue");
    reveal_strlit("darkgray");
    reveal_strlit("darkgreen");
    reveal_strlit("darkpurple");
    reveal_strlit("darkred");
    reveal_strlit("gold");
    reveal_strlit("gray");
    reveal_strlit("green");
    reveal_strlit("light_purple");
    reveal_strlit("lightpurple");
    reveal_strlit("red");
    reveal_strlit("reset");
    reveal_strlit("white");
    reveal_strlit("yellow");
    reveal_with_fuel(clean_color_word, 13);
    assert(clean_color_word("black"@) =~= "black"@);
    assert(clean_color_word("dark_blue"@) =~= "darkblue"@);
    assert(clean_color_word("dark_green"@) =~= "darkgreen"@);
    assert(clean_color_word("dark_aqua"@) =~= "darkaqua"@);
    assert(clean_color_word("dark_red"@) =~= "darkred"@);
    assert(clean_color_word("dark_purple"@) =~= "darkpurple"@);
    assert(clean_color_word("gold"@) =~= "gold"@);
    assert(clean_color_word("gray"@) =~= "gray"@);
    assert(clean_color_word("dark_gray"@) =~= "darkgray"@);
    assert(clean_color_word("blue"@) =~= "blue"@);
    assert(clean_color_word("green"@) =~= "green"@);
    assert(clean_color_word("aqua"@) =~= "aqua"@);
    assert(clean_color_word("red"@) =~= "red"@);
    assert(clean_color_word("light_purple"@) =~= "lightpurple"@);
    assert(clean_color_word("yellow"@) =~= "yellow"@);
    assert(clean_color_word("white"@) =~= "white"@);
    assert(clean_color_word("reset"@) =~= "reset"@);
    let names = color_suggestion_names();
    let colors = suggested_colors();
    assert forall|i: int| 0 <= i < 17 implies color_by_name(clean_color_word(#[trigger] names[i])) == Some(colors[i]) by {
        if i == 0 {
            assert(names[i] == "black"@);
            assert(color_by_name("black"@) == Some(colors[i]));
        }
        if i == 1 {
            assert(names[i] == "dark_blue"@);
            assert(color_by_name("darkblue"@) == Some(colors[i]));
        }
        if i == 2 {
            assert(names[i] == "dark_green"@);
            assert(color_by_name("darkgreen"@) == Some(colors[i]));
        }
        if i == 3 {
            assert(names[i] == "dark_aqua"@);
            assert("darkaqua"@[4] != "darkblue"@[4]);
            assert(color_by_name("darkaqua"@) == Some(colors[i]));
        }
        if i == 4 {
            assert(names[i] == "dark_red"@);
            assert(color_by_name("darkred"@) == Some(colors[i]));
        }
        if i == 5 {
            assert(names[i] == "dark_purple"@);
            assert(color_by_name("darkpurple"@) == Some(colors[i]));
        }
        if i == 6 {
            assert(names[i] == "gold"@);
            assert(color_by_name("gold"@) == Some(colors[i]));
        }
        if i == 7 {
            assert(names[i] == "gray"@);
            assert(color_by_name("gray"@) == Some(colors[i]));
        }
        if i == 8 {
            assert(names[i] == "dark_gray"@);
            assert("darkgray"@[4] != "darkblue"@[4]);
            assert("darkgray"@[4] != "darkaqua"@[4]);
            assert(color_by_name("darkgray"@) == Some(colors[i]));
        }
        if i == 9 {
            assert(names[i] == "blue"@);
            assert(color_by_name("blue"@) == Some(colors[i]));
        }
        if i == 10 {
            assert(names[i] == "green"@);
            assert(color_by_name("green"@) == Some(colors[i]));
        }
        if i == 11 {
            assert(names[i] == "aqua"@);
            assert(color_by_name("aqua"@) == Some(colors[i]));
        }
        if i == 12 {
            assert(names[i] == "red"@);
            assert(color_by_name("red"@) == Some(colors[i]));
        }
        if i == 13 {
            assert(names[i] == "light_purple"@);
            assert(color_by_name("lightpurple"@) == Some(colors[i]));
        }
        if i == 14 {
            assert(names[i] == "yellow"@);
            assert(color_by_name("yellow"@) == Some(colors[i]));
        }
        if i == 15 {
            assert(names[i] == "white"@);
            assert(color_by_name("white"@) == Some(colors[i]));
        }
        if i == 16 {
            assert(names[i] == "reset"@);
            assert(color_by_name("reset"@) == Some(colors[i]));
        }
    }
    assert forall|c: NonRgbColor| colors.contains(c) by {
        let i: int = match c {
            NonRgbColor::Named(NamedColor::Black) => 0,
            NonRgbColor::Named(NamedColor::DarkBlue) => 1,
            NonRgbColor::Named(NamedColor::DarkGreen) => 2,
            NonRgbColor::Named(NamedColor::DarkAqua) => 3,
            NonRgbColor::Named(NamedColor::DarkRed) => 4,
            NonRgbColor::Named(NamedColor::DarkPurple) => 5,
            NonRgbColor::Named(NamedColor::Gold) => 6,
            NonRgbColor::Named(NamedColor::Gray) => 7,
            NonRgbColor::Named(NamedColor::DarkGray) => 8,
            NonRgbColor::Named(NamedColor::Blue) => 9,
            NonRgbColor::Named(NamedColor::Green) => 10,
            NonRgbColor::Named(NamedColor::Aqua) => 11,
            NonRgbColor::Named(NamedColor::Red) => 12,
            NonRgbColor::Named(NamedColor::LightPurple) => 13,
            NonRgbColor::Named(NamedColor::Yellow) => 14,
            NonRgbColor::Named(NamedColor::White) => 15,
            NonRgbColor::Reset => 16,
        };
        assert(colors[i] == c);
    }
}

impl ColorError {
    /// The translation key of the error message.
    pub fn translation_key(&self) -> (r: &'static str)
        ensures
            r@ == "argument.color.invalid"@,
    {
        "argument.color.invalid"
    }
}

proof fn lemma_clean_concat(a: Seq<char>, b: Seq<char>)
    ensures
        clean_color_word(a + b) == clean_color_word(a) + clean_color_word(b),
    decreases b.len(),
{
    if b.len() == 0 {
        assert(a + b =~= a);
        assert(clean_color_word(a) + clean_color_word(b) =~= clean_color_word(a));
    } else {
        lemma_clean_concat(a, b.drop_last());
        assert((a + b).drop_last() =~= a + b.drop_last());
        assert((a + b).last() == b.last());
        let c = ascii_lower(b.last());
        if !ignored_in_color(c) {
            assert(clean_color_word(a) + clean_color_word(b.drop_last()).push(c) =~= (clean_color_word(a)
                + clean_color_word(b.drop_last())).push(c));
        }
    }
}

/// The color a word names does not depend on the case of its ASCII
/// letters: two words of the same length whose characters agree up to
/// ASCII case are cleaned alike, so the color argument gives the same
/// answer for both.
pub proof fn lemma_color_word_ignores_case(a: Seq<char>, b: Seq<char>)
    requires
        a.len() == b.len(),
        forall|i: int| 0 <= i < a.len() ==> ascii_lower(#[trigger] a[i]) == ascii_lower(b[i]),
    ensures
        clean_color_word(a) == clean_color_word(b),
        color_by_name(clean_color_word(a)) == color_by_name(clean_color_word(b)),
    decreases a.len(),
{
    if a.len() > 0 {
        let a2 = a.drop_last();
        let b2 = b.drop_last();
        assert forall|i: int| 0 <= i < a2.len() implies ascii_lower(#[trigger] a2[i]) == ascii_lower(b2[i]) by {
            assert(ascii_lower(a[i]) == ascii_lower(b[i]));
        }
        lemma_color_word_ignores_case(a2, b2);
        assert(ascii_lower(a[a.len() - 1]) == ascii_lower(b[b.len() - 1]));
    }
}

/// The color a word names does not depend on the characters that are left
/// out: putting one of `.`, `_`, `+`, `-` or a digit anywhere into a word
/// (or taking it out) leaves its cleaning, and so the color argument's
/// answer, unchanged.
pub proof fn lemma_color_word_ignores_left_out(a: Seq<char>, c: char, b: Seq<char>)
    requires
        ignored_in_color(c),
    ensures
        clean_color_word(a + seq![c] + b) == clean_color_word(a + b),
        color_by_name(clean_color_word(a + seq![c] + b)) == color_by_name(clean_color_word(a + b)),
{
    lemma_clean_concat(a + seq![c], b);
    lemma_clean_concat(a, seq![c]);
    lemma_clean_concat(a, b);
    let one = seq![c];
    assert(one.drop_last() =~= Seq::<char>::empty());
    assert(clean_color_word(one.drop_last()) == Seq::<char>::empty());
    assert(clean_color_word(one) =~= Seq::<char>::empty());
    assert(clean_color_word(a) + clean_color_word(one) =~= clean_color_word(a));
}

/// The characters of a word that are not left out of a color name, in order.
pub open spec fn kept_color_chars(s: Seq<char>) -> Seq<char>
    decreases s.len(),
{
    if s.len() == 0 {
        Seq::empty()
    } else if ignored_in_color(s.last()) {
        kept_color_chars(s.drop_last())
    } else {
        kept_color_chars(s.drop_last()).push(s.last())
    }
}

proof fn lemma_clean_is_lowered_kept(s: Seq<char>)
    ensures
        clean_color_word(s) == lower_ascii_word(kept_color_chars(s)),
    decreases s.len(),
{
    if s.len() > 0 {
        lemma_clean_is_lowered_kept(s.drop_last());
        let k = kept_color_chars(s.drop_last());
        assert(ignored_in_color(ascii_lower(s.last())) == ignored_in_color(s.last()));
        assert(lower_ascii_word(k.push(s.last())) =~= lower_ascii_word(k).push(ascii_lower(s.last())));
    } else {
        assert(lower_ascii_word(kept_color_chars(s)) =~= Seq::<char>::empty());
    }
}

/// The color a word names depends only on the characters that are not left
/// out, and on those only up to ASCII case: two words whose kept characters
/// agree up to ASCII case, however many letters changed case and however
/// many of `.`, `_`, `+`, `-` and digits were put in or taken out between
/// them, are cleaned alike and so name the same color, or both none.
pub proof fn lemma_color_word_depends_on_kept_letters(a: Seq<char>, b: Seq<char>)
    requires
        kept_color_chars(a).len() == kept_color_chars(b).len(),
        forall|i: int|
            0 <= i < kept_color_chars(a).len() ==> ascii_lower(#[trigger] kept_color_chars(a)[i])
                == ascii_lower(kept_color_chars(b)[i]),
    ensures
        clean_color_word(a) == clean_color_word(b),
        color_by_name(clean_color_word(a)) == color_by_name(clean_color_word(b)),
{
    lemma_clean_is_lowered_kept(a);
    lemma_clean_is_lowered_kept(b);
    assert(lower_ascii_word(kept_color_chars(a)) =~= lower_ascii_word(kept_color_chars(b)));
}

/// Lower-casing leaves no ASCII upper-case letter, and changes a character
/// only by turning an ASCII upper-case letter into its lower-case letter
/// (the code 32 above it); every other character is kept.
pub proof fn lemma_ascii_lower_lowers(c: char)
    ensures
        !('A' <= ascii_lower(c) && ascii_lower(c) <= 'Z'),
        ('A' <= c && c <= 'Z') ==> ascii_lower(c) as u32 == c as u32 + 32 && 'a' <= ascii_lower(c) && ascii_lower(c) <= 'z',
        !('A' <= c && c <= 'Z') ==> ascii_lower(c) == c,
{
}

/// Whether `b` is `a` with any of its lower-case ASCII letters written in
/// upper case: each character of `b` is that of `a`, or an upper-case ASCII
/// letter whose code is 32 below that of `a`'s.
pub open spec fn upper_cased_from(a: Seq<char>, b: Seq<char>) -> bool {
    &&& a.len() == b.len()
    &&& forall|i: int|
        0 <= i < a.len() ==> #[trigger] b[i] == a[i] || ('A' <= b[i] && b[i] <= 'Z' && b[i] as u32 + 32 == a[i] as u32)
}

/// Any spelling of a color name with some of its letters in upper case, the
/// all-upper-case one among them, names the same color as the name.
pub proof fn lemma_color_names_ignore_case(i: int, w: Seq<char>)
    requires
        0 <= i < 17,
        upper_cased_from(color_suggestion_names()[i], w),
    ensures
        color_by_name(clean_color_word(w)) == Some(suggested_colors()[i]),
{
    let n = color_suggestion_names()[i];
    assert forall|j: int| 0 <= j < n.len() implies ascii_lower(#[trigger] n[j]) == ascii_lower(w[j]) by {
        if w[j] != n[j] {
            assert('A' <= w[j] && w[j] <= 'Z');
            assert(ascii_lower(w[j]) as u32 == n[j] as u32);
            vstd::utf8::char_u32_cast(n[j], n[j] as u32);
            vstd::utf8::char_u32_cast(ascii_lower(w[j]), n[j] as u32);
        }
    }
    lemma_color_word_ignores_case(n, w);
    lemma_candidates_accepted();
    assert(color_by_name(clean_color_word(n)) == Some(suggested_colors()[i]));
}

/// Whether `input` begins `name`, or begins the part of `name` that follows
/// one of its underscores.
pub open spec fn begins_a_word_of(input: Seq<char>, name: Seq<char>) -> bool {
    ||| input.is_prefix_of(name)
    ||| exists|u: int| 0 <= u < name.len() && #[trigger] name[u] == '_' && input.is_prefix_of(name.skip(u + 1))
}

/// Matching a typed text against a name is finding it at the start of the
/// name or at the start of a part after an underscore, and nowhere else.
pub proof fn lemma_match_is_word_start(input: Seq<char>, name: Seq<char>)
    ensures
        matches_at_word_start(input, name) <==> begins_a_word_of(input, name),
{
    if matches_at_word_start(input, name) {
        let i = choose|i: int|
            0 <= i && i + input.len() <= name.len() && (i == 0 || name[i - 1] == '_')
                && #[trigger] name.subrange(i, i + input.len()) == input;
        if i == 0 {
            assert(input.is_prefix_of(name));
        } else {
            let u = i - 1;
            assert(name.skip(u + 1).subrange(0, input.len() as int) =~= name.subrange(i, i + input.len()));
            assert(name[u] == '_' && input.is_prefix_of(name.skip(u + 1)));
        }
    }
    if begins_a_word_of(input, name) {
        if input.is_prefix_of(name) {
            assert(name.subrange(0int, 0int + input.len()) =~= input);
        } else {
            let u = choose|u: int| 0 <= u < name.len() && #[trigger] name[u] == '_' && input.is_prefix_of(name.skip(u + 1));
            let i = u + 1;
            assert(name.subrange(i, i + input.len()) =~= name.skip(i).subrange(0, input.len() as int));
            assert(name[i - 1] == '_');
        }
    }
}

/// The suggestions for a typed text are exactly the candidates that the
/// text begins, or begins the part after one of their underscores: every
/// suggestion is such a candidate, and every such candidate is suggested.
pub proof fn lemma_suggestions_are_word_starts(input: Seq<char>, candidates: Seq<Seq<char>>)
    ensures
        forall|k: int|
            0 <= k < suggestions_for(input, candidates).len() ==> candidates.contains(
                #[trigger] suggestions_for(input, candidates)[k],
            ) && begins_a_word_of(input, suggestions_for(input, candidates)[k]),
        forall|i: int|
            0 <= i < candidates.len() && begins_a_word_of(input, #[trigger] candidates[i])
                ==> suggestions_for(input, candidates).contains(candidates[i]),
    decreases candidates.len(),
{
    if candidates.len() > 0 {
        let shorter = candidates.drop_last();
        let last = candidates.last();
        lemma_suggestions_are_word_starts(input, shorter);
        lemma_match_is_word_start(input, last);
        let rest = suggestions_for(input, shorter);
        let r = suggestions_for(input, candidates);
        assert forall|k: int| 0 <= k < r.len() implies candidates.contains(#[trigger] r[k]) && begins_a_word_of(input, r[k]) by {
            if k < rest.len() {
                assert(r[k] == rest[k]);
                let j = choose|j: int| 0 <= j < shorter.len() && shorter[j] == rest[k];
                assert(candidates[j] == shorter[j]);
            } else {
                assert(r[k] == last);
                assert(candidates[candidates.len() - 1] == last);
            }
        }
        assert forall|i: int| 0 <= i < candidates.len() && begins_a_word_of(input, #[trigger] candidates[i])
            implies r.contains(candidates[i]) by {
            if i < shorter.len() {
                assert(shorter[i] == candidates[i]);
                assert(rest.contains(shorter[i]));
                let k = choose|k: int| 0 <= k < rest.len() && rest[k] == shorter[i];
                assert(r[k] == rest[k]);
            } else {
                lemma_match_is_word_start(input, candidates[i]);
                assert(r[r.len() - 1] == last);
            }
        }
    }
}

proof fn lemma_candidates_distinct()
    ensures
        forall|i: int, j: int| 0 <= i < j < 17 ==> #[trigger] suggested_colors()[i] != #[trigger] suggested_colors()[j],
{
    let colors = suggested_colors();
    assert forall|i: int, j: int| 0 <= i < j < 17 implies #[trigger] colors[i] != #[trigger] colors[j] by {}
}

proof fn lemma_candidate_chars()
    ensures
        forall|i: int, j: int|
            0 <= i < 17 && 0 <= j < color_suggestion_names()[i].len() ==> allowed_in_unquoted(
                #[trigger] color_suggestion_names()[i][j],
            ),
{
    let names = color_suggestion_names();
    reveal_strlit("black");
    assert forall|j: int| 0 <= j < "black"@.len() implies allowed_in_unquoted(#[trigger] "black"@[j]) by {}
    reveal_strlit("dark_blue");
    assert forall|j: int| 0 <= j < "dark_blue"@.len() implies allowed_in_unquoted(#[trigger] "dark_blue"@[j]) by {}
    reveal_strlit("dark_green");
    assert forall|j: int| 0 <= j < "dark_green"@.len() implies allowed_in_unquoted(#[trigger] "dark_green"@[j]) by {}
    reveal_strlit("dark_aqua");
    assert forall|j: int| 0 <= j < "dark_aqua"@.len() implies allowed_in_unquoted(#[trigger] "dark_aqua"@[j]) by {}
    reveal_strlit("dark_red");
    assert forall|j: int| 0 <= j < "dark_red"@.len() implies allowed_in_unquoted(#[trigger] "dark_red"@[j]) by {}
    reveal_strlit("dark_purple");
    assert forall|j: int| 0 <= j < "dark_purple"@.len() implies allowed_in_unquoted(#[trigger] "dark_purple"@[j]) by {}
    reveal_strlit("gold");
    assert forall|j: int| 0 <= j < "gold"@.len() implies allowed_in_unquoted(#[trigger] "gold"@[j]) by {}
    reveal_strlit("gray");
    assert forall|j: int| 0 <= j < "gray"@.len() implies allowed_in_unquoted(#[trigger] "gray"@[j]) by {}
    reveal_strlit("dark_gray");
    assert forall|j: int| 0 <= j < "dark_gray"@.len() implies allowed_in_unquoted(#[trigger] "dark_gray"@[j]) by {}
    reveal_strlit("blue");
    assert forall|j: int| 0 <= j < "blue"@.len() implies allowed_in_unquoted(#[trigger] "blue"@[j]) by {}
    reveal_strlit("green");
    assert forall|j: int| 0 <= j < "green"@.len() implies allowed_in_unquoted(#[trigger] "green"@[j]) by {}
    reveal_strlit("aqua");
    assert forall|j: int| 0 <= j < "aqua"@.len() implies allowed_in_unquoted(#[trigger] "aqua"@[j]) by {}
    reveal_strlit("red");
    assert forall|j: int| 0 <= j < "red"@.len() implies allowed_in_unquoted(#[trigger] "red"@[j]) by {}
    reveal_strlit("light_purple");
    assert forall|j: int| 0 <= j < "light_purple"@.len() implies allowed_in_unquoted(#[trigger] "light_purple"@[j]) by {}
    reveal_strlit("yellow");
    assert forall|j: int| 0 <= j < "yellow"@.len() implies allowed_in_unquoted(#[trigger] "yellow"@[j]) by {}
    reveal_strlit("white");
    assert forall|j: int| 0 <= j < "white"@.len() implies allowed_in_unquoted(#[trigger] "white"@[j]) by {}
    reveal_strlit("reset");
    assert forall|j: int| 0 <= j < "reset"@.len() implies allowed_in_unquoted(#[trigger] "reset"@[j]) by {}
    assert forall|i: int, j: int| 0 <= i < 17 && 0 <= j < names[i].len() implies allowed_in_unquoted(#[trigger] names[i][j]) by {
        if i == 0 { assert(names[i] == "black"@); }
        if i == 1 { assert(names[i] == "dark_blue"@); }
        if i == 2 { assert(names[i] == "dark_green"@); }
        if i == 3 { assert(names[i] == "dark_aqua"@); }
        if i == 4 { assert(names[i] == "dark_red"@); }
        if i == 5 { assert(names[i] == "dark_purple"@); }
        if i == 6 { assert(names[i] == "gold"@); }
        if i == 7 { assert(names[i] == "gray"@); }
        if i == 8 { assert(names[i] == "dark_gray"@); }
        if i == 9 { assert(names[i] == "blue"@); }
        if i == 10 { assert(names[i] == "green"@); }
        if i == 11 { assert(names[i] == "aqua"@); }
        if i == 12 { assert(names[i] == "red"@); }
        if i == 13 { assert(names[i] == "light_purple"@); }
        if i == 14 { assert(names[i] == "yellow"@); }
        if i == 15 { assert(names[i] == "white"@); }
        if i == 16 { assert(names[i] == "reset"@); }
    }
}

proof fn lemma_suggestions_subset(input: Seq<char>, candidates: Seq<Seq<char>>)
    ensures
        forall|k: int| 0 <= k < suggestions_for(input, candidates).len() ==> exists|i: int|
            0 <= i < candidates.len() && #[trigger] suggestions_for(input, candidates)[k] == candidates[i],
    decreases candidates.len(),
{
    if candidates.len() > 0 {
        let shorter = candidates.drop_last();
        lemma_suggestions_subset(input, shorter);
        let rest = suggestions_for(input, shorter);
        let r = suggestions_for(input, candidates);
        assert forall|k: int| 0 <= k < r.len() implies exists|i: int| 0 <= i < candidates.len() && #[trigger] r[k] == candidates[i] by {
            if k < rest.len() {
                assert(r[k] == rest[k]);
                let i = choose|i: int| 0 <= i < shorter.len() && rest[k] == shorter[i];
                assert(candidates[i] == shorter[i]);
            } else {
                assert(r[k] == candidates[candidates.len() - 1]);
            }
        }
    }
}

/// Every color the argument suggests is one it accepts: whatever has been
/// typed, each suggestion is one of the seventeen names, made only of
/// characters of an unquoted word (so parsing it reads it whole), and,
/// cleaned as the parser cleans a word, it names its color; the seventeen
/// names name seventeen different colors, and every color is among them.
pub proof fn lemma_suggestions_are_accepted(input: Seq<char>)
    ensures
        forall|k: int| 0 <= k < suggestions_for(input, color_suggestion_names()).len() ==> exists|i: int|
            0 <= i < 17 && #[trigger] suggestions_for(input, color_suggestion_names())[k]
                == color_suggestion_names()[i] && color_by_name(
                clean_color_word(color_suggestion_names()[i]),
            ) == Some(suggested_colors()[i]),
        forall|i: int, j: int|
            0 <= i < 17 && 0 <= j < color_suggestion_names()[i].len() ==> allowed_in_unquoted(
                #[trigger] color_suggestion_names()[i][j],
            ),
        forall|i: int, j: int| 0 <= i < j < 17 ==> #[trigger] suggested_colors()[i] != #[trigger] suggested_colors()[j],
        forall|c: NonRgbColor| suggested_colors().contains(c),
{
    lemma_candidates_accepted();
    lemma_candidates_distinct();
    lemma_candidate_chars();
    lemma_suggestions_subset(input, color_suggestion_names());
    let r = suggestions_for(input, color_suggestion_names());
    assert forall|k: int| 0 <= k < r.len() implies exists|i: int|
        0 <= i < 17 && #[trigger] r[k] == color_suggestion_names()[i] && color_by_name(
            clean_color_word(color_suggestion_names()[i]),
        ) == Some(suggested_colors()[i]) by {
        let i = choose|i: int| 0 <= i < color_suggestion_names().len() && r[k] == color_suggestion_names()[i];
        assert(color_by_name(clean_color_word(color_suggestion_names()[i])) == Some(suggested_colors()[i]));
    }
}

} // verus!
