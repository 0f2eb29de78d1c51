//! The dimension argument: an identifier that names one of the dimensions.

use vstd::prelude::*;
use crate::identifier::{Identifier, IdentifierError, parse_identifier, allowed_in_identifier};
use crate::string_reader::StringReader;
use crate::color::chars_eq_str;

verus! {

/// The dimensions of the game.
#[derive(Clone, Copy, Debug, PartialEq, Eq, Structural)]
pub enum Dimension {
    Overworld,
    OverworldCaves,
    TheNether,
    TheEnd,
}

/// The name of a dimension, without its namespace.
pub open spec fn dimension_name(d: Dimension) -> Seq<char> {
    match d {
        Dimension::Overworld => "overworld"@,
        Dimension::OverworldCaves => "overworld_caves"@,
        Dimension::TheNether => "the_nether"@,
        Dimension::TheEnd => "the_end"@,
    }
}

/// The dimension that `name` names: a dimension name, with or without the
/// `minecraft:` namespace in front.
pub open spec fn dimension_by_name(name: Seq<char>) -> Option<Dimension> {
    let bare = if name.len() >= 10 && name.subrange(0, 10) == "minecraft:"@ {
        name.subrange(10, name.len() as int)
    } else {
        name
    };
    if bare == "overworld"@ {
        Some(Dimension::Overworld)
    } else if bare == "overworld_caves"@ {
        Some(Dimension::OverworldCaves)
    } else if bare == "the_nether"@ {
        Some(Dimension::TheNether)
    } else if bare == "the_end"@ {
        Some(Dimension::TheEnd)
    } else {
        None
    }
}

impl Dimension {
    /// The dimension that `name` names, with or without the `minecraft:`
    /// namespace in front.
    pub fn from_name(name: &Vec<char>) -> (r: Option<Dimension>)
        ensures
            r == dimension_by_name(name@),
    {
        let prefix = crate::string_reader::str_chars("minecraft:");
        proof {
            reveal_strlit("minecraft:");
        }
        let mut has_prefix = name.len() >= 10;
        if has_prefix {
            let mut i: usize = 0;
            while i < 10
                invariant
                    name@.len() >= 10,
                    prefix@ == "minecraft:"@,
                    prefix@.len() == 10,
                    i <= 10,
                    has_prefix == forall|k: int| 0 <= k < i ==> name@[k] == prefix@[k],
                decreases 10 - i,
            {
                if name[i] != prefix[i] {
                    has_prefix = false;
                }
                i = i + 1;
            }
            proof {
                if has_prefix {
                    assert(name@.subrange(0, 10) =~= "minecraft:"@);
                } else {
                    let k = choose|k: int| 0 <= k < 10 && name@[k] != prefix@[k];
                    assert(name@.subrange(0, 10)[k] != "minecraft:"@[k]);
                }
            }
        }
        let bare: Vec<char> = if has_prefix {
            let mut b: Vec<char> = Vec::new();
            let mut i: usize = 10;
            while i < name.len()
                invariant
                    10 <= i <= name@.len(),
                    b@ == name@.subrange(10, i as int),
                decreases name.len() - i,
            {
                b.push(name[i]);
                i = i + 1;
            }
            b
        } else {
            let mut b: Vec<char> = Vec::new();
            let mut i: usize = 0;
            while i < name.len()
                invariant
                    i <= name@.len(),
                    b@ == name@.subrange(0, i as int),
                decreases name.len() - i,
            {
                b.push(name[i]);
                i = i + 1;
            }
            assert(name@.subrange(0, name@.len() as int) == name@);
            b
        };
        if chars_eq_str(&bare, "overworld") {
            Some(Dimension::Overworld)
        } else if chars_eq_str(&bare, "overworld_caves") {
            Some(Dimension::OverworldCaves)
        } else if chars_eq_str(&bare, "the_nether") {
            Some(Dimension::TheNether)
        } else if chars_eq_str(&bare, "the_end") {
            Some(Dimension::TheEnd)
        } else {
            None
        }
    }
}

/// The dimension argument type.
pub struct DimensionArgumentType;

/// What the dimension argument refuses.
#[derive(Debug)]
pub enum DimensionError {
    /// The identifier names no dimension; `given` is the identifier written
    /// out as `namespace:path`.
    InvalidValue { given: Vec<char> },
}

impl DimensionArgumentType {
    /// Reads the identifier of a dimension.
    pub fn parse(&self, reader: &mut StringReader) -> (r: Result<Identifier, IdentifierError>)
        ensures
            final(reader).text() == old(reader).text(),
            ({
                let start = old(reader).pos();
                let text = old(reader).text();
                match r {
                    Ok(id) => {
                        &&& start <= final(reader).pos() <= text.len()
                        &&& forall|k: int| start <= k < final(reader).pos() ==> allowed_in_identifier(#[trigger] text[k])
                        &&& final(reader).pos() == text.len() || !allowed_in_identifier(text[final(reader).pos()])
                        &&& parse_identifier(text.subrange(start, final(reader).pos())) == Some((id.namespace@, id.path@))
                    },
                    Err(e) => {
                        &&& final(reader).pos() == start
                        &&& e == IdentifierError::Invalid { cursor: start as usize }
                        &&& exists|end: int| #![trigger text.subrange(start, end)]
                            start <= end <= text.len()
                            && (forall|k: int| start <= k < end ==> allowed_in_identifier(#[trigger] text[k]))
                            && (end == text.len() || !allowed_in_identifier(text[end]))
                            && parse_identifier(text.subrange(start, end)) is None
                    },
                }
            }),
    {
        Identifier::from_reader(reader)
    }

    /// The dimension that a parsed identifier names, looked up by the
    /// identifier written out as `namespace:path`; an identifier that names
    /// none is refused.
    pub fn get(identifier: &Identifier) -> (r: Result<Dimension, DimensionError>)
        ensures
            ({
                let name = identifier.namespace@ + seq![':'] + identifier.path@;
                match r {
                    Ok(d) => dimension_by_name(name) == Some(d),
                    Err(DimensionError::InvalidValue { given }) => dimension_by_name(name) is None && given@ == name,
                }
            }),
    {
        let name = identifier.to_chars();
        match Dimension::from_name(&name) {
            Some(d) => Ok(d),
            None => Err(DimensionError::InvalidValue { given: name }),
        }
    }
}

/// Every dimension is found by its name, written bare or in the
/// `minecraft` namespace; in particular by the identifier `minecraft:name`
/// that the argument reads from the bare name.
pub proof fn lemma_dimension_found_by_name(d: Dimension)
    ensures
        dimension_by_name(dimension_name(d)) == Some(d),
        dimension_by_name("minecraft"@ + seq![':'] + dimension_name(d)) == Some(d),
{
    reveal_strlit("minecraft:");
    reveal_strlit("minecraft");
    reveal_strlit("overworld");
    reveal_strlit("overworld_caves");
    reveal_strlit("the_nether");
    reveal_strlit("the_end");
    let n = dimension_name(d);
    let full = "minecraft"@ + seq![':'] + n;
    assert(full.subrange(0, 10) =~= "minecraft:"@);
    assert(full.subrange(10, full.len() as int) =~= n);
    if n.len() >= 10 {
        assert(n.subrange(0, 10) != "minecraft:"@) by {
            assert(n.subrange(0, 10)[0] != "minecraft:"@[0]);
        }
    }
}

impl DimensionError {
    /// The translation key of the error message.
    pub fn translation_key(&self) -> (r: &'static str)
        ensures
            r@ == "argument.dimension.invalid"@,
    {
        "argument.dimension.invalid"
    }
}

} // verus!
