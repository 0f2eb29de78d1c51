use pumpkin::dimension::{Dimension, DimensionArgumentType, DimensionError};
use pumpkin::identifier::{Identifier, IdentifierError};
use pumpkin::string_reader::StringReader;

fn chars(s: &str) -> Vec<char> {
    s.chars().collect()
}

fn text(v: &[char]) -> String {
    v.iter().collect()
}

fn read(s: &str) -> (Result<Identifier, IdentifierError>, usize) {
    let mut r = StringReader::from_str(s);
    let id = DimensionArgumentType.parse(&mut r);
    (id, r.cursor())
}

#[test]
fn reads_namespaced_identifier() {
    let (id, pos) = read("minecraft:overworld rest");
    let id = id.unwrap();
    assert_eq!(text(&id.namespace), "minecraft");
    assert_eq!(text(&id.path), "overworld");
    assert_eq!(pos, 19);
}

#[test]
fn bare_path_gets_default_namespace() {
    let (id, _) = read("the_nether");
    let id = id.unwrap();
    assert_eq!(text(&id.namespace), "minecraft");
    assert_eq!(text(&id.path), "the_nether");
    let (id, _) = read(":the_end");
    let id = id.unwrap();
    assert_eq!(text(&id.namespace), "minecraft");
    assert_eq!(text(&id.path), "the_end");
}

#[test]
fn custom_namespace_and_slashes() {
    let (id, pos) = read("my_mod:worlds/sky Q");
    let id = id.unwrap();
    assert_eq!(text(&id.namespace), "my_mod");
    assert_eq!(text(&id.path), "worlds/sky");
    assert_eq!(pos, 17);
    assert_eq!(text(&id.to_chars()), "my_mod:worlds/sky");
}

#[test]
fn invalid_identifiers_rewind() {
    let mut r = StringReader::from_str("xx a/b:c");
    r.set_cursor(3);
    let res = DimensionArgumentType.parse(&mut r);
    assert_eq!(res.err(), Some(IdentifierError::Invalid { cursor: 3 }));
    assert_eq!(r.cursor(), 3);
    let (res, pos) = read("a:b:c");
    assert_eq!(res.err(), Some(IdentifierError::Invalid { cursor: 0 }));
    assert_eq!(pos, 0);
}

#[test]
fn upper_case_stops_the_identifier() {
    let (id, pos) = read("overWorld");
    assert_eq!(text(&id.unwrap().path), "over");
    assert_eq!(pos, 4);
}

fn get(ns: &str, path: &str) -> Result<Dimension, DimensionError> {
    DimensionArgumentType::get(&Identifier { namespace: chars(ns), path: chars(path) })
}

#[test]
fn finds_dimensions() {
    assert_eq!(get("minecraft", "overworld").unwrap(), Dimension::Overworld);
    assert_eq!(get("minecraft", "overworld_caves").unwrap(), Dimension::OverworldCaves);
    assert_eq!(get("minecraft", "the_nether").unwrap(), Dimension::TheNether);
    assert_eq!(get("minecraft", "the_end").unwrap(), Dimension::TheEnd);
}

#[test]
fn unknown_dimension_is_refused_with_its_name() {
    match get("other", "overworld") {
        Err(DimensionError::InvalidValue { given }) => assert_eq!(text(&given), "other:overworld"),
        Ok(d) => panic!("unexpected {:?}", d),
    }
    match get("minecraft", "moon") {
        Err(DimensionError::InvalidValue { given }) => assert_eq!(text(&given), "minecraft:moon"),
        Ok(d) => panic!("unexpected {:?}", d),
    }
}

#[test]
fn from_name_with_and_without_namespace() {
    assert_eq!(Dimension::from_name(&chars("the_end")), Some(Dimension::TheEnd));
    assert_eq!(Dimension::from_name(&chars("minecraft:the_end")), Some(Dimension::TheEnd));
    assert_eq!(Dimension::from_name(&chars("minecraft:")), None);
    assert_eq!(Dimension::from_name(&chars("Overworld")), None);
}

#[test]
fn parse_then_get() {
    let (id, _) = read("the_nether");
    assert_eq!(DimensionArgumentType::get(&id.unwrap()).unwrap(), Dimension::TheNether);
}

#[test]
fn dimension_examples_and_client_parser() {
    assert_eq!(DimensionArgumentType.examples(), vec!["minecraft:overworld", "the_nether"]);
    assert_eq!(
        DimensionArgumentType.client_side_parser(),
        pumpkin::argument_type::ClientArgumentType::Dimension
    );
}

#[test]
fn dimension_error_keys() {
    assert_eq!(DimensionError::InvalidValue { given: vec![] }.translation_key(), "argument.dimension.invalid");
    assert_eq!(IdentifierError::Invalid { cursor: 0 }.translation_key(), "argument.id.invalid");
}
