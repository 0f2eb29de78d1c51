use pumpkin::color::{ColorArgumentType, ColorError, NamedColor, NonRgbColor};
use pumpkin::string_reader::StringReader;

fn parse(s: &str) -> (Result<NonRgbColor, ColorError>, usize) {
    let mut r = StringReader::from_str(s);
    let c = ColorArgumentType.parse(&mut r);
    (c, r.cursor())
}

fn invalid(res: Result<NonRgbColor, ColorError>) -> String {
    match res {
        Err(ColorError::InvalidValue { given }) => given.into_iter().collect(),
        Ok(c) => panic!("unexpected {:?}", c),
    }
}

#[test]
fn parses_named_colors() {
    assert_eq!(parse("red").0.unwrap(), NonRgbColor::Named(NamedColor::Red));
    assert_eq!(parse("black").0.unwrap(), NonRgbColor::Named(NamedColor::Black));
    assert_eq!(parse("light_purple").0.unwrap(), NonRgbColor::Named(NamedColor::LightPurple));
    assert_eq!(parse("dark_gray").0.unwrap(), NonRgbColor::Named(NamedColor::DarkGray));
    assert_eq!(parse("reset").0.unwrap(), NonRgbColor::Reset);
}

#[test]
fn ignores_case_punctuation_and_digits() {
    assert_eq!(parse("Dark_Blue").0.unwrap(), NonRgbColor::Named(NamedColor::DarkBlue));
    assert_eq!(parse("re_set").0.unwrap(), NonRgbColor::Reset);
    assert_eq!(parse("blue...").0.unwrap(), NonRgbColor::Named(NamedColor::Blue));
    assert_eq!(parse("g1r2e3e4n").0.unwrap(), NonRgbColor::Named(NamedColor::Green));
    assert_eq!(parse("+YELLOW-").0.unwrap(), NonRgbColor::Named(NamedColor::Yellow));
}

#[test]
fn stops_at_end_of_word() {
    let (c, pos) = parse("aqua rest");
    assert_eq!(c.unwrap(), NonRgbColor::Named(NamedColor::Aqua));
    assert_eq!(pos, 4);
}

#[test]
fn refuses_unknown_names_with_cleaned_word() {
    assert_eq!(invalid(parse("Pur_ple2").0), "purple");
    assert_eq!(invalid(parse("").0), "");
    let (c, pos) = parse("r€d");
    assert_eq!(invalid(c), "r");
    assert_eq!(pos, 1);
}

#[test]
fn default_is_reset() {
    assert_eq!(NonRgbColor::default(), NonRgbColor::Reset);
}

#[test]
fn suggestions_match_word_starts() {
    let all = ColorArgumentType.list_suggestions(&vec![]);
    assert_eq!(all.len(), 17);
    assert_eq!(all[0], "black");
    assert_eq!(all[16], "reset");
    let b: Vec<char> = "B".chars().collect();
    assert_eq!(ColorArgumentType.list_suggestions(&b), vec!["black", "dark_blue", "blue"]);
    let dark: Vec<char> = "dark_".chars().collect();
    assert_eq!(
        ColorArgumentType.list_suggestions(&dark),
        vec!["dark_blue", "dark_green", "dark_aqua", "dark_red", "dark_purple", "dark_gray"]
    );
    let pur: Vec<char> = "pur".chars().collect();
    assert_eq!(ColorArgumentType.list_suggestions(&pur), vec!["dark_purple", "light_purple"]);
    let x: Vec<char> = "xyz".chars().collect();
    assert!(ColorArgumentType.list_suggestions(&x).is_empty());
}

#[test]
fn color_examples_and_client_parser() {
    assert_eq!(ColorArgumentType.examples(), vec!["red", "blue", "yellow"]);
    assert_eq!(
        ColorArgumentType.client_side_parser(),
        pumpkin::argument_type::ClientArgumentType::Color
    );
}

#[test]
fn every_suggestion_is_accepted() {
    let expected = [
        NonRgbColor::Named(NamedColor::Black),
        NonRgbColor::Named(NamedColor::DarkBlue),
        NonRgbColor::Named(NamedColor::DarkGreen),
        NonRgbColor::Named(NamedColor::DarkAqua),
        NonRgbColor::Named(NamedColor::DarkRed),
        NonRgbColor::Named(NamedColor::DarkPurple),
        NonRgbColor::Named(NamedColor::Gold),
        NonRgbColor::Named(NamedColor::Gray),
        NonRgbColor::Named(NamedColor::DarkGray),
        NonRgbColor::Named(NamedColor::Blue),
        NonRgbColor::Named(NamedColor::Green),
        NonRgbColor::Named(NamedColor::Aqua),
        NonRgbColor::Named(NamedColor::Red),
        NonRgbColor::Named(NamedColor::LightPurple),
        NonRgbColor::Named(NamedColor::Yellow),
        NonRgbColor::Named(NamedColor::White),
        NonRgbColor::Reset,
    ];
    let names = ColorArgumentType.list_suggestions(&vec![]);
    assert_eq!(names.len(), expected.len());
    for (name, color) in names.iter().zip(expected.iter()) {
        assert_eq!(parse(name).0.unwrap(), *color);
    }
}

#[test]
fn color_error_key() {
    assert_eq!(ColorError::InvalidValue { given: vec![] }.translation_key(), "argument.color.invalid");
}

#[test]
fn many_edits_keep_the_color() {
    let (a, _) = parse("light_purple");
    let (b, _) = parse("1L.i-G+h_T9pUrPlE__");
    assert!(matches!(a, Ok(NonRgbColor::Named(NamedColor::LightPurple))));
    assert!(matches!(b, Ok(NonRgbColor::Named(NamedColor::LightPurple))));
    let (c, _) = parse("re.d.d");
    let (d, _) = parse("RE_DD");
    assert!(c.is_err() && d.is_err());
}
