use pumpkin::message::{
    utf16_length, Message, MessageArgumentType, MessageError, MessageParseError, MessagePart, MessageScan,
    Segment, SelectorFailure, StringRange,
};
use pumpkin::string_reader::StringReader;

fn chars(s: &str) -> Vec<char> {
    s.chars().collect()
}

fn text(v: &[char]) -> String {
    v.iter().collect()
}

/// Drives a scan, with a stand-in selector parser: `@p`, `@a`, `@s` parse to
/// their letter; `@x` is an unknown type; a bare `@` misses its type.
fn parse_message(line: &str, start: usize, allow: bool) -> Result<(Message<char>, usize), String> {
    let mut reader = StringReader::from_str(line);
    reader.set_cursor(start);
    let mut scan: MessageScan<char> =
        MessageArgumentType::parse_with_allow_selectors(&reader, allow).map_err(|e| format!("{:?}", e))?;
    let all: Vec<char> = line.chars().collect();
    loop {
        match scan.next_selector() {
            Some(at) => {
                let kind = all.get(at + 1).copied();
                match kind {
                    Some(c @ ('p' | 'a' | 's')) => scan.selector_parsed(at + 2, c),
                    Some('x') => {
                        if scan.selector_failed(SelectorFailure::UnknownSelectorType) {
                            return Err("unknown selector".to_string());
                        }
                    }
                    Some(' ') | None => {
                        assert!(!scan.selector_failed(SelectorFailure::MissingSelectorType));
                    }
                    Some(_) => {
                        assert!(!scan.selector_failed(SelectorFailure::Other));
                    }
                }
            }
            None => {
                let m = scan.finish(&mut reader);
                return Ok((m, reader.cursor()));
            }
        }
    }
}

fn ranges(m: &Message<char>) -> Vec<(usize, usize, char)> {
    m.parts.iter().map(|p| (p.range.start, p.range.end, p.entity_selector)).collect()
}

#[test]
fn utf16_length_counts_surrogate_pairs() {
    assert_eq!(utf16_length(&chars("abc")), 3);
    assert_eq!(utf16_length(&chars("é😀")), 3);
    assert_eq!(utf16_length(&chars("")), 0);
}

#[test]
fn finds_selectors_in_order() {
    let (m, pos) = parse_message("say hi @p and @a!", 4, true).unwrap();
    assert_eq!(text(&m.text), "hi @p and @a!");
    assert_eq!(ranges(&m), vec![(3, 5, 'p'), (10, 12, 'a')]);
    assert_eq!(pos, 17);
}

#[test]
fn missing_and_other_failures_are_passed_over() {
    let (m, _) = parse_message("a @ b @q @s", 0, true).unwrap();
    assert_eq!(ranges(&m), vec![(9, 11, 's')]);
}

#[test]
fn unknown_selector_type_fails() {
    assert_eq!(parse_message("hello @x", 0, true).err(), Some("unknown selector".to_string()));
}

#[test]
fn selectors_not_allowed() {
    let (m, pos) = parse_message("msg @p hi", 4, false).unwrap();
    assert_eq!(text(&m.text), "@p hi");
    assert!(m.parts.is_empty());
    assert_eq!(pos, 9);
}

#[test]
fn too_long_message_is_refused() {
    let long = "a".repeat(257);
    let mut reader = StringReader::from_str(&long);
    reader.set_cursor(0);
    let r = MessageArgumentType::parse_with_allow_selectors::<char>(&reader, true);
    assert_eq!(r.err(), Some(MessageError::TooLong { length: 257, max: 256, cursor: 0 }));
    let ok = "a".repeat(256);
    assert!(parse_message(&ok, 0, true).is_ok());
    let emoji = format!("x{}", "😀".repeat(128));
    let mut reader = StringReader::from_str(&emoji);
    let r = MessageArgumentType::parse_with_allow_selectors::<char>(&reader, true);
    assert_eq!(r.err(), Some(MessageError::TooLong { length: 257, max: 256, cursor: 0 }));
    reader.set_cursor(1);
    assert!(MessageArgumentType::parse_with_allow_selectors::<char>(&reader, true).is_ok());
}

fn show(segs: &[Segment]) -> Vec<String> {
    segs.iter()
        .map(|s| match s {
            Segment::Text(t) => format!("T:{}", text(t)),
            Segment::Selector(i) => format!("S:{}", i),
        })
        .collect()
}

#[test]
fn layout_around_selectors() {
    let (m, _) = parse_message("hi @p and @a!", 0, true).unwrap();
    assert_eq!(show(&m.resolve_text_component(true)), vec!["T:hi ", "S:0", "T: and ", "S:1", "T:!"]);
    assert_eq!(show(&m.resolve_text_component(false)), vec!["T:hi @p and @a!"]);
}

#[test]
fn layout_of_adjacent_and_edge_selectors() {
    let (m, _) = parse_message("@p@s", 0, true).unwrap();
    assert_eq!(show(&m.resolve_text_component(true)), vec!["T:", "S:0", "S:1"]);
    let (m, _) = parse_message("plain", 0, true).unwrap();
    assert_eq!(show(&m.resolve_text_component(true)), vec!["T:plain"]);
}

#[test]
fn layout_of_overlapping_ranges() {
    let m = Message {
        text: chars("abcdef"),
        parts: vec![
            MessagePart { range: StringRange { start: 1, end: 4 }, entity_selector: 'x' },
            MessagePart { range: StringRange { start: 2, end: 3 }, entity_selector: 'y' },
        ],
    };
    assert_eq!(show(&m.resolve_text_component(true)), vec!["T:a", "S:0", "S:1", "T:def"]);
}

#[test]
fn message_client_parser() {
    assert_eq!(
        MessageArgumentType.client_side_parser(),
        pumpkin::argument_type::ClientArgumentType::Message
    );
}

#[test]
fn message_error_key() {
    let e = MessageError::TooLong { length: 300, max: 256, cursor: 0 };
    assert_eq!(e.translation_key(), "argument.message.too_long");
}

/// Runs the whole parse with the same stand-in selector parser as above.
fn parse_whole(line: &str, start: usize, allow: bool) -> (Result<Message<char>, MessageParseError<String>>, usize) {
    let all: Vec<char> = line.chars().collect();
    let mut reader = StringReader::from_str(line);
    reader.set_cursor(start);
    let r = MessageArgumentType::parse_with_selector_parser(&mut reader, allow, |at: usize| {
        match all.get(at + 1).copied() {
            Some(c @ ('p' | 'a' | 's')) => Ok((c, at + 2)),
            Some('x') => Err((SelectorFailure::UnknownSelectorType, "unknown".to_string(), at + 1)),
            Some(' ') | None => Err((SelectorFailure::MissingSelectorType, "missing".to_string(), at + 1)),
            Some('[') => {
                let close = all[at..].iter().position(|c| *c == ']').map(|i| at + i + 1).unwrap_or(all.len());
                Ok(('[', close))
            }
            Some(_) => Err((SelectorFailure::Other, "other".to_string(), at + 1)),
        }
    });
    (r, reader.cursor())
}

#[test]
fn whole_parse_finds_selectors_and_reads_to_the_end() {
    let (r, pos) = parse_whole("say hi @p, @ ok @q @a!", 4, true);
    let m = r.unwrap();
    assert_eq!(text(&m.text), "hi @p, @ ok @q @a!");
    assert_eq!(ranges(&m), vec![(3, 5, 'p'), (15, 17, 'a')]);
    assert_eq!(pos, 22);
}

#[test]
fn whole_parse_stops_at_unknown_selector_type() {
    let (r, pos) = parse_whole("hi @p @x @a", 0, true);
    assert!(matches!(r, Err(MessageParseError::Selector(ref e)) if e == "unknown"));
    assert_eq!(pos, 7);
}

#[test]
fn whole_parse_does_not_look_inside_a_parsed_selector() {
    let (r, pos) = parse_whole("hi @[name=@x] ok", 0, true);
    let m = r.unwrap();
    assert_eq!(ranges(&m), vec![(3, 13, '[')]);
    assert_eq!(pos, 16);
}

#[test]
fn whole_parse_without_selectors() {
    let (r, pos) = parse_whole("msg @x hi", 4, false);
    let m = r.unwrap();
    assert_eq!(text(&m.text), "@x hi");
    assert!(m.parts.is_empty());
    assert_eq!(pos, 9);
}

#[test]
fn whole_parse_refuses_long_message() {
    let long = "b".repeat(300);
    let (r, pos) = parse_whole(&long, 0, true);
    assert!(matches!(r, Err(MessageParseError::Message(MessageError::TooLong { length: 300, max: 256, cursor: 0 }))));
    assert_eq!(pos, 0);
}
