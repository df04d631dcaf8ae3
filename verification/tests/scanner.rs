use string_commands::{
    ChoiceList, FragmentContent, GenderDefinition, ParsedString, ParserError, StringCommand,
    StringFragment,
};

fn text(begin: usize, end: usize, s: &str) -> StringFragment {
    StringFragment { pos_begin: begin, pos_end: end, content: FragmentContent::Text(String::from(s)) }
}

fn command(begin: usize, end: usize, index: Option<usize>, name: &str, case: Option<&str>) -> StringFragment {
    StringFragment {
        pos_begin: begin,
        pos_end: end,
        content: FragmentContent::Command(StringCommand {
            index,
            name: String::from(name),
            case: case.map(String::from),
        }),
    }
}

fn contents(p: &ParsedString) -> Vec<&FragmentContent> {
    p.fragments.iter().map(|f| &f.content).collect()
}

fn assert_covers(p: &ParsedString, len: usize) {
    let mut at = 0;
    for f in &p.fragments {
        assert_eq!(f.pos_begin, at);
        assert!(f.pos_begin < f.pos_end);
        at = f.pos_end;
    }
    assert_eq!(at, len);
}

#[test]
fn empty_string_has_no_fragments_and_compiles_to_nothing() {
    let parsed = ParsedString::parse("").unwrap();
    assert!(parsed.fragments.is_empty());
    assert_eq!(parsed.compile(), "");
    assert_eq!(ParsedString { fragments: Vec::new() }.compile(), "");
}

#[test]
fn plain_text_is_one_fragment() {
    let parsed = ParsedString::parse("Hello, world").unwrap();
    assert_eq!(parsed.fragments, vec![text(0, 12, "Hello, world")]);
    assert_eq!(parsed.compile(), "Hello, world");
}

#[test]
fn closing_brace_alone_is_text() {
    let parsed = ParsedString::parse("a}b{NUM}}").unwrap();
    assert_eq!(
        parsed.fragments,
        vec![text(0, 3, "a}b"), command(3, 8, None, "NUM", None), text(8, 9, "}")]
    );
    assert_eq!(parsed.compile(), "a}b{NUM}}");
}

#[test]
fn text_and_commands_alternate() {
    let parsed = ParsedString::parse("Train {0:NUM} of {COMPANY.gen}{}!").unwrap();
    assert_eq!(
        parsed.fragments,
        vec![
            text(0, 6, "Train "),
            command(6, 13, Some(0), "NUM", None),
            text(13, 17, " of "),
            command(17, 30, None, "COMPANY", Some("gen")),
            command(30, 32, None, "", None),
            text(32, 33, "!"),
        ]
    );
    assert_covers(&parsed, 33);
    assert_eq!(parsed.compile(), "Train {0:NUM} of {COMPANY.gen}{}!");
}

#[test]
fn span_ends_at_first_closing_brace() {
    // The second `{` stands inside the span that the first one opens.
    let parsed = ParsedString::parse("{{}{{}}").unwrap();
    assert_eq!(
        parsed.fragments,
        vec![
            command(0, 3, None, "{", None),
            command(3, 6, None, "{", None),
            text(6, 7, "}"),
        ]
    );
    let err = ParsedString::parse("{A{B}}").unwrap_err();
    assert_eq!(
        err,
        ParserError {
            pos_begin: 0,
            pos_end: Some(5),
            message: String::from("Invalid string command: '{A{B}'"),
        }
    );
}

#[test]
fn escaped_brace_is_a_command_named_brace() {
    let parsed = ParsedString::parse("{{}").unwrap();
    assert_eq!(parsed.fragments, vec![command(0, 3, None, "{", None)]);
    assert_eq!(parsed.compile(), "{{}");
}

#[test]
fn positions_count_characters_not_bytes() {
    let source = "\u{039f}\u{03c0}{G=n}\u{1F600}{1:RED}";
    let parsed = ParsedString::parse(source).unwrap();
    assert_eq!(
        parsed.fragments,
        vec![
            text(0, 2, "\u{039f}\u{03c0}"),
            StringFragment {
                pos_begin: 2,
                pos_end: 7,
                content: FragmentContent::Gender(GenderDefinition { gender: String::from("n") }),
            },
            text(7, 8, "\u{1F600}"),
            command(8, 15, Some(1), "RED", None),
        ]
    );
    assert_covers(&parsed, source.chars().count());
    assert_eq!(parsed.compile(), source);
}

#[test]
fn unterminated_span_has_no_end() {
    let err = ParsedString::parse("\u{00e9}\u{00e9}{NUM").unwrap_err();
    assert_eq!(
        err,
        ParserError {
            pos_begin: 2,
            pos_end: None,
            message: String::from("Unterminated string command, '}' expected."),
        }
    );
    assert_eq!(ParsedString::parse("{").unwrap_err().pos_begin, 0);
    assert_eq!(ParsedString::parse("{").unwrap_err().pos_end, None);
}

#[test]
fn invalid_span_is_quoted_with_its_positions() {
    let err = ParsedString::parse("\u{00e9}{NUM}{lower} rest {").unwrap_err();
    assert_eq!(
        err,
        ParserError {
            pos_begin: 6,
            pos_end: Some(13),
            message: String::from("Invalid string command: '{lower}'"),
        }
    );
}

#[test]
fn first_error_wins() {
    let err = ParsedString::parse("{1}{").unwrap_err();
    assert_eq!(err.pos_begin, 0);
    assert_eq!(err.pos_end, Some(3));
    let err = ParsedString::parse("{NUM}{ {1}").unwrap_err();
    assert_eq!(err.pos_begin, 5);
    assert_eq!(err.pos_end, Some(10));
    assert_eq!(err.message, "Invalid string command: '{ {1}'");
}

#[test]
fn digits_alone_are_invalid() {
    for span in ["{1}", "{0}", "{42}", "{007}", "{18446744073709551616}"] {
        assert_eq!(
            FragmentContent::parse(span),
            Err(format!("Invalid string command: '{}'", span))
        );
        let err = ParsedString::parse(span).unwrap_err();
        assert_eq!(err.pos_begin, 0);
        assert_eq!(err.pos_end, Some(span.len()));
        assert_eq!(err.message, format!("Invalid string command: '{}'", span));
    }
}

#[test]
fn canonical_strings_compile_to_themselves() {
    for source in [
        "",
        "plain",
        "{}",
        "{{}",
        "{G=n}{ORANGE}Text {STRING}",
        "{G=masculine}{BIG_FONT}{1:STRING.gen} x {P a b}",
        "{P 1 a b} and {P 1:2 \"\" \"a b\" c}",
        "{G 0 m f n}",
        "{P \"\" \" b\"}",
        "{0:A_1.x_9}}{Z}",
        "{P 1 2 3}",
        "{G=\u{00e9}t\u{00e9}}{0:NUM.\u{0436}} \u{4e2d}",
    ] {
        let parsed = ParsedString::parse(source).unwrap();
        assert_covers(&parsed, source.chars().count());
        assert_eq!(parsed.compile(), source);
    }
}

#[test]
fn compiled_form_parses_to_the_same_contents() {
    for source in [
        "{G = n}{007:RED}",
        "{G\t=\r\nfem}",
        "{P\ta\n\"b\"   c  }text",
        "{P  01:002   \"x\"  y }",
        "{99999999999999999999999999:NUM.acc}",
        "{P 99999999999999999999999999 a b}",
        "{P a\u{000c}b \"c\"}",
        "a}{P \"{\" {x}",
        "{G\u{00a0}=\u{2003}\u{00e9}}{\u{0661}:A.\u{00e9}}",
    ] {
        let first = ParsedString::parse(source).unwrap();
        let compiled = first.compile();
        let second = ParsedString::parse(&compiled).unwrap();
        assert_eq!(contents(&first), contents(&second));
        assert_covers(&second, compiled.chars().count());
        assert_eq!(second.compile(), compiled);
    }
}

#[test]
fn compiled_form_is_normalized() {
    let parsed = ParsedString::parse("{G = n}{007:RED}{P\ta\n\"b\"   c  }").unwrap();
    assert_eq!(parsed.compile(), "{G=n}{7:RED}{P a b c}");
}

#[test]
fn choice_lists_that_are_not_read_back() {
    // A bare first choice that opens with a digit is read as an index reference.
    let parsed = ParsedString::parse("{P \"1\" a}").unwrap();
    assert_eq!(parsed.compile(), "{P 1 a}");
    assert_eq!(
        ParsedString::parse("{P 1 a}").unwrap().fragments[0].content,
        FragmentContent::Choice(ChoiceList {
            name: String::from("P"),
            indexref: Some(1),
            indexsubref: None,
            choices: vec![String::from("a")],
        })
    );
    // The text of this list is a gender definition.
    let parsed = ParsedString::parse("{G \"=x\"}").unwrap();
    assert_eq!(parsed.compile(), "{G =x}");
    assert_eq!(
        ParsedString::parse("{G =x}").unwrap().fragments[0].content,
        FragmentContent::Gender(GenderDefinition { gender: String::from("x") })
    );
    // A sub-index is not written without its index reference.
    let parsed = ParsedString::parse("{P 99999999999999999999999999:2 a}").unwrap();
    assert_eq!(
        parsed.fragments[0].content,
        FragmentContent::Choice(ChoiceList {
            name: String::from("P"),
            indexref: None,
            indexsubref: Some(2),
            choices: vec![String::from("a")],
        })
    );
    assert_eq!(parsed.compile(), "{P a}");
}
