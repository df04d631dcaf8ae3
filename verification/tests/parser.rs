use string_commands::{
    ChoiceList, FragmentContent, GenderDefinition, ParsedString, ParserError, StringCommand,
    StringFragment,
};

#[test]
fn test_parse_cmd_ok() {
    assert_eq!(
        FragmentContent::parse("{}"),
        Ok(FragmentContent::Command(StringCommand {
            index: None,
            name: String::from(""),
            case: None
        }))
    );
    assert_eq!(
        FragmentContent::parse("{{}"),
        Ok(FragmentContent::Command(StringCommand {
            index: None,
            name: String::from("{"),
            case: None
        }))
    );
    assert_eq!(
        FragmentContent::parse("{BIG_FONT}"),
        Ok(FragmentContent::Command(StringCommand {
            index: None,
            name: String::from("BIG_FONT"),
            case: None
        }))
    );
    assert_eq!(
        FragmentContent::parse("{NUM}"),
        Ok(FragmentContent::Command(StringCommand {
            index: None,
            name: String::from("NUM"),
            case: None
        }))
    );
    assert_eq!(
        FragmentContent::parse("{1:RED}"),
        Ok(FragmentContent::Command(StringCommand {
            index: Some(1),
            name: String::from("RED"),
            case: None
        }))
    );
    assert_eq!(
        FragmentContent::parse("{STRING.gen}"),
        Ok(FragmentContent::Command(StringCommand {
            index: None,
            name: String::from("STRING"),
            case: Some(String::from("gen"))
        }))
    );
    assert_eq!(
        FragmentContent::parse("{1:STRING.gen}"),
        Ok(FragmentContent::Command(StringCommand {
            index: Some(1),
            name: String::from("STRING"),
            case: Some(String::from("gen"))
        }))
    );
    assert_eq!(
        FragmentContent::parse("{G=n}"),
        Ok(FragmentContent::Gender(GenderDefinition {
            gender: String::from("n")
        }))
    );
    assert_eq!(
        FragmentContent::parse("{G = n}"),
        Ok(FragmentContent::Gender(GenderDefinition {
            gender: String::from("n")
        }))
    );
    assert_eq!(
        FragmentContent::parse("{P a b}"),
        Ok(FragmentContent::Choice(ChoiceList {
            name: String::from("P"),
            indexref: None,
            indexsubref: None,
            choices: vec![String::from("a"), String::from("b")]
        }))
    );
    assert_eq!(
        FragmentContent::parse("{P\na\tb}"),
        Ok(FragmentContent::Choice(ChoiceList {
            name: String::from("P"),
            indexref: None,
            indexsubref: None,
            choices: vec![String::from("a"), String::from("b")]
        }))
    );
    assert_eq!(
        FragmentContent::parse(r##"{P "" b}"##),
        Ok(FragmentContent::Choice(ChoiceList {
            name: String::from("P"),
            indexref: None,
            indexsubref: None,
            choices: vec![String::from(""), String::from("b")]
        }))
    );
    assert_eq!(
        FragmentContent::parse(r##"{P "a b" "c"}"##),
        Ok(FragmentContent::Choice(ChoiceList {
            name: String::from("P"),
            indexref: None,
            indexsubref: None,
            choices: vec![String::from("a b"), String::from("c")]
        }))
    );
    assert_eq!(
        FragmentContent::parse("{P 1 a b}"),
        Ok(FragmentContent::Choice(ChoiceList {
            name: String::from("P"),
            indexref: Some(1),
            indexsubref: None,
            choices: vec![String::from("a"), String::from("b")]
        }))
    );
    assert_eq!(
        FragmentContent::parse("{P\t1\na\rb\n}"),
        Ok(FragmentContent::Choice(ChoiceList {
            name: String::from("P"),
            indexref: Some(1),
            indexsubref: None,
            choices: vec![String::from("a"), String::from("b")]
        }))
    );
    assert_eq!(
        FragmentContent::parse(r##"{P 1 "" b}"##),
        Ok(FragmentContent::Choice(ChoiceList {
            name: String::from("P"),
            indexref: Some(1),
            indexsubref: None,
            choices: vec![String::from(""), String::from("b")]
        }))
    );
    assert_eq!(
        FragmentContent::parse(r##"{P 1 "a b" "c"}"##),
        Ok(FragmentContent::Choice(ChoiceList {
            name: String::from("P"),
            indexref: Some(1),
            indexsubref: None,
            choices: vec![String::from("a b"), String::from("c")]
        }))
    );
    assert_eq!(
        FragmentContent::parse("{P 1:2 a b}"),
        Ok(FragmentContent::Choice(ChoiceList {
            name: String::from("P"),
            indexref: Some(1),
            indexsubref: Some(2),
            choices: vec![String::from("a"), String::from("b")]
        }))
    );
    assert_eq!(
        FragmentContent::parse(r##"{P 1:2 "" b}"##),
        Ok(FragmentContent::Choice(ChoiceList {
            name: String::from("P"),
            indexref: Some(1),
            indexsubref: Some(2),
            choices: vec![String::from(""), String::from("b")]
        }))
    );
    assert_eq!(
        FragmentContent::parse(r##"{P 1:2 "a b" "c"}"##),
        Ok(FragmentContent::Choice(ChoiceList {
            name: String::from("P"),
            indexref: Some(1),
            indexsubref: Some(2),
            choices: vec![String::from("a b"), String::from("c")]
        }))
    );

    assert_eq!(
        FragmentContent::parse("{P a b c}"),
        Ok(FragmentContent::Choice(ChoiceList {
            name: String::from("P"),
            indexref: None,
            indexsubref: None,
            choices: vec![String::from("a"), String::from("b"), String::from("c")]
        }))
    );
    assert_eq!(
        FragmentContent::parse(r##"{P "" "" b}"##),
        Ok(FragmentContent::Choice(ChoiceList {
            name: String::from("P"),
            indexref: None,
            indexsubref: None,
            choices: vec![String::from(""), String::from(""), String::from("b")]
        }))
    );
    assert_eq!(
        FragmentContent::parse(r##"{P a ""}"##),
        Ok(FragmentContent::Choice(ChoiceList {
            name: String::from("P"),
            indexref: None,
            indexsubref: None,
            choices: vec![String::from("a"), String::from("")]
        }))
    );
    assert_eq!(
        FragmentContent::parse("{P 1 a b c}"),
        Ok(FragmentContent::Choice(ChoiceList {
            name: String::from("P"),
            indexref: Some(1),
            indexsubref: None,
            choices: vec![String::from("a"), String::from("b"), String::from("c")]
        }))
    );
    assert_eq!(
        FragmentContent::parse(r##"{P 1 "" "" b}"##),
        Ok(FragmentContent::Choice(ChoiceList {
            name: String::from("P"),
            indexref: Some(1),
            indexsubref: None,
            choices: vec![String::from(""), String::from(""), String::from("b")]
        }))
    );
    assert_eq!(
        FragmentContent::parse(r##"{P 1 a ""}"##),
        Ok(FragmentContent::Choice(ChoiceList {
            name: String::from("P"),
            indexref: Some(1),
            indexsubref: None,
            choices: vec![String::from("a"), String::from("")]
        }))
    );
    assert_eq!(
        FragmentContent::parse("{P 1:2 a b c}"),
        Ok(FragmentContent::Choice(ChoiceList {
            name: String::from("P"),
            indexref: Some(1),
            indexsubref: Some(2),
            choices: vec![String::from("a"), String::from("b"), String::from("c")]
        }))
    );
    assert_eq!(
        FragmentContent::parse(r##"{P 1:2 "" "" b}"##),
        Ok(FragmentContent::Choice(ChoiceList {
            name: String::from("P"),
            indexref: Some(1),
            indexsubref: Some(2),
            choices: vec![String::from(""), String::from(""), String::from("b")]
        }))
    );
    assert_eq!(
        FragmentContent::parse(r##"{P 1:2 a ""}"##),
        Ok(FragmentContent::Choice(ChoiceList {
            name: String::from("P"),
            indexref: Some(1),
            indexsubref: Some(2),
            choices: vec![String::from("a"), String::from("")]
        }))
    );
}

#[test]
fn test_parse_cmd_err() {
    assert!(FragmentContent::parse("{1}").is_err());
    assert!(FragmentContent::parse("{1:1}").is_err());
    assert!(FragmentContent::parse("{1:1 NUM}").is_err());
    assert!(FragmentContent::parse("{NUM=a}").is_err());
    assert!(FragmentContent::parse(r##"{P " a}"##).is_err());
    assert!(FragmentContent::parse(r##"{P 1.a a b}"##).is_err());
    assert!(FragmentContent::parse(r##"{P 1:a a b}"##).is_err());
}

#[test]
fn test_compile_cmd() {
    assert_eq!(
        StringCommand {
            index: None,
            name: String::from(""),
            case: None
        }
        .compile(),
        "{}"
    );
    assert_eq!(
        StringCommand {
            index: None,
            name: String::from("{"),
            case: None
        }
        .compile(),
        "{{}"
    );
    assert_eq!(
        StringCommand {
            index: None,
            name: String::from("BIG_FONT"),
            case: None
        }
        .compile(),
        "{BIG_FONT}"
    );
    assert_eq!(
        StringCommand {
            index: Some(1),
            name: String::from("STRING"),
            case: Some(String::from("gen"))
        }
        .compile(),
        "{1:STRING.gen}"
    );
    assert_eq!(
        GenderDefinition {
            gender: String::from("n")
        }
        .compile(),
        "{G=n}"
    );
    assert_eq!(
        ChoiceList {
            name: String::from("P"),
            indexref: None,
            indexsubref: None,
            choices: vec![String::from("a"), String::from("b")]
        }
        .compile(),
        "{P a b}"
    );
    assert_eq!(
        ChoiceList {
            name: String::from("P"),
            indexref: None,
            indexsubref: None,
            choices: vec![String::from(""), String::from(" b")]
        }
        .compile(),
        r##"{P "" " b"}"##
    );
    assert_eq!(
        ChoiceList {
            name: String::from("P"),
            indexref: Some(1),
            indexsubref: None,
            choices: vec![String::from("a"), String::from("b")]
        }
        .compile(),
        "{P 1 a b}"
    );
    assert_eq!(
        ChoiceList {
            name: String::from("P"),
            indexref: Some(1),
            indexsubref: Some(2),
            choices: vec![String::from("a"), String::from("b")]
        }
        .compile(),
        "{P 1:2 a b}"
    );
}

#[test]
fn test_parse_str_empty() {
    let case1 = ParsedString::parse("");
    assert!(case1.is_ok());
    let case1 = case1.unwrap();
    assert!(case1.fragments.is_empty());
}

#[test]
fn test_parse_str_ok() {
    let case1 = ParsedString::parse(
        "{G=n}{ORANGE}\u{039f}\u{03c0}\u{03b7}\u{03bd}\u{03a4}\u{03a4}\u{0394} {STRING}",
    );
    assert!(case1.is_ok());
    let case1 = case1.unwrap();
    assert_eq!(
        case1.fragments,
        vec![
            StringFragment {
                pos_begin: 0,
                pos_end: 5,
                content: FragmentContent::Gender(GenderDefinition {
                    gender: String::from("n")
                })
            },
            StringFragment {
                pos_begin: 5,
                pos_end: 13,
                content: FragmentContent::Command(StringCommand {
                    index: None,
                    name: String::from("ORANGE"),
                    case: None
                })
            },
            StringFragment {
                pos_begin: 13,
                pos_end: 21,
                content: FragmentContent::Text(String::from(
                    "\u{039f}\u{03c0}\u{03b7}\u{03bd}\u{03a4}\u{03a4}\u{0394} "
                ))
            },
            StringFragment {
                pos_begin: 21,
                pos_end: 29,
                content: FragmentContent::Command(StringCommand {
                    index: None,
                    name: String::from("STRING"),
                    case: None
                })
            },
        ]
    );
}

#[test]
fn test_parse_str_err() {
    let case1 = ParsedString::parse("{G=n}{ORANGE OpenTTD");
    assert_eq!(
        case1.err(),
        Some(ParserError {
            pos_begin: 5,
            pos_end: None,
            message: String::from("Unterminated string command, '}' expected."),
        })
    );
}
