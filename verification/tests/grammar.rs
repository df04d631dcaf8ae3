use string_commands::{ChoiceList, FragmentContent, GenderDefinition, StringCommand};

fn choice(name: &str, indexref: Option<usize>, indexsubref: Option<usize>, choices: &[&str]) -> ChoiceList {
    ChoiceList {
        name: String::from(name),
        indexref,
        indexsubref,
        choices: choices.iter().map(|c| String::from(*c)).collect(),
    }
}

fn command(index: Option<usize>, name: &str, case: Option<&str>) -> StringCommand {
    StringCommand { index, name: String::from(name), case: case.map(String::from) }
}

#[test]
fn command_grammar() {
    assert_eq!(StringCommand::parse("{}"), Some(command(None, "", None)));
    assert_eq!(StringCommand::parse("{{}"), Some(command(None, "{", None)));
    assert_eq!(StringCommand::parse("{A}"), Some(command(None, "A", None)));
    assert_eq!(StringCommand::parse("{A_9Z}"), Some(command(None, "A_9Z", None)));
    assert_eq!(StringCommand::parse("{12:}"), Some(command(Some(12), "", None)));
    assert_eq!(StringCommand::parse("{12:{}"), Some(command(Some(12), "{", None)));
    assert_eq!(StringCommand::parse("{0:.x}"), Some(command(Some(0), "", Some("x"))));
    assert_eq!(StringCommand::parse("{.x_1Y}"), Some(command(None, "", Some("x_1Y"))));
    assert_eq!(StringCommand::parse("{{.gen}"), Some(command(None, "{", Some("gen"))));
    assert_eq!(StringCommand::parse("{0012:NUM.a}"), Some(command(Some(12), "NUM", Some("a"))));
}

#[test]
fn command_grammar_rejects() {
    for span in [
        "", "{", "}", "{}}", "{{{}", "x{}", "{}x", "{1}", "{1:2}", "{:}", "{:A}", "{a}", "{_A}",
        "{9A}", "{A.}", "{A..b}", "{A.b.c}", "{A b}", "{A.b c}", "{ A}", "{A }", "{1 :A}", "{1: A}",
        "{-1:A}", "{+1:A}", "{A-B}", "{A}B}", "{\u{00c9}}", "{A\u{00e9}}", "{A.\u{2014}}",
        "{A.a\u{00a0}}", "{\u{00e9}:A}", "{\u{2460}:A}", "{1\u{00e9}:A}", "{A.\u{20ac}}",
    ] {
        assert_eq!(StringCommand::parse(span), None, "{:?}", span);
    }
}

#[test]
fn command_index_that_does_not_fit_is_absent() {
    let max = usize::MAX;
    assert_eq!(
        StringCommand::parse(&format!("{{{}:NUM}}", max)),
        Some(command(Some(max), "NUM", None))
    );
    assert_eq!(
        StringCommand::parse(&format!("{{000{}:NUM}}", max)),
        Some(command(Some(max), "NUM", None))
    );
    assert_eq!(
        StringCommand::parse(&format!("{{{}0:NUM}}", max)),
        Some(command(None, "NUM", None))
    );
    assert_eq!(
        StringCommand::parse("{340282366920938463463374607431768211456:NUM.x}"),
        Some(command(None, "NUM", Some("x")))
    );
    let below = (max / 10) * 10 + 9;
    if below > max {
        unreachable!();
    }
}

#[test]
fn command_compiles() {
    assert_eq!(command(None, "", None).compile(), "{}");
    assert_eq!(command(Some(0), "", None).compile(), "{0:}");
    assert_eq!(command(Some(10), "A", None).compile(), "{10:A}");
    assert_eq!(command(Some(1234567890), "A", Some("b")).compile(), "{1234567890:A.b}");
    assert_eq!(command(None, "", Some("x")).compile(), "{.x}");
    assert_eq!(
        command(Some(usize::MAX), "N", None).compile(),
        format!("{{{}:N}}", usize::MAX)
    );
    // Nothing is checked of a value that was put together by hand.
    assert_eq!(command(None, "any thing", Some("")).compile(), "{any thing.}");
}

#[test]
fn gender_grammar() {
    let g = |s: &str| Some(GenderDefinition { gender: String::from(s) });
    assert_eq!(GenderDefinition::parse("{G=n}"), g("n"));
    assert_eq!(GenderDefinition::parse("{G=masc_1}"), g("masc_1"));
    assert_eq!(GenderDefinition::parse("{G =n}"), g("n"));
    assert_eq!(GenderDefinition::parse("{G= n}"), g("n"));
    assert_eq!(GenderDefinition::parse("{G \t\r\n=\n\r\t n}"), g("n"));
    assert_eq!(GenderDefinition::parse("{G=G}"), g("G"));
    assert_eq!(GenderDefinition { gender: String::from("fem") }.compile(), "{G=fem}");
}

#[test]
fn gender_grammar_rejects() {
    for span in [
        "", "{G}", "{G=}", "{G= }", "{G=n }", "{G=n m}", "{G=n", "G=n}", "{g=n}", "{GG=n}",
        "{ G=n}", "{G==n}", "{G=n-m}", "{G=\u{2014}}", "{G\u{00e9}=n}", "{G\u{200b}=n}",
        "{G=n\u{00a0}}", "{G=n}}", "{P=n}",
    ] {
        assert_eq!(GenderDefinition::parse(span), None, "{:?}", span);
    }
}

#[test]
fn choice_grammar() {
    assert_eq!(ChoiceList::parse("{P a}"), Some(choice("P", None, None, &["a"])));
    assert_eq!(ChoiceList::parse("{G m f}"), Some(choice("G", None, None, &["m", "f"])));
    assert_eq!(ChoiceList::parse("{X a}"), Some(choice("X", None, None, &["a"])));
    assert_eq!(ChoiceList::parse("{P \"\"}"), Some(choice("P", None, None, &[""])));
    assert_eq!(ChoiceList::parse("{P \"\" b}"), Some(choice("P", None, None, &["", "b"])));
    assert_eq!(
        ChoiceList::parse("{P 1:2 \"a b\" \"c\"}"),
        Some(choice("P", Some(1), Some(2), &["a b", "c"]))
    );
    assert_eq!(
        ChoiceList::parse("{P \" a \" \"\n\"}"),
        Some(choice("P", None, None, &[" a ", "\n"]))
    );
    assert_eq!(ChoiceList::parse("{P a\nb}"), Some(choice("P", None, None, &["a", "b"])));
    assert_eq!(ChoiceList::parse("{P  a  }"), Some(choice("P", None, None, &["a"])));
    assert_eq!(ChoiceList::parse("{P 1 2}"), Some(choice("P", Some(1), None, &["2"])));
    assert_eq!(ChoiceList::parse("{P 1:2 3 4}"), Some(choice("P", Some(1), Some(2), &["3", "4"])));
    assert_eq!(ChoiceList::parse("{P 1 :2}"), Some(choice("P", Some(1), None, &[":2"])));
    assert_eq!(ChoiceList::parse("{P 010 x}"), Some(choice("P", Some(10), None, &["x"])));
    assert_eq!(ChoiceList::parse("{P a1 2}"), Some(choice("P", None, None, &["a1", "2"])));
    assert_eq!(ChoiceList::parse("{P a{b c=d}"), Some(choice("P", None, None, &["a{b", "c=d"])));
    assert_eq!(
        ChoiceList::parse("{P \u{00e9}t\u{00e9} \u{00a0}}"),
        Some(choice("P", None, None, &["\u{00e9}t\u{00e9}", "\u{00a0}"]))
    );
    assert_eq!(
        ChoiceList::parse("{P a\u{000c}b}"),
        Some(choice("P", None, None, &["a\u{000c}b"]))
    );
}

#[test]
fn choice_index_that_does_not_fit_is_absent() {
    assert_eq!(
        ChoiceList::parse("{P 99999999999999999999999999 a}"),
        Some(choice("P", None, None, &["a"]))
    );
    assert_eq!(
        ChoiceList::parse("{P 1:99999999999999999999999999 a}"),
        Some(choice("P", Some(1), None, &["a"]))
    );
    assert_eq!(
        ChoiceList::parse("{P 99999999999999999999999999:3 a}"),
        Some(choice("P", None, Some(3), &["a"]))
    );
}

#[test]
fn choice_grammar_rejects() {
    for span in [
        "", "{P}", "{P }", "{P  }", "{Pa}", "{P1 a}", "{p a}", "{PP a}", "{ P a}", "{P \"}",
        "{P \" a}", "{P a\"b\"}", "{P \"a\"b}", "{P \"a\"\"b\"}", "{P a\"}", "{P 1}", "{P 1 }",
        "{P 1:2}", "{P 1:2 }", "{P 1x a}", "{P 1.a a b}", "{P 1:a a b}", "{P 1: a}", "{P 1:2x a}",
        "{P a b", "P a b}", "{\u{00c9} a}", "{P \u{0663}}", "{P \u{0663}x a}",
    ] {
        assert_eq!(ChoiceList::parse(span), None, "{:?}", span);
    }
}

#[test]
fn choice_compiles() {
    assert_eq!(choice("P", None, None, &["a", "b"]).compile(), "{P a b}");
    assert_eq!(choice("P", None, None, &["", " b"]).compile(), "{P \"\" \" b\"}");
    assert_eq!(choice("P", Some(0), None, &["x"]).compile(), "{P 0 x}");
    assert_eq!(choice("G", Some(12), Some(34), &["m", "f", ""]).compile(), "{G 12:34 m f \"\"}");
    // Without an index reference the sub-index is not written.
    assert_eq!(choice("P", None, Some(2), &["a"]).compile(), "{P a}");
    for white in ["\t", "\n", "\r", " ", "\u{000c}"] {
        let c = format!("a{}b", white);
        assert_eq!(
            choice("P", None, None, &[&c]).compile(),
            format!("{{P \"{}\"}}", c)
        );
    }
    // Whitespace outside ASCII does not ask for quotes.
    assert_eq!(
        choice("P", None, None, &["a\u{00a0}b", "\u{000b}"]).compile(),
        "{P a\u{00a0}b \u{000b}}"
    );
    assert_eq!(choice("P", None, None, &[]).compile(), "{P}");
}

#[test]
fn grammars_are_tried_in_order() {
    assert_eq!(
        FragmentContent::parse("{G}"),
        Ok(FragmentContent::Command(command(None, "G", None)))
    );
    // Both a gender definition and a choice list: the gender definition wins.
    assert_eq!(
        FragmentContent::parse("{G =x}"),
        Ok(FragmentContent::Gender(GenderDefinition { gender: String::from("x") }))
    );
    assert_eq!(ChoiceList::parse("{G =x}"), Some(choice("G", None, None, &["=x"])));
    assert_eq!(
        FragmentContent::parse("{G = x}"),
        Ok(FragmentContent::Gender(GenderDefinition { gender: String::from("x") }))
    );
    assert_eq!(ChoiceList::parse("{G = x}"), Some(choice("G", None, None, &["=", "x"])));
    assert_eq!(
        FragmentContent::parse("{G =x y}"),
        Ok(FragmentContent::Choice(choice("G", None, None, &["=x", "y"])))
    );
}

#[test]
fn invalid_content_quotes_the_span() {
    assert_eq!(
        FragmentContent::parse("{NUM=a}"),
        Err(String::from("Invalid string command: '{NUM=a}'"))
    );
    assert_eq!(FragmentContent::parse(""), Err(String::from("Invalid string command: ''")));
    assert_eq!(
        FragmentContent::parse("{\u{00e9}'}"),
        Err(String::from("Invalid string command: '{\u{00e9}'}'"))
    );
}

#[test]
fn content_compiles_by_its_kind() {
    assert_eq!(FragmentContent::Text(String::from("a {b} c")).compile(), "a {b} c");
    assert_eq!(FragmentContent::Text(String::new()).compile(), "");
    assert_eq!(FragmentContent::Command(command(Some(3), "X", None)).compile(), "{3:X}");
    assert_eq!(
        FragmentContent::Gender(GenderDefinition { gender: String::from("n") }).compile(),
        "{G=n}"
    );
    assert_eq!(
        FragmentContent::Choice(choice("P", Some(1), Some(2), &["a b"])).compile(),
        "{P 1:2 \"a b\"}"
    );
}

#[test]
fn spans_given_as_characters() {
    let chars = |s: &str| s.chars().collect::<Vec<char>>();
    assert_eq!(
        StringCommand::from_chars(&chars("{3:NUM.x}")),
        Some(command(Some(3), "NUM", Some("x")))
    );
    assert_eq!(StringCommand::from_chars(&chars("{3}")), None);
    assert_eq!(StringCommand::from_chars(&[]), None);
    assert_eq!(
        GenderDefinition::from_chars(&chars("{G = f}")),
        Some(GenderDefinition { gender: String::from("f") })
    );
    assert_eq!(GenderDefinition::from_chars(&chars("{G}")), None);
    assert_eq!(
        ChoiceList::from_chars(&chars("{P 2 \"\u{00e9} \" b}")),
        Some(choice("P", Some(2), None, &["\u{00e9} ", "b"]))
    );
    assert_eq!(ChoiceList::from_chars(&chars("{P}")), None);
    assert_eq!(
        FragmentContent::from_chars(&chars("{G=n}")),
        Ok(FragmentContent::Gender(GenderDefinition { gender: String::from("n") }))
    );
    assert_eq!(
        FragmentContent::from_chars(&chars("{\u{00e9}}")),
        Err(String::from("Invalid string command: '{\u{00e9}}'"))
    );
}

#[test]
fn word_characters_of_other_scripts() {
    assert_eq!(
        StringCommand::parse("{A.\u{00e9}}"),
        Some(command(None, "A", Some("\u{00e9}")))
    );
    assert_eq!(
        StringCommand::parse("{.\u{00e9}}"),
        Some(command(None, "", Some("\u{00e9}")))
    );
    assert_eq!(
        StringCommand::parse("{2:STRING.\u{0436}\u{4e2d}_\u{0663}x}"),
        Some(command(Some(2), "STRING", Some("\u{0436}\u{4e2d}_\u{0663}x")))
    );
    assert_eq!(
        GenderDefinition::parse("{G=\u{00e9}}"),
        Some(GenderDefinition { gender: String::from("\u{00e9}") })
    );
    assert_eq!(
        GenderDefinition::parse("{G = f\u{00e9}minin}"),
        Some(GenderDefinition { gender: String::from("f\u{00e9}minin") })
    );
    // Written and read back.
    let c = command(None, "", Some("\u{00e9}"));
    assert_eq!(StringCommand::parse(&c.compile()), Some(c));
    let g = GenderDefinition { gender: String::from("\u{00e9}") };
    assert_eq!(g.compile(), "{G=\u{00e9}}");
    assert_eq!(GenderDefinition::parse(&g.compile()), Some(g));
}

#[test]
fn digits_of_other_scripts_leave_the_number_absent() {
    assert_eq!(StringCommand::parse("{\u{0661}:A}"), Some(command(None, "A", None)));
    assert_eq!(StringCommand::parse("{1\u{0661}:A.x}"), Some(command(None, "A", Some("x"))));
    assert_eq!(StringCommand::parse("{\u{ff11}2:}"), Some(command(None, "", None)));
    assert_eq!(ChoiceList::parse("{P \u{0663} a}"), Some(choice("P", None, None, &["a"])));
    assert_eq!(
        ChoiceList::parse("{P 1:\u{0663} a b}"),
        Some(choice("P", Some(1), None, &["a", "b"]))
    );
    assert_eq!(
        ChoiceList::parse("{P \u{0663}:4 a}"),
        Some(choice("P", None, Some(4), &["a"]))
    );
    // Digits behind the first letter of a name are those of ASCII only.
    assert_eq!(StringCommand::parse("{A1}"), Some(command(None, "A1", None)));
    assert_eq!(StringCommand::parse("{A\u{0661}}"), None);
}

#[test]
fn whitespace_of_a_gender_definition() {
    let n = || Some(GenderDefinition { gender: String::from("n") });
    assert_eq!(GenderDefinition::parse("{G\u{00a0}=n}"), n());
    assert_eq!(GenderDefinition::parse("{G=\u{2003}n}"), n());
    assert_eq!(GenderDefinition::parse("{G\u{000c}=\u{000b}n}"), n());
    assert_eq!(GenderDefinition::parse("{G \u{0085}\t=\u{3000}\r\nn}"), n());
    assert_eq!(
        FragmentContent::parse("{G\u{00a0}=n}"),
        Ok(FragmentContent::Gender(GenderDefinition { gender: String::from("n") }))
    );
    // Between choices only space, tab, carriage return and line feed count.
    assert_eq!(ChoiceList::parse("{P\u{00a0}a}"), None);
    assert_eq!(ChoiceList::parse("{P\u{000c}a}"), None);
    assert_eq!(
        ChoiceList::parse("{P a\u{00a0}b \u{000b}}"),
        Some(choice("P", None, None, &["a\u{00a0}b", "\u{000b}"]))
    );
}
