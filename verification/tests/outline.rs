use myoso::outline::{
    assemble, clean_deck, clean_tags, clean_text, convert, dup_key, export_candidate,
    guess_question, is_export_value, looks_like_export, parse, shorten, split_records,
    starts_with_at, strip_bom, Body, Builder, Json, LineError, OutlineSummary,
};

fn s(t: &str) -> Json {
    Json::Str(t.to_string())
}

fn obj(entries: Vec<(&str, Json)>) -> Json {
    Json::Object(entries.into_iter().map(|(k, v)| (k.to_string(), v)).collect())
}

fn arr(v: Vec<Json>) -> Json {
    Json::Array(v)
}

#[test]
fn records_are_found_between_chatter_and_fences() {
    let text = "Here are your cards:\n```json\n{\"deck\":\"A\",\"question\":\"q1\",\"answer\":\"x\"}\n{\"deck\":\"A\",\"question\":\"q2\",\"answer\":\"y\"}\n```\n";
    let recs = split_records(text);
    assert_eq!(recs.len(), 2);
    assert_eq!(recs[0].line, 3);
    assert_eq!(recs[1].line, 4);
    assert!(recs.iter().all(|r| r.complete));
    assert_eq!(recs[0].text, "{\"deck\":\"A\",\"question\":\"q1\",\"answer\":\"x\"}");
}

#[test]
fn raw_newlines_and_tabs_inside_strings_are_escaped() {
    let text = "{\"answer\":\"a\n\tb\"}";
    let recs = split_records(text);
    assert_eq!(recs.len(), 1);
    assert_eq!(recs[0].text, "{\"answer\":\"a\\n\\tb\"}");
    assert!(recs[0].complete);
}

#[test]
fn an_unclosed_card_does_not_swallow_the_next_one() {
    let text = "{\"deck\":\"A\",\"question\":\"broken\n{\"deck\":\"A\",\"question\":\"ok\",\"answer\":\"x\"}";
    let recs = split_records(text);
    assert_eq!(recs.len(), 2);
    assert!(!recs[0].complete);
    assert!(recs[1].complete);
    assert_eq!(recs[1].line, 2);
}

#[test]
fn brackets_inside_strings_do_not_count() {
    let text = "{\"answer\":\"int main() { return 0; }\"}";
    let recs = split_records(text);
    assert_eq!(recs.len(), 1);
    assert!(recs[0].complete);
    assert_eq!(recs[0].text, text);
}

#[test]
fn control_characters_become_unicode_escapes() {
    let text = "{\"a\":\"x\u{1}y\"}";
    let recs = split_records(text);
    assert_eq!(recs[0].text, "{\"a\":\"x\\u0001y\"}");
}

#[test]
fn starts_with_at_checks_in_place() {
    let chars: Vec<char> = "ab{\"deck\"".chars().collect();
    assert!(starts_with_at(&chars, 2, "{\"deck\""));
    assert!(!starts_with_at(&chars, 1, "{\"deck\""));
    assert!(!starts_with_at(&chars, 8, "{\"deck\""));
}

#[test]
fn question_is_guessed_from_broken_json() {
    assert_eq!(guess_question("{\"deck\":\"A\",\"question\": \"What is \\\"p\\\"?\", \"answ"), Some("What is \"p\"?".to_string()));
    assert_eq!(guess_question("{\"deck\":\"A\"}"), None);
    assert_eq!(guess_question("{\"question\":\"unfinished"), Some("unfinished".to_string()));
    assert_eq!(guess_question("{\"question\":\"\"}"), Some(String::new()));
}

#[test]
fn shorten_collapses_spacing_and_cuts_with_an_ellipsis() {
    assert_eq!(shorten("  a   b\nc ", 10), "a b c");
    assert_eq!(shorten("abcdefghij", 5), "abcd…");
    assert_eq!(shorten("abc", 0), "…");
}

#[test]
fn clean_text_trims_and_refuses_empty_or_huge() {
    assert_eq!(clean_text("  hi ", "\"answer\"", ""), Ok("hi".to_string()));
    assert_eq!(clean_text("   ", "\"answer\"", "steps[0]: "), Err("steps[0]: \"answer\" is empty".to_string()));
    let long = "x".repeat(20001);
    assert_eq!(clean_text(&long, "the step", ""), Err("the step is longer than 20000 characters".to_string()));
    let ok = "x".repeat(20000);
    assert!(clean_text(&ok, "the step", "").is_ok());
}

#[test]
fn deck_parts_are_trimmed_and_must_not_be_empty() {
    assert_eq!(clean_deck(" Math :: Calculus "), Ok("Math::Calculus".to_string()));
    assert_eq!(clean_deck("Math"), Ok("Math".to_string()));
    assert_eq!(
        clean_deck("Math::"),
        Err("deck \"Math::\" has an empty part. Use names like \"Math\" or \"Math::Calculus\"".to_string())
    );
    assert_eq!(clean_deck("a:::b"), Ok("a:::b".to_string()));
}

#[test]
fn tags_are_lowercased_and_deduplicated() {
    let v = arr(vec![s(" Pointers "), s("pointers"), s(""), s("C")]);
    assert_eq!(clean_tags(Some(&v)), Ok(vec!["pointers".to_string(), "c".to_string()]));
    assert_eq!(clean_tags(None), Ok(vec![]));
    assert_eq!(clean_tags(Some(&s("x"))), Err("\"tags\" must be a list of text".to_string()));
    let bad = arr(vec![s("a"), Json::Bool(true)]);
    assert_eq!(clean_tags(Some(&bad)), Err("\"tags\" must be a list of text".to_string()));
}

#[test]
fn dup_key_ignores_case_and_spacing() {
    assert_eq!(dup_key(" Math ", "What  is\nX?"), ("math".to_string(), "what is x?".to_string()));
    assert_eq!(dup_key("Math", "what is x?"), dup_key("math ", "  WHAT is   X? "));
}

#[test]
fn a_simple_card_is_read() {
    let v = obj(vec![("deck", s("C::Pointers")), ("question", s("What does *p++ do?")), ("answer", s("moves p")), ("reversible", Json::Bool(true))]);
    let c = convert(&v).unwrap();
    assert_eq!(c.deck, "C::Pointers");
    assert_eq!(c.question, "What does *p++ do?");
    match c.body {
        Body::Simple { answer, reversible } => {
            assert_eq!(answer, "moves p");
            assert!(reversible);
        }
        _ => panic!("expected a simple card"),
    }
}

#[test]
fn a_chain_with_a_fork_is_built_in_depth_first_order() {
    let steps = arr(vec![
        s("malloc and check NULL"),
        obj(vec![
            ("answer", s("use it")),
            ("branches", arr(vec![
                obj(vec![("name", s("Grow")), ("steps", arr(vec![s("realloc")]))]),
                obj(vec![("name", s("Done")), ("steps", arr(vec![s("free"), s("set NULL")]))]),
            ])),
        ]),
    ]);
    let v = obj(vec![("deck", s("C::Memory")), ("question", s("Heap lifecycle?")), ("steps", steps)]);
    let c = convert(&v).unwrap();
    match c.body {
        Body::Chain { steps } => {
            let answers: Vec<&str> = steps.iter().map(|d| d.answer.as_str()).collect();
            assert_eq!(answers, ["malloc and check NULL", "use it", "realloc", "free", "set NULL"]);
            let parents: Vec<Option<u32>> = steps.iter().map(|d| d.parent).collect();
            assert_eq!(parents, [None, Some(0), Some(1), Some(1), Some(3)]);
            assert_eq!(steps[2].name, "Grow");
            assert_eq!(steps[3].name, "Done");
        }
        _ => panic!("expected a chain"),
    }
}

#[test]
fn root_paths_need_names() {
    let v = obj(vec![
        ("deck", s("Systems")),
        ("question", s("SSD or HDD?")),
        ("paths", arr(vec![
            obj(vec![("steps", arr(vec![s("flash")]))]),
            obj(vec![("name", s("HDD")), ("steps", arr(vec![s("platters")]))]),
        ])),
    ]);
    assert_eq!(
        convert(&v).err().unwrap(),
        "paths[0]: needs a \"name\". Alternatives under the same step must each be named (like \"SSD\" / \"HDD\") so they can be told apart in review"
    );
}

#[test]
fn alternatives_may_not_share_a_name() {
    let v = obj(vec![
        ("deck", s("Systems")),
        ("question", s("SSD or HDD?")),
        ("paths", arr(vec![
            obj(vec![("name", s("Disk")), ("steps", arr(vec![s("flash")]))]),
            obj(vec![("name", s("disk")), ("steps", arr(vec![s("platters")]))]),
        ])),
    ]);
    assert_eq!(convert(&v).err().unwrap(), "paths[1]: another alternative is already named \"disk\"");
}

#[test]
fn card_shape_errors_are_precise() {
    let none = obj(vec![("deck", s("A")), ("question", s("q"))]);
    assert_eq!(
        convert(&none).err().unwrap(),
        "needs one of \"answer\" (a simple card), \"steps\" (a chain), or \"paths\" (alternative chains)"
    );
    let two = obj(vec![("deck", s("A")), ("question", s("q")), ("answer", s("a")), ("steps", arr(vec![s("x")]))]);
    assert_eq!(convert(&two).err().unwrap(), "use only ONE of \"answer\", \"steps\" and \"paths\" on a card");
    let rev = obj(vec![("deck", s("A")), ("question", s("q")), ("steps", arr(vec![s("x")])), ("reversible", Json::Bool(true))]);
    assert_eq!(convert(&rev).err().unwrap(), "\"reversible\" only applies to simple cards (those with an \"answer\")");
    let unknown = obj(vec![("deck", s("A")), ("colour", s("red"))]);
    assert_eq!(
        convert(&unknown).err().unwrap(),
        "unknown field \"colour\" (allowed here: \"deck\", \"question\", \"answer\", \"steps\", \"paths\", \"tags\", \"reversible\")"
    );
    let missing = obj(vec![("question", s("q")), ("answer", s("a"))]);
    assert_eq!(convert(&missing).err().unwrap(), "missing \"deck\"");
    assert_eq!(convert(&s("x")).err().unwrap(), "expected an object { ... }");
    let late = obj(vec![
        ("deck", s("A")),
        ("question", s("q")),
        ("steps", arr(vec![obj(vec![("answer", s("a")), ("branches", arr(vec![]))]), s("b")])),
    ]);
    assert_eq!(
        convert(&late).err().unwrap(),
        "steps[0]: \"branches\" must be on the LAST step of a list. The steps after it can't belong to any branch, so move them into one of the branches"
    );
}

#[test]
fn a_card_may_not_have_too_many_steps() {
    let mut b = Builder { drafts: Vec::new() };
    for k in 0..100 {
        assert_eq!(b.push(None, String::new(), format!("s{k}")), Ok(k));
    }
    assert_eq!(
        b.push(None, String::new(), "one more".to_string()),
        Err("more than 100 steps in one card: split it into several cards".to_string())
    );
}

#[test]
fn assemble_reports_broken_cards_and_keeps_the_rest() {
    let text = "{\"deck\":\"A\",\"question\":\"cut\n{\"deck\":\"A\",\"question\":\"q\",\"answer\":\"a\"}\n{\"deck\":\"A\",\"question\":\"bad\",\"answer\":\"\"}";
    let recs = split_records(text);
    assert_eq!(recs.len(), 3);
    let parsed = vec![
        Err(String::new()),
        Ok(obj(vec![("deck", s("A")), ("question", s("q")), ("answer", s("a"))])),
        Ok(obj(vec![("deck", s("A")), ("question", s("bad")), ("answer", s(""))])),
    ];
    let p = assemble(&recs, &parsed);
    assert_eq!(p.cards.len(), 1);
    assert_eq!(p.cards[0].line, 2);
    assert_eq!(p.errors.len(), 2);
    assert_eq!(p.errors[0].line, 1);
    assert_eq!(p.errors[0].label, Some("cutn".to_string()));
    assert!(p.errors[0].message.starts_with("the card is cut off"));
    assert_eq!(p.errors[1].line, 3);
    assert_eq!(p.errors[1].label, Some("bad".to_string()));
    assert_eq!(p.errors[1].message, "\"answer\" is empty");
}

#[test]
fn invalid_json_is_reported_with_the_parser_message() {
    let recs = split_records("{nope}");
    let p = assemble(&recs, &vec![Err("expected value at line 1".to_string())]);
    assert_eq!(p.errors[0].message, "not valid JSON: expected value at line 1");
}

#[test]
fn an_empty_file_says_no_cards_were_found() {
    let recs = split_records("just some text");
    let p = assemble(&recs, &vec![]);
    assert!(p.cards.is_empty());
    assert_eq!(p.errors.len(), 1);
    assert_eq!(p.errors[0].line, 1);
    assert!(p.errors[0].message.starts_with("no cards found."));
}

#[test]
fn line_errors_read_as_one_line() {
    let e = LineError { line: 4, label: Some("What   is\nthis?".to_string()), message: "oops".to_string() };
    assert_eq!(e.to_text(), "line 4 (\"What is this?\"): oops");
    let e = LineError { line: 7, label: None, message: "bad".to_string() };
    assert_eq!(e.to_text(), "line 7: bad");
}

#[test]
fn summary_headline_and_report() {
    let mut sum = OutlineSummary {
        cards_imported: 3,
        simple_cards: 1,
        chain_cards: 1,
        branching_cards: 1,
        steps_imported: 7,
        decks: 2,
        duplicates_skipped: 2,
        errors: vec![],
    };
    assert_eq!(sum.headline(), "✓  3 card(s) added to 2 deck(s): 1 simple, 1 chain(s), 1 branching  (7 steps)  ·  2 duplicate(s) skipped");
    sum.cards_imported = 0;
    assert_eq!(sum.headline(), "✓  nothing new: all 2 card(s) are already in your decks");
    sum.errors.push(LineError { line: 1, label: None, message: "x".into() });
    sum.errors.push(LineError { line: 2, label: None, message: "y".into() });
    assert_eq!(sum.headline(), "✗  no cards were imported");
    assert_eq!(sum.error_report(), "line 1: x\nline 2: y");
}

#[test]
fn byte_order_mark_is_dropped() {
    assert_eq!(strip_bom("\u{feff}{x}"), "{x}");
    assert_eq!(strip_bom("{x}"), "{x}");
}

#[test]
fn full_exports_are_told_apart() {
    assert_eq!(export_candidate("\u{feff}  {\"cards\": []}"), Some("{\"cards\": []}".to_string()));
    assert_eq!(export_candidate("{\"deck\":\"A\"}"), None);
    assert!(is_export_value(&obj(vec![("cards", arr(vec![]))])));
    assert!(!is_export_value(&obj(vec![("cards", arr(vec![])), ("question", s("q"))])));
    assert!(!is_export_value(&obj(vec![("cards", s("x"))])));
}

#[test]
fn parse_reads_cards_and_reports_broken_ones_by_line() {
    let text = "\u{feff}Here you go:\n{\"deck\":\"A\",\"question\":\"q\",\"answer\":\"a\"}\n{\"deck\": \"A\", \"question\": 5, }\n{\"deck\":\"B\",\"question\":\"cut";
    let p = parse(text);
    assert_eq!(p.cards.len(), 1);
    assert_eq!(p.cards[0].line, 2);
    assert_eq!(p.cards[0].question, "q");
    assert_eq!(p.errors.len(), 2);
    assert_eq!(p.errors[0].line, 3);
    assert!(p.errors[0].message.starts_with("not valid JSON: "), "{}", p.errors[0].message);
    assert!(p.errors[0].message.len() > "not valid JSON: ".len());
    assert_eq!(p.errors[1].line, 4);
    assert_eq!(p.errors[1].label, Some("cut".to_string()));
    assert!(p.errors[1].message.starts_with("the card is cut off"));
}

#[test]
fn parse_reads_a_multi_step_card() {
    let p = parse("{\"deck\":\"C\",\"question\":\"Q\",\"steps\":[\"one\",{\"answer\":\"two\"}],\"tags\":[\"X\"]}");
    assert!(p.errors.is_empty());
    assert_eq!(p.cards[0].tags, vec!["x".to_string()]);
    match &p.cards[0].body {
        Body::Chain { steps } => assert_eq!(steps.len(), 2),
        _ => panic!("expected steps"),
    }
}

#[test]
fn parse_of_nothing_says_no_cards_were_found() {
    let p = parse("");
    assert!(p.cards.is_empty());
    assert!(p.errors[0].message.starts_with("no cards found."));
}

#[test]
fn a_full_export_is_recognised_but_a_card_is_not() {
    assert!(looks_like_export("\u{feff} {\"cards\": [], \"version\": 1}"));
    assert!(!looks_like_export("{\"cards\": [], \"question\": \"q\"}"));
    assert!(!looks_like_export("{\"cards\": [oops]}"));
    assert!(!looks_like_export("{\"deck\":\"A\",\"question\":\"q\",\"answer\":\"a\"}"));
}
