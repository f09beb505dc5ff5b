use myoso::markdown::{code_row, highlight_code, render, render_events, MdColor, MdEvent, MdRenderer, MdRow, MdStyle, MdTag, MdTagEnd};
use syntect::highlighting::ThemeSet;
use syntect::parsing::SyntaxSet;

fn run(events: Vec<MdEvent>) -> Vec<MdRow> {
    let mut r = MdRenderer::new();
    for e in events {
        r.feed(e);
    }
    r.finish()
}

fn texts(rows: &[MdRow]) -> Vec<String> {
    rows.iter()
        .map(|row| match row {
            MdRow::Line(v) => v.iter().map(|(t, _)| t.as_str()).collect::<String>(),
            MdRow::Code(code, lang) => format!("<{lang}:{code}>"),
        })
        .collect()
}

fn plain(color: MdColor) -> MdStyle {
    MdStyle { color, bold: false, italic: false, underlined: false, crossed_out: false }
}

#[test]
fn a_paragraph_is_green_with_bold_and_code_inline() {
    let rows = run(vec![
        MdEvent::Start(MdTag::Other),
        MdEvent::Text("use ".into()),
        MdEvent::Start(MdTag::Strong),
        MdEvent::Text("Box".into()),
        MdEvent::End(MdTagEnd::Strong),
        MdEvent::SoftBreak,
        MdEvent::Code("dyn".into()),
        MdEvent::End(MdTagEnd::Paragraph),
    ]);
    assert_eq!(texts(&rows), ["use Box `dyn`"], "the blank line after the paragraph is dropped at the end");
    match &rows[0] {
        MdRow::Line(v) => {
            assert_eq!(v[0].1, plain(MdColor::Green));
            assert_eq!(v[1].1, MdStyle { bold: true, ..plain(MdColor::Green) });
            assert_eq!(v[2].1, plain(MdColor::Plain));
            assert_eq!(v[3].1, plain(MdColor::Yellow));
        },
        _ => panic!("expected a line"),
    }
}

#[test]
fn headings_get_their_own_style_and_a_blank_line() {
    let rows = run(vec![
        MdEvent::Start(MdTag::Heading(1)),
        MdEvent::Text("Title".into()),
        MdEvent::End(MdTagEnd::Heading),
        MdEvent::Text("body".into()),
        MdEvent::End(MdTagEnd::Paragraph),
    ]);
    assert_eq!(texts(&rows), ["Title", "", "body"]);
    match &rows[0] {
        MdRow::Line(v) => assert_eq!(v[0].1, MdStyle { bold: true, underlined: true, ..plain(MdColor::Cyan) }),
        _ => panic!("expected a line"),
    }
}

#[test]
fn ordered_lists_count_from_their_start_and_nested_items_indent() {
    let rows = run(vec![
        MdEvent::Start(MdTag::List(Some(3))),
        MdEvent::Start(MdTag::Item),
        MdEvent::Text("three".into()),
        MdEvent::Start(MdTag::List(None)),
        MdEvent::Start(MdTag::Item),
        MdEvent::Text("inner".into()),
        MdEvent::End(MdTagEnd::Item),
        MdEvent::End(MdTagEnd::List),
        MdEvent::End(MdTagEnd::Item),
        MdEvent::Start(MdTag::Item),
        MdEvent::Text("four".into()),
        MdEvent::End(MdTagEnd::Item),
        MdEvent::End(MdTagEnd::List),
    ]);
    assert_eq!(texts(&rows), ["3. three", "  \u{2022} inner", "4. four"]);
}

#[test]
fn quotes_get_a_gutter_and_text_lines_break_on_newlines() {
    let rows = run(vec![
        MdEvent::Start(MdTag::BlockQuote),
        MdEvent::Text("a\nb".into()),
        MdEvent::End(MdTagEnd::BlockQuote),
        MdEvent::Text("after".into()),
    ]);
    assert_eq!(texts(&rows), ["\u{2502} a", "\u{2502} b", "", "after"]);
}

#[test]
fn code_blocks_are_left_for_the_highlighter_between_separators() {
    let rows = run(vec![
        MdEvent::Start(MdTag::CodeBlock("rust".into())),
        MdEvent::Text("fn main() {}\n".into()),
        MdEvent::End(MdTagEnd::CodeBlock),
        MdEvent::Rule,
    ]);
    let sep = format!("  {}", "\u{2500}".repeat(30));
    assert_eq!(texts(&rows), [sep.clone(), "<rust:fn main() {}\n>".to_string(), sep, "".to_string(), "\u{2500}".repeat(48)]);
}

fn sets() -> (SyntaxSet, ThemeSet) {
    (SyntaxSet::load_defaults_newlines(), ThemeSet::load_defaults())
}

#[test]
fn render_parses_markdown_into_styled_lines() {
    let (ss, ts) = sets();
    let rows = render("# Title\n\nSome **bold** text\n\n- one\n- two\n\n> quoted", &ss, &ts).unwrap();
    assert_eq!(texts(&rows), ["Title", "", "Some bold text", "", "\u{2022} one", "\u{2022} two", "", "\u{2502} quoted"]);
    match &rows[2] {
        MdRow::Line(v) => {
            assert_eq!(v[1].0, "bold");
            assert!(v[1].1.bold);
        },
        _ => panic!("expected a line"),
    }
}

#[test]
fn render_numbers_ordered_lists_from_their_start() {
    let (ss, ts) = sets();
    let rows = render("3. c\n4. d", &ss, &ts).unwrap();
    assert_eq!(texts(&rows), ["3. c", "4. d"]);
}

#[test]
fn render_highlights_fenced_code_between_separators() {
    let (ss, ts) = sets();
    let rows = render("```rs\nfn main() {}\nlet x = 1;\n```", &ss, &ts).unwrap();
    let sep = format!("  {}", "\u{2500}".repeat(30));
    assert_eq!(texts(&rows), [sep.clone(), "  fn main() {}".to_string(), "  let x = 1;".to_string(), sep]);
    match &rows[1] {
        MdRow::Line(v) => {
            assert_eq!(v[0].0, "  ");
            assert!(v.len() > 2, "the highlighter splits the line into pieces");
            assert!(v[1..].iter().any(|(_, st)| matches!(st.color, MdColor::Rgb(_, _, _))));
        },
        _ => panic!("expected a line"),
    }
}

#[test]
fn a_language_is_found_by_extension_or_exact_name_only() {
    let (ss, ts) = sets();
    let by_name = highlight_code("fn f() {}", "Rust", &ss, &ts);
    let by_word = highlight_code("fn f() {}", "rust", &ss, &ts);
    let pieces = |rows: &[MdRow]| match &rows[0] {
        MdRow::Line(v) => v.len(),
        _ => 0,
    };
    assert!(pieces(&by_name) > 2);
    assert_eq!(pieces(&by_word), 2, "\"rust\" is neither an extension nor a name, so plain text");
}

#[test]
fn highlight_code_gives_one_row_per_line_even_for_unknown_languages() {
    let (ss, ts) = sets();
    let rows = highlight_code("a\r\nb\n\nc", "no-such-language", &ss, &ts);
    assert_eq!(texts(&rows), ["  a", "  b", "  ", "  c"]);
}

#[test]
fn render_events_refuses_a_counter_past_its_limit() {
    let events = vec![
        MdEvent::Start(MdTag::List(Some(u64::MAX))),
        MdEvent::Start(MdTag::Item),
        MdEvent::Start(MdTag::Item),
    ];
    assert!(render_events(events).is_none());
    let ok = render_events(vec![MdEvent::Start(MdTag::List(Some(7))), MdEvent::Start(MdTag::Item), MdEvent::Text("x".into())]);
    assert_eq!(texts(&ok.unwrap()), ["7. x"]);
}

#[test]
fn a_highlighted_line_keeps_each_piece_in_its_colour() {
    let pieces = vec![("fn".to_string(), 1, 2, 3), (" f".to_string(), 4, 5, 6), ("\n".to_string(), 7, 8, 9)];
    match code_row(&pieces) {
        MdRow::Line(v) => {
            let got: Vec<(&str, MdColor)> = v.iter().map(|(t, st)| (t.as_str(), st.color)).collect();
            assert_eq!(
                got,
                [("  ", MdColor::Plain), ("fn", MdColor::Rgb(1, 2, 3)), (" f", MdColor::Rgb(4, 5, 6)), ("", MdColor::Plain)]
            );
        },
        _ => panic!("expected a line"),
    }
}

#[test]
fn without_the_theme_code_is_drawn_plain() {
    let ss = SyntaxSet::load_defaults_newlines();
    let ts = ThemeSet { themes: Default::default() };
    let rows = highlight_code("fn f() {}\nx", "rs", &ss, &ts);
    assert_eq!(texts(&rows), ["  fn f() {}", "  x"]);
    for row in &rows {
        match row {
            MdRow::Line(v) => {
                assert_eq!(v.len(), 2);
                assert!(v.iter().all(|(_, st)| st.color == MdColor::Plain));
            },
            _ => panic!("expected a line"),
        }
    }
}
