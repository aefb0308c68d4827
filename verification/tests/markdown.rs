use mdrender::cmark::render_markdown;
use mdrender::style::{theme_from_cfg, Modifiers, StyledLine, StyledSpan, TextStyle, ThemeConfig};
use mdrender::wrap::wrap_spans;

fn plain(text: &str) -> StyledSpan {
    StyledSpan::styled(text, TextStyle::plain())
}

fn wrapped_texts(spans: &Vec<StyledSpan>, max: usize) -> Vec<String> {
    wrap_spans(spans, max)
        .iter()
        .map(|l| l.iter().map(|s| s.content.as_str()).collect())
        .collect()
}

fn line_string(l: &StyledLine) -> String {
    l.spans.iter().map(|s| s.content.as_str()).collect()
}

fn non_empty_lines(lines: &[StyledLine]) -> Vec<String> {
    lines
        .iter()
        .filter(|l| !l.spans.is_empty())
        .map(line_string)
        .collect()
}

#[test]
fn table_renders_header_and_body() {
    let md = "| **Name** | `Code` |\n|---|---|\n| foo | bar |\n";
    let th = theme_from_cfg(&ThemeConfig::default());
    let lines = render_markdown(&th, md, 80);
    let total: String = lines
        .iter()
        .flat_map(|l| l.spans.iter().map(|s| s.content.as_str()))
        .collect();
    assert!(total.contains("Name"), "Missing header 'Name'");
    assert!(total.contains("foo"), "Missing body 'foo'");
    assert!(total.contains("="), "Missing separator");
}

#[test]
fn wrap_paragraph_at_spaces() {
    let spans = vec![plain("one two three four five")];
    let lines = wrapped_texts(&spans, 15);
    assert!(lines.len() > 1, "Should wrap into multiple lines");
    assert!(lines[0].starts_with("one"));
}

#[test]
fn wrap_does_not_break_between_bracket_and_word() {
    let spans = vec![plain("some text before [link text](http://example.com) and more")];
    let lines = wrapped_texts(&spans, 40);
    for line in &lines {
        assert!(
            !line.starts_with("link"),
            "Should not break between '[' and 'link', got line: {}",
            line
        );
    }
    let all_text = lines.join("\n");
    assert!(all_text.contains("[link"), "Bracket and word should stay together");
}

#[test]
fn wrap_does_not_break_between_paren_and_word() {
    let spans = vec![plain("some text before (paren word) and more after")];
    let lines = wrapped_texts(&spans, 30);
    for line in &lines {
        assert!(
            !line.ends_with("("),
            "Should not break between '(' and 'paren', got line: {}",
            line
        );
    }
    let all_text = lines.join("\n");
    assert!(all_text.contains("(paren"), "Paren and word should stay together");
}

#[test]
fn wrap_breaks_at_link_boundary() {
    let spans = vec![plain("text before [link text](http://example.com) and more text after")];
    let lines = wrapped_texts(&spans, 25);
    let all_text = lines.join("\n");
    assert!(all_text.contains("]"), "']' should be present");
    assert!(all_text.contains("("), "'(' should be present");
    assert!(!all_text.contains("]("), "']' and '(' should be on separate lines");
}

#[test]
fn wrap_standalone_brackets_not_break_points() {
    let spans = vec![plain("words with [brackets] and (parens) inside")];
    let lines = wrapped_texts(&spans, 50);
    assert_eq!(lines.len(), 1);
    assert!(lines[0].contains("[brackets]"));
    assert!(lines[0].contains("(parens)"));
}

#[test]
fn wrap_closing_bracket_stays_with_previous() {
    let spans = vec![plain("x ("), plain("input"), plain(")")];
    let lines = wrapped_texts(&spans, 8);
    let all_text = lines.join("\n");
    assert!(
        all_text.contains("(input)"),
        "Closing paren should stay with word, got: {:?}",
        lines
    );
}

#[test]
fn render_markdown_with_inline_code_and_parens() {
    let th = theme_from_cfg(&ThemeConfig::default());
    let md = "x (`input`)";

    let lines = render_markdown(&th, md, 8);
    let text_lines = non_empty_lines(&lines);
    let all_text = text_lines.join("\n");
    assert!(
        all_text.contains("(input)"),
        "'(input)' should stay together at width 8, got: {:?}",
        text_lines
    );

    let lines = render_markdown(&th, md, 7);
    let text_lines = non_empty_lines(&lines);
    let all_text = text_lines.join("\n");
    assert!(
        all_text.contains("(input)"),
        "'(input)' should stay together at width 7, got: {:?}",
        text_lines
    );
}

#[test]
fn list_item_wraps_with_indent() {
    let md = "- This is a long list item that should wrap at the margin and continue with proper indentation\n";
    let th = theme_from_cfg(&ThemeConfig::default());
    let lines = render_markdown(&th, md, 40);
    let text_lines = non_empty_lines(&lines);
    assert!(text_lines[0].starts_with("  - "));
    if text_lines.len() > 1 {
        assert!(
            text_lines[1].starts_with("    "),
            "Continuation should be indented: {:?}",
            text_lines[1]
        );
    }
}

#[test]
fn code_block_no_wrapping() {
    let md = "```\nfn main() {\n    let x = 1;\n    let long_variable_name = something_very_long_that_would_never_fit_on_one_line_if_wrapped;\n}\n```\n";
    let th = theme_from_cfg(&ThemeConfig::default());
    let lines = render_markdown(&th, md, 40);
    let code_lines: Vec<String> = lines
        .iter()
        .filter(|l| l.spans.iter().any(|s| s.style == th.code_block))
        .map(line_string)
        .collect();
    assert!(
        code_lines.iter().any(|l| l.contains("long_variable_name")),
        "Code should preserve original lines without wrapping"
    );
}

#[test]
fn table_columns_computed_properly() {
    let md = "| Short | A much longer header |\n|---|---|\n| a | b |\n";
    let th = theme_from_cfg(&ThemeConfig::default());
    let lines = render_markdown(&th, md, 80);
    let table_lines: Vec<String> = lines.iter().map(line_string).collect();
    let table_text = table_lines.join("\n");
    assert!(table_text.contains("="), "Table should have separator");
    assert!(table_text.contains("Short"));
    assert!(
        table_text.contains("A much") || table_text.contains("longer"),
        "Table should contain header text"
    );
}

#[test]
fn heading_no_wrapping() {
    let md = "# This is a very long heading that goes on and on and on and should not be wrapped\n";
    let th = theme_from_cfg(&ThemeConfig::default());
    let lines = render_markdown(&th, md, 40);
    let heading_line = lines
        .iter()
        .find(|l| l.spans.iter().any(|s| s.content.starts_with("# ")))
        .expect("Should have heading");
    let heading_text = line_string(heading_line);
    assert!(heading_text.starts_with("# "));
    assert!(heading_text.contains("very long heading"));
}

#[test]
fn corner_nested_brackets() {
    let spans = vec![plain("x ([word]) y")];
    let lines = wrapped_texts(&spans, 8);
    assert!(
        lines.iter().any(|l| l.contains("([word])")),
        "Nested brackets should be on same line, got: {:?}",
        lines
    );
}

#[test]
fn corner_double_brackets() {
    let spans = vec![plain("x ((word)) y")];
    let lines = wrapped_texts(&spans, 8);
    assert!(
        lines.iter().any(|l| l.contains("((word))")),
        "Double brackets should be on same line, got: {:?}",
        lines
    );
}

#[test]
fn corner_multiple_bracket_groups() {
    let spans = vec![plain("x (a) (b) y")];
    let lines = wrapped_texts(&spans, 8);
    assert!(lines.iter().any(|l| l.contains("(a)")), "(a) should be on same line");
    assert!(lines.iter().any(|l| l.contains("(b)")), "(b) should be on same line");
}

#[test]
fn corner_empty_brackets() {
    let spans = vec![plain("x () y")];
    let lines = wrapped_texts(&spans, 6);
    assert!(
        lines.iter().any(|l| l.contains("()")),
        "Empty brackets should be on same line, got: {:?}",
        lines
    );
}

#[test]
fn corner_unclosed_bracket() {
    let spans = vec![plain("x (word more")];
    let lines = wrapped_texts(&spans, 8);
    assert!(
        lines.iter().any(|l| l.contains("(word")),
        "Unclosed opening bracket should stay with word on same line, got: {:?}",
        lines
    );
}

#[test]
fn corner_long_bracket_group_breaks_internally() {
    let spans = vec![plain("x (very long text) y")];
    let lines = wrapped_texts(&spans, 10);
    assert!(
        lines.iter().any(|l| l.contains("(very")),
        "Opening ( should stay with first word, got: {:?}",
        lines
    );
    assert!(
        lines.iter().any(|l| l.contains("text)")),
        "Closing ) should stay with last word, got: {:?}",
        lines
    );
}

#[test]
fn corner_bracket_across_spans_preserves_style() {
    let spans = vec![
        plain("x ("),
        StyledSpan::styled("word", TextStyle::plain().add_modifier(Modifiers::bold())),
        plain(")"),
    ];
    let wrapped = wrap_spans(&spans, 8);
    let all_spans: Vec<(&str, bool)> = wrapped
        .iter()
        .flat_map(|line| line.iter().map(|s| (s.content.as_str(), s.style.modifiers.bold)))
        .collect();
    assert!(
        all_spans.iter().any(|(text, bold)| *text == "word" && *bold),
        "'word' should be bold, got: {:?}",
        all_spans
    );
    assert!(
        all_spans.iter().any(|(text, bold)| *text == "(" && !*bold),
        "'(' should not be bold"
    );
    assert!(
        all_spans.iter().any(|(text, bold)| *text == ")" && !*bold),
        "')' should not be bold"
    );
}

#[test]
fn corner_square_brackets_stay_together() {
    let spans = vec![plain("x [word] y")];
    let lines = wrapped_texts(&spans, 8);
    assert!(
        lines.iter().any(|l| l.contains("[word]")),
        "Square brackets should be on same line, got: {:?}",
        lines
    );
}

#[test]
fn corner_adjacent_bracket_groups() {
    let spans = vec![plain("x ([]) y")];
    let lines = wrapped_texts(&spans, 6);
    assert!(
        lines.iter().any(|l| l.contains("([])")),
        "Adjacent bracket groups should be on same line, got: {:?}",
        lines
    );
}
