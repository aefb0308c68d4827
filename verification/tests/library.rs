use mdrender::cmark::{comrak_options, format_commonmark, render_markdown, render_xml_document};
use mdrender::format::{align_tables, strip_trailing_whitespace, tidy_commonmark};
use mdrender::frontmatter::strip_frontmatter;
use mdrender::style::{
    theme_from_cfg, MarkdownTheme, Modifiers, StyledLine, StyledSpan, TextStyle, ThemeColor,
    ThemeConfig,
};
use mdrender::text::chars_of;
use mdrender::tree::NodeKind;
use mdrender::wrap::{wrap_lines, wrap_spans};
use mdrender::xml::{decode_exec, parse_xml_exec};

fn plain(text: &str) -> StyledSpan {
    StyledSpan::styled(text, TextStyle::plain())
}

fn wrapped_texts(spans: &Vec<StyledSpan>, max: usize) -> Vec<String> {
    wrap_spans(spans, max)
        .iter()
        .map(|l| l.iter().map(|s| s.content.as_str()).collect())
        .collect()
}

fn texts(lines: &[StyledLine]) -> Vec<String> {
    lines.iter().map(|l| l.spans.iter().map(|s| s.content.as_str()).collect()).collect()
}

fn theme() -> MarkdownTheme {
    theme_from_cfg(&ThemeConfig::default())
}

fn bold() -> TextStyle {
    TextStyle::plain().add_modifier(Modifiers::bold())
}

// ---------------------------------------------------------------- front matter

#[test]
fn frontmatter_is_removed() {
    assert_eq!(strip_frontmatter("---\ntitle: x\n---\n\nBody"), "Body");
    assert_eq!(strip_frontmatter("  \n---\na\n---  rest"), "rest");
    assert_eq!(strip_frontmatter("---a---b"), "b");
}

#[test]
fn text_without_frontmatter_is_unchanged() {
    assert_eq!(strip_frontmatter("no front matter"), "no front matter");
    assert_eq!(strip_frontmatter("  --- unclosed"), "  --- unclosed");
    assert_eq!(strip_frontmatter(""), "");
}

#[test]
fn frontmatter_result_is_a_suffix() {
    let text = "\n---\nk: v\n---\n# Title\n";
    let body = strip_frontmatter(text);
    assert!(text.ends_with(body));
    assert_eq!(body, "# Title\n");
}

// ---------------------------------------------------------------- theme

#[test]
fn theme_from_default_config() {
    let th = theme();
    assert_eq!(th.h1.fg, Some(ThemeColor::Reset));
    assert!(th.h1.modifiers.bold && th.h1.modifiers.underlined);
    assert!(!th.h2.modifiers.bold && th.h2.modifiers.underlined);
    assert_eq!(th.h3.modifiers, Modifiers::none());
    assert_eq!(th.bold.fg, None);
    assert_eq!(th.bold.modifiers, Modifiers::bold());
    assert_eq!(th.dim.modifiers, Modifiers::underlined());
    assert_eq!(th.code.fg, Some(ThemeColor::Reset));
    assert_eq!(th.code_block.fg, Some(ThemeColor::Reset));
}

#[test]
fn theme_modifier_names_and_fallbacks() {
    let mut cfg = ThemeConfig::default();
    cfg.bold_style = "italic".to_string();
    cfg.emphasis_style = "dim".to_string();
    cfg.h1_color = ThemeColor::Red;
    cfg.code_block_color = ThemeColor::Rgb(1, 2, 3);
    let th = theme_from_cfg(&cfg);
    assert_eq!(th.bold.modifiers, Modifiers::italic());
    assert_eq!(th.dim.modifiers, Modifiers::dim());
    assert_eq!(th.h1.fg, Some(ThemeColor::Red));
    assert_eq!(th.code_block.fg, Some(ThemeColor::Rgb(1, 2, 3)));

    cfg.bold_style = "blink".to_string();
    cfg.emphasis_style = "BOLD".to_string();
    let th = theme_from_cfg(&cfg);
    assert_eq!(th.bold.modifiers, Modifiers::bold());
    assert_eq!(th.dim.modifiers, Modifiers::underlined());
}

// ---------------------------------------------------------------- paragraph wrapping

#[test]
fn wrap_exact_lines() {
    assert_eq!(
        wrapped_texts(&vec![plain("one two three four five")], 15),
        vec!["one two three ", "four five"]
    );
    assert_eq!(
        wrapped_texts(&vec![plain("x (very long text) y")], 10),
        vec!["x (very ", "long text)", "y"]
    );
    assert_eq!(wrapped_texts(&vec![plain("x (a) (b) y")], 8), vec!["x (a) ", "(b) y"]);
    assert_eq!(
        wrapped_texts(
            &vec![plain("text before [link text](http://example.com) and more text after")],
            25
        ),
        vec!["text before [link text]", "(http://example.com) and ", "more text after"]
    );
}

#[test]
fn wrap_at_width_zero_breaks_every_word() {
    assert_eq!(wrapped_texts(&vec![plain("a b")], 0), vec!["a", "b"]);
}

#[test]
fn wrap_of_nothing_is_no_line() {
    assert!(wrap_spans(&Vec::new(), 10).is_empty());
    assert!(wrap_spans(&vec![plain("")], 10).is_empty());
}

#[test]
fn wrap_merges_pieces_of_one_style() {
    let wrapped = wrap_spans(&vec![plain("x ("), StyledSpan::styled("word", bold()), plain(")")], 8);
    assert_eq!(wrapped.len(), 1);
    let pieces: Vec<(&str, bool)> = wrapped[0]
        .iter()
        .map(|s| (s.content.as_str(), s.style.modifiers.bold))
        .collect();
    assert_eq!(pieces, vec![("x", false), (" ", false), ("(", false), ("word", true), (")", false)]);
}

#[test]
fn wrap_keeps_every_non_space_character() {
    let spans = vec![
        plain("alpha (beta "),
        StyledSpan::styled("gamma) [delta](eps)", bold()),
        plain(" zeta  eta"),
    ];
    for max in [0usize, 3, 7, 12, 40] {
        let wrapped = wrap_spans(&spans, max);
        let kept: Vec<(char, bool)> = wrapped
            .iter()
            .flat_map(|l| l.iter())
            .flat_map(|s| s.content.chars().map(move |c| (c, s.style.modifiers.bold)))
            .filter(|(c, _)| *c != ' ')
            .collect();
        let given: Vec<(char, bool)> = spans
            .iter()
            .flat_map(|s| s.content.chars().map(move |c| (c, s.style.modifiers.bold)))
            .filter(|(c, _)| *c != ' ')
            .collect();
        assert_eq!(kept, given);
    }
}

#[test]
fn wrap_text_that_fits_is_one_line() {
    let spans = vec![plain("a (b) "), plain("[c](d) e")];
    assert_eq!(wrapped_texts(&spans, 14), vec!["a (b) [c](d) e"]);
}

#[test]
fn wrap_lines_are_not_empty_and_do_not_end_open() {
    let spans = vec![plain("aaaa (bbbb cccc) dd [e")];
    let lines = wrapped_texts(&spans, 6);
    assert_eq!(lines, vec!["aaaa ", "(bbbb ", "cccc) ", "dd [e"]);
    for (k, l) in lines.iter().enumerate() {
        assert!(!l.is_empty());
        if k + 1 < lines.len() {
            assert!(!l.ends_with('(') && !l.ends_with('['));
        }
    }
}

#[test]
fn wrap_counts_bytes_not_characters() {
    // "é" takes two bytes: "éé éé" is 9 bytes long.
    assert_eq!(wrapped_texts(&vec![plain("éé éé")], 8), vec!["éé ", "éé"]);
    assert_eq!(wrapped_texts(&vec![plain("éé éé")], 9), vec!["éé éé"]);
}

// ---------------------------------------------------------------- list-item wrapping

#[test]
fn wrap_lines_greedy_at_spaces() {
    let content = "This is a long list item that should wrap at the margin and continue with proper indentation";
    let first = format!("  - {}", content);
    assert_eq!(
        wrap_lines(&first, 40),
        vec![
            "  - This is a long list item that should",
            "wrap at the margin and continue with",
            "proper indentation"
        ]
    );
    assert_eq!(wrap_lines("short", 40), vec!["short"]);
    assert_eq!(wrap_lines("short  ", 3), vec!["short"]);
}

#[test]
fn list_item_exact_lines() {
    let md = "- This is a long list item that should wrap at the margin and continue with proper indentation\n";
    let lines = render_markdown(&theme(), md, 40);
    assert_eq!(
        texts(&lines),
        vec![
            "  - This is a long list item that should",
            "    wrap at the margin and continue with",
            "    proper indentation",
            ""
        ]
    );
}

#[test]
fn narrow_list_items_wrap_at_78() {
    let md = "- aaaa bbbb cccc dddd eeee ffff gggg hhhh iiii jjjj kkkk llll mmmm nnnn oooo pppp\n";
    let lines = render_markdown(&theme(), md, 10);
    assert_eq!(
        texts(&lines),
        vec![
            "  - aaaa bbbb cccc dddd eeee ffff gggg hhhh iiii jjjj kkkk llll mmmm nnnn oooo",
            "    pppp",
            ""
        ]
    );
}

#[test]
fn task_items() {
    let lines = render_markdown(&theme(), "- [x] done\n- [ ] todo\n", 40);
    assert_eq!(texts(&lines), vec!["  - [x] done", "  - [ ] todo", ""]);
}

// ---------------------------------------------------------------- block rendering

#[test]
fn headings_of_each_level() {
    let th = theme();
    let lines = render_markdown(&th, "# T\n\n## U\n\n### V\n\n#### W\n", 40);
    assert_eq!(texts(&lines), vec!["# T", "", "## U", "", "### V", "", "### W", ""]);
    assert_eq!(lines[0].spans.len(), 2);
    assert_eq!(lines[0].spans[0].style, th.h1);
    assert_eq!(lines[0].spans[1].style, th.h1);
    assert_eq!(lines[2].spans[1].style, th.h2);
    assert_eq!(lines[6].spans[1].style, th.h3);
}

#[test]
fn inline_styles() {
    let th = theme();
    let lines = render_markdown(&th, "**b** *e* ~~s~~ [l](u) `c`", 80);
    assert_eq!(texts(&lines), vec!["b e s l c", ""]);
    let styles: Vec<TextStyle> = lines[0].spans.iter().map(|s| s.style).collect();
    assert_eq!(lines[0].spans[0].content, "b");
    assert_eq!(styles[0], bold());
    assert_eq!(lines[0].spans[2].content, "e");
    assert_eq!(styles[2], TextStyle::plain().add_modifier(Modifiers::dim()));
    assert_eq!(styles[4], TextStyle::plain());
    assert_eq!(styles[6], TextStyle::plain().add_modifier(Modifiers::underlined()));
    assert_eq!(lines[0].spans[8].content, "c");
    assert_eq!(styles[8], th.code);
}

#[test]
fn images_html_and_breaks() {
    let md = "![alt](http://u) ![](http://v) <b>hi</b>\n\n---\n\n<div>\nx\n</div>\n";
    let lines = render_markdown(&theme(), md, 40);
    assert_eq!(
        texts(&lines),
        vec!["alt http://v <b>hi</b>", "", "---", "", "<div>", "x", "</div>"]
    );
}

#[test]
fn code_block_lines_keep_their_text() {
    let th = theme();
    let md = "```\nfn main() {\n    let x = 1;\n}\n```\n";
    let lines = render_markdown(&th, md, 5);
    assert_eq!(texts(&lines), vec!["fn main() {", "    let x = 1;", "}", ""]);
    assert_eq!(lines[1].spans[0].style, th.code_block);
    assert!(lines[3].spans.is_empty());
}

#[test]
fn quotes_and_ordered_lists() {
    let lines = render_markdown(&theme(), "> quote\n\n1. one\n2. two\n", 40);
    assert_eq!(texts(&lines), vec!["quote", "", "  - one", "  - two", ""]);
}

#[test]
fn frontmatter_is_not_rendered() {
    let lines = render_markdown(&theme(), "---\ntitle: x\n---\n\nbody a&b <c>", 40);
    assert_eq!(texts(&lines), vec!["body a&b <c>", ""]);
}

#[test]
fn empty_document_renders_nothing() {
    assert!(render_markdown(&theme(), "", 40).is_empty());
}

#[test]
fn table_exact_layout() {
    let md = "| Short | A much longer header |\n|---|---|\n| a | b |\n";
    let lines = texts(&render_markdown(&theme(), md, 80));
    let pad = |s: &str, w: usize| format!("{:<w$}", s, w = w);
    assert_eq!(
        lines,
        vec![
            format!("| Short| {}|", pad("A much longer header", 66)),
            format!("|{}|{}|", "=".repeat(6), "=".repeat(67)),
            format!("| a    | {}|", pad("b", 66)),
            String::new(),
        ]
    );
    for l in &lines[..3] {
        assert_eq!(l.chars().count(), lines[0].chars().count());
    }
}

#[test]
fn table_with_three_rows_uses_dash_separators() {
    let md = "| h |\n|---|\n| a |\n| b |\n";
    let lines = texts(&render_markdown(&theme(), md, 80));
    assert_eq!(lines.len(), 6);
    assert!(lines[1].starts_with("|=="));
    assert!(lines[3].starts_with("|--"));
    assert_eq!(lines[4], format!("| {:<w$}|", "b", w = 74));
}

// ---------------------------------------------------------------- XML reading

#[test]
fn xml_document_is_rendered() {
    let xml = "<?xml version=\"1.0\" encoding=\"UTF-8\"?>\n<!DOCTYPE document SYSTEM \"CommonMark.dtd\">\n<document xmlns=\"http://commonmark.org/xml/1.0\">\n  <paragraph>\n    <text xml:space=\"preserve\">a &amp; b &lt;c&gt; &quot;d&quot;</text>\n  </paragraph>\n  <thematic_break />\n</document>\n";
    let lines = render_xml_document(&theme(), xml, 80);
    assert_eq!(texts(&lines), vec!["a & b <c> \"d\"", "", "---", ""]);
}

#[test]
fn xml_without_elements_renders_nothing() {
    assert!(render_xml_document(&theme(), "plain text", 80).is_empty());
    assert!(parse_xml_exec(&chars_of("<?xml version=\"1.0\"?>")).is_none());
}

#[test]
fn xml_tree_shape() {
    let xml = "<document><heading level=\"2\"><text xml:space=\"preserve\">H</text></heading><list type=\"bullet\"><taskitem completed=\"true\"><paragraph><text>t</text></paragraph></taskitem></list><image destination=\"a&amp;b\" title=\"\"></image></document>";
    let root = parse_xml_exec(&chars_of(xml)).expect("a root element");
    assert_eq!(root.kind, NodeKind::Document);
    assert_eq!(root.children.len(), 3);
    assert_eq!(root.children[0].kind, NodeKind::Heading(2));
    assert_eq!(root.children[0].children[0].kind, NodeKind::Text);
    assert_eq!(root.children[0].children[0].literal, vec!['H']);
    assert_eq!(root.children[1].children[0].kind, NodeKind::TaskItem(true));
    assert_eq!(root.children[2].kind, NodeKind::Image);
    assert_eq!(root.children[2].url, vec!['a', '&', 'b']);
}

#[test]
fn entity_decoding() {
    assert_eq!(decode_exec(&chars_of("&lt;&amp;&gt;&quot;&apos;&")), chars_of("<&>\"&apos;&"));
}

// ---------------------------------------------------------------- CommonMark clean-up

#[test]
fn align_tables_pads_columns() {
    let text = "intro\n| a | bb |\n|---|:---:|\n| ccc | d |\nafter";
    assert_eq!(
        align_tables(text),
        "intro\n| a   | bb    |\n| --- | :---: |\n| ccc | d     |\nafter"
    );
}

#[test]
fn align_tables_markers() {
    assert_eq!(align_tables("| x |\n|---:|"), "| x    |\n| ---: |");
    assert_eq!(align_tables("| x |\n|--:|"), "| x |\n|--:|");
    assert_eq!(align_tables("|x|y|\n|:---|---|"), "| x    | y   |\n| :--- | --- |");
}

#[test]
fn align_tables_keeps_other_lines() {
    assert_eq!(align_tables("|x|\nno rule\n"), "|x|\nno rule");
    assert_eq!(align_tables("| a |\n| -- |"), "| a |\n| -- |");
    assert_eq!(align_tables(""), "");
}

#[test]
fn trailing_whitespace_is_removed() {
    assert_eq!(strip_trailing_whitespace("a  \n b\t\r\n\n"), "a\n b\n");
    assert_eq!(strip_trailing_whitespace("x"), "x");
    let out = strip_trailing_whitespace("p \u{3000}\nq\u{a0}\n r ");
    for l in out.lines() {
        assert!(!l.ends_with(char::is_whitespace));
    }
    assert_eq!(out, "p\nq\n r");
}

#[test]
fn tidy_aligns_then_strips() {
    assert_eq!(tidy_commonmark("|a|\n|---|\ntext  \n"), "| a   |\n| --- |\ntext");
    // The spaces after the last `|` make a second, empty cell.
    assert_eq!(tidy_commonmark("|a|\n|---|   \n"), "| a   |\n| --- |  |");
}

#[test]
fn format_commonmark_rewrites_markdown() {
    assert_eq!(
        format_commonmark("# Hi\n\n    code\n\n* a\n* b\n", 80),
        "# Hi\n\n```\ncode\n```\n\n- a\n- b"
    );
    assert_eq!(
        format_commonmark("|a|b|\n|:-|-:|\n|ccc|d|\n\nText   \n", 80),
        "| a | b |\n| :-- | --: |\n| ccc | d |\n\nText"
    );
}

#[test]
fn render_options_switch_on_extensions() {
    let o = comrak_options();
    assert!(o.table && o.tasklist && o.strikethrough && o.autolink);
    assert_eq!(o.width, 0);
    assert!(!o.prefer_fenced);
}

#[test]
fn wrap_ignores_how_text_is_split_into_spans() {
    let whole = vec![plain("see (the [docs](http://x.y) here) now")];
    let pieces = vec![plain("see (the ["), plain("docs]("), plain("http://x.y) h"), plain("ere) now")];
    for max in [4usize, 9, 16, 60] {
        assert_eq!(wrapped_texts(&whole, max), wrapped_texts(&pieces, max));
    }
}

#[test]
fn long_words_are_the_only_overlong_list_lines() {
    let lines = wrap_lines("aaaaaaaaaa bb cc dddddddd e", 5);
    assert_eq!(lines, vec!["aaaaaaaaaa", "bb cc", "dddddddd", "e"]);
    for l in &lines {
        assert!(l.len() <= 5 || !l.contains(' '));
    }
}

#[test]
fn code_block_info_strings_do_not_disturb_reading() {
    let th = theme();
    let md = "```js title=\"src/app.js\"\nlet x;\n```\n\nafter\n\n```rust\nfn f() {}\n```\n";
    let lines = render_markdown(&th, md, 40);
    assert_eq!(texts(&lines), vec!["let x;", "", "after", "", "fn f() {}", ""]);
    assert_eq!(lines[0].spans[0].style, th.code_block);
    let md = "```html title=\"<b>\"\n<b>x</b>\n```\n\n```x\"/y\nz\n```\n";
    let lines = render_markdown(&th, md, 40);
    assert_eq!(texts(&lines), vec!["<b>x</b>", "", "z", ""]);
    let md = "```a\">b\nfirst\n```\n\n```a\"/>b\nsecond\n```\n\n```a\" >b\nthird\n```\n\nend\n";
    let lines = render_markdown(&th, md, 40);
    assert_eq!(texts(&lines), vec!["first", "", "second", "", "third", "", "end", ""]);
    let md = "```math\nx^2\n```\n";
    assert_eq!(texts(&render_markdown(&th, md, 40)), vec!["x^2", ""]);
    let md = "```a\" xml:space=\"preserve\">b\nkept\n```\n\n```a\" xml:space=\"preserve\">b<c\nalso\n```\n\n```x</code_block>z\nlast\n```\n";
    let lines = render_markdown(&th, md, 40);
    assert_eq!(texts(&lines), vec!["kept", "", "also", "", "last", ""]);
    assert_eq!(lines[0].spans[0].style, th.code_block);
}

#[test]
fn lines_break_only_at_break_opportunities() {
    // A `)` that closes the outermost bracket is a break opportunity.
    assert_eq!(wrapped_texts(&vec![plain("(a)(b)")], 3), vec!["(a)", "(b)"]);
    // Words that touch a bracket stay on one line, even when it overflows.
    assert_eq!(wrapped_texts(&vec![plain("foo[bar]baz qux")], 4), vec!["foo[bar]baz", "qux"]);
    // `](` is a break opportunity.
    assert_eq!(wrapped_texts(&vec![plain("[ab](cd)")], 4), vec!["[ab]", "(cd)"]);
}

#[test]
fn wrap_shape_laws_on_examples() {
    // Text that fits is one line, unchanged.
    assert_eq!(wrapped_texts(&vec![plain("a b "), plain("(c) d")], 20), vec!["a b (c) d"]);
    // No output span is empty, and empty input gives no line.
    for l in wrap_spans(&vec![plain("ab cd ef"), plain(""), plain("gh")], 3) {
        assert!(!l.is_empty());
        assert!(l.iter().all(|s| !s.content.is_empty()));
    }
    assert!(wrap_spans(&vec![plain(""), plain("")], 3).is_empty());
    // A line longer than the width holds no space.
    for l in wrapped_texts(&vec![plain("abcdefgh ij (klmnop qr) s")], 4) {
        assert!(l.len() <= 4 || !l.contains(' '));
    }
    // Spaces are dropped only at line ends, at most one per line.
    let text = "aa bb cc dd ee";
    let lines = wrapped_texts(&vec![plain(text)], 5);
    let out_spaces: usize = lines.iter().map(|l| l.matches(' ').count()).sum();
    let in_spaces = text.matches(' ').count();
    assert!(out_spaces <= in_spaces && in_spaces <= out_spaces + lines.len());
}

#[test]
fn wrap_lines_keeps_words_and_spaces() {
    let text = "alpha beta gamma delta epsilon zeta";
    let lines = wrap_lines(text, 12);
    assert_eq!(lines.join(" "), text);
    let words: Vec<&str> = lines.iter().flat_map(|l| l.split_whitespace()).collect();
    assert_eq!(words, text.split_whitespace().collect::<Vec<_>>());
    assert_eq!(wrap_lines("", 0), vec![""]);
}

#[test]
fn table_layout_on_example() {
    let md = "| a | b |\n|---|---|\n| c | d |\n| e | f |\n";
    let lines = texts(&render_markdown(&theme(), md, 80));
    // Three rows make five lines, then the blank line after the table.
    assert_eq!(lines.len(), 6);
    assert!(lines[1].chars().all(|c| c == '|' || c == '='));
    assert!(lines[3].chars().all(|c| c == '|' || c == '-'));
    for l in &lines[..5] {
        assert!(l.starts_with('|') && l.ends_with('|'));
    }
}

#[test]
fn short_table_fills_the_target_width() {
    let md = "| a | b |\n|---|---|\n| c | d |\n";
    let lines = texts(&render_markdown(&theme(), md, 80));
    // Two columns: every table line is 78 - 2 characters wide.
    for l in &lines[..3] {
        assert_eq!(l.chars().count(), 76);
    }
    let md3 = "| x | y | z |\n|---|---|---|\n| 1 | 2 | 3 |\n";
    let lines3 = texts(&render_markdown(&theme(), md3, 80));
    for l in &lines3[..3] {
        assert_eq!(l.chars().count(), 75);
    }
}

#[test]
fn align_tables_twice_is_once() {
    let texts = [
        "|x|y|\n|:---|---:|\n|long cell|z|\ntext after",
        "intro\n| a | b |\n|:-:|---|\n| c | d |",
        "|h|\n|---|\n|x|\n\n|p|q|\n|---|:--|\n|r|s|",
    ];
    for t in texts {
        let once = align_tables(t);
        assert_eq!(align_tables(&once), once);
    }
    // A separator cell that is a lone `:` is redrawn as `::`, so a second
    // pass widens the column again.
    let once = align_tables("|a|b|\n|---|:|");
    assert_ne!(align_tables(&once), once);
}

#[test]
fn strip_trailing_whitespace_twice_is_once() {
    for t in ["a  \nb\t\n  c ", "x\n\n y \n", "", "one"] {
        let once = strip_trailing_whitespace(t);
        assert_eq!(strip_trailing_whitespace(&once), once);
    }
    // A blank last line leaves a final line break that the second pass drops.
    let once = strip_trailing_whitespace("a\n ");
    assert_eq!(once, "a\n");
    assert_eq!(strip_trailing_whitespace(&once), "a");
}

#[test]
fn inline_style_depends_on_enclosing_kinds_only() {
    let th = theme();
    let a = render_markdown(&th, "***x*** and _**y**_ and [`c`](u) **`d`**\n", 80);
    let spans = &a[0].spans;
    let find = |t: &str| spans.iter().find(|s| s.content == t).unwrap().style;
    let both = TextStyle::plain().add_modifier(Modifiers::bold()).add_modifier(Modifiers::dim());
    assert_eq!(find("x"), both);
    assert_eq!(find("y"), both);
    assert_eq!(find("c"), th.code);
    assert_eq!(find("d"), th.code);
}

fn cells_of(l: &str) -> Vec<String> {
    l.trim_start_matches('|')
        .trim_end_matches('|')
        .split('|')
        .map(|c| c.trim().to_string())
        .collect()
}

#[test]
fn align_tables_line_by_line() {
    let text = "before\n|name|n|\n|:---|---:|\n|alpha beta|1|\n|x|\nafter\n";
    let src: Vec<&str> = text.lines().collect();
    let out_s = align_tables(text);
    let out: Vec<&str> = out_s.split('\n').collect();
    assert_eq!(out.len(), src.len());
    assert_eq!(out[0], "before");
    assert_eq!(out[5], "after");
    for k in [1, 3, 4] {
        assert_eq!(cells_of(out[k]), cells_of(src[k]));
    }
    let sep = cells_of(out[2]);
    assert!(sep[0].starts_with(':') && !sep[0].ends_with(':'));
    assert!(sep[1].ends_with(':') && !sep[1].starts_with(':'));
    assert!(sep.iter().all(|c| c.trim_matches(':').chars().all(|ch| ch == '-')));
    // Full rows line up: 1 + (10 + 3) + (4 + 3) characters.
    for k in [1, 2, 3] {
        assert_eq!(out[k].len(), 21);
    }
    assert_eq!(align_tables(""), "");
    assert_eq!(align_tables("").split('\n').count(), 1);
}

#[test]
fn xml_written_document_reads_back() {
    let xml = "<?xml version=\"1.0\" encoding=\"UTF-8\"?>\n<!DOCTYPE document SYSTEM \"CommonMark.dtd\">\n<document xmlns=\"http://commonmark.org/xml/1.0\">\n  <list type=\"bullet\" tight=\"true\">\n    <taskitem completed=\"false\">\n      <paragraph>\n        <image destination=\"x&quot;y\" title=\"\">\n          <text xml:space=\"preserve\">alt</text>\n        </image>\n        <softbreak />\n      </paragraph>\n    </taskitem>\n  </list>\n  <code_block info=\"a\" xml:space=\"preserve\">b\" xml:space=\"preserve\">1 &lt; 2\n</code_block>\n  <heading level=\"3\" />\n</document>\n";
    let root = parse_xml_exec(&chars_of(xml)).expect("a root element");
    assert_eq!(root.kind, NodeKind::Document);
    assert_eq!(root.children.len(), 3);
    let item = &root.children[0].children[0];
    assert_eq!(item.kind, NodeKind::TaskItem(false));
    let para = &item.children[0];
    assert_eq!(para.children.len(), 2);
    assert_eq!(para.children[0].kind, NodeKind::Image);
    assert_eq!(para.children[0].url, chars_of("x\"y"));
    assert_eq!(para.children[0].children[0].literal, chars_of("alt"));
    assert_eq!(para.children[1].kind, NodeKind::SoftBreak);
    assert_eq!(root.children[1].kind, NodeKind::CodeBlock);
    assert_eq!(root.children[1].literal, chars_of("1 < 2\n"));
    assert_eq!(root.children[2].kind, NodeKind::Heading(3));
    assert!(root.children[2].children.is_empty());
}
