use blog::math::{math_spans, replace_latex, splice_math, MathSpan, RenderError};
use blog::render::{compile_markdown, parse_i64, render, CompileError};

#[test]
fn math_spans_pair_delimiters_in_order() {
    let spans = math_spans("a $$x$$ b $$y$$").unwrap();
    assert_eq!(
        spans,
        vec![MathSpan { open: 2, close: 5 }, MathSpan { open: 10, close: 13 }]
    );
}

#[test]
fn math_spans_of_plain_text_are_none() {
    assert_eq!(math_spans("no math, one $ sign").unwrap(), vec![]);
}

#[test]
fn math_spans_may_cross_lines() {
    let spans = math_spans("$$\nx^2\n$$").unwrap();
    assert_eq!(spans, vec![MathSpan { open: 0, close: 7 }]);
}

#[test]
fn math_span_left_open_is_an_error() {
    assert_eq!(math_spans("a $$x$$ b $$y"), Err(RenderError::InvalidMath));
}

#[test]
fn splice_keeps_the_text_around_spans() {
    let text = "a $$x$$ b $$y$$ c";
    let spans = math_spans(text).unwrap();
    let out = splice_math(text, &spans, &vec!["X".to_string(), "YY".to_string()]);
    assert_eq!(out, "a X b YY c");
}

#[test]
fn splice_counts_characters_not_bytes() {
    let text = "é $$α$$ ü";
    let spans = math_spans(text).unwrap();
    assert_eq!(spans, vec![MathSpan { open: 2, close: 5 }]);
    assert_eq!(splice_math(text, &spans, &vec!["<m/>".to_string()]), "é <m/> ü");
}

#[test]
fn replace_latex_renders_each_span() {
    let mut s = "a $$x^2$$ b $$y$$ c".to_string();
    assert_eq!(replace_latex(&mut s), Ok(()));
    assert!(!s.contains("$$"));
    assert!(s.starts_with("a <span class=\"katex\">"));
    assert!(s.ends_with("</span> c"));
    assert_eq!(s.matches("<span class=\"katex\">").count(), 2);
}

#[test]
fn replace_latex_leaves_plain_text_alone() {
    let mut s = "no math here, $5 only".to_string();
    assert_eq!(replace_latex(&mut s), Ok(()));
    assert_eq!(s, "no math here, $5 only");
}

#[test]
fn replace_latex_fails_whole_on_open_span() {
    let mut s = "$$x$$ and $$y".to_string();
    assert_eq!(replace_latex(&mut s), Err(RenderError::InvalidMath));
    assert_eq!(s, "$$x$$ and $$y");
}

#[test]
fn replace_latex_fails_on_bad_tex() {
    let mut s = "$$\\frac{$$".to_string();
    assert_eq!(replace_latex(&mut s), Err(RenderError::InvalidMath));
    assert_eq!(s, "$$\\frac{$$");
}

#[test]
fn render_markdown_with_extensions() {
    assert_eq!(render("# Hi").unwrap(), "<h1>Hi</h1>\n");
    assert_eq!(render("~~gone~~").unwrap(), "<p><del>gone</del></p>\n");
    let table = render("| a | b |\n|---|---|\n| 1 | 2 |").unwrap();
    assert!(table.starts_with("<table>"));
}

#[test]
fn render_without_math_has_no_double_dollar() {
    let out = render("Price: $5, or *$6* today.").unwrap();
    assert_eq!(out, "<p>Price: $5, or <em>$6</em> today.</p>\n");
    assert!(!out.contains("$$"));
}

#[test]
fn render_math_inside_paragraph() {
    let out = render("a $$x$$ b").unwrap();
    assert!(out.starts_with("<p>a <span class=\"katex\">"));
    assert!(out.ends_with(" b</p>\n"));
    assert!(!out.contains("$$"));
}

#[test]
fn render_open_span_fails() {
    assert_eq!(render("a $$x"), Err(RenderError::InvalidMath));
}

#[test]
fn parse_i64_reads_signed_decimals() {
    assert_eq!(parse_i64("42"), Some(42));
    assert_eq!(parse_i64("-7"), Some(-7));
    assert_eq!(parse_i64("+5"), Some(5));
    assert_eq!(parse_i64("007"), Some(7));
    assert_eq!(parse_i64("9223372036854775807"), Some(i64::MAX));
    assert_eq!(parse_i64("-9223372036854775808"), Some(i64::MIN));
}

#[test]
fn parse_i64_rejects_what_std_rejects() {
    for s in ["", "-", "+", "12a", " 1", "1 ", "9223372036854775808", "-9223372036854775809", "1_000"] {
        assert_eq!(parse_i64(s), None, "{s:?}");
        assert!(s.parse::<i64>().is_err());
    }
}

#[test]
fn compile_markdown_makes_an_article() {
    let a = compile_markdown("My Title\n1431648000\n# Body\n\nText.").unwrap();
    assert_eq!(a.title, "My Title");
    assert_eq!(a.body, "<h1>Body</h1>\n<p>Text.</p>\n");
    assert_eq!(a.truncated_body, "<h1>Body</h1>");
    assert_eq!(a.timestamp, 1431648000);
    assert_eq!(a.formatted_time, "May 15, 2015");
    assert_eq!(a.filename, "my-title");
}

#[test]
fn compile_markdown_needs_both_header_lines() {
    assert_eq!(compile_markdown("Only a title").unwrap_err(), CompileError::MissingHeader);
    assert_eq!(compile_markdown("Title\n1431648000").unwrap_err(), CompileError::MissingHeader);
}

#[test]
fn compile_markdown_checks_the_time() {
    assert_eq!(compile_markdown("T\nyesterday\nbody").unwrap_err(), CompileError::InvalidTimestamp);
    assert_eq!(
        compile_markdown("T\n99999999999999\nbody").unwrap_err(),
        CompileError::InvalidTimestamp
    );
}

#[test]
fn compile_markdown_checks_the_math() {
    assert_eq!(compile_markdown("T\n5\nopen $$x").unwrap_err(), CompileError::InvalidMath);
}

#[test]
fn compile_markdown_renders_math_in_the_body() {
    let a = compile_markdown("T\n5\na $$x$$ b").unwrap();
    assert!(a.body.starts_with("<p>a <span class=\"katex\">"));
    assert!(!a.body.contains("$$"));
}

#[test]
fn replace_latex_of_joined_texts_joins_the_results() {
    let x = "a $$x^2$$ b ";
    let y = "$$y$$ c";
    let mut whole = format!("{x}{y}");
    let mut left = x.to_string();
    let mut right = y.to_string();
    assert_eq!(replace_latex(&mut whole), Ok(()));
    assert_eq!(replace_latex(&mut left), Ok(()));
    assert_eq!(replace_latex(&mut right), Ok(()));
    assert_eq!(whole, format!("{left}{right}"));
}

#[test]
fn replace_latex_of_spans_meeting_at_the_seam() {
    let mut whole = "$$a$$$$b$$".to_string();
    let mut left = "$$a$$".to_string();
    let mut right = "$$b$$".to_string();
    assert_eq!(math_spans(&whole).unwrap().len(), 2);
    assert_eq!(replace_latex(&mut whole), Ok(()));
    assert_eq!(replace_latex(&mut left), Ok(()));
    assert_eq!(replace_latex(&mut right), Ok(()));
    assert_eq!(whole, format!("{left}{right}"));
}
