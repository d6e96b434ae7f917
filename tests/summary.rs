use blog::article::Article;
use blog::summary::summarize;

#[test]
fn summary_of_short_body_is_verbatim() {
    assert_eq!(summarize("A short post.", 200), "A short post.");
}

#[test]
fn summary_with_zero_budget_is_empty() {
    assert_eq!(summarize("Anything at all. More.", 0), "");
}

#[test]
fn summary_of_empty_body_is_empty() {
    assert_eq!(summarize("", 10), "");
}

#[test]
fn summary_reads_first_line_only_and_trims_its_end() {
    assert_eq!(summarize("First line.  \t\nSecond line.", 200), "First line.");
}

#[test]
fn summary_cuts_back_to_sentence_end() {
    let body = "Hello <b>world</b>. This is a test.";
    assert_eq!(summarize(body, 13), "Hello <b>world</b>.");
    assert_eq!(summarize(body, 12), "Hello <b>world</b>.");
}

#[test]
fn summary_budget_ten_stops_inside_world() {
    // ten visible characters end at "worl", before any sentence end, so
    // the summary falls back to the last whole word
    let body = "Hello <b>world</b>. This is a test.";
    assert_eq!(summarize(body, 10), "Hello...");
    assert_eq!(summarize(body, 11), "Hello...");
}

#[test]
fn summary_ellipsis_after_last_word() {
    assert_eq!(summarize("one two three four five", 10), "one two...");
}

#[test]
fn summary_without_space_or_sentence_is_ellipsis() {
    assert_eq!(summarize("abcdefghijklmnop", 5), "...");
}

#[test]
fn summary_prefers_last_of_several_sentences() {
    assert_eq!(summarize("Yes! Really? No. Maybe so", 20), "Yes! Really? No.");
}

#[test]
fn summary_tags_do_not_count() {
    let body = "<p><em>abc</em> def</p> ghi jkl";
    assert_eq!(summarize(body, 7), "<p><em>abc</em>...");
}

#[test]
fn summary_never_cuts_inside_a_tag() {
    // the dot and the space inside the tag are not visible text
    let body = "Read <a href=\"x.html\" title=\"a b\">the full story here</a> now";
    let s = summarize(body, 8);
    assert_eq!(s, "Read...");
    assert_eq!(s.matches('<').count(), s.matches('>').count());
}

#[test]
fn summary_counts_characters_not_bytes() {
    let body = "héllo wörld ünïcode façade";
    assert_eq!(summarize(body, 10), "héllo...");
    assert_eq!(summarize("日本語です. 続きがあります", 12), "日本語です.");
}

#[test]
fn summary_again_with_larger_budget_is_unchanged() {
    let first = summarize("Hello world and then some more words", 10);
    assert_eq!(first, "Hello...");
    assert_eq!(summarize(&first, 10), first);
    assert_eq!(summarize(&first, 50), first);
    let cut = summarize("abcdefgh ijklmnop", 11);
    assert_eq!(cut, "abcdefgh...");
    assert_eq!(summarize(&cut, 11), cut);
    assert_eq!(summarize(&cut, 12), cut);
}

#[test]
fn summary_leaves_room_for_the_ellipsis() {
    // "abcdefgh" and the ellipsis would be 11 visible characters
    assert_eq!(summarize("abcdefgh ijklmnop", 10), "...");
    assert_eq!(summarize("ab cd ef gh ij kl", 10), "ab cd...");
    assert_eq!(summarize("abcdefgh ijklmnop", 2), "");
    assert_eq!(summarize("abcdefgh ijklmnop", 3), "...");
}

#[test]
fn truncate_body_again_changes_nothing() {
    let body = format!("{} {}", "a".repeat(199), "b".repeat(10));
    let once = Article::truncate_body(body);
    assert_eq!(once, "...");
    assert_eq!(Article::truncate_body(once.clone()), once);
    let body = format!("{} {} {}", "a".repeat(150), "c".repeat(40), "b".repeat(20));
    let once = Article::truncate_body(body);
    assert_eq!(once, format!("{} {}...", "a".repeat(150), "c".repeat(40)));
    assert_eq!(Article::truncate_body(once.clone()), once);
}

#[test]
fn truncate_body_uses_two_hundred_visible_characters() {
    let sentence = "This sentence has exactly forty chars!! ";
    let body = sentence.repeat(6);
    let t = Article::truncate_body(body);
    assert_eq!(t, sentence.repeat(5).trim_end().to_string());
}
