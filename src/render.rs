//! From an article's source, a title line, a time line and markdown with
//! math, to a finished article.
use vstd::prelude::*;

use crate::article::{article_of, timestamp_in_range, Article, MAX_TIMESTAMP, MIN_TIMESTAMP};
use crate::math::{latex_rendering, math_spans_of, replace_latex, RenderError};
use crate::summary::line_end_from;
use crate::text::{chars_of, string_of_range};

verus! {

/// What CommonMark, with tables and strikethrough, renders markdown to.
pub uninterp spec fn commonmark_html(src: Seq<char>) -> Seq<char>;

/// Relies on pulldown_cmark's `Parser::new_ext`, with tables and
/// strikethrough switched on, and `html::push_html`: the HTML of `src`,
/// which depends on `src` alone.
#[verifier::external_body]
pub(crate) fn markdown_to_html(src: &str) -> (r: String)
    ensures
        r@ == commonmark_html(src@),
{
    let mut options = pulldown_cmark::Options::empty();
    options.insert(pulldown_cmark::Options::ENABLE_STRIKETHROUGH);
    options.insert(pulldown_cmark::Options::ENABLE_TABLES);
    let mut out = String::new();
    pulldown_cmark::html::push_html(&mut out, pulldown_cmark::Parser::new_ext(src, options));
    out
}

/// The HTML of markdown `raw`: its math spans rendered by KaTeX, then the
/// whole rendered as CommonMark. Fails where a `$$` is never closed or
/// where KaTeX fails, and then emits nothing.
pub fn render(raw: &str) -> (r: Result<String, RenderError>)
    ensures
        math_spans_of(raw@) is None ==> r is Err,
        math_spans_of(raw@) == Some(Seq::<(int, int)>::empty()) ==> r is Ok,
        r matches Ok(h) ==> h@ == commonmark_html(latex_rendering(raw@)),
        r matches Err(e) ==> e == RenderError::InvalidMath,
{
    let mut text = raw.to_owned();
    match replace_latex(&mut text) {
        Ok(()) => Ok(markdown_to_html(text.as_str())),
        Err(e) => Err(e),
    }
}

/// The HTML that markdown `raw` renders to, where it renders.
pub open spec fn rendered_html(raw: Seq<char>) -> Seq<char> {
    commonmark_html(latex_rendering(raw))
}

/// Why an article's source could not be compiled.
#[derive(Debug, Clone, Copy, PartialEq, Eq, Structural)]
pub enum CompileError {
    /// The source lacks its title line or its time line.
    MissingHeader,
    /// The time line is not a Unix time in the articles' range.
    InvalidTimestamp,
    /// The markdown holds a `$$` that is never closed, or math that KaTeX
    /// rejected.
    InvalidMath,
}

/// The decimal value of a string of ASCII digits.
pub open spec fn digits_value(s: Seq<char>) -> int
    decreases s.len(),
{
    if s.len() == 0 {
        0
    } else {
        digits_value(s.drop_last()) * 10 + (s.last() as int - '0' as int)
    }
}

/// A non-empty string of ASCII digits.
pub open spec fn all_digits(s: Seq<char>) -> bool {
    s.len() > 0 && forall|i: int| 0 <= i < s.len() ==> '0' <= #[trigger] s[i] <= '9'
}

/// The integer that `s` writes in decimal, with an optional sign, where it
/// fits in an `i64`.
pub open spec fn i64_value(s: Seq<char>) -> Option<int> {
    let signed = s.len() > 0 && (s[0] == '-' || s[0] == '+');
    let d = if signed {
        s.drop_first()
    } else {
        s
    };
    let v = if s.len() > 0 && s[0] == '-' {
        -digits_value(d)
    } else {
        digits_value(d)
    };
    if all_digits(d) && i64::MIN <= v <= i64::MAX {
        Some(v)
    } else {
        None
    }
}

proof fn lemma_digits_step(s: Seq<char>, i: int)
    requires
        0 <= i < s.len(),
    ensures
        digits_value(s.take(i + 1)) == digits_value(s.take(i)) * 10 + (s[i] as int - '0' as int),
{
    assert(s.take(i + 1).drop_last() =~= s.take(i));
}

proof fn lemma_digits_grow(s: Seq<char>, i: int)
    requires
        0 <= i <= s.len(),
        forall|k: int| 0 <= k < s.len() ==> '0' <= #[trigger] s[k] <= '9',
    ensures
        digits_value(s.take(i)) <= digits_value(s),
        0 <= digits_value(s.take(i)),
    decreases s.len() - i,
{
    if i < s.len() {
        lemma_digits_step(s, i);
        lemma_digits_grow(s, i + 1);
    } else {
        assert(s.take(i) =~= s);
        lemma_digits_nonneg(s);
    }
}

proof fn lemma_digits_nonneg(s: Seq<char>)
    requires
        forall|k: int| 0 <= k < s.len() ==> '0' <= #[trigger] s[k] <= '9',
    ensures
        0 <= digits_value(s),
    decreases s.len(),
{
    if s.len() > 0 {
        lemma_digits_nonneg(s.drop_last());
    }
}

/// The integer that `s` writes in decimal, as `str::parse::<i64>` reads it.
pub fn parse_i64(s: &str) -> (r: Option<i64>)
    ensures
        match r {
            Some(v) => i64_value(s@) == Some(v as int),
            None => i64_value(s@) is None,
        },
{
    let cs = chars_of(s);
    let len = cs.len();
    let neg = len > 0 && cs[0] == '-';
    let start: usize = if len > 0 && (cs[0] == '-' || cs[0] == '+') {
        1
    } else {
        0
    };
    let ghost d = if start == 1 {
        cs@.drop_first()
    } else {
        cs@
    };
    if start == len {
        return None;
    }
    assert(d =~= cs@.subrange(start as int, len as int));
    // the magnitude, which may reach 2^63 for a negative number
    let limit: u64 = 9_223_372_036_854_775_808;
    let mut acc: u64 = 0;
    let mut i: usize = start;
    while i < len
        invariant
            cs@ == s@,
            len == cs@.len(),
            start <= i <= len,
            d == cs@.subrange(start as int, len as int),
            acc as int == digits_value(d.take(i - start)),
            acc <= limit,
            limit == 9_223_372_036_854_775_808u64,
            d == (if s@.len() > 0 && (s@[0] == '-' || s@[0] == '+') {
                s@.drop_first()
            } else {
                s@
            }),
            forall|k: int| 0 <= k < i - start ==> '0' <= #[trigger] d[k] <= '9',
        decreases len - i,
    {
        let c = cs[i];
        assert(d[i - start] == c);
        if c < '0' || c > '9' {
            assert(!all_digits(d));
            assert(i64_value(s@) is None);
            return None;
        }
        proof {
            lemma_digits_step(d, i - start);
        }
        assert(48 <= c as u32 <= 57);
        let digit = (c as u32 - 48) as u64;
        assert(digit <= 9);
        if acc > (limit - digit) / 10 {
            // the value only grows from here on
            proof {
                assert(digits_value(d.take(i - start + 1)) > limit);
                assert forall|k: int| 0 <= k < d.len() implies '0' <= #[trigger] d[k] <= '9' || !all_digits(d) by {
                }
                if all_digits(d) {
                    lemma_digits_grow(d, i - start + 1);
                }
            }
            return None;
        }
        acc = acc * 10 + digit;
        i = i + 1;
    }
    assert(d.take(len - start) =~= d);
    if neg {
        if acc == limit {
            Some(i64::MIN)
        } else {
            Some(-(acc as i64))
        }
    } else {
        if acc == limit {
            None
        } else {
            Some(acc as i64)
        }
    }
}

/// The title line, the time line and the markdown of an article's source,
/// where both header lines are there.
pub open spec fn source_parts(s: Seq<char>) -> Option<(Seq<char>, Seq<char>, Seq<char>)> {
    let a = line_end_from(s, 0);
    let b = line_end_from(s, a + 1);
    if a >= s.len() || b >= s.len() {
        None
    } else {
        Some((s.take(a), s.subrange(a + 1, b), s.subrange(b + 1, s.len() as int)))
    }
}

proof fn lemma_line_end_bounds(s: Seq<char>, i: int)
    requires
        0 <= i,
    ensures
        line_end_from(s, i) <= s.len(),
        i <= s.len() ==> i <= line_end_from(s, i),
        line_end_from(s, i) < s.len() ==> s[line_end_from(s, i)] == '\n',
    decreases s.len() - i,
{
    if i < s.len() && s[i] != '\n' {
        lemma_line_end_bounds(s, i + 1);
    }
}

fn find_line_end(cs: &Vec<char>, from: usize) -> (r: usize)
    requires
        from <= cs@.len(),
    ensures
        r as int == line_end_from(cs@, from as int),
{
    let mut i: usize = from;
    while i < cs.len() && cs[i] != '\n'
        invariant
            from <= i <= cs@.len(),
            line_end_from(cs@, from as int) == line_end_from(cs@, i as int),
        decreases cs.len() - i,
    {
        i = i + 1;
    }
    i
}

/// Compiles an article's source: a title line, a line with its Unix time,
/// then its markdown, which becomes the article's HTML body.
pub fn compile_markdown(input: &str) -> (r: Result<Article, CompileError>)
    ensures
        source_parts(input@) is None ==> r == Err::<Article, CompileError>(
            CompileError::MissingHeader,
        ),
        source_parts(input@) matches Some(p) ==> {
            &&& (i64_value(p.1) matches Some(t) && timestamp_in_range(t)) || r == Err::<
                Article,
                CompileError,
            >(CompileError::InvalidTimestamp)
            &&& math_spans_of(p.2) is None && i64_value(p.1) is Some && timestamp_in_range(
                i64_value(p.1)->0,
            ) ==> r == Err::<Article, CompileError>(CompileError::InvalidMath)
            &&& i64_value(p.1) is Some && timestamp_in_range(i64_value(p.1)->0) ==> r is Ok || r
                == Err::<Article, CompileError>(CompileError::InvalidMath)
            &&& i64_value(p.1) is Some && timestamp_in_range(i64_value(p.1)->0) && math_spans_of(
                p.2,
            ) == Some(Seq::<(int, int)>::empty()) ==> r is Ok
            &&& r matches Ok(a) ==> a@ == article_of(
                p.0,
                rendered_html(p.2),
                i64_value(p.1)->0,
            )
        },
        r is Err ==> r == Err::<Article, CompileError>(CompileError::MissingHeader) || r == Err::<
            Article,
            CompileError,
        >(CompileError::InvalidTimestamp) || r == Err::<Article, CompileError>(
            CompileError::InvalidMath,
        ),
{
    let cs = chars_of(input);
    let len = cs.len();
    let a = find_line_end(&cs, 0);
    if a >= len {
        return Err(CompileError::MissingHeader);
    }
    let b = find_line_end(&cs, a + 1);
    proof {
        lemma_line_end_bounds(cs@, a + 1);
    }
    if b >= len {
        return Err(CompileError::MissingHeader);
    }
    let title = string_of_range(&cs, 0, a);
    let time_line = string_of_range(&cs, a + 1, b);
    let markdown = string_of_range(&cs, b + 1, len);
    assert(cs@.subrange(0, a as int) =~= cs@.take(a as int));
    let timestamp = match parse_i64(time_line.as_str()) {
        Some(t) => t,
        None => return Err(CompileError::InvalidTimestamp),
    };
    if timestamp < MIN_TIMESTAMP || timestamp > MAX_TIMESTAMP {
        return Err(CompileError::InvalidTimestamp);
    }
    let body = match render(markdown.as_str()) {
        Ok(h) => h,
        Err(_) => return Err(CompileError::InvalidMath),
    };
    Ok(Article::new(title, body, timestamp))
}

} // verus!
