//! Math spans: text between a pair of `$$` delimiters, rendered to HTML by
//! KaTeX and spliced back into the surrounding markdown.
use vstd::prelude::*;

use crate::text::{chars_of, push_char, string_of_range};

verus! {

/// Why a text could not be rendered.
#[derive(Debug, Clone, Copy, PartialEq, Eq, Structural)]
pub enum RenderError {
    /// A `$$` that no later `$$` closes, or math that KaTeX rejected.
    InvalidMath,
}

/// One math span of a text, by character positions: the opening `$$` stands
/// at `open`, the closing one at `close`; the math lies between them.
#[derive(Debug, Clone, Copy, PartialEq, Eq, Structural)]
pub struct MathSpan {
    pub open: usize,
    pub close: usize,
}

impl MathSpan {
    pub open spec fn view(self) -> (int, int) {
        (self.open as int, self.close as int)
    }
}

/// Whether a `$$` delimiter starts at position `i` of `s`.
pub open spec fn delim_at(s: Seq<char>, i: int) -> bool {
    0 <= i && i + 1 < s.len() && s[i] == '$' && s[i + 1] == '$'
}

/// The first position at or after `i` where a `$$` starts, or -1.
pub open spec fn next_delim(s: Seq<char>, i: int) -> int
    decreases s.len() - i,
{
    if i < 0 || i + 1 >= s.len() {
        -1
    } else if delim_at(s, i) {
        i
    } else {
        next_delim(s, i + 1)
    }
}

proof fn lemma_next_delim(s: Seq<char>, i: int)
    requires
        0 <= i,
    ensures
        next_delim(s, i) == -1 || (i <= next_delim(s, i) && delim_at(s, next_delim(s, i))),
        forall|p: int| i <= p && (next_delim(s, i) == -1 || p < next_delim(s, i)) ==> !delim_at(s, p),
    decreases s.len() - i,
{
    if i + 1 < s.len() && !delim_at(s, i) {
        lemma_next_delim(s, i + 1);
    }
}

/// The math spans of `s` from position `c` on, in order: each opens at the
/// next `$$` and closes at the first `$$` after it. `None` where a `$$`
/// is left open.
pub open spec fn spans_from(s: Seq<char>, c: int) -> Option<Seq<(int, int)>>
    decreases s.len() - c,
    via spans_from_decreases
{
    let i = next_delim(s, c);
    if c < 0 || i < 0 {
        Some(Seq::empty())
    } else {
        let j = next_delim(s, i + 2);
        if j < 0 {
            None
        } else {
            match spans_from(s, j + 2) {
                Some(rest) => Some(seq![(i, j)] + rest),
                None => None,
            }
        }
    }
}

#[via_fn]
proof fn spans_from_decreases(s: Seq<char>, c: int) {
    if c >= 0 {
        lemma_next_delim(s, c);
        if next_delim(s, c) >= 0 {
            lemma_next_delim(s, next_delim(s, c) + 2);
        }
    }
}

/// The math spans of `s`, or `None` where a `$$` is left open.
pub open spec fn math_spans_of(s: Seq<char>) -> Option<Seq<(int, int)>> {
    spans_from(s, 0)
}

/// The math inside span `sp` of `s`, without its delimiters.
pub open spec fn span_math(s: Seq<char>, sp: (int, int)) -> Seq<char> {
    s.subrange(sp.0 + 2, sp.1)
}

/// Where the text after the `k`-th span (or before the first) starts.
pub open spec fn gap_start(spans: Seq<(int, int)>, k: int) -> int {
    if k <= 0 {
        0
    } else {
        spans[k - 1].1 + 2
    }
}

/// Spans that lie in order inside `s`, each with its two delimiters.
pub open spec fn spans_fit(s: Seq<char>, spans: Seq<(int, int)>) -> bool {
    &&& forall|k: int|
        0 <= k < spans.len() ==> gap_start(spans, k) <= spans[k].0 && spans[k].0 + 2
            <= spans[k].1 && spans[k].1 + 2 <= s.len()
}

/// The first `n` spans of `s` replaced by `rendered`, with the text before
/// each kept as it is; the text after the `n`-th span is not included.
pub open spec fn spliced_upto(
    s: Seq<char>,
    spans: Seq<(int, int)>,
    rendered: Seq<Seq<char>>,
    n: int,
) -> Seq<char>
    decreases n,
{
    if n <= 0 {
        Seq::empty()
    } else {
        spliced_upto(s, spans, rendered, n - 1) + s.subrange(gap_start(spans, n - 1), spans[n - 1].0)
            + rendered[n - 1]
    }
}

/// `s` with each span replaced by the matching element of `rendered`.
pub open spec fn spliced(s: Seq<char>, spans: Seq<(int, int)>, rendered: Seq<Seq<char>>) -> Seq<
    char,
> {
    spliced_upto(s, spans, rendered, spans.len() as int) + s.subrange(
        gap_start(spans, spans.len() as int),
        s.len() as int,
    )
}

proof fn lemma_spans_from(s: Seq<char>, c: int)
    requires
        0 <= c <= s.len(),
    ensures
        spans_from(s, c) matches Some(sp) ==> {
            &&& forall|k: int|
                0 <= k < sp.len() ==> c <= sp[k].0 && sp[k].0 + 2 <= sp[k].1 && sp[k].1 + 2 <= s.len()
                    && delim_at(s, sp[k].0) && delim_at(s, sp[k].1)
            &&& forall|k: int| 0 < k < sp.len() ==> sp[k - 1].1 + 2 <= sp[k].0
        },
    decreases s.len() - c,
{
    lemma_next_delim(s, c);
    let i = next_delim(s, c);
    if i >= 0 {
        lemma_next_delim(s, i + 2);
        let j = next_delim(s, i + 2);
        if j >= 0 {
            lemma_spans_from(s, j + 2);
        }
    }
}

proof fn lemma_spans_fit(s: Seq<char>)
    ensures
        math_spans_of(s) matches Some(sp) ==> spans_fit(s, sp),
{
    lemma_spans_from(s, 0);
}

proof fn lemma_fit_at(s: Seq<char>, sv: Seq<(int, int)>, k: int)
    requires
        spans_fit(s, sv),
        0 <= k < sv.len(),
    ensures
        gap_start(sv, k) <= sv[k].0,
        sv[k].0 + 2 <= sv[k].1,
        sv[k].1 + 2 <= s.len(),
{
}

/// Every `$$` of `s` from `c` on lies within one of the spans found there.
proof fn lemma_spans_cover(s: Seq<char>, c: int, p: int)
    requires
        0 <= c <= p,
        delim_at(s, p),
        spans_from(s, c) is Some,
    ensures
        exists|k: int|
            0 <= k < spans_from(s, c)->0.len() && #[trigger] spans_from(s, c)->0[k].0 <= p
                < spans_from(s, c)->0[k].1 + 2,
    decreases s.len() - c,
{
    lemma_next_delim(s, c);
    let i = next_delim(s, c);
    lemma_next_delim(s, i + 2);
    let j = next_delim(s, i + 2);
    let sp = spans_from(s, c)->0;
    let rest = spans_from(s, j + 2)->0;
    assert(sp == seq![(i, j)] + rest);
    if p < j + 2 {
        assert(sp[0].0 <= p < sp[0].1 + 2);
    } else {
        lemma_spans_cover(s, j + 2, p);
        let k = choose|k: int| 0 <= k < rest.len() && #[trigger] rest[k].0 <= p < rest[k].1 + 2;
        assert(sp[k + 1] == rest[k]);
    }
}

/// The spans found in a text are exact: they stand in order, each opens and
/// closes with `$$`, and every `$$` of the text opens or closes one of them
/// or lies inside one, so the text between spans holds no `$$`.
pub proof fn lemma_math_spans_exact(s: Seq<char>)
    ensures
        math_spans_of(s) matches Some(sp) ==> {
            &&& spans_fit(s, sp)
            &&& forall|k: int|
                0 <= k < sp.len() ==> delim_at(s, sp[k].0) && delim_at(s, sp[k].1)
            &&& forall|p: int|
                delim_at(s, p) ==> exists|k: int|
                    0 <= k < sp.len() && #[trigger] sp[k].0 <= p < sp[k].1 + 2
        },
{
    lemma_spans_from(s, 0);
    if math_spans_of(s) is Some {
        let sp = math_spans_of(s)->0;
        assert forall|p: int| delim_at(s, p) implies exists|k: int|
            0 <= k < sp.len() && #[trigger] sp[k].0 <= p < sp[k].1 + 2 by {
            lemma_spans_cover(s, 0, p);
        }
    }
}

/// Text without `$$` holds no math span and renders to itself: the math
/// stage leaves it as it is and brings in no `$$`.
pub proof fn lemma_plain_text_unchanged(s: Seq<char>)
    requires
        forall|p: int| !delim_at(s, p),
    ensures
        math_spans_of(s) == Some(Seq::<(int, int)>::empty()),
        latex_rendering(s) == s,
        forall|p: int| !delim_at(latex_rendering(s), p),
{
    lemma_next_delim(s, 0);
    let sp = math_spans_of(s)->0;
    assert(sp.map_values(|x: (int, int)| katex_html(span_math(s, x))) =~= Seq::<Seq<char>>::empty());
    assert(s.subrange(0, s.len() as int) =~= s);
    assert(Seq::<char>::empty() + s =~= s);
}

/// The math spans of `text`; fails where a `$$` is never closed.
pub fn math_spans(text: &str) -> (r: Result<Vec<MathSpan>, RenderError>)
    ensures
        match r {
            Ok(v) => math_spans_of(text@) == Some(v@.map_values(|m: MathSpan| m@)),
            Err(e) => math_spans_of(text@) is None && e == RenderError::InvalidMath,
        },
{
    let cs = chars_of(text);
    let ghost s = cs@;
    let len = cs.len();
    let mut spans: Vec<MathSpan> = Vec::new();
    let mut c: usize = 0;
    let mut open: Option<usize> = None;
    let mut i: usize = 0;
    // each step looks at position i; `open` holds the start of a span whose
    // closing `$$` is still to be found
    while len > 0 && i < len - 1
        invariant
            s == cs@,
            len == s.len(),
            c <= i <= len,
            open matches Some(o) ==> o + 2 == c && delim_at(s, o as int),
            next_delim(s, c as int) == next_delim(s, i as int),
            spans_from(s, 0) == match open {
                None => match spans_from(s, c as int) {
                    Some(rest) => Some(spans@.map_values(|m: MathSpan| m@) + rest),
                    None => None,
                },
                Some(o) => {
                    let j = next_delim(s, c as int);
                    if j < 0 {
                        None
                    } else {
                        match spans_from(s, j + 2) {
                            Some(rest) => Some(
                                spans@.map_values(|m: MathSpan| m@) + seq![(o as int, j)] + rest,
                            ),
                            None => None,
                        }
                    }
                },
            },
        decreases len - i,
    {
        if cs[i] == '$' && cs[i + 1] == '$' {
            match open {
                None => {
                    open = Some(i);
                    c = i + 2;
                    i = i + 2;
                },
                Some(o) => {
                    let ghost before = spans@.map_values(|m: MathSpan| m@);
                    spans.push(MathSpan { open: o, close: i });
                    assert(spans@.map_values(|m: MathSpan| m@) =~= before.push((o as int, i as int)));
                    assert(forall|rest: Seq<(int, int)>|
                        before + seq![(o as int, i as int)] + rest == before.push((o as int, i as int))
                            + rest);
                    open = None;
                    c = i + 2;
                    i = i + 2;
                },
            }
        } else {
            i = i + 1;
        }
    }
    assert(spans@.map_values(|m: MathSpan| m@) + Seq::<(int, int)>::empty() =~= spans@.map_values(
        |m: MathSpan| m@,
    ));
    match open {
        Some(_) => Err(RenderError::InvalidMath),
        None => Ok(spans),
    }
}


/// Appends the characters `cs[from..to]` to `out`.
fn append_range(out: &mut String, cs: &Vec<char>, from: usize, to: usize)
    requires
        from <= to <= cs@.len(),
    ensures
        final(out)@ == old(out)@ + cs@.subrange(from as int, to as int),
{
    let ghost start = out@;
    let mut i: usize = from;
    while i < to
        invariant
            from <= i <= to <= cs@.len(),
            out@ == start + cs@.subrange(from as int, i as int),
        decreases to - i,
    {
        push_char(out, cs[i]);
        assert(cs@.subrange(from as int, i + 1) =~= cs@.subrange(from as int, i as int).push(
            cs@[i as int],
        ));
        i = i + 1;
    }
}

/// The views of a list of strings.
pub open spec fn views(v: Seq<String>) -> Seq<Seq<char>> {
    v.map_values(|x: String| x@)
}

/// The views of a list of spans.
pub open spec fn span_views(v: Seq<MathSpan>) -> Seq<(int, int)> {
    v.map_values(|m: MathSpan| m@)
}

/// `text` with each span replaced by the matching element of `rendered`,
/// and the text around the spans kept as it is.
pub fn splice_math(text: &str, spans: &Vec<MathSpan>, rendered: &Vec<String>) -> (r: String)
    requires
        spans_fit(text@, span_views(spans@)),
        rendered@.len() == spans@.len(),
    ensures
        r@ == spliced(text@, span_views(spans@), views(rendered@)),
{
    let cs = chars_of(text);
    let ghost s = cs@;
    let ghost sv = span_views(spans@);
    let ghost rv = views(rendered@);
    let len = cs.len();
    let mut out = String::new();
    let mut pos: usize = 0;
    let mut k: usize = 0;
    while k < spans.len()
        invariant
            s == cs@,
            len == s.len(),
            s == text@,
            sv == span_views(spans@),
            rv == views(rendered@),
            spans_fit(s, sv),
            rendered@.len() == spans@.len(),
            k <= spans@.len(),
            pos == gap_start(sv, k as int),
            pos <= s.len(),
            out@ == spliced_upto(s, sv, rv, k as int),
        decreases spans.len() - k,
    {
        let sp = spans[k];
        assert(sv[k as int] == sp@);
        proof {
            lemma_fit_at(s, sv, k as int);
        }
        append_range(&mut out, &cs, pos, sp.open);
        out.append(rendered[k].as_str());
        pos = sp.close + 2;
        k = k + 1;
    }
    append_range(&mut out, &cs, pos, cs.len());
    out
}

/// What KaTeX renders a piece of TeX to.
pub uninterp spec fn katex_html(tex: Seq<char>) -> Seq<char>;

#[verifier::external_type_specification]
#[verifier::external_body]
pub struct ExKatexError(katex::Error);

/// Relies on `katex::render`: on success, the HTML that KaTeX makes of
/// `tex`, which depends on `tex` alone. It fails where KaTeX rejects the TeX
/// or its script engine cannot start.
#[verifier::external_body]
fn render_tex(tex: &str) -> (r: Result<String, katex::Error>)
    ensures
        r matches Ok(h) ==> h@ == katex_html(tex@),
{
    katex::render(tex)
}

/// `s` with each of its math spans replaced by KaTeX's rendering of the
/// math inside it; meaningful where `math_spans_of(s)` is `Some`.
pub open spec fn latex_rendering(s: Seq<char>) -> Seq<char> {
    let sp = math_spans_of(s)->0;
    spliced(s, sp, sp.map_values(|x: (int, int)| katex_html(span_math(s, x))))
}

/// Replaces each math span of `input` with its KaTeX rendering. On failure
/// `input` is left as it was: where a `$$` is never closed, or where KaTeX
/// fails on one of the spans.
pub fn replace_latex(input: &mut String) -> (r: Result<(), RenderError>)
    ensures
        math_spans_of(old(input)@) is None ==> r is Err,
        math_spans_of(old(input)@) == Some(Seq::<(int, int)>::empty()) ==> r is Ok,
        r is Ok ==> math_spans_of(old(input)@) is Some && final(input)@ == latex_rendering(
            old(input)@,
        ),
        r matches Err(e) ==> e == RenderError::InvalidMath && final(input)@ == old(input)@,
{
    let spans = match math_spans(input.as_str()) {
        Ok(v) => v,
        Err(e) => return Err(e),
    };
    let ghost s = input@;
    let ghost sv = span_views(spans@);
    proof {
        lemma_spans_fit(s);
    }
    let cs = chars_of(input.as_str());
    let mut rendered: Vec<String> = Vec::new();
    let mut k: usize = 0;
    while k < spans.len()
        invariant
            s == input@,
            s == cs@,
            sv == span_views(spans@),
            math_spans_of(s) == Some(sv),
            spans_fit(s, sv),
            k <= spans@.len(),
            rendered@.len() == k,
            forall|i: int| 0 <= i < k ==> rendered@[i]@ == katex_html(span_math(s, sv[i])),
        decreases spans.len() - k,
    {
        let sp = spans[k];
        assert(sv[k as int] == sp@);
        proof {
            lemma_fit_at(s, sv, k as int);
        }
        let tex = string_of_range(&cs, sp.open + 2, sp.close);
        match render_tex(tex.as_str()) {
            Ok(h) => rendered.push(h),
            Err(_) => return Err(RenderError::InvalidMath),
        }
        k = k + 1;
    }
    let out = splice_math(input.as_str(), &spans, &rendered);
    assert(views(rendered@) =~= sv.map_values(|x: (int, int)| katex_html(span_math(s, x))));
    *input = out;
    Ok(())
}


/// Spans moved `d` characters to the right.
pub open spec fn shifted(sp: Seq<(int, int)>, d: int) -> Seq<(int, int)> {
    sp.map_values(|x: (int, int)| (x.0 + d, x.1 + d))
}

/// Whether `x` and `y` meet without making a `$$` across the seam.
pub open spec fn joins_cleanly(x: Seq<char>, y: Seq<char>) -> bool {
    !(x.len() > 0 && y.len() > 0 && x.last() == '$' && y[0] == '$')
}

proof fn lemma_concat_delims(x: Seq<char>, y: Seq<char>)
    ensures
        forall|i: int| 0 <= i < x.len() - 1 ==> #[trigger] delim_at(x + y, i) == delim_at(x, i),
        joins_cleanly(x, y) ==> forall|i: int|
            0 <= i < x.len() ==> #[trigger] delim_at(x + y, i) == delim_at(x, i),
        forall|j: int| 0 <= j ==> #[trigger] delim_at(x + y, x.len() + j) == delim_at(y, j),
{
    let s = x + y;
    assert forall|i: int| 0 <= i < x.len() - 1 implies #[trigger] delim_at(s, i) == delim_at(x, i) by {
        assert(s[i] == x[i] && s[i + 1] == x[i + 1]);
    }
    assert forall|i: int| joins_cleanly(x, y) && 0 <= i < x.len() implies #[trigger] delim_at(s, i)
        == delim_at(x, i) by {
        if i + 1 < x.len() {
            assert(s[i] == x[i] && s[i + 1] == x[i + 1]);
        } else {
            assert(s[i] == x.last());
            if i + 1 < s.len() {
                assert(s[i + 1] == y[0]);
            }
        }
    }
    assert forall|j: int| 0 <= j implies #[trigger] delim_at(s, x.len() + j) == delim_at(y, j) by {
        if j + 1 < y.len() {
            assert(s[x.len() + j] == y[j] && s[x.len() + j + 1] == y[j + 1]);
        }
    }
}

proof fn lemma_next_delim_right(x: Seq<char>, y: Seq<char>, j: int)
    requires
        0 <= j,
    ensures
        next_delim(x + y, x.len() + j) == if next_delim(y, j) < 0 {
            -1
        } else {
            next_delim(y, j) + x.len()
        },
    decreases y.len() - j,
{
    lemma_concat_delims(x, y);
    assert(delim_at(x + y, x.len() + j) == delim_at(y, j));
    if j + 1 < y.len() && !delim_at(y, j) {
        lemma_next_delim_right(x, y, j + 1);
        assert(x.len() + j + 1 == x.len() + (j + 1));
    }
}

proof fn lemma_next_delim_left(x: Seq<char>, y: Seq<char>, c: int)
    requires
        joins_cleanly(x, y) || next_delim(x, c) >= 0 || c == x.len(),
        0 <= c <= x.len(),
    ensures
        next_delim(x, c) >= 0 ==> next_delim(x + y, c) == next_delim(x, c),
        next_delim(x, c) < 0 ==> next_delim(x + y, c) == next_delim(x + y, x.len() as int),
    decreases x.len() - c,
{
    lemma_concat_delims(x, y);
    lemma_next_delim(x, c);
    if c < x.len() {
        if c == x.len() - 1 && !joins_cleanly(x, y) {
            assert(next_delim(x, c) == -1);
        }
        assert(delim_at(x + y, c) == delim_at(x, c));
        if !delim_at(x, c) {
            lemma_next_delim_left(x, y, c + 1);
        }
    }
}

proof fn lemma_spans_right(x: Seq<char>, y: Seq<char>, j: int)
    requires
        0 <= j,
    ensures
        spans_from(x + y, x.len() + j) == match spans_from(y, j) {
            Some(sy) => Some(shifted(sy, x.len() as int)),
            None => None::<Seq<(int, int)>>,
        },
    decreases y.len() - j,
{
    let s = x + y;
    let d = x.len() as int;
    lemma_next_delim(y, j);
    lemma_next_delim_right(x, y, j);
    let i = next_delim(y, j);
    if i >= 0 {
        lemma_next_delim(y, i + 2);
        lemma_next_delim_right(x, y, i + 2);
        assert(d + (i + 2) == (i + d) + 2);
        let k = next_delim(y, i + 2);
        if k >= 0 {
            lemma_spans_right(x, y, k + 2);
            assert(d + (k + 2) == (k + d) + 2);
            if spans_from(y, k + 2) is Some {
                let rest = spans_from(y, k + 2)->0;
                assert(shifted(seq![(i, k)] + rest, d) =~= seq![(i + d, k + d)] + shifted(rest, d));
            }
        }
    } else {
        assert(shifted(Seq::empty(), d) =~= Seq::empty());
    }
}

/// Whether the spans of `x` found from `c` on run up to the very end of
/// `x`, so that no search for a `$$` in `x` looks at its last character.
pub open spec fn spans_reach_end(x: Seq<char>, c: int) -> bool {
    match spans_from(x, c) {
        Some(sc) => if sc.len() > 0 {
            sc.last().1 + 2 == x.len()
        } else {
            c == x.len()
        },
        None => false,
    }
}

proof fn lemma_spans_left(x: Seq<char>, y: Seq<char>, c: int)
    requires
        joins_cleanly(x, y) || spans_reach_end(x, c),
        0 <= c <= x.len(),
        spans_from(x, c) is Some,
        spans_from(y, 0) is Some,
    ensures
        spans_from(x + y, c) == Some(
            spans_from(x, c)->0 + shifted(spans_from(y, 0)->0, x.len() as int),
        ),
    decreases x.len() - c,
{
    let s = x + y;
    let d = x.len() as int;
    lemma_next_delim(x, c);
    lemma_next_delim_left(x, y, c);
    lemma_spans_right(x, y, 0);
    assert(d + 0 == d);
    let i = next_delim(x, c);
    if i >= 0 {
        lemma_next_delim(x, i + 2);
        let k = next_delim(x, i + 2);
        lemma_next_delim_left(x, y, i + 2);
        let rest = spans_from(x, k + 2)->0;
        assert(spans_from(x, c)->0 == seq![(i, k)] + rest);
        if rest.len() > 0 {
            assert((seq![(i, k)] + rest).last() == rest.last());
        }
        lemma_spans_left(x, y, k + 2);
        let sy = shifted(spans_from(y, 0)->0, d);
        assert(seq![(i, k)] + rest + sy =~= seq![(i, k)] + (rest + sy));
    } else {
        lemma_next_delim(s, d);
        lemma_next_delim(s, c);
        assert(Seq::<(int, int)>::empty() + shifted(spans_from(y, 0)->0, d) =~= shifted(
            spans_from(y, 0)->0,
            d,
        ));
    }
}


proof fn lemma_gap_bounds(s: Seq<char>, sv: Seq<(int, int)>, k: int)
    requires
        spans_fit(s, sv),
        0 <= k <= sv.len(),
    ensures
        0 <= gap_start(sv, k) <= s.len(),
    decreases k,
{
    if k > 0 {
        lemma_gap_bounds(s, sv, k - 1);
        lemma_fit_at(s, sv, k - 1);
    }
}

proof fn lemma_spliced_left(
    x: Seq<char>,
    y: Seq<char>,
    sx: Seq<(int, int)>,
    sy: Seq<(int, int)>,
    rx: Seq<Seq<char>>,
    ry: Seq<Seq<char>>,
    k: int,
)
    requires
        spans_fit(x, sx),
        0 <= k <= sx.len(),
        rx.len() == sx.len(),
    ensures
        spliced_upto(x + y, sx + shifted(sy, x.len() as int), rx + ry, k) == spliced_upto(
            x,
            sx,
            rx,
            k,
        ),
        gap_start(sx + shifted(sy, x.len() as int), k) == gap_start(sx, k),
    decreases k,
{
    let sp = sx + shifted(sy, x.len() as int);
    if k > 0 {
        lemma_spliced_left(x, y, sx, sy, rx, ry, k - 1);
        lemma_fit_at(x, sx, k - 1);
        lemma_gap_bounds(x, sx, k - 1);
        assert(sp[k - 1] == sx[k - 1]);
        assert((x + y).subrange(gap_start(sx, k - 1), sx[k - 1].0) =~= x.subrange(
            gap_start(sx, k - 1),
            sx[k - 1].0,
        ));
    }
}

proof fn lemma_spliced_right(
    x: Seq<char>,
    y: Seq<char>,
    sx: Seq<(int, int)>,
    sy: Seq<(int, int)>,
    rx: Seq<Seq<char>>,
    ry: Seq<Seq<char>>,
    k: int,
)
    requires
        spans_fit(x, sx),
        spans_fit(y, sy),
        rx.len() == sx.len(),
        ry.len() == sy.len(),
        1 <= k <= sy.len(),
    ensures
        spliced_upto(x + y, sx + shifted(sy, x.len() as int), rx + ry, sx.len() + k) == spliced(
            x,
            sx,
            rx,
        ) + spliced_upto(y, sy, ry, k),
        gap_start(sx + shifted(sy, x.len() as int), sx.len() + k) == gap_start(sy, k) + x.len(),
    decreases k,
{
    let s = x + y;
    let d = x.len() as int;
    let sp = sx + shifted(sy, d);
    let r = rx + ry;
    let n = sx.len() as int;
    lemma_fit_at(y, sy, k - 1);
    assert(sp[n + k - 1] == (sy[k - 1].0 + d, sy[k - 1].1 + d));
    assert(r[n + k - 1] == ry[k - 1]);
    if k == 1 {
        lemma_spliced_left(x, y, sx, sy, rx, ry, n);
        let gx = gap_start(sx, n);
        lemma_gap_bounds(x, sx, n);
        assert(s.subrange(gx, d + sy[0].0) =~= x.subrange(gx, d) + y.subrange(0, sy[0].0));
        assert(spliced_upto(y, sy, ry, 0) == Seq::<char>::empty());
        assert(spliced_upto(s, sp, r, n + 1) =~= spliced(x, sx, rx) + spliced_upto(y, sy, ry, 1));
    } else {
        lemma_spliced_right(x, y, sx, sy, rx, ry, k - 1);
        let gy = gap_start(sy, k - 1);
        lemma_gap_bounds(y, sy, k - 1);
        assert(s.subrange(gy + d, sy[k - 1].0 + d) =~= y.subrange(gy, sy[k - 1].0));
        assert(spliced_upto(s, sp, r, n + k) =~= spliced(x, sx, rx) + spliced_upto(y, sy, ry, k));
    }
}

proof fn lemma_spliced_concat(
    x: Seq<char>,
    y: Seq<char>,
    sx: Seq<(int, int)>,
    sy: Seq<(int, int)>,
    rx: Seq<Seq<char>>,
    ry: Seq<Seq<char>>,
)
    requires
        spans_fit(x, sx),
        spans_fit(y, sy),
        rx.len() == sx.len(),
        ry.len() == sy.len(),
    ensures
        spliced(x + y, sx + shifted(sy, x.len() as int), rx + ry) == spliced(x, sx, rx) + spliced(
            y,
            sy,
            ry,
        ),
{
    let s = x + y;
    let d = x.len() as int;
    let sp = sx + shifted(sy, d);
    let r = rx + ry;
    let n = sx.len() as int;
    let m = sy.len() as int;
    assert(sp.len() == n + m);
    if m == 0 {
        lemma_spliced_left(x, y, sx, sy, rx, ry, n);
        let gx = gap_start(sx, n);
        lemma_gap_bounds(x, sx, n);
        assert(s.subrange(gx, s.len() as int) =~= x.subrange(gx, d) + y);
        assert(y.subrange(0, y.len() as int) =~= y);
        assert(spliced_upto(y, sy, ry, 0) == Seq::<char>::empty());
        assert(spliced(s, sp, r) =~= spliced(x, sx, rx) + spliced(y, sy, ry));
    } else {
        lemma_spliced_right(x, y, sx, sy, rx, ry, m);
        let gy = gap_start(sy, m);
        lemma_gap_bounds(y, sy, m);
        assert(s.subrange(gy + d, s.len() as int) =~= y.subrange(gy, y.len() as int));
        assert(spliced(s, sp, r) =~= spliced(x, sx, rx) + spliced(y, sy, ry));
    }
}

/// Rendering math distributes over concatenation: where two texts each
/// have well-formed math spans, and the first either ends with the closing
/// `$$` of its last span or ends otherwise than with a `$` that meets a `$`
/// opening the second, the spans of the whole are those of the first
/// followed by those of the second, and each is rendered on its own with the
/// text around it kept.
pub proof fn lemma_rendering_concat(x: Seq<char>, y: Seq<char>)
    requires
        joins_cleanly(x, y) || spans_reach_end(x, 0),
        math_spans_of(x) is Some,
        math_spans_of(y) is Some,
    ensures
        math_spans_of(x + y) == Some(
            math_spans_of(x)->0 + shifted(math_spans_of(y)->0, x.len() as int),
        ),
        latex_rendering(x + y) == latex_rendering(x) + latex_rendering(y),
{
    let s = x + y;
    let d = x.len() as int;
    lemma_spans_left(x, y, 0);
    lemma_spans_fit(x);
    lemma_spans_fit(y);
    let sx = math_spans_of(x)->0;
    let sy = math_spans_of(y)->0;
    let sp = sx + shifted(sy, d);
    let rx = sx.map_values(|p: (int, int)| katex_html(span_math(x, p)));
    let ry = sy.map_values(|p: (int, int)| katex_html(span_math(y, p)));
    let r = sp.map_values(|p: (int, int)| katex_html(span_math(s, p)));
    assert forall|i: int| 0 <= i < sp.len() implies r[i] == (rx + ry)[i] by {
        if i < sx.len() {
            lemma_fit_at(x, sx, i);
            lemma_gap_bounds(x, sx, i);
            assert(sp[i] == sx[i]);
            assert(s.subrange(sx[i].0 + 2, sx[i].1) =~= x.subrange(sx[i].0 + 2, sx[i].1));
        } else {
            let j = i - sx.len();
            lemma_fit_at(y, sy, j);
            lemma_gap_bounds(y, sy, j);
            assert(sp[i] == (sy[j].0 + d, sy[j].1 + d));
            assert(s.subrange(sy[j].0 + d + 2, sy[j].1 + d) =~= y.subrange(sy[j].0 + 2, sy[j].1));
        }
    }
    assert(r =~= rx + ry);
    lemma_spliced_concat(x, y, sx, sy, rx, ry);
}


/// `m` between two `$$` delimiters.
pub open spec fn delimited(m: Seq<char>) -> Seq<char> {
    seq!['$', '$'] + m + seq!['$', '$']
}

/// The text `t0 $$m1$$ t1 ... $$mN$$ tN` made of the texts `ts` and the
/// pieces of math `ms`, one fewer than the texts.
pub open spec fn math_text(ts: Seq<Seq<char>>, ms: Seq<Seq<char>>) -> Seq<char>
    decreases ms.len(),
{
    if ms.len() == 0 || ts.len() == 0 {
        if ts.len() > 0 {
            ts[0]
        } else {
            Seq::empty()
        }
    } else {
        math_text(ts.drop_last(), ms.drop_last()) + delimited(ms.last()) + ts.last()
    }
}

/// The texts `ts` with the rendered pieces `rs` between them:
/// `t0 r1 t1 ... rN tN`.
pub open spec fn woven(ts: Seq<Seq<char>>, rs: Seq<Seq<char>>) -> Seq<char>
    decreases rs.len(),
{
    if rs.len() == 0 || ts.len() == 0 {
        if ts.len() > 0 {
            ts[0]
        } else {
            Seq::empty()
        }
    } else {
        woven(ts.drop_last(), rs.drop_last()) + rs.last() + ts.last()
    }
}

/// Whether `s` holds no `$`.
pub open spec fn dollar_free(s: Seq<char>) -> bool {
    forall|i: int| 0 <= i < s.len() ==> s[i] != '$'
}

proof fn lemma_next_delim_at(s: Seq<char>, i: int, q: int)
    requires
        0 <= i <= q,
        delim_at(s, q),
        forall|p: int| i <= p < q ==> !delim_at(s, p),
    ensures
        next_delim(s, i) == q,
    decreases q - i,
{
    if i < q {
        lemma_next_delim_at(s, i + 1, q);
    }
}

proof fn lemma_no_delim_from(s: Seq<char>, i: int)
    requires
        0 <= i,
        forall|p: int| i <= p ==> !delim_at(s, p),
    ensures
        next_delim(s, i) == -1,
{
    lemma_next_delim(s, i);
}

/// One span followed by plain text renders to the span's rendering
/// followed by the text.
proof fn lemma_one_span(m: Seq<char>, t: Seq<char>)
    requires
        m.len() > 0,
        dollar_free(m),
        dollar_free(t),
    ensures
        math_spans_of(delimited(m) + t) == Some(seq![(0int, m.len() + 2int)]),
        latex_rendering(delimited(m) + t) == katex_html(m) + t,
{
    let y = delimited(m) + t;
    let q = m.len() + 2int;
    assert(y[0] == '$' && y[1] == '$' && y[q] == '$' && y[q + 1] == '$');
    assert forall|p: int| 2 <= p < q implies !delim_at(y, p) by {
        assert(y[p] == m[p - 2]);
    }
    assert forall|p: int| q + 2 <= p implies !delim_at(y, p) by {
        if p < y.len() {
            assert(y[p] == t[p - q - 2]);
        }
    }
    lemma_next_delim_at(y, 0, 0);
    lemma_next_delim_at(y, 2, q);
    lemma_no_delim_from(y, q + 2);
    let sp = seq![(0int, q)];
    assert(spans_from(y, q + 2) == Some(Seq::<(int, int)>::empty()));
    assert(seq![(0int, q)] + Seq::<(int, int)>::empty() =~= sp);
    assert(span_math(y, (0, q)) =~= m);
    let r = sp.map_values(|x: (int, int)| katex_html(span_math(y, x)));
    assert(r[0] == katex_html(m));
    assert(y.subrange(0, 0) =~= Seq::<char>::empty());
    assert(y.subrange(q + 2, y.len() as int) =~= t);
    assert(spliced_upto(y, sp, r, 0) == Seq::<char>::empty());
    assert(spliced(y, sp, r) =~= katex_html(m) + t);
}

/// A text with N well-formed math spans, `t0 $$m1$$ t1 ... $$mN$$ tN`
/// with no `$` in any text and none in any piece of non-empty math, has
/// exactly N spans, and renders to `t0 K(m1) t1 ... K(mN) tN` where `K` is
/// KaTeX's rendering: each span replaced, its delimiters dropped, and the
/// text around it untouched.
pub proof fn lemma_n_spans_rendered(ts: Seq<Seq<char>>, ms: Seq<Seq<char>>)
    requires
        ts.len() == ms.len() + 1,
        forall|i: int| 0 <= i < ts.len() ==> dollar_free(#[trigger] ts[i]),
        forall|i: int| 0 <= i < ms.len() ==> (#[trigger] ms[i]).len() > 0 && dollar_free(ms[i]),
    ensures
        math_spans_of(math_text(ts, ms)) matches Some(sp) && sp.len() == ms.len() && (ms.len() > 0
            ==> sp.last().1 + 2 + ts.last().len() == math_text(ts, ms).len()),
        latex_rendering(math_text(ts, ms)) == woven(ts, ms.map_values(|m: Seq<char>| katex_html(m))),
    decreases ms.len(),
{
    let ks = ms.map_values(|m: Seq<char>| katex_html(m));
    if ms.len() == 0 {
        let x = ts[0];
        assert forall|p: int| !delim_at(x, p) by {
            if 0 <= p < x.len() {
                assert(dollar_free(ts[0]));
            }
        }
        lemma_plain_text_unchanged(x);
    } else {
        let pts = ts.drop_last();
        let pms = ms.drop_last();
        assert forall|i: int| 0 <= i < pts.len() implies dollar_free(#[trigger] pts[i]) by {
            assert(pts[i] == ts[i]);
        }
        assert forall|i: int| 0 <= i < pms.len() implies (#[trigger] pms[i]).len() > 0
            && dollar_free(pms[i]) by {
            assert(pms[i] == ms[i]);
        }
        lemma_n_spans_rendered(pts, pms);
        let x = math_text(pts, pms);
        let m = ms.last();
        let t = ts.last();
        assert(dollar_free(ts[ts.len() - 1]));
        assert(ms[ms.len() - 1].len() > 0 && dollar_free(ms[ms.len() - 1]));
        let y = delimited(m) + t;
        lemma_one_span(m, t);
        let sx = math_spans_of(x)->0;
        let lt = pts.last();
        assert(dollar_free(ts[pts.len() - 1]));
        // where x and y meet: x ends with text holding no `$`, or with the
        // closing `$$` of its last span, or is empty
        if !joins_cleanly(x, y) {
            if lt.len() > 0 {
                assert(x.last() == lt.last());
                assert(lt[lt.len() - 1] != '$');
            }
            assert(lt.len() == 0);
            if pms.len() == 0 {
                assert(x.len() == 0);
            }
            assert(spans_reach_end(x, 0));
        }
        lemma_rendering_concat(x, y);
        assert(math_text(ts, ms) =~= x + y);
        let sy = seq![(0int, m.len() + 2int)];
        let sp = sx + shifted(sy, x.len() as int);
        assert(sp.last() == (x.len() as int, x.len() + m.len() + 2int));
        assert(pms.map_values(|m: Seq<char>| katex_html(m)) =~= ks.drop_last());
        assert(woven(ts, ks) =~= woven(pts, ks.drop_last()) + ks.last() + t);
        assert(latex_rendering(x + y) =~= woven(ts, ks));
    }
}

} // verus!
