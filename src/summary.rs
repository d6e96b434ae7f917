//! HTML-aware summaries: a prefix of an article's first line whose length is
//! measured in visible characters, cut back to a sentence or a word.
use vstd::prelude::*;

use crate::text::{chars_of, is_white_space, push_char, string_of_range, white_space};

verus! {

/// The visible-character budget of the summaries that articles carry.
pub const SUMMARY_BUDGET: usize = 200;

/// The length of the first line of `s`: the characters before the first
/// line feed at or after `i`, or all of them.
pub open spec fn line_end_from(s: Seq<char>, i: int) -> int
    decreases s.len() - i,
{
    if i < 0 || i >= s.len() {
        s.len() as int
    } else if s[i] == '\n' {
        i
    } else {
        line_end_from(s, i + 1)
    }
}

/// `s[..k]` without its trailing white space.
pub open spec fn trimmed_end(s: Seq<char>, k: int) -> int
    decreases k,
{
    if k <= 0 {
        0
    } else if is_white_space(s[k - 1]) {
        trimmed_end(s, k - 1)
    } else {
        k
    }
}

/// The text that a summary is taken from: the first line, trimmed at its end.
pub open spec fn summary_source(body: Seq<char>) -> Seq<char> {
    body.take(trimmed_end(body, line_end_from(body, 0)))
}

/// Whether a scan of `s` from its start ends inside a tag: after a `<`
/// that no `>` has closed.
pub open spec fn in_tag(s: Seq<char>) -> bool
    decreases s.len(),
{
    if s.len() == 0 {
        false
    } else if s.last() == '<' {
        true
    } else if s.last() == '>' {
        false
    } else {
        in_tag(s.drop_last())
    }
}

/// Whether `s[i]` is visible: neither an angle bracket nor inside a tag.
pub open spec fn visible_at(s: Seq<char>, i: int) -> bool {
    s[i] != '<' && s[i] != '>' && !in_tag(s.take(i))
}

/// The number of visible characters in `s`.
pub open spec fn visible_count(s: Seq<char>) -> nat
    decreases s.len(),
{
    if s.len() == 0 {
        0
    } else {
        visible_count(s.drop_last()) + if visible_at(s, s.len() - 1) {
            1nat
        } else {
            0nat
        }
    }
}

/// Where a scan of `s` with budget `k`, resumed at `j`, stops: at the first
/// position whose prefix holds `k` visible characters, or at the end.
pub open spec fn scan_end_from(s: Seq<char>, k: nat, j: int) -> int
    decreases s.len() - j,
{
    if j < 0 || j >= s.len() {
        s.len() as int
    } else if visible_count(s.take(j)) >= k {
        j
    } else {
        scan_end_from(s, k, j + 1)
    }
}

/// Characters that end a sentence.
pub open spec fn is_sentence_end(c: char) -> bool {
    c == '.' || c == '!' || c == '?'
}

/// The last position before `j` that holds a visible sentence end, or -1.
pub open spec fn last_sentence_end(s: Seq<char>, j: int) -> int
    decreases j,
{
    if j <= 0 {
        -1
    } else if visible_at(s, j - 1) && is_sentence_end(s[j - 1]) {
        j - 1
    } else {
        last_sentence_end(s, j - 1)
    }
}

/// The last position before `j` that holds a visible space after which the
/// text before it and an ellipsis fit in `k` visible characters, or -1.
pub open spec fn last_fitting_space(s: Seq<char>, j: int, k: nat) -> int
    decreases j,
{
    if j <= 0 {
        -1
    } else if visible_at(s, j - 1) && s[j - 1] == ' ' && visible_count(s.take(j - 1)) + 3 <= k {
        j - 1
    } else {
        last_fitting_space(s, j - 1, k)
    }
}

/// The marker appended to a summary cut in the middle of a sentence.
pub open spec fn ellipsis() -> Seq<char> {
    seq!['.', '.', '.']
}

/// The summary of `line` with budget `k`, once the scan stopped at `n`:
/// the whole line, else up to its last complete sentence, else its whole
/// words followed by an ellipsis, as many as leave room for the ellipsis.
pub open spec fn cut_summary(line: Seq<char>, n: int, k: nat) -> Seq<char> {
    if n >= line.len() {
        line
    } else if last_sentence_end(line, n) >= 0 {
        line.take(last_sentence_end(line, n) + 1)
    } else if last_fitting_space(line, n, k) >= 0 {
        line.take(last_fitting_space(line, n, k)) + ellipsis()
    } else if k >= 3 {
        ellipsis()
    } else {
        Seq::empty()
    }
}

/// The summary of `body` with a budget of `k` visible characters.
pub open spec fn summary(body: Seq<char>, k: nat) -> Seq<char> {
    if k == 0 {
        Seq::empty()
    } else {
        let line = summary_source(body);
        cut_summary(line, scan_end_from(line, k, 0), k)
    }
}

proof fn lemma_take_step(s: Seq<char>, j: int)
    requires
        0 <= j < s.len(),
    ensures
        s.take(j + 1).drop_last() == s.take(j),
        s.take(j + 1).last() == s[j],
        s.take(j + 1).len() == j + 1,
{
    assert(s.take(j + 1).drop_last() =~= s.take(j));
}

proof fn lemma_take_take(s: Seq<char>, a: int, b: int)
    requires
        0 <= a <= b <= s.len(),
    ensures
        s.take(b).take(a) == s.take(a),
{
    assert(s.take(b).take(a) =~= s.take(a));
}

/// The summary of `body`: the start of its first line, at most
/// `max_visible` characters outside tags long, cut back to the last complete
/// sentence, or else to the whole words that leave room for an ellipsis
/// within the budget, followed by that ellipsis.
pub fn summarize(body: &str, max_visible: usize) -> (r: String)
    ensures
        r@ == summary(body@, max_visible as nat),
{
    if max_visible == 0 {
        return String::new();
    }
    let cs = chars_of(body);
    let ghost s = cs@;
    let len = cs.len();
    // the first line
    let mut e: usize = 0;
    while e < len && cs[e] != '\n'
        invariant
            e <= len == s.len(),
            s == cs@,
            line_end_from(s, 0) == line_end_from(s, e as int),
        decreases len - e,
    {
        e = e + 1;
    }
    // without its trailing white space
    let mut t: usize = e;
    while t > 0 && white_space(cs[t - 1])
        invariant
            t <= e <= len == s.len(),
            s == cs@,
            trimmed_end(s, e as int) == trimmed_end(s, t as int),
        decreases t,
    {
        t = t - 1;
    }
    let ghost line = s.take(t as int);
    assert(line == summary_source(s));
    // scan up to the budget, noting the last visible sentence end and space
    let mut j: usize = 0;
    let mut count: usize = 0;
    let mut inside = false;
    let mut last_end: usize = 0;
    let mut has_end = false;
    let mut last_sp: usize = 0;
    let mut has_sp = false;
    while j < t && count < max_visible
        invariant
            j <= t <= len == s.len(),
            s == cs@,
            line == s.take(t as int),
            count as nat == visible_count(line.take(j as int)),
            count <= max_visible,
            inside == in_tag(line.take(j as int)),
            scan_end_from(line, max_visible as nat, 0) == scan_end_from(
                line,
                max_visible as nat,
                j as int,
            ),
            has_end == (last_sentence_end(line, j as int) >= 0),
            has_end ==> last_end == last_sentence_end(line, j as int) && last_end < j,
            has_sp == (last_fitting_space(line, j as int, max_visible as nat) >= 0),
            has_sp ==> last_sp == last_fitting_space(line, j as int, max_visible as nat) && last_sp
                < j,
        decreases t - j,
    {
        proof {
            lemma_take_step(line, j as int);
        }
        let c = cs[j];
        assert(c == line[j as int]);
        let visible = c != '<' && c != '>' && !inside;
        let fits = max_visible - count >= 3;
        if c == '<' {
            inside = true;
        } else if c == '>' {
            inside = false;
        } else if !inside {
            count = count + 1;
        }
        if visible && (c == '.' || c == '!' || c == '?') {
            last_end = j;
            has_end = true;
        }
        if visible && c == ' ' && fits {
            last_sp = j;
            has_sp = true;
        }
        j = j + 1;
    }
    assert(scan_end_from(line, max_visible as nat, j as int) == j);
    if j == t {
        return string_of_range(&cs, 0, t);
    }
    let mut r;
    if has_end {
        r = string_of_range(&cs, 0, last_end + 1);
        proof {
            lemma_take_take(s, last_end + 1, t as int);
        }
    } else {
        if has_sp {
            r = string_of_range(&cs, 0, last_sp);
            proof {
                lemma_take_take(s, last_sp as int, t as int);
            }
        } else {
            r = String::new();
        }
        if has_sp || max_visible >= 3 {
            push_char(&mut r, '.');
            push_char(&mut r, '.');
            push_char(&mut r, '.');
        }
        assert(r@ =~= cut_summary(line, j as int, max_visible as nat));
    }
    r
}


/// Whether the summary of `body` with budget `k` was cut short of its source.
pub open spec fn summary_is_cut(body: Seq<char>, k: nat) -> bool {
    k > 0 && scan_end_from(summary_source(body), k, 0) < summary_source(body).len()
}

proof fn lemma_in_tag_plain(x: Seq<char>, c: char)
    requires
        c != '<',
        c != '>',
    ensures
        in_tag(x.push(c)) == in_tag(x),
{
    assert(x.push(c).drop_last() =~= x);
}

proof fn lemma_last_sentence_end(s: Seq<char>, j: int)
    requires
        0 <= j <= s.len(),
    ensures
        last_sentence_end(s, j) < j,
        last_sentence_end(s, j) >= 0 ==> visible_at(s, last_sentence_end(s, j))
            && is_sentence_end(s[last_sentence_end(s, j)]),
    decreases j,
{
    if j > 0 {
        lemma_last_sentence_end(s, j - 1);
    }
}

proof fn lemma_last_space(s: Seq<char>, j: int, k: nat)
    requires
        0 <= j <= s.len(),
    ensures
        last_fitting_space(s, j, k) < j,
        last_fitting_space(s, j, k) >= 0 ==> visible_at(s, last_fitting_space(s, j, k)) && s[last_fitting_space(s, j, k)] == ' '
            && visible_count(s.take(last_fitting_space(s, j, k))) + 3 <= k,
    decreases j,
{
    if j > 0 {
        lemma_last_space(s, j - 1, k);
    }
}

proof fn lemma_scan_end_bounds(s: Seq<char>, k: nat, j: int)
    requires
        0 <= j,
    ensures
        scan_end_from(s, k, j) <= s.len(),
        j <= s.len() ==> j <= scan_end_from(s, k, j),
    decreases s.len() - j,
{
    if j < s.len() && visible_count(s.take(j)) < k {
        lemma_scan_end_bounds(s, k, j + 1);
    }
}

proof fn lemma_line_end(s: Seq<char>, j: int)
    requires
        0 <= j,
    ensures
        line_end_from(s, j) <= s.len(),
        forall|i: int| j <= i < line_end_from(s, j) ==> s[i] != '\n',
    decreases s.len() - j,
{
    if j < s.len() && s[j] != '\n' {
        lemma_line_end(s, j + 1);
    }
}

proof fn lemma_trimmed_end(s: Seq<char>, k: int)
    ensures
        trimmed_end(s, k) <= k || k <= 0,
        0 <= trimmed_end(s, k),
    decreases k,
{
    if k > 0 {
        lemma_trimmed_end(s, k - 1);
    }
}

/// The source of a summary holds no line feed.
proof fn lemma_source_single_line(body: Seq<char>)
    ensures
        forall|i: int| 0 <= i < summary_source(body).len() ==> summary_source(body)[i] != '\n',
{
    lemma_line_end(body, 0);
    lemma_trimmed_end(body, line_end_from(body, 0));
}

/// A summary never ends inside a tag, unless it is its whole source, which
/// is returned untouched: a cut never falls between a `<` and its `>`.
pub proof fn lemma_summary_keeps_tags_whole(body: Seq<char>, k: nat)
    ensures
        in_tag(summary(body, k)) ==> summary(body, k) == summary_source(body),
{
    let line = summary_source(body);
    if k > 0 {
        let n = scan_end_from(line, k, 0);
        lemma_scan_end_bounds(line, k, 0);
        lemma_last_sentence_end(line, n);
        lemma_last_space(line, n, k);
        let p = last_sentence_end(line, n);
        let sp = last_fitting_space(line, n, k);
        if n < line.len() {
            if p >= 0 {
                lemma_take_step(line, p);
            } else {
                let x = if sp >= 0 {
                    line.take(sp)
                } else {
                    Seq::empty()
                };
                lemma_in_tag_plain(x, '.');
                lemma_in_tag_plain(x.push('.'), '.');
                lemma_in_tag_plain(x.push('.').push('.'), '.');
                assert(x + ellipsis() =~= x.push('.').push('.').push('.'));
            }
        }
    }
}

/// Whether the tags of `s` are whole: each `<` stands outside a tag, each
/// `>` inside one, and `s` ends outside any tag.
pub open spec fn tags_balanced(s: Seq<char>) -> bool {
    &&& forall|i: int| 0 <= i < s.len() && s[i] == '<' ==> !in_tag(#[trigger] s.take(i))
    &&& forall|i: int| 0 <= i < s.len() && s[i] == '>' ==> in_tag(#[trigger] s.take(i))
    &&& !in_tag(s)
}

proof fn lemma_balanced_prefix(s: Seq<char>, c: int)
    requires
        tags_balanced(s),
        0 <= c <= s.len(),
        !in_tag(s.take(c)),
    ensures
        tags_balanced(s.take(c)),
{
    assert forall|i: int| 0 <= i < c implies #[trigger] s.take(c).take(i) == s.take(i) by {
        assert(s.take(c).take(i) =~= s.take(i));
    }
}

proof fn lemma_balanced_ellipsis(x: Seq<char>)
    requires
        tags_balanced(x),
    ensures
        tags_balanced(x + ellipsis()),
{
    let y = x + ellipsis();
    assert forall|i: int| 0 <= i < x.len() implies #[trigger] y.take(i) == x.take(i) && y[i]
        == x[i] by {
        assert(y.take(i) =~= x.take(i));
    }
    lemma_in_tag_plain(x, '.');
    lemma_in_tag_plain(x.push('.'), '.');
    lemma_in_tag_plain(x.push('.').push('.'), '.');
    assert(y =~= x.push('.').push('.').push('.'));
}

/// A summary of a first line whose tags are whole has whole tags too: no
/// cut, and no ellipsis, ever splits a tag.
pub proof fn lemma_summary_tags_balanced(body: Seq<char>, k: nat)
    requires
        tags_balanced(summary_source(body)),
    ensures
        tags_balanced(summary(body, k)),
{
    let line = summary_source(body);
    if k > 0 {
        let n = scan_end_from(line, k, 0);
        lemma_scan_end_bounds(line, k, 0);
        lemma_last_sentence_end(line, n);
        lemma_last_space(line, n, k);
        let p = last_sentence_end(line, n);
        let sp = last_fitting_space(line, n, k);
        if n < line.len() {
            if p >= 0 {
                lemma_take_step(line, p);
                lemma_balanced_prefix(line, p + 1);
            } else if sp >= 0 {
                lemma_balanced_prefix(line, sp);
                lemma_balanced_ellipsis(line.take(sp));
            } else {
                lemma_balanced_ellipsis(Seq::empty());
                assert(Seq::<char>::empty() + ellipsis() =~= ellipsis());
            }
        }
    }
}

proof fn lemma_visible_count_mono(s: Seq<char>, a: int, b: int)
    requires
        0 <= a <= b <= s.len(),
    ensures
        visible_count(s.take(a)) <= visible_count(s.take(b)),
    decreases b - a,
{
    if a < b {
        lemma_take_step(s, b - 1);
        lemma_visible_count_mono(s, a, b - 1);
    }
}

proof fn lemma_scan_covers(s: Seq<char>, k: nat, j: int)
    requires
        0 <= j <= s.len(),
        forall|i: int| j <= i < s.len() ==> visible_count(#[trigger] s.take(i)) < k,
    ensures
        scan_end_from(s, k, j) == s.len(),
    decreases s.len() - j,
{
    if j < s.len() {
        lemma_scan_covers(s, k, j + 1);
    }
}

proof fn lemma_cut_summary_fixed(body: Seq<char>, k: nat, k2: nat)
    requires
        summary_is_cut(body, k),
        summary(body, k).len() > 0,
        k2 >= visible_count(summary(body, k)),
    ensures
        summary(summary(body, k), k2) == summary(body, k),
{
    let line = summary_source(body);
    let n = scan_end_from(line, k, 0);
    let s1 = summary(body, k);
    lemma_scan_end_bounds(line, k, 0);
    lemma_last_sentence_end(line, n);
    lemma_last_space(line, n, k);
    lemma_source_single_line(body);
    let p = last_sentence_end(line, n);
    let sp = last_fitting_space(line, n, k);
    // the last character of s1 is a visible sentence end or a dot
    if p >= 0 {
        lemma_take_step(line, p);
        assert(s1.take(p) =~= line.take(p));
        assert(visible_at(s1, p));
        assert(forall|i: int| 0 <= i < s1.len() ==> s1[i] == line[i]);
    } else {
        let x = if sp >= 0 {
            line.take(sp)
        } else {
            Seq::empty()
        };
        if sp >= 0 {
            lemma_take_step(line, sp);
        }
        assert(!in_tag(x));
        lemma_in_tag_plain(x, '.');
        lemma_in_tag_plain(x.push('.'), '.');
        assert(s1 =~= x.push('.').push('.').push('.'));
        assert(s1.take(s1.len() - 1) =~= x.push('.').push('.'));
        assert(visible_at(s1, s1.len() - 1));
        assert(forall|i: int| 0 <= i < s1.len() ==> s1[i] == '.' || s1[i] == line[i]);
    }
    let m = s1.len() as int;
    assert(m > 0);
    // s1 is a single line with no trailing white space: its own source
    assert(forall|i: int| 0 <= i < m ==> s1[i] != '\n');
    lemma_line_end_full(s1, 0);
    assert(summary_source(s1) =~= s1);
    // its visible characters all fit in k2
    lemma_take_step(s1, m - 1);
    assert(s1.take(m) =~= s1);
    assert forall|i: int| 0 <= i < m implies visible_count(#[trigger] s1.take(i)) < k2 by {
        lemma_visible_count_mono(s1, i, m - 1);
    }
    lemma_scan_covers(s1, k2, 0);
}

proof fn lemma_scan_end_props(s: Seq<char>, k: nat, j: int)
    requires
        0 <= j <= s.len(),
    ensures
        forall|i: int| j <= i < scan_end_from(s, k, j) ==> visible_count(#[trigger] s.take(i)) < k,
    decreases s.len() - j,
{
    if j < s.len() && visible_count(s.take(j)) < k {
        lemma_scan_end_props(s, k, j + 1);
    }
}

proof fn lemma_visible_step(s: Seq<char>, i: int)
    requires
        0 <= i < s.len(),
    ensures
        visible_count(s.take(i + 1)) <= visible_count(s.take(i)) + 1,
{
    lemma_take_step(s, i);
}

proof fn lemma_visible_dot(x: Seq<char>)
    requires
        !in_tag(x),
    ensures
        visible_count(x.push('.')) == visible_count(x) + 1,
        !in_tag(x.push('.')),
{
    lemma_in_tag_plain(x, '.');
    assert(x.push('.').drop_last() =~= x);
    assert(x.push('.').take(x.len() as int) =~= x);
}

proof fn lemma_visible_ellipsis(x: Seq<char>)
    requires
        !in_tag(x),
    ensures
        visible_count(x + ellipsis()) == visible_count(x) + 3,
{
    lemma_visible_dot(x);
    lemma_visible_dot(x.push('.'));
    lemma_visible_dot(x.push('.').push('.'));
    assert(x + ellipsis() =~= x.push('.').push('.').push('.'));
}

/// A summary never holds more visible characters than its budget, the
/// ellipsis included.
pub proof fn lemma_summary_fits(body: Seq<char>, k: nat)
    ensures
        visible_count(summary(body, k)) <= k,
{
    let line = summary_source(body);
    if k > 0 {
        let n = scan_end_from(line, k, 0);
        lemma_scan_end_bounds(line, k, 0);
        lemma_scan_end_props(line, k, 0);
        lemma_last_sentence_end(line, n);
        lemma_last_space(line, n, k);
        let p = last_sentence_end(line, n);
        let sp = last_fitting_space(line, n, k);
        // the scanned prefix holds at most k visible characters
        if n > 0 {
            lemma_visible_step(line, n - 1);
            assert(visible_count(line.take(n - 1)) < k);
        }
        if n >= line.len() {
            assert(line.take(n) =~= line);
        } else if p >= 0 {
            lemma_visible_count_mono(line, p + 1, n);
        } else if sp >= 0 {
            lemma_take_step(line, sp);
            lemma_visible_ellipsis(line.take(sp));
        } else if k >= 3 {
            lemma_visible_ellipsis(Seq::empty());
            assert(Seq::<char>::empty() + ellipsis() =~= ellipsis());
        }
    }
}

proof fn lemma_trimmed_last(s: Seq<char>, k: int)
    requires
        k <= s.len(),
    ensures
        trimmed_end(s, k) > 0 ==> !is_white_space(s[trimmed_end(s, k) - 1]),
    decreases k,
{
    if k > 0 && is_white_space(s[k - 1]) {
        lemma_trimmed_last(s, k - 1);
    }
}

/// The source of a summary's source is itself.
proof fn lemma_source_own_source(body: Seq<char>)
    ensures
        summary_source(summary_source(body)) == summary_source(body),
{
    let line = summary_source(body);
    let e = line_end_from(body, 0);
    lemma_line_end(body, 0);
    lemma_trimmed_end(body, e);
    lemma_trimmed_last(body, e);
    lemma_source_single_line(body);
    lemma_line_end_full(line, 0);
    if line.len() > 0 {
        assert(line[line.len() - 1] == body[line.len() - 1]);
    }
    assert(line.take(line.len() as int) =~= line);
}

/// Summarizing a summary again, with the same budget or a larger one,
/// changes nothing: in particular no second ellipsis is ever added.
pub proof fn lemma_summary_idempotent(body: Seq<char>, k: nat, k2: nat)
    requires
        k <= k2,
    ensures
        summary(summary(body, k), k2) == summary(body, k),
{
    let line = summary_source(body);
    let s1 = summary(body, k);
    let empty = Seq::<char>::empty();
    assert(line_end_from(empty, 0) == 0);
    assert(empty.take(0) =~= empty);
    assert(summary_source(empty) == empty);
    if s1.len() == 0 {
        assert(s1 =~= empty);
    } else if summary_is_cut(body, k) {
        lemma_summary_fits(body, k);
        lemma_cut_summary_fixed(body, k, k2);
    } else {
        // the whole source, every proper prefix of which is under budget
        lemma_scan_end_bounds(line, k, 0);
        lemma_scan_end_props(line, k, 0);
        lemma_source_own_source(body);
        assert forall|i: int| 0 <= i < line.len() implies visible_count(#[trigger] line.take(i))
            < k2 by {}
        lemma_scan_covers(line, k2, 0);
    }
}

proof fn lemma_line_end_full(s: Seq<char>, j: int)
    requires
        0 <= j <= s.len(),
        forall|i: int| j <= i < s.len() ==> s[i] != '\n',
    ensures
        line_end_from(s, j) == s.len(),
    decreases s.len() - j,
{
    if j < s.len() {
        lemma_line_end_full(s, j + 1);
    }
}

} // verus!
