//! Articles: what is stored of each post, with the fields derived from its
//! title, body and time of publication.
use chrono::Datelike;
use vstd::prelude::*;

use crate::summary::{summarize, summary, SUMMARY_BUDGET};
use crate::text::{ascii_alnum, chars_of, is_ascii_alnum, push_char};

verus! {

/// The earliest Unix time an article may carry: far enough inside the
/// calendar's range that its date always exists.
pub const MIN_TIMESTAMP: i64 = -8_000_000_000_000;

/// The latest Unix time an article may carry.
pub const MAX_TIMESTAMP: i64 = 8_000_000_000_000;

/// Whether an article may carry the Unix time `ts`.
pub open spec fn timestamp_in_range(ts: int) -> bool {
    MIN_TIMESTAMP <= ts <= MAX_TIMESTAMP
}

/// A published article.
#[derive(Debug, Clone)]
pub struct Article {
    pub title: String,
    /// The article as HTML.
    pub body: String,
    /// A short HTML preview of `body`.
    pub truncated_body: String,
    /// Seconds since the Unix epoch.
    pub timestamp: i64,
    /// The UTC date of `timestamp`, as "Month D, YYYY".
    pub formatted_time: String,
    /// The slug of `title`, which names the article's file.
    pub filename: String,
}

/// An article as plain values: title, body, preview, time, date and slug.
pub struct ArticleView {
    pub title: Seq<char>,
    pub body: Seq<char>,
    pub truncated_body: Seq<char>,
    pub timestamp: int,
    pub formatted_time: Seq<char>,
    pub filename: Seq<char>,
}

impl Article {
    pub open spec fn view(&self) -> ArticleView {
        ArticleView {
            title: self.title@,
            body: self.body@,
            truncated_body: self.truncated_body@,
            timestamp: self.timestamp as int,
            formatted_time: self.formatted_time@,
            filename: self.filename@,
        }
    }
}

/// The article that `title`, `body` and `ts` make.
pub open spec fn article_of(title: Seq<char>, body: Seq<char>, ts: int) -> ArticleView {
    ArticleView {
        title,
        body,
        truncated_body: summary(body, SUMMARY_BUDGET as nat),
        timestamp: ts,
        formatted_time: date_text(utc_date(ts)),
        filename: slug(title),
    }
}

/// The lower-case form of an ASCII letter; other characters stay.
pub open spec fn ascii_lower(c: char) -> char {
    if 'A' <= c <= 'Z' {
        ((c as u8) + 32) as char
    } else {
        c
    }
}

/// The slug of a title: its ASCII letters and digits in lower case, with
/// each run of other characters replaced by one hyphen.
pub open spec fn slug(s: Seq<char>) -> Seq<char>
    decreases s.len(),
{
    if s.len() == 0 {
        Seq::empty()
    } else {
        let c = s.last();
        if is_ascii_alnum(c) {
            slug(s.drop_last()).push(ascii_lower(c))
        } else if s.len() >= 2 && !is_ascii_alnum(s[s.len() - 2]) {
            slug(s.drop_last())
        } else {
            slug(s.drop_last()).push('-')
        }
    }
}

/// The full English name of month `m` (1 to 12).
pub open spec fn month_name(m: int) -> Seq<char> {
    if m == 1 {
        seq!['J', 'a', 'n', 'u', 'a', 'r', 'y']
    } else if m == 2 {
        seq!['F', 'e', 'b', 'r', 'u', 'a', 'r', 'y']
    } else if m == 3 {
        seq!['M', 'a', 'r', 'c', 'h']
    } else if m == 4 {
        seq!['A', 'p', 'r', 'i', 'l']
    } else if m == 5 {
        seq!['M', 'a', 'y']
    } else if m == 6 {
        seq!['J', 'u', 'n', 'e']
    } else if m == 7 {
        seq!['J', 'u', 'l', 'y']
    } else if m == 8 {
        seq!['A', 'u', 'g', 'u', 's', 't']
    } else if m == 9 {
        seq!['S', 'e', 'p', 't', 'e', 'm', 'b', 'e', 'r']
    } else if m == 10 {
        seq!['O', 'c', 't', 'o', 'b', 'e', 'r']
    } else if m == 11 {
        seq!['N', 'o', 'v', 'e', 'm', 'b', 'e', 'r']
    } else {
        seq!['D', 'e', 'c', 'e', 'm', 'b', 'e', 'r']
    }
}

/// The decimal digit `d` (0 to 9).
pub open spec fn digit(d: nat) -> char {
    ((d + 48) as u8) as char
}

/// The decimal digits of `n`, without leading zeros.
pub open spec fn decimal(n: nat) -> Seq<char>
    decreases n,
{
    if n < 10 {
        seq![digit(n)]
    } else {
        decimal(n / 10).push(digit(n % 10))
    }
}

/// `s` with `c` put in front until it is `w` characters long.
pub open spec fn pad(s: Seq<char>, c: char, w: nat) -> Seq<char>
    decreases w,
{
    if s.len() >= w {
        s
    } else {
        seq![c] + pad(s, c, (w - 1) as nat)
    }
}

/// A year as four digits at least, with a sign before years outside
/// 0 to 9999.
pub open spec fn year_text(y: int) -> Seq<char> {
    if y < 0 {
        seq!['-'] + pad(decimal((-y) as nat), '0', 4)
    } else if y > 9999 {
        seq!['+'] + decimal(y as nat)
    } else {
        pad(decimal(y as nat), '0', 4)
    }
}

/// A date as "Month D, YYYY", the day padded with a space to two places.
pub open spec fn date_text(d: (int, int, int)) -> Seq<char> {
    month_name(d.1) + seq![' '] + pad(decimal(d.2 as nat), ' ', 2) + seq![',', ' '] + year_text(
        d.0,
    )
}

/// The UTC calendar date (year, month, day) of a Unix time.
pub uninterp spec fn utc_date(ts: int) -> (int, int, int);

/// Relies on chrono's `DateTime::from_timestamp` and its `year`, `month`
/// and `day`: the UTC calendar date of `ts`, which exists for every time in
/// the articles' range (chrono reaches beyond year 262000 either way).
#[verifier::external_body]
fn utc_calendar_date(ts: i64) -> (r: Option<(i32, u32, u32)>)
    ensures
        r matches Some(d) ==> (d.0 as int, d.1 as int, d.2 as int) == utc_date(ts as int) && 1
            <= d.1 <= 12 && 1 <= d.2 <= 31,
        timestamp_in_range(ts as int) ==> r is Some,
{
    chrono::DateTime::from_timestamp(ts, 0).map(|t| (t.year(), t.month(), t.day()))
}

fn push_decimal(out: &mut String, n: u32)
    ensures
        final(out)@ == old(out)@ + decimal(n as nat),
    decreases n,
{
    if n >= 10 {
        push_decimal(out, n / 10);
    }
    push_char(out, ((n % 10 + 48) as u8) as char);
}

fn push_padded(out: &mut String, n: u32, c: char, w: usize)
    requires
        w <= 4,
    ensures
        final(out)@ == old(out)@ + pad(decimal(n as nat), c, w as nat),
{
    let mut digits = String::new();
    push_decimal(&mut digits, n);
    let ghost ds = digits@;
    assert(Seq::<char>::empty() + decimal(n as nat) =~= decimal(n as nat));
    let len = chars_of(digits.as_str()).len();
    let mut k: usize = w;
    let ghost start = out@;
    // pad(ds, c, w) is (w - k) copies of c followed by pad(ds, c, k)
    while k > len
        invariant
            ds == decimal(n as nat),
            len == ds.len(),
            k <= w <= 4,
            out@ + pad(ds, c, k as nat) == start + pad(ds, c, w as nat),
        decreases k,
    {
        let ghost prev = out@;
        push_char(out, c);
        assert(out@ + pad(ds, c, (k - 1) as nat) =~= prev + pad(ds, c, k as nat)) by {
            assert(pad(ds, c, k as nat) == seq![c] + pad(ds, c, (k - 1) as nat));
        }
        k = k - 1;
    }
    assert(pad(ds, c, k as nat) == ds);
    out.append(digits.as_str());
}

/// The text of a date, "Month D, YYYY": for instance "May 15, 2015".
pub fn format_date(year: i32, month: u32, day: u32) -> (r: String)
    requires
        1 <= month <= 12,
    ensures
        r@ == date_text((year as int, month as int, day as int)),
{
    let mut r = String::new();
    let name = if month == 1 {
        "January"
    } else if month == 2 {
        "February"
    } else if month == 3 {
        "March"
    } else if month == 4 {
        "April"
    } else if month == 5 {
        "May"
    } else if month == 6 {
        "June"
    } else if month == 7 {
        "July"
    } else if month == 8 {
        "August"
    } else if month == 9 {
        "September"
    } else if month == 10 {
        "October"
    } else if month == 11 {
        "November"
    } else {
        "December"
    };
    proof {
        reveal_strlit("January");
        reveal_strlit("February");
        reveal_strlit("March");
        reveal_strlit("April");
        reveal_strlit("May");
        reveal_strlit("June");
        reveal_strlit("July");
        reveal_strlit("August");
        reveal_strlit("September");
        reveal_strlit("October");
        reveal_strlit("November");
        reveal_strlit("December");
    }
    assert(name@ =~= month_name(month as int));
    r.append(name);
    push_char(&mut r, ' ');
    push_padded(&mut r, day, ' ', 2);
    push_char(&mut r, ',');
    push_char(&mut r, ' ');
    if year < 0 {
        push_char(&mut r, '-');
        let a: u32 = (-(year as i64)) as u32;
        push_padded(&mut r, a, '0', 4);
    } else if year > 9999 {
        push_char(&mut r, '+');
        push_decimal(&mut r, year as u32);
    } else {
        push_padded(&mut r, year as u32, '0', 4);
    }
    assert(r@ =~= date_text((year as int, month as int, day as int)));
    r
}

impl Article {
    /// Makes an article from its title, its HTML body and its Unix time; the
    /// preview, the date and the file name follow from them.
    pub fn new(title: String, body: String, timestamp: i64) -> (r: Article)
        requires
            timestamp_in_range(timestamp as int),
        ensures
            r@ == article_of(title@, body@, timestamp as int),
    {
        let truncated_body = Self::truncate_body(body.clone());
        let formatted_time = Self::parse_timestamp(timestamp);
        let filename = Self::filename(title.clone());
        Article { title, body, truncated_body, timestamp, formatted_time, filename }
    }

    /// The slug of a title, which names an article's file.
    pub fn filename(s: String) -> (r: String)
        ensures
            r@ == slug(s@),
    {
        let cs = chars_of(s.as_str());
        let mut r = String::new();
        let mut i: usize = 0;
        while i < cs.len()
            invariant
                cs@ == s@,
                i <= cs@.len(),
                r@ == slug(cs@.take(i as int)),
            decreases cs.len() - i,
        {
            let c = cs[i];
            let ghost p = cs@.take(i as int);
            assert(cs@.take(i + 1).drop_last() =~= p);
            if ascii_alnum(c) {
                let l = if 'A' <= c && c <= 'Z' {
                    ((c as u8) + 32) as char
                } else {
                    c
                };
                push_char(&mut r, l);
            } else if i == 0 || ascii_alnum(cs[i - 1]) {
                push_char(&mut r, '-');
            }
            i = i + 1;
        }
        assert(cs@.take(cs@.len() as int) =~= cs@);
        r
    }

    /// The preview of an article's HTML body.
    pub fn truncate_body(body: String) -> (r: String)
        ensures
            r@ == summary(body@, SUMMARY_BUDGET as nat),
    {
        summarize(body.as_str(), SUMMARY_BUDGET)
    }

    /// The text of the UTC date of `timestamp`.
    pub fn parse_timestamp(timestamp: i64) -> (r: String)
        requires
            timestamp_in_range(timestamp as int),
        ensures
            r@ == date_text(utc_date(timestamp as int)),
    {
        match utc_calendar_date(timestamp) {
            Some((y, m, d)) => format_date(y, m, d),
            None => String::new(),
        }
    }
}

} // verus!
