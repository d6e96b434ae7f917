//! Listings: articles from the newest to the oldest, ties broken by file
//! name, whole or cut to the most recent few.
use vstd::multiset::Multiset;
use vstd::prelude::*;

use crate::article::{Article, ArticleView};
use crate::text::chars_of;

verus! {

broadcast use vstd::seq_lib::group_to_multiset_ensures;

/// Whether name `a` sorts no later than name `b`, character by character.
pub open spec fn name_le(a: Seq<char>, b: Seq<char>) -> bool
    decreases a.len(),
{
    if a.len() == 0 {
        true
    } else if b.len() == 0 {
        false
    } else if a[0] != b[0] {
        a[0] < b[0]
    } else {
        name_le(a.drop_first(), b.drop_first())
    }
}

/// Whether article `a` may stand before article `b` in a listing: it is
/// newer, or as new with a file name that sorts no later.
pub open spec fn precedes(a: ArticleView, b: ArticleView) -> bool {
    a.timestamp > b.timestamp || (a.timestamp == b.timestamp && name_le(a.filename, b.filename))
}

/// Articles in listing order.
pub open spec fn in_listing_order(s: Seq<Article>) -> bool {
    forall|i: int, j: int| 0 <= i < j < s.len() ==> precedes(#[trigger] s[i]@, #[trigger] s[j]@)
}

proof fn lemma_name_total(a: Seq<char>, b: Seq<char>)
    ensures
        name_le(a, b) || name_le(b, a),
    decreases a.len(),
{
    if a.len() > 0 && b.len() > 0 && a[0] == b[0] {
        lemma_name_total(a.drop_first(), b.drop_first());
    }
}

proof fn lemma_name_trans(a: Seq<char>, b: Seq<char>, c: Seq<char>)
    requires
        name_le(a, b),
        name_le(b, c),
    ensures
        name_le(a, c),
    decreases a.len(),
{
    if a.len() > 0 && b.len() > 0 && c.len() > 0 && a[0] == b[0] && b[0] == c[0] {
        lemma_name_trans(a.drop_first(), b.drop_first(), c.drop_first());
    }
}

proof fn lemma_precedes_total(a: ArticleView, b: ArticleView)
    ensures
        precedes(a, b) || precedes(b, a),
{
    lemma_name_total(a.filename, b.filename);
}

proof fn lemma_precedes_trans(a: ArticleView, b: ArticleView, c: ArticleView)
    requires
        precedes(a, b),
        precedes(b, c),
    ensures
        precedes(a, c),
{
    if a.timestamp == b.timestamp && b.timestamp == c.timestamp {
        lemma_name_trans(a.filename, b.filename, c.filename);
    }
}

/// Whether file name `a` sorts no later than `b`.
fn name_before(a: &String, b: &String) -> (r: bool)
    ensures
        r == name_le(a@, b@),
{
    let x = chars_of(a.as_str());
    let y = chars_of(b.as_str());
    let mut i: usize = 0;
    assert(x@.skip(0) =~= x@);
    assert(y@.skip(0) =~= y@);
    while i < x.len() && i < y.len() && x[i] == y[i]
        invariant
            x@ == a@,
            y@ == b@,
            i <= x@.len(),
            i <= y@.len(),
            name_le(x@, y@) == name_le(x@.skip(i as int), y@.skip(i as int)),
        decreases x.len() - i,
    {
        assert(x@.skip(i as int).drop_first() =~= x@.skip(i + 1));
        assert(y@.skip(i as int).drop_first() =~= y@.skip(i + 1));
        i = i + 1;
    }
    if i == x.len() {
        true
    } else if i == y.len() {
        false
    } else {
        x[i] < y[i]
    }
}

/// Whether article `a` may stand before article `b` in a listing.
fn comes_before(a: &Article, b: &Article) -> (r: bool)
    ensures
        r == precedes(a@, b@),
{
    a.timestamp > b.timestamp || (a.timestamp == b.timestamp && name_before(
        &a.filename,
        &b.filename,
    ))
}

/// All of `articles`, from the newest to the oldest; articles as new as
/// each other go by file name.
pub fn list_all(articles: Vec<Article>) -> (r: Vec<Article>)
    ensures
        r@.to_multiset() == articles@.to_multiset(),
        in_listing_order(r@),
{
    let ghost all = articles@;
    let mut rest = articles;
    let mut out: Vec<Article> = Vec::new();
    while rest.len() > 0
        invariant
            out@.to_multiset().add(rest@.to_multiset()) == all.to_multiset(),
            in_listing_order(out@),
        decreases rest.len(),
    {
        let ghost before = rest@;
        let a = rest.pop().unwrap();
        assert(before == rest@.push(a));
        // the first place whose article a may stand before
        let mut p: usize = 0;
        while p < out.len() && !comes_before(&a, &out[p])
            invariant
                p <= out@.len(),
                forall|i: int| 0 <= i < p ==> !precedes(a@, #[trigger] out@[i]@),
            decreases out.len() - p,
        {
            p = p + 1;
        }
        let ghost old_out = out@;
        proof {
            assert forall|i: int| 0 <= i < p implies precedes(#[trigger] old_out[i]@, a@) by {
                lemma_precedes_total(a@, old_out[i]@);
            }
            assert forall|j: int| p <= j < old_out.len() implies precedes(a@, #[trigger] old_out[j]@) by {
                if j > p {
                    lemma_precedes_trans(a@, old_out[p as int]@, old_out[j]@);
                }
            }
        }
        out.insert(p, a);
        proof {
            old_out.insert_ensures(p as int, a);
            assert forall|i: int, j: int| 0 <= i < j < out@.len() implies precedes(
                #[trigger] out@[i]@,
                #[trigger] out@[j]@,
            ) by {
                if j < p {
                } else if i < p && j == p {
                } else if i < p {
                    assert(out@[j] == old_out[j - 1]);
                } else if i == p {
                    assert(out@[j] == old_out[j - 1]);
                } else {
                    assert(out@[i] == old_out[i - 1]);
                    assert(out@[j] == old_out[j - 1]);
                }
            }
            vstd::seq_lib::to_multiset_insert(old_out, p as int, a);
            assert(out@.to_multiset().add(rest@.to_multiset()) =~= all.to_multiset());
        }
    }
    assert(rest@.to_multiset() =~= Multiset::empty());
    assert(out@.to_multiset().add(Multiset::empty()) =~= out@.to_multiset());
    out
}

/// The `n` most recent of `articles`, in listing order.
pub fn recent(articles: Vec<Article>, n: usize) -> (r: Vec<Article>)
    ensures
        r@.len() == if n < articles@.len() {
            n as int
        } else {
            articles@.len() as int
        },
        in_listing_order(r@),
        exists|s: Seq<Article>|
            s.to_multiset() == articles@.to_multiset() && in_listing_order(s) && r@ == s.take(
                r@.len() as int,
            ),
{
    let ghost given = articles@;
    let mut all = list_all(articles);
    let ghost s = all@;
    assert(s.len() == given.len()) by {
        assert(s.to_multiset().len() == given.to_multiset().len());
    }
    all.truncate(n);
    assert(all@ == s.take(all@.len() as int));
    all
}

/// In a listing of articles whose times all differ, the times strictly
/// decrease from each article to the next.
pub proof fn lemma_listing_strictly_newest_first(s: Seq<Article>)
    requires
        in_listing_order(s),
        forall|i: int, j: int|
            0 <= i < j < s.len() ==> (#[trigger] s[i]).timestamp != (#[trigger] s[j]).timestamp,
    ensures
        forall|i: int, j: int|
            0 <= i < j < s.len() ==> (#[trigger] s[i]).timestamp > (#[trigger] s[j]).timestamp,
{
    assert forall|i: int, j: int| 0 <= i < j < s.len() implies (#[trigger] s[i]).timestamp > (
    #[trigger] s[j]).timestamp by {
        assert(precedes(s[i]@, s[j]@));
    }
}

/// In a listing whose file names all differ, as those of a store's files
/// do, each article is newer than every later one, or as new with a file
/// name that sorts strictly earlier.
pub proof fn lemma_listing_strict_order(s: Seq<Article>)
    requires
        in_listing_order(s),
        forall|i: int, j: int|
            0 <= i < j < s.len() ==> (#[trigger] s[i]).filename@ != (#[trigger] s[j]).filename@,
    ensures
        forall|i: int, j: int|
            0 <= i < j < s.len() ==> (#[trigger] s[i]).timestamp > (#[trigger] s[j]).timestamp || (
            s[i].timestamp == s[j].timestamp && name_le(s[i].filename@, s[j].filename@)
                && s[i].filename@ != s[j].filename@),
{
    assert forall|i: int, j: int| 0 <= i < j < s.len() implies (#[trigger] s[i]).timestamp > (
    #[trigger] s[j]).timestamp || (s[i].timestamp == s[j].timestamp && name_le(
        s[i].filename@,
        s[j].filename@,
    ) && s[i].filename@ != s[j].filename@) by {
        assert(precedes(s[i]@, s[j]@));
    }
}

} // verus!
