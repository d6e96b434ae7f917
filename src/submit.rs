//! Submissions: a title and a markdown body, accepted as a new article only
//! with the right password.
use scrypt::password_hash::{PasswordHash, PasswordVerifier};
use vstd::prelude::*;

use crate::article::{
    article_of, timestamp_in_range, Article, ArticleView, MAX_TIMESTAMP, MIN_TIMESTAMP,
};
use crate::render::{commonmark_html, markdown_to_html};

verus! {

/// The title and markdown body of a submitted article.
#[derive(Debug, Clone)]
pub struct TitleBody {
    pub title: String,
    pub body: String,
}

/// A submission: the article and the password that vouches for it.
#[derive(Debug)]
pub struct ArticleForm {
    pub title_body: TitleBody,
    pub password: String,
}

/// Why a submission could not be judged.
#[derive(Debug, Clone, Copy, PartialEq, Eq, Structural)]
pub enum AuthError {
    /// No password hash is configured.
    Unconfigured,
    /// The configured password hash is not a PHC string.
    MalformedHash,
    /// The clock reads a time outside the articles' range.
    ClockOutOfRange,
}

/// The article that a submission of `title` and markdown `body` makes at
/// Unix time `ts`.
pub open spec fn submitted_article(title: Seq<char>, body: Seq<char>, ts: int) -> ArticleView {
    article_of(title, commonmark_html(body), ts)
}

/// Relies on std's `SystemTime::now` and `duration_since(UNIX_EPOCH)`: the
/// whole seconds since the Unix epoch, where the clock reads after it and
/// they fit an `i64`; `None` where the clock reads before the epoch, which
/// `duration_since` returns as an error rather than a panic. Nothing is
/// promised of the reading itself.
#[verifier::external_body]
fn unix_time_now() -> (r: Option<i64>) {
    match std::time::SystemTime::now().duration_since(std::time::UNIX_EPOCH) {
        Ok(d) => i64::try_from(d.as_secs()).ok(),
        Err(_) => None,
    }
}

/// Whether a clock reading is a time an article may carry.
pub open spec fn usable_reading(now: Option<i64>) -> bool {
    now matches Some(t) && timestamp_in_range(t as int)
}

impl TitleBody {
    /// The article this submission makes at Unix time `timestamp`: its body
    /// rendered from markdown to HTML.
    pub fn create_article_at(self, timestamp: i64) -> (r: Article)
        requires
            timestamp_in_range(timestamp as int),
        ensures
            r@ == submitted_article(self.title@, self.body@, timestamp as int),
    {
        let html = markdown_to_html(self.body.as_str());
        Article::new(self.title, html, timestamp)
    }

    /// The article this submission makes at the clock reading `now`
    /// (`None`: the clock could not be read); `None` where the reading is not
    /// a time an article may carry.
    pub fn create_article_from(self, now: Option<i64>) -> (r: Option<Article>)
        ensures
            r is Some <==> usable_reading(now),
            r matches Some(a) ==> a@ == submitted_article(self.title@, self.body@, now->0 as int),
    {
        match now {
            Some(t) => if MIN_TIMESTAMP <= t && t <= MAX_TIMESTAMP {
                Some(self.create_article_at(t))
            } else {
                None
            },
            None => None,
        }
    }

    /// The article this submission makes now; `None` where the clock reads
    /// a time outside the articles' range or cannot be read.
    pub fn create_article(self) -> (r: Option<Article>)
        ensures
            r matches Some(a) ==> timestamp_in_range(a.timestamp as int) && a@ == submitted_article(
                self.title@,
                self.body@,
                a.timestamp as int,
            ),
    {
        self.create_article_from(unix_time_now())
    }
}

/// Whether `password` matches the PHC string `phc` under scrypt; `None`
/// where `phc` is not a PHC string.
pub uninterp spec fn scrypt_verdict(password: Seq<char>, phc: Seq<char>) -> Option<bool>;

/// Relies on password-hash's `PasswordHash::new`, which reads a PHC
/// string, and on scrypt's `verify_password`: whether `password` hashes to
/// `phc` with the salt and parameters that `phc` holds.
#[verifier::external_body]
fn scrypt_check(password: &str, phc: &str) -> (r: Option<bool>)
    ensures
        r == scrypt_verdict(password@, phc@),
{
    match PasswordHash::new(phc) {
        Ok(hash) => Some(scrypt::Scrypt.verify_password(password.as_bytes(), &hash).is_ok()),
        Err(_) => None,
    }
}

/// Whether `password` is the one whose scrypt hash is configured as
/// `password_hash`. Fails closed where no hash, or no readable one, is
/// configured.
pub fn check_password(password: &str, password_hash: Option<&str>) -> (r: Result<bool, AuthError>)
    ensures
        password_hash is None ==> r == Err::<bool, AuthError>(AuthError::Unconfigured),
        password_hash matches Some(h) ==> r == match scrypt_verdict(password@, h@) {
            Some(ok) => Ok::<bool, AuthError>(ok),
            None => Err(AuthError::MalformedHash),
        },
{
    match password_hash {
        None => Err(AuthError::Unconfigured),
        Some(h) => match scrypt_check(password, h) {
            Some(ok) => Ok(ok),
            None => Err(AuthError::MalformedHash),
        },
    }
}

/// What becomes of a submission: a new article, or the form handed back
/// as it was sent.
#[derive(Debug)]
pub enum Submission {
    Accepted(Article),
    Rejected(TitleBody),
}

/// Whether `s` accepted an article that is `v`.
pub open spec fn accepts(s: Submission, v: ArticleView) -> bool {
    match s {
        Submission::Accepted(a) => a@ == v,
        Submission::Rejected(_) => false,
    }
}

/// Whether `s` handed back the title `title` and the body `body`.
pub open spec fn rejects(s: Submission, title: Seq<char>, body: Seq<char>) -> bool {
    match s {
        Submission::Accepted(_) => false,
        Submission::Rejected(tb) => tb.title@ == title && tb.body@ == body,
    }
}

/// What becomes of `form` once its password was judged: with the right
/// password, the article it makes at Unix time `timestamp`; else the title
/// and body handed back unchanged.
pub fn judge_submission(form: ArticleForm, authorized: bool, timestamp: i64) -> (r: Submission)
    requires
        timestamp_in_range(timestamp as int),
    ensures
        authorized ==> accepts(
            r,
            submitted_article(form.title_body.title@, form.title_body.body@, timestamp as int),
        ),
        !authorized ==> rejects(r, form.title_body.title@, form.title_body.body@),
{
    if authorized {
        Submission::Accepted(form.title_body.create_article_at(timestamp))
    } else {
        Submission::Rejected(form.title_body)
    }
}

/// Judges a submission against the configured password hash, at the clock
/// reading `now` (`None`: the clock could not be read). A wrong password
/// hands the form back; the right one makes an article at `now`, where
/// `now` is a time an article may carry.
pub fn submit_at(form: ArticleForm, password_hash: Option<&str>, now: Option<i64>) -> (r: Result<
    Submission,
    AuthError,
>)
    ensures
        password_hash is None ==> r == Err::<Submission, AuthError>(AuthError::Unconfigured),
        password_hash matches Some(h) && scrypt_verdict(form.password@, h@) is None ==> r == Err::<
            Submission,
            AuthError,
        >(AuthError::MalformedHash),
        password_hash matches Some(h) && scrypt_verdict(form.password@, h@) == Some(false) ==> (r
            matches Ok(s) && rejects(s, form.title_body.title@, form.title_body.body@)),
        password_hash matches Some(h) && scrypt_verdict(form.password@, h@) == Some(true)
            && usable_reading(now) ==> (r matches Ok(s) && accepts(
            s,
            submitted_article(form.title_body.title@, form.title_body.body@, now->0 as int),
        )),
        password_hash matches Some(h) && scrypt_verdict(form.password@, h@) == Some(true)
            && !usable_reading(now) ==> r == Err::<Submission, AuthError>(
            AuthError::ClockOutOfRange,
        ),
{
    let authorized = match check_password(form.password.as_str(), password_hash) {
        Ok(ok) => ok,
        Err(e) => return Err(e),
    };
    if !authorized {
        return Ok(judge_submission(form, false, 0));
    }
    match now {
        Some(t) => if MIN_TIMESTAMP <= t && t <= MAX_TIMESTAMP {
            Ok(judge_submission(form, true, t))
        } else {
            Err(AuthError::ClockOutOfRange)
        },
        None => Err(AuthError::ClockOutOfRange),
    }
}

/// Judges a submission against the configured password hash, at the
/// current time, as `submit_at` does with the clock's reading.
pub fn submit(form: ArticleForm, password_hash: Option<&str>) -> (r: Result<Submission, AuthError>)
    ensures
        password_hash is None ==> r == Err::<Submission, AuthError>(AuthError::Unconfigured),
        password_hash matches Some(h) && scrypt_verdict(form.password@, h@) is None ==> r == Err::<
            Submission,
            AuthError,
        >(AuthError::MalformedHash),
        password_hash matches Some(h) && scrypt_verdict(form.password@, h@) == Some(false) ==> (r
            matches Ok(s) && rejects(s, form.title_body.title@, form.title_body.body@)),
        password_hash matches Some(h) && scrypt_verdict(form.password@, h@) == Some(true) ==> (r
            matches Ok(s) && (exists|ts: int|
            timestamp_in_range(ts) && accepts(
                s,
                submitted_article(form.title_body.title@, form.title_body.body@, ts),
            ))) || r == Err::<Submission, AuthError>(AuthError::ClockOutOfRange),
{
    submit_at(form, password_hash, unix_time_now())
}

} // verus!
