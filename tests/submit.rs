use blog::article::MAX_TIMESTAMP;
use blog::submit::{
    check_password, judge_submission, submit, submit_at, ArticleForm, AuthError, Submission,
    TitleBody,
};
use scrypt::password_hash::{PasswordHasher, Salt};
use scrypt::{Params, Scrypt};

fn hash_of(password: &str) -> String {
    let salt = Salt::from_b64("c2FsdHNhbHRzYWx0").unwrap();
    Scrypt
        .hash_password_customized(password.as_bytes(), None, None, Params::new(4, 8, 1, 32).unwrap(), salt)
        .unwrap()
        .to_string()
}

fn form(password: &str) -> ArticleForm {
    ArticleForm {
        title_body: TitleBody { title: "New Post".to_string(), body: "Some *text*.".to_string() },
        password: password.to_string(),
    }
}

#[test]
fn password_without_configured_hash_fails_closed() {
    assert_eq!(check_password("pw", None), Err(AuthError::Unconfigured));
}

#[test]
fn password_with_malformed_hash_is_an_error() {
    assert_eq!(check_password("pw", Some("not a hash")), Err(AuthError::MalformedHash));
}

#[test]
fn password_right_and_wrong() {
    let h = hash_of("hunter2");
    assert_eq!(check_password("hunter2", Some(&h)), Ok(true));
    assert_eq!(check_password("hunter3", Some(&h)), Ok(false));
}

#[test]
fn judge_accepts_with_right_password() {
    match judge_submission(form("x"), true, 1431648000) {
        Submission::Accepted(a) => {
            assert_eq!(a.title, "New Post");
            assert_eq!(a.body, "<p>Some <em>text</em>.</p>\n");
            assert_eq!(a.formatted_time, "May 15, 2015");
            assert_eq!(a.filename, "new-post");
        }
        Submission::Rejected(_) => panic!("expected an article"),
    }
}

#[test]
fn judge_hands_form_back_with_wrong_password() {
    match judge_submission(form("x"), false, 0) {
        Submission::Rejected(tb) => {
            assert_eq!(tb.title, "New Post");
            assert_eq!(tb.body, "Some *text*.");
        }
        Submission::Accepted(_) => panic!("expected the form back"),
    }
}

#[test]
fn submit_wrong_password_echoes_form() {
    let h = hash_of("right");
    match submit(form("wrong"), Some(&h)) {
        Ok(Submission::Rejected(tb)) => assert_eq!(tb.body, "Some *text*."),
        other => panic!("unexpected {other:?}"),
    }
}

#[test]
fn submit_right_password_makes_article() {
    let h = hash_of("right");
    match submit(form("right"), Some(&h)) {
        Ok(Submission::Accepted(a)) => {
            assert_eq!(a.filename, "new-post");
            assert!(a.timestamp > 1_600_000_000);
        }
        other => panic!("unexpected {other:?}"),
    }
}

#[test]
fn submit_without_hash_fails_closed() {
    assert!(matches!(submit(form("x"), None), Err(AuthError::Unconfigured)));
}

#[test]
fn create_article_uses_current_time() {
    let tb = TitleBody { title: "Now".to_string(), body: "x".to_string() };
    let a = tb.create_article().unwrap();
    assert!(a.timestamp > 1_600_000_000);
    assert_eq!(a.body, "<p>x</p>\n");
}

#[test]
fn submit_at_right_password_uses_the_reading() {
    let h = hash_of("right");
    match submit_at(form("right"), Some(&h), Some(1431648000)) {
        Ok(Submission::Accepted(a)) => {
            assert_eq!(a.timestamp, 1431648000);
            assert_eq!(a.formatted_time, "May 15, 2015");
        }
        other => panic!("unexpected {other:?}"),
    }
}

#[test]
fn submit_at_unusable_clock_is_an_error() {
    let h = hash_of("right");
    assert!(matches!(submit_at(form("right"), Some(&h), None), Err(AuthError::ClockOutOfRange)));
    assert!(matches!(
        submit_at(form("right"), Some(&h), Some(MAX_TIMESTAMP + 1)),
        Err(AuthError::ClockOutOfRange)
    ));
}

#[test]
fn submit_at_wrong_password_ignores_the_clock() {
    let h = hash_of("right");
    assert!(matches!(submit_at(form("wrong"), Some(&h), None), Ok(Submission::Rejected(_))));
}

#[test]
fn create_article_from_checks_the_reading() {
    let tb = || TitleBody { title: "T".to_string(), body: "b".to_string() };
    assert_eq!(tb().create_article_from(Some(0)).unwrap().formatted_time, "January  1, 1970");
    assert!(tb().create_article_from(None).is_none());
    assert!(tb().create_article_from(Some(i64::MAX)).is_none());
}
