use blog::article::Article;
use blog::listing::{list_all, recent};

fn article(title: &str, ts: i64) -> Article {
    Article::new(title.to_string(), format!("<p>{title}</p>"), ts)
}

fn stamps(v: &[Article]) -> Vec<i64> {
    v.iter().map(|a| a.timestamp).collect()
}

#[test]
fn recent_two_of_three_newest_first() {
    let v = vec![article("a", 100), article("b", 300), article("c", 200)];
    let r = recent(v, 2);
    assert_eq!(stamps(&r), vec![300, 200]);
    assert_eq!(r[0].title, "b");
    assert_eq!(r[1].title, "c");
}

#[test]
fn list_all_strictly_descending() {
    let v = vec![article("a", 100), article("b", 300), article("c", 200), article("d", 50)];
    let r = list_all(v);
    assert_eq!(stamps(&r), vec![300, 200, 100, 50]);
}

#[test]
fn list_all_breaks_ties_by_filename() {
    let v = vec![article("Gamma", 10), article("Alpha", 10), article("Beta", 20), article("Alp", 10)];
    let r = list_all(v);
    let names: Vec<&str> = r.iter().map(|a| a.filename.as_str()).collect();
    assert_eq!(names, vec!["beta", "alp", "alpha", "gamma"]);
}

#[test]
fn recent_with_large_n_returns_all() {
    let v = vec![article("x", 1), article("y", 2)];
    assert_eq!(stamps(&recent(v, 10)), vec![2, 1]);
}

#[test]
fn recent_of_nothing_is_empty() {
    assert!(recent(Vec::new(), 3).is_empty());
    assert!(recent(vec![article("x", 1)], 0).is_empty());
}
