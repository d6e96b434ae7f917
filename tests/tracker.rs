use blog::tracker::{sum_checksums, FileTracker};

#[test]
fn hash_dir_sums_adler32_checksums() {
    // Adler-32 of "Wikipedia" is 0x11E60398; of no bytes, 1
    let files = vec![b"Wikipedia".to_vec(), Vec::new()];
    assert_eq!(FileTracker::hash_dir(&files), 0x11E6_0398 + 1);
    assert_eq!(FileTracker::hash_dir(&Vec::new()), 0);
}

#[test]
fn sum_checksums_does_not_wrap() {
    assert_eq!(sum_checksums(&vec![u32::MAX, u32::MAX, 2]), 2 * (u32::MAX as u64) + 2);
}

#[test]
fn tracker_notices_changed_articles() {
    let templates = vec![b"<html>".to_vec()];
    let articles = vec![b"Title\n1\nbody".to_vec()];
    let mut t = FileTracker::new(&templates, &articles);
    assert!(!t.check_articles(&articles));
    let changed = vec![b"Title\n1\nbody!".to_vec()];
    assert!(t.check_articles(&changed));
    assert!(!t.check_articles(&changed));
    assert_eq!(t.templates_hash, FileTracker::hash_dir(&templates));
}

#[test]
fn tracker_notices_changed_templates() {
    let templates = vec![b"<html>".to_vec()];
    let mut t = FileTracker::new(&templates, &Vec::new());
    assert!(!t.check_templates(&templates));
    assert!(t.check_templates(&vec![b"<html></html>".to_vec()]));
    assert_eq!(t.articles_hash, 0);
}
