use dmenu_remember::merge::{bytes_eq, contains_line, copy_bytes, merge_history, RecentList};

fn vecs(items: &[&[u8]]) -> Vec<Vec<u8>> {
    items.iter().map(|i| i.to_vec()).collect()
}

#[test]
fn fresh_list_holds_the_item() {
    let list = RecentList::new(b"cmd".to_vec(), 6);
    assert_eq!(list.len(), 1);
    assert_eq!(list.entries(), &vecs(&[b"cmd"]));
}

#[test]
fn offer_appends_new_lines_in_order() {
    let mut list = RecentList::new(b"a".to_vec(), 6);
    assert!(list.offer(b"b".to_vec()));
    assert!(list.offer(b"c".to_vec()));
    assert_eq!(list.entries(), &vecs(&[b"a", b"b", b"c"]));
}

#[test]
fn offer_skips_duplicates() {
    let mut list = RecentList::new(b"a".to_vec(), 6);
    list.offer(b"b".to_vec());
    list.offer(b"a".to_vec());
    list.offer(b"b".to_vec());
    assert_eq!(list.entries(), &vecs(&[b"a", b"b"]));
}

#[test]
fn offer_reports_when_the_list_is_full() {
    let mut list = RecentList::new(b"a".to_vec(), 2);
    let more = list.offer(b"b".to_vec());
    assert!(!more);
    // A full list takes nothing further.
    let more = list.offer(b"c".to_vec());
    assert!(!more);
    assert_eq!(list.entries(), &vecs(&[b"a", b"b"]));
    assert_eq!(list.len(), 2);
}

#[test]
fn merge_history_merges_all_at_once() {
    let lines = vecs(&[b"x", b"y", b"z", b"w"]);
    let list = merge_history(b"q".to_vec(), &lines, 3);
    assert_eq!(list.entries(), &vecs(&[b"q", b"x", b"y"]));
}

#[test]
fn merge_history_dedupes_against_the_item() {
    let lines = vecs(&[b"b", b"a", b"c"]);
    let list = merge_history(b"a".to_vec(), &lines, 6);
    assert_eq!(list.entries(), &vecs(&[b"a", b"b", b"c"]));
}

#[test]
fn bytes_eq_is_exact() {
    assert!(bytes_eq(&b"abc".to_vec(), &b"abc".to_vec()));
    assert!(!bytes_eq(&b"abc".to_vec(), &b"abd".to_vec()));
    assert!(!bytes_eq(&b"abc".to_vec(), &b"ab".to_vec()));
    assert!(bytes_eq(&Vec::new(), &Vec::new()));
    // Equality is exact: no case folding, no trimming.
    assert!(!bytes_eq(&b"Abc".to_vec(), &b"abc".to_vec()));
    assert!(!bytes_eq(&b"abc ".to_vec(), &b"abc".to_vec()));
}

#[test]
fn contains_line_finds_equal_entries_only() {
    let entries = vecs(&[b"one", b"two"]);
    assert!(contains_line(&entries, &b"one".to_vec()));
    assert!(contains_line(&entries, &b"two".to_vec()));
    assert!(!contains_line(&entries, &b"three".to_vec()));
    assert!(!contains_line(&entries, &b"on".to_vec()));
}

#[test]
fn copy_bytes_copies_exactly() {
    let src = b"hello".to_vec();
    assert_eq!(copy_bytes(&src), src);
    assert_eq!(copy_bytes(&Vec::new()), Vec::<u8>::new());
}
