use dmenu_remember::text::{render_history, split_lines, trim_trailing_newlines};

fn vecs(items: &[&[u8]]) -> Vec<Vec<u8>> {
    items.iter().map(|i| i.to_vec()).collect()
}

#[test]
fn split_takes_each_line() {
    assert_eq!(split_lines(&b"a\nb\n".to_vec()), vecs(&[b"a", b"b"]));
}

#[test]
fn split_keeps_a_final_line_without_newline() {
    assert_eq!(split_lines(&b"a\nb".to_vec()), vecs(&[b"a", b"b"]));
}

#[test]
fn split_keeps_empty_lines_in_the_middle() {
    assert_eq!(split_lines(&b"a\n\nb".to_vec()), vecs(&[b"a", b"", b"b"]));
    assert_eq!(split_lines(&b"a\n\n".to_vec()), vecs(&[b"a", b""]));
}

#[test]
fn split_of_empty_content_is_empty() {
    assert_eq!(split_lines(&Vec::new()), Vec::<Vec<u8>>::new());
    assert_eq!(split_lines(&b"\n".to_vec()), vecs(&[b""]));
}

#[test]
fn render_terminates_every_entry() {
    assert_eq!(render_history(&vecs(&[b"a", b"b"])), b"a\nb\n".to_vec());
    assert_eq!(render_history(&Vec::new()), Vec::<u8>::new());
    assert_eq!(render_history(&vecs(&[b""])), b"\n".to_vec());
}

#[test]
fn render_then_split_round_trips() {
    let entries = vecs(&[b"first", b"", b"third"]);
    assert_eq!(split_lines(&render_history(&entries)), entries);
}

#[test]
fn trim_strips_trailing_newlines_only() {
    assert_eq!(trim_trailing_newlines(&b"cmd\n".to_vec()), b"cmd".to_vec());
    assert_eq!(trim_trailing_newlines(&b"cmd\n\n".to_vec()), b"cmd".to_vec());
    assert_eq!(trim_trailing_newlines(&b"cmd".to_vec()), b"cmd".to_vec());
    assert_eq!(trim_trailing_newlines(&b"\n".to_vec()), Vec::<u8>::new());
    assert_eq!(trim_trailing_newlines(&b"a\nb\n".to_vec()), b"a\nb".to_vec());
    assert_eq!(trim_trailing_newlines(&b"cmd ".to_vec()), b"cmd ".to_vec());
}
