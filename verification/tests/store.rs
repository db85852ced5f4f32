use dmenu_remember::store::build_new_contents;

fn run(item: &[u8], content: &[u8], max: usize) -> Vec<u8> {
    build_new_contents(item.to_vec(), &content.to_vec(), max)
}

#[test]
fn resubmit_moves_to_front() {
    // A prior entry that is submitted again moves to the front, without a
    // duplicate and without touching the order of the others.
    assert_eq!(run(b"a", b"b\na\nc", 6), b"a\nb\nc\n".to_vec());
}

#[test]
fn resubmit_keeps_length() {
    let out = run(b"a", b"b\na\nc", 6);
    let lines = out.split(|&b| b == b'\n').filter(|l| !l.is_empty()).count();
    assert_eq!(lines, 3);
}

#[test]
fn cap_drops_oldest() {
    // The cap counts the new item too: with max 3 only two old lines fit.
    assert_eq!(run(b"q", b"x\ny\nz\nw", 3), b"q\nx\ny\n".to_vec());
}

#[test]
fn first_run_single_line() {
    // No prior file: the result is the submitted item alone.
    assert_eq!(run(b"only", b"", 6), b"only\n".to_vec());
}

#[test]
fn new_item_goes_first() {
    let out = run(b"new", b"old1\nold2", 6);
    assert_eq!(out, b"new\nold1\nold2\n".to_vec());
    assert!(out.starts_with(b"new\n"));
}

#[test]
fn duplicate_old_lines_are_dropped() {
    assert_eq!(run(b"c", b"a\na\nb", 6), b"c\na\nb\n".to_vec());
}

#[test]
fn cap_of_one_keeps_only_the_item() {
    assert_eq!(run(b"a", b"b\nc", 1), b"a\n".to_vec());
}

#[test]
fn never_more_lines_than_cap() {
    // A chain of submissions against the same evolving file: the persisted
    // contents never exceed the cap, whatever came before.
    let items: [&[u8]; 5] = [b"one", b"two", b"three", b"two", b"four"];
    let cap = 2;
    let mut file: Vec<u8> = Vec::new();
    for item in items {
        file = build_new_contents(item.to_vec(), &file, cap);
        let lines = file.split(|&b| b == b'\n').filter(|l| !l.is_empty()).count();
        assert!(lines <= cap);
        assert!(file.starts_with(item));
    }
    assert_eq!(file, b"four\ntwo\n".to_vec());
}

#[test]
fn empty_item_is_a_line_of_its_own() {
    assert_eq!(run(b"", b"x", 6), b"\nx\n".to_vec());
}

#[test]
fn file_without_trailing_newline_reads_the_same() {
    assert_eq!(run(b"n", b"a\nb\n", 6), run(b"n", b"a\nb", 6));
}
