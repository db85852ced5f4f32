use dmenu_remember::config::{default_file_path, parse_count};
use dmenu_remember::input::accept_input;
use dmenu_remember::RunError;

#[test]
fn empty_stream_is_rejected() {
    assert_eq!(accept_input(&Vec::new()), Err(RunError::EmptyInput));
}

#[test]
fn a_read_line_is_accepted_and_trimmed() {
    assert_eq!(accept_input(&b"cmd\n".to_vec()), Ok(b"cmd".to_vec()));
    assert_eq!(accept_input(&b"cmd".to_vec()), Ok(b"cmd".to_vec()));
    // A bare newline was read, so the (empty) item is accepted.
    assert_eq!(accept_input(&b"\n".to_vec()), Ok(Vec::new()));
}

#[test]
fn counts_parse_as_plain_integers() {
    assert_eq!(parse_count(&b"6".to_vec()), Ok(6));
    assert_eq!(parse_count(&b"0".to_vec()), Ok(0));
    assert_eq!(parse_count(&b"+42".to_vec()), Ok(42));
    assert_eq!(parse_count(&b"4294967295".to_vec()), Ok(4294967295));
}

#[test]
fn malformed_counts_are_rejected() {
    assert_eq!(parse_count(&Vec::new()), Err(RunError::InvalidCount));
    assert_eq!(parse_count(&b"+".to_vec()), Err(RunError::InvalidCount));
    assert_eq!(parse_count(&b"abc".to_vec()), Err(RunError::InvalidCount));
    assert_eq!(parse_count(&b"12a".to_vec()), Err(RunError::InvalidCount));
    assert_eq!(parse_count(&b"-1".to_vec()), Err(RunError::InvalidCount));
    assert_eq!(parse_count(&b"1 2".to_vec()), Err(RunError::InvalidCount));
    // One past the widest accepted value.
    assert_eq!(parse_count(&b"4294967296".to_vec()), Err(RunError::InvalidCount));
}

#[test]
fn default_path_joins_home_and_name() {
    assert_eq!(
        default_file_path(&b"/home/user".to_vec()),
        b"/home/user/.dmenu.recent".to_vec()
    );
    assert_eq!(
        default_file_path(&b"/home/user/".to_vec()),
        b"/home/user/.dmenu.recent".to_vec()
    );
    assert_eq!(default_file_path(&b"./".to_vec()), b"./.dmenu.recent".to_vec());
    assert_eq!(default_file_path(&Vec::new()), b".dmenu.recent".to_vec());
}

#[test]
fn every_failure_has_a_diagnostic() {
    assert_eq!(RunError::EmptyInput.message(), "Expected input, but got nothing.");
    assert_eq!(RunError::InvalidCount.message(), "Count must be an integer.");
    assert_eq!(
        RunError::PathError.message(),
        "The history file path could not be resolved."
    );
    assert_eq!(RunError::IoError.message(), "The history file could not be written.");
}
