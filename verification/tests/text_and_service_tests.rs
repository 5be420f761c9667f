use polaris::service::APIError;
use polaris::text::{file_stem, join_path};

#[test]
fn file_stem_cuts_at_the_last_dot() {
    assert_eq!(file_stem(&"song.mp3".to_string()), "song");
    assert_eq!(file_stem(&"archive.tar.gz".to_string()), "archive.tar");
    assert_eq!(file_stem(&"trailing.".to_string()), "trailing");
}

#[test]
fn file_stem_keeps_names_without_extension() {
    assert_eq!(file_stem(&"README".to_string()), "README");
    assert_eq!(file_stem(&"".to_string()), "");
    assert_eq!(file_stem(&"x".to_string()), "x");
}

#[test]
fn file_stem_keeps_a_lone_leading_dot() {
    assert_eq!(file_stem(&".hidden".to_string()), ".hidden");
    assert_eq!(file_stem(&".config.bak".to_string()), ".config");
}

#[test]
fn join_path_puts_one_slash_between_segments() {
    assert_eq!(join_path(&vec!["a".to_string(), "b".to_string(), "c.mp3".to_string()]), "a/b/c.mp3");
    assert_eq!(join_path(&vec!["solo".to_string()]), "solo");
    assert_eq!(join_path(&vec![]), "");
}

#[test]
fn api_errors_from_anyhow_collapse_to_unspecified() {
    let e = anyhow::Error::msg("backend failure");
    assert_eq!(APIError::from(e), APIError::Unspecified);
}
