use line_counter::extension::file_extension;

#[test]
fn extension_follows_the_dot() {
    assert_eq!(file_extension("x.txt"), Some("txt".to_string()));
    assert_eq!(file_extension("main.rs"), Some("rs".to_string()));
}

#[test]
fn name_without_dot_has_no_extension() {
    assert_eq!(file_extension("README"), None);
    assert_eq!(file_extension("Makefile"), None);
}

#[test]
fn empty_name_has_no_extension() {
    assert_eq!(file_extension(""), None);
}

#[test]
fn extension_follows_the_last_dot() {
    assert_eq!(file_extension("archive.tar.gz"), Some("gz".to_string()));
    assert_eq!(file_extension("a.b.c.d"), Some("d".to_string()));
}

#[test]
fn extension_keeps_its_case() {
    assert_eq!(file_extension("NOTES.TXT"), Some("TXT".to_string()));
    assert_eq!(file_extension("notes.Txt"), Some("Txt".to_string()));
    assert_ne!(file_extension("NOTES.TXT"), file_extension("notes.txt"));
}

#[test]
fn name_that_ends_in_a_dot_has_the_empty_extension() {
    assert_eq!(file_extension("name."), Some(String::new()));
    assert_eq!(file_extension("."), Some(String::new()));
}

#[test]
fn name_that_starts_with_a_dot_has_an_extension() {
    assert_eq!(file_extension(".bashrc"), Some("bashrc".to_string()));
    assert_eq!(file_extension(".config.toml"), Some("toml".to_string()));
}

#[test]
fn extension_may_hold_any_characters() {
    assert_eq!(file_extension("r\u{e9}sum\u{e9}.\u{3053}\u{308d}"), Some("\u{3053}\u{308d}".to_string()));
    assert_eq!(file_extension("a b.t x"), Some("t x".to_string()));
    assert_eq!(file_extension("\u{1f600}.\u{1f600}"), Some("\u{1f600}".to_string()));
}

#[test]
fn extension_holds_no_dot() {
    for name in ["a.b", "a..b", "...", "x.y.z", ".a.", "plain"] {
        if let Some(extension) = file_extension(name) {
            assert!(!extension.contains('.'));
            assert!(name.ends_with(&format!(".{}", extension)));
        } else {
            assert!(!name.contains('.'));
        }
    }
}
