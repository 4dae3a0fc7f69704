use cleaner::patterns::PatternMatcher;

#[test]
fn test_temp_directories() {
    let matcher = PatternMatcher::new();
    assert!(matcher.is_temp_directory(".terraform"));
    assert!(matcher.is_temp_directory("target"));
    assert!(matcher.is_temp_directory("node_modules"));
    assert!(matcher.is_temp_directory("__pycache__"));
    assert!(!matcher.is_temp_directory("src"));
    assert!(!matcher.is_temp_directory("lib"));
}

#[test]
fn test_temp_files() {
    let matcher = PatternMatcher::new();
    assert!(matcher.is_temp_file(".DS_Store"));
    assert!(matcher.is_temp_file("Thumbs.db"));
    assert!(matcher.is_temp_file("test.pyc"));
    assert!(matcher.is_temp_file("backup~"));
    assert!(!matcher.is_temp_file("main.rs"));
}

#[test]
fn test_egg_info() {
    let matcher = PatternMatcher::new();
    assert!(matcher.is_temp_directory("mypackage.egg-info"));
}

#[test]
fn wildcard_matches_suffix_only() {
    // a leading-`*` pattern matches the name's suffix, nothing else
    let matcher = PatternMatcher::new();
    assert!(matcher.is_temp_directory("foo.egg-info"));
    assert!(!matcher.is_temp_directory("egg-info-extra"));
    assert!(!matcher.is_temp_directory(".egg-infoX"));
}

#[test]
fn file_suffix_rules() {
    let matcher = PatternMatcher::new();
    // a dot-prefixed pattern matches as a suffix
    assert!(matcher.is_temp_file("module.pyo"));
    assert!(matcher.is_temp_file(".pyc"));
    // a generic suffix such as a bare tilde matches trailing markers
    assert!(matcher.is_temp_file("notes.txt~"));
    assert!(matcher.is_temp_file("~"));
    // near misses do not match
    assert!(!matcher.is_temp_file("pyc"));
    assert!(!matcher.is_temp_file("~backup"));
}

#[test]
fn matches_uses_type_rules() {
    let matcher = PatternMatcher::new();
    // `target` is a directory pattern, not a file pattern
    assert!(matcher.matches("target", true));
    assert!(!matcher.matches("target", false));
    // `.DS_Store` is a file pattern, not a directory pattern
    assert!(matcher.matches(".DS_Store", false));
    assert!(!matcher.matches(".DS_Store", true));
}

#[test]
fn custom_pattern_lists() {
    let config = cleaner::config::Config {
        directories: vec![String::from("out"), String::from("*.tmpdir")],
        files: vec![String::from(".log")],
        days: None,
    };
    let matcher = PatternMatcher::from_config(&config);
    assert!(matcher.is_temp_directory("out"));
    assert!(matcher.is_temp_directory("scratch.tmpdir"));
    assert!(!matcher.is_temp_directory("node_modules"));
    assert!(matcher.is_temp_file("run.log"));
    assert!(!matcher.is_temp_file(".DS_Store"));
}
