use cleaner::config::{Config, ConfigFile, PatternsConfig, default_directories, default_files};
use cleaner::config::{parse_days, split_patterns};

fn file_with(dirs: Vec<&str>, files: Vec<&str>, days: Option<u64>) -> ConfigFile {
    ConfigFile {
        patterns: PatternsConfig {
            directories: dirs.into_iter().map(String::from).collect(),
            files: files.into_iter().map(String::from).collect(),
        },
        days,
    }
}

#[test]
fn defaults_hold_known_patterns() {
    let dirs = default_directories();
    assert_eq!(dirs.len(), 23);
    assert_eq!(dirs[0], ".terraform");
    assert_eq!(dirs[1], "target");
    assert_eq!(dirs[2], "node_modules");
    assert_eq!(dirs[11], "*.egg-info");
    let files = default_files();
    assert_eq!(files.len(), 9);
    assert_eq!(files[0], ".pyc");
    assert_eq!(files[8], "~");
}

#[test]
fn getters_return_the_lists() {
    let config = Config {
        directories: vec![String::from("a"), String::from("b")],
        files: vec![String::from(".x")],
        days: Some(3),
    };
    assert_eq!(config.directories(), vec!["a", "b"]);
    assert_eq!(config.files(), vec![".x"]);
}

#[test]
fn split_patterns_splits_and_trims() {
    assert_eq!(
        split_patterns("node_modules, target , dist"),
        vec!["node_modules", "target", "dist"]
    );
    assert_eq!(split_patterns("one"), vec!["one"]);
    assert_eq!(split_patterns(""), vec![""]);
    assert_eq!(split_patterns("a,,b"), vec!["a", "", "b"]);
}

#[test]
fn parse_days_accepts_decimals() {
    assert_eq!(parse_days("30"), Some(30));
    assert_eq!(parse_days("+7"), Some(7));
    assert_eq!(parse_days("0"), Some(0));
    assert_eq!(parse_days("18446744073709551615"), Some(u64::MAX));
}

#[test]
fn parse_days_rejects_bad_input() {
    assert_eq!(parse_days(""), None);
    assert_eq!(parse_days("+"), None);
    assert_eq!(parse_days("abc"), None);
    assert_eq!(parse_days("1 2"), None);
    assert_eq!(parse_days("-3"), None);
    // one past the largest representable value
    assert_eq!(parse_days("18446744073709551616"), None);
}

#[test]
fn default_is_the_builtin_configuration() {
    let config = Config::default();
    assert_eq!(config.directories, default_directories());
    assert_eq!(config.files, default_files());
    assert_eq!(config.days, None);
}

#[test]
fn defaults_apply_without_sources() {
    let config = Config::from_sources(None, None, None, None);
    assert_eq!(config.directories, default_directories());
    assert_eq!(config.files, default_files());
    assert_eq!(config.days, None);
}

#[test]
fn file_overrides_defaults() {
    let config = Config::from_sources(
        Some(file_with(vec!["out"], vec![".bak"], Some(5))),
        None,
        None,
        None,
    );
    assert_eq!(config.directories, vec!["out"]);
    assert_eq!(config.files, vec![".bak"]);
    assert_eq!(config.days, Some(5));
}

#[test]
fn empty_file_lists_do_not_override() {
    let config = Config::from_sources(Some(file_with(vec![], vec![], None)), None, None, None);
    assert_eq!(config.directories, default_directories());
    assert_eq!(config.files, default_files());
}

#[test]
fn environment_overrides_file() {
    let config = Config::from_sources(
        Some(file_with(vec!["out"], vec![".bak"], Some(5))),
        Some("cachedir, builddir"),
        Some(".tmp"),
        Some("9"),
    );
    assert_eq!(config.directories, vec!["cachedir", "builddir"]);
    assert_eq!(config.files, vec![".tmp"]);
    assert_eq!(config.days, Some(9));
}

#[test]
fn unparsable_environment_days_fall_back() {
    let config = Config::from_sources(
        Some(file_with(vec!["out"], vec![".bak"], Some(5))),
        None,
        None,
        Some("soon"),
    );
    assert_eq!(config.days, Some(5));
}
