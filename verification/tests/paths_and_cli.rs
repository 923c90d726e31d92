use journal_rs::cli::{expand, map_size, parse_path, MapSize, MapSizeError};
use journal_rs::paths::join;

#[test]
fn join_separates_relative_parts_once() {
    assert_eq!(join("/home/me", "notes"), "/home/me/notes");
    assert_eq!(join("/home/me/", "notes"), "/home/me/notes");
    assert_eq!(join("", "notes"), "notes");
    assert_eq!(join("/home/me", ""), "/home/me/");
}

#[test]
fn join_with_an_absolute_path_replaces_the_base() {
    assert_eq!(join("/home/me", "/etc/hosts"), "/etc/hosts");
}

#[test]
fn tilde_expands_against_home() {
    assert_eq!(expand("~", "/Users/me"), "/Users/me");
    assert_eq!(expand("~/journal-export", "/Users/me"), "/Users/me/journal-export");
    assert_eq!(expand("~//etc", "/Users/me"), "/etc");
}

#[test]
fn other_paths_are_taken_as_written() {
    assert_eq!(expand("relative.sqlite", "/Users/me"), "relative.sqlite");
    assert_eq!(expand("~other/x", "/Users/me"), "~other/x");
    assert_eq!(expand("/abs/path", "/Users/me"), "/abs/path");
    assert_eq!(parse_path("~/x", "/h"), "/h/x");
}

#[test]
fn map_sizes_parse_and_report() {
    assert!(matches!(map_size("small"), Ok(MapSize::Small)));
    assert!(matches!(map_size("large"), Ok(MapSize::Large)));
    assert!(matches!(map_size("off"), Err(MapSizeError::Off)));
    assert!(matches!(map_size("medium"), Err(MapSizeError::Unknown)));
    assert!(MapSizeError::Off.message().contains("not supported"));
    assert_eq!(MapSizeError::Unknown.message(), "must be small or large");
}

#[test]
fn map_size_flags_and_names() {
    assert_eq!(MapSize::Small.slim(), 1);
    assert_eq!(MapSize::Large.slim(), 0);
    assert_eq!(MapSize::Small.name(), "small");
    assert_eq!(MapSize::Large.name(), "large");
    assert!(MapSize::default() == MapSize::Small);
}
