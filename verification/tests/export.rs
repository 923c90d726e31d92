use journal_rs::export::{export_markdown, export_name, slug, ExportDoc, ExportFile, ExportPlace};

#[test]
fn slugs_keep_words_and_hyphenate_spaces() {
    let s: String = slug("Hello, World! 2024").into_iter().collect();
    assert_eq!(s, "Hello-World-2024");
    let t: String = slug("  旅途 🏕️ notes ").into_iter().collect();
    assert_eq!(t, "旅途--notes");
    let long: String = slug(&"a".repeat(80)).into_iter().collect();
    assert_eq!(long.len(), 50);
}

#[test]
fn export_names_join_date_id_and_slug() {
    assert_eq!(export_name(Some("2024-02-29 10:00:00"), 7, "My Day"), "2024-02-29-7-My-Day.md");
    assert_eq!(export_name(Some("2024-02-29 10:00:00"), 7, "!!!"), "2024-02-29-7.md");
    assert_eq!(export_name(None, 8, ""), "-8.md");
    assert_eq!(export_name(Some("short"), 9, ""), "-9.md");
}

#[test]
fn markdown_exports_carry_front_matter_and_files() {
    let doc = ExportDoc {
        date: Some("2024-02-29 10:00:00".to_string()),
        id: 3,
        title: "He said \"hi\"".to_string(),
        bookmarked: true,
        text: "Body".to_string(),
        places: vec![ExportPlace { name: Some("Park".to_string()), lat: "25.03".to_string(), lon: "121.5".to_string() }],
        files: vec![
            ExportFile { name: Some("image".to_string()), path: "/a/b.jpg".to_string() },
            ExportFile { name: None, path: "/a/c.mov".to_string() },
        ],
    };
    let expected = "---\ndate: 2024-02-29 10:00:00\nid: 3\ntitle: \"He said \\\"hi\\\"\"\nbookmarked: true\nlocations:\n  - name: \"Park\"\n    lat: 25.03\n    lon: 121.5\n---\n\nBody\n\n![image](/a/b.jpg)\n![file](/a/c.mov)\n";
    assert_eq!(export_markdown(&doc), expected);
}

#[test]
fn plain_entries_export_minimal_front_matter() {
    let doc = ExportDoc {
        date: None,
        id: -1,
        title: String::new(),
        bookmarked: false,
        text: String::new(),
        places: vec![ExportPlace { name: None, lat: "1".to_string(), lon: "null".to_string() }],
        files: vec![],
    };
    assert_eq!(
        export_markdown(&doc),
        "---\ndate: \nid: -1\nlocations:\n  - name: null\n    lat: 1\n    lon: null\n---\n\n\n"
    );
}

#[test]
fn exported_titles_escape_control_characters() {
    let doc = ExportDoc {
        date: None,
        id: 4,
        title: "a\\b\tc\nd\u{1}é\u{1f}".to_string(),
        bookmarked: false,
        text: String::new(),
        places: vec![],
        files: vec![],
    };
    assert_eq!(
        export_markdown(&doc),
        "---\ndate: \nid: 4\ntitle: \"a\\\\b\\tc\\nd\\u0001é\\u001f\"\n---\n\n\n"
    );
}
