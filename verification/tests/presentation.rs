use journal_rs::model::{Entry, Journal};
use journal_rs::presentation::{
    audit_text, deleted_text, detail_text, doctor_text, effects_text, journals_text, list_text,
    mutation_output, mutation_text, stats_text, AssetText, AssetView, FileText, PlaceText,
};
use journal_rs::response::{
    AuditItem, DeletedEntry, Doctor, JournalCount, MutationEffects, MutationResult, Stats,
};

fn entry(id: i64, title: &str, text: &str, bookmarked: bool, synced: bool) -> Entry {
    Entry {
        id,
        uuid: Some("U".to_string()),
        date: Some("2024-02-29 10:00:00".to_string()),
        title: title.to_string(),
        text: text.to_string(),
        chars: 0,
        bookmarked,
        draft: false,
        synced,
        timestamp: Some(0),
    }
}

#[test]
fn listings_show_marker_id_date_and_heading() {
    let es = vec![
        entry(7, "", "first line\nsecond line", true, true),
        entry(12345, "Title", "", false, false),
    ];
    assert_eq!(
        list_text(&es, false),
        "*    7  2024-02-29 10:00:00  first line\n+12345  2024-02-29 10:00:00  Title\n\n2 entries.\n"
    );
    let one = vec![entry(7, "", "first line\nsecond line", false, true)];
    assert_eq!(
        list_text(&one, true),
        "     7  2024-02-29 10:00:00  first line\n        first line\n        second line\n\n\n1 entry.\n"
    );
    assert_eq!(list_text(&vec![], false), "No entries.\n");
}

#[test]
fn untitled_empty_entries_show_a_placeholder() {
    let es = vec![entry(1, "", "", false, true)];
    assert!(list_text(&es, false).starts_with("     1  2024-02-29 10:00:00  (empty)\n"));
}

#[test]
fn journals_show_padded_columns() {
    let js = vec![JournalCount {
        journal: Journal { pk: 1, name: "Journal".to_string(), is_default: true },
        entries: 6,
    }];
    assert_eq!(journals_text(&js), "  1  Journal                     6 entries  (default)\n");
}

#[test]
fn deleted_entries_show_dates_and_text() {
    let es = vec![DeletedEntry {
        id: 4,
        date: Some("2024-02-29 10:00:00".to_string()),
        deleted: None,
        title: String::new(),
        text: "gone".to_string(),
        synced: false,
    }];
    assert_eq!(
        deleted_text(&es),
        "    4  entry 2024-02-29  deleted ?  gone\n\n1 entries in Recently Deleted. restore <id> brings one back; they purge ~30 days after deletion.\n"
    );
    assert_eq!(deleted_text(&vec![]), "Recently Deleted is empty.\n");
}

#[test]
fn statistics_group_thousands_and_draw_bars() {
    let s = Stats {
        entries: 2,
        rows: 3,
        words: 1234567,
        attachments: 7,
        locations: 2,
        by_year: vec![("2024".to_string(), 1), ("2025".to_string(), 60)],
        first: Some("2024-01-05 08:00:00".to_string()),
        last: Some("2025-03-01 10:00:00".to_string()),
    };
    let bar = "#".repeat(50);
    let expected = format!(
        "entries      2 with text (3 rows total)\nwords        1,234,567\nattachments  7\nlocations    2\nrange        2024-01-05 .. 2025-03-01\n\nby year\n  2024     1  #\n  2025    60  {bar}\n"
    );
    assert_eq!(stats_text(&s), expected);
}

#[test]
fn audits_list_staging_journals() {
    assert_eq!(audit_text(&vec![]), "No Mac-local custom-journal memberships found.\n");
    let items = vec![AuditItem { name: "Work".to_string(), entries: 3 }];
    let t = audit_text(&items);
    assert!(t.starts_with("Mac-local memberships that require finalization in Journal.app:\n  Work: 3 entries\n"));
    assert!(t.ends_with("This command is read-only.\n"));
}

#[test]
fn mutation_reports() {
    assert_eq!(
        mutation_text(&MutationResult::Created { id: 5, chars: 12, has_title: true }),
        "Created entry 5 (12 chars, title).\n"
    );
    assert_eq!(
        mutation_text(&MutationResult::Emptied { purged: 2, skipped: 1 }),
        "Purged 2 entries. Skipped 1 synced entries: empty Recently Deleted in Journal.app, or --force to accept resurrection risk.\n"
    );
    assert_eq!(
        mutation_text(&MutationResult::DryRun { operation: "create", id: None, repair: None }),
        "DRY RUN: would create entry. Nothing written.\n"
    );
    assert_eq!(
        mutation_text(&MutationResult::DryRun { operation: "edit", id: Some(3), repair: None }),
        "DRY RUN: would edit entry 3. Nothing written.\n"
    );
    assert_eq!(
        mutation_text(&MutationResult::DryRun { operation: "repair", id: None, repair: Some((4, "small")) }),
        "DRY RUN: would repair 4 hidden map asset(s) to 'small'. Nothing written.\n"
    );
    assert_eq!(
        mutation_text(&MutationResult::Repaired { assets: 0, size: "small" }),
        "No hidden map assets found. Nothing to repair.\n"
    );
}

#[test]
fn mutation_diagnostics_go_to_stderr() {
    let effects = MutationEffects { staged: true, backup: Some("/b".to_string()), warnings: vec!["w".to_string()] };
    let expected = "backup: /b\nwarning: this is a Mac-local staging membership. Run sync-journals --journal NAME for the native Journal.app steps required to sync that membership.\nwarning: w\n";
    assert_eq!(effects_text(&effects), expected);
    let out = mutation_output(&MutationResult::Updated { id: 9 }, &effects);
    assert_eq!(out.stdout, b"Updated entry 9.\n".to_vec());
    assert_eq!(out.stderr, expected.as_bytes().to_vec());
    assert_eq!(effects_text(&MutationEffects::none()), "");
}

#[test]
fn details_list_assets_and_files() {
    let e = entry(3, "T", "body", false, true);
    let assets = vec![
        AssetView {
            id: 70,
            kind: "multiPinMap".to_string(),
            details: AssetText::Places(vec![PlaceText {
                name: Some("Park".to_string()),
                city: Some("Taipei".to_string()),
                lat: "25".to_string(),
                lon: "121".to_string(),
            }]),
            files: vec![],
        },
        AssetView {
            id: 71,
            kind: "audio".to_string(),
            details: AssetText::Audio { duration: "2.5".to_string(), transcript: Some("hi".to_string()) },
            files: vec![FileText { exists: false, path: "/a/x.m4a".to_string() }],
        },
    ];
    assert_eq!(
        detail_text(&e, &assets),
        "id      3\nuuid    U\ndate    2024-02-29 10:00:00\ntitle   T\n\nbody\n\nlocation  Park, Taipei  (25, 121)\n\naudio (asset 71)  2.5s  hi\n\naudio (asset 71)  MISSING  /a/x.m4a\n"
    );
}

#[test]
fn doctor_reports_the_store() {
    let d = Doctor {
        path: "/s/moments.sqlite".to_string(),
        bytes: 1_500_000,
        attachments: "/s/Attachments".to_string(),
        attachments_exist: true,
        journal_running: false,
        entries: 12,
    };
    assert_eq!(
        doctor_text(&d, "1.5"),
        "store    /s/moments.sqlite\n         readable, 1.5 MB\nattach   /s/Attachments  ok\nJournal  not running\n\nRead 12 entries. All good.\n"
    );
}

#[test]
fn details_keep_titles_bodies_links_drawings_and_file_lines() {
    let e = entry(9, "Trip 旅行", "line one\nline two", true, true);
    let assets = vec![
        AssetView {
            id: 5,
            kind: "link".to_string(),
            details: AssetText::Link { url: Some("https://example.com".to_string()), link_title: Some("Example".to_string()) },
            files: vec![FileText { exists: true, path: "/s/link.json".to_string() }],
        },
        AssetView {
            id: 6,
            kind: "drawing".to_string(),
            details: AssetText::Drawing(Some("a cat".to_string())),
            files: vec![
                FileText { exists: true, path: "/s/d.png".to_string() },
                FileText { exists: false, path: "/s/d.data".to_string() },
            ],
        },
    ];
    let t = detail_text(&e, &assets);
    for part in [
        "Trip 旅行",
        "line one\nline two",
        "Example",
        "https://example.com",
        "a cat",
        "\nlink (asset 5)  ok  /s/link.json\n",
        "\ndrawing (asset 6)  ok  /s/d.png\n",
        "\ndrawing (asset 6)  MISSING  /s/d.data\n",
    ] {
        assert!(t.contains(part), "missing {part:?}");
    }
}

#[test]
fn listings_end_with_the_count_after_the_lines_in_order() {
    let es = vec![entry(1, "a", "", false, true), entry(2, "b", "", false, true), entry(3, "c", "", false, true)];
    let t = list_text(&es, false);
    assert!(t.ends_with("\n3 entries.\n"));
    let a = t.find("  a\n").unwrap();
    let b = t.find("  b\n").unwrap();
    let c = t.find("  c\n").unwrap();
    assert!(a < b && b < c);
}
