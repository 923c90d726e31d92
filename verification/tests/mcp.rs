use journal_rs::cli::ExportFormat;
use journal_rs::mcp::{
    bookmark_flags, export_target, is_absolute, page, page_limit, preview_by_default,
    search_query_ok, sort_newest_first, tool_edit_allowed, PageError,
};
use journal_rs::model::{Entry, Journal};
use journal_rs::query::memberships;

fn entry(id: i64, ts: i64) -> Entry {
    Entry {
        id,
        uuid: None,
        date: Some(format!("d{ts}")),
        title: String::new(),
        text: format!("entry {id}"),
        chars: 0,
        bookmarked: false,
        draft: false,
        synced: true,
        timestamp: Some(ts),
    }
}

#[test]
fn writes_preview_by_default() {
    assert!(preview_by_default());
}

#[test]
fn page_sizes_default_to_fifty_within_one_to_a_hundred() {
    assert!(matches!(page_limit(None), Ok(50)));
    assert!(matches!(page_limit(Some(1)), Ok(1)));
    assert!(matches!(page_limit(Some(100)), Ok(100)));
    assert!(matches!(page_limit(Some(0)), Err(PageError::LimitOutOfRange)));
    assert!(matches!(page_limit(Some(101)), Err(PageError::LimitOutOfRange)));
}

#[test]
fn ties_in_date_break_by_larger_id() {
    let sorted = sort_newest_first(vec![entry(1, 5), entry(3, 9), entry(2, 5), entry(4, 1)]);
    let ids: Vec<i64> = sorted.iter().map(|e| e.id).collect();
    assert_eq!(ids, vec![3, 2, 1, 4]);
}

#[test]
fn following_next_offset_covers_the_listing_once() {
    let js = vec![Journal { pk: 1, name: "Journal".to_string(), is_default: true }];
    let listing = || (0..7).rev().map(|i| entry(i, i)).collect::<Vec<Entry>>();
    let m = memberships(&vec![(6, 1)], &js, &(0..7).collect());
    let mut seen = vec![];
    let mut offset = 0;
    loop {
        let p = page(listing(), &m, 3, offset);
        assert_eq!(p.total, 7);
        for pe in &p.entries {
            assert_eq!(pe.journal_ids, vec![1]);
            seen.push(pe.entry.id);
        }
        match p.next_offset {
            Some(n) => offset = n,
            None => break,
        }
    }
    assert_eq!(seen, vec![6, 5, 4, 3, 2, 1, 0]);
}

#[test]
fn pages_past_the_end_are_empty() {
    let js = vec![Journal { pk: 1, name: "Journal".to_string(), is_default: true }];
    let m = memberships(&vec![], &js, &vec![]);
    let p = page(vec![entry(1, 1)], &m, 10, 5);
    assert_eq!(p.entries.len(), 0);
    assert_eq!(p.total, 1);
    assert!(p.next_offset.is_none());
}

#[test]
fn searches_need_a_query() {
    assert!(search_query_ok(Some("ramen")));
    assert!(!search_query_ok(Some("   ")));
    assert!(!search_query_ok(None));
}

#[test]
fn tool_edits_leave_merged_text_alone() {
    assert!(tool_edit_allowed(false, true, true, true));
    assert!(tool_edit_allowed(true, false, false, false));
    assert!(!tool_edit_allowed(true, true, false, false));
    assert!(!tool_edit_allowed(true, false, false, true));
}

#[test]
fn bookmark_options_map_to_flags() {
    assert_eq!(bookmark_flags(Some(true)), (true, false));
    assert_eq!(bookmark_flags(Some(false)), (false, true));
    assert_eq!(bookmark_flags(None), (false, false));
}

#[test]
fn exports_target_the_directory_or_a_json_file() {
    assert_eq!(export_target("/tmp/out", ExportFormat::Md), "/tmp/out");
    assert_eq!(export_target("/tmp/out", ExportFormat::Json), "/tmp/out/journal.json");
    assert!(is_absolute("/tmp/out"));
    assert!(!is_absolute("out"));
}
