use journal_rs::model::{Entry, Journal};
use journal_rs::read::{
    audit_items, audit_targets, journal_counts, limit_listing, stats, words, AuditError,
};

fn entry(id: i64, date: &str, title: &str, text: &str) -> Entry {
    Entry {
        id,
        uuid: None,
        date: Some(date.to_string()),
        title: title.to_string(),
        text: text.to_string(),
        chars: 0,
        bookmarked: false,
        draft: false,
        synced: true,
        timestamp: Some(id),
    }
}

#[test]
fn words_are_runs_of_non_whitespace() {
    assert_eq!(words("Coffee after a walk."), 4);
    assert_eq!(words("  spaced\tout\n\nwords  "), 3);
    assert_eq!(words(""), 0);
    assert_eq!(words("台灣 café"), 2);
}

#[test]
fn statistics_count_written_entries() {
    let all = vec![
        entry(3, "2025-03-01 10:00:00", "", "three words here"),
        entry(2, "2024-12-31 23:00:00", "title only", ""),
        entry(1, "2024-01-05 08:00:00", "", "one"),
    ];
    let s = stats(&all, 7, 2);
    assert_eq!(s.entries, 2);
    assert_eq!(s.rows, 3);
    assert_eq!(s.words, 4);
    assert_eq!(s.attachments, 7);
    assert_eq!(s.locations, 2);
    assert_eq!(s.by_year, vec![("2024".to_string(), 1), ("2025".to_string(), 1)]);
    assert_eq!(s.first.unwrap(), "2024-01-05 08:00:00");
    assert_eq!(s.last.unwrap(), "2025-03-01 10:00:00");
}

#[test]
fn the_histogram_orders_and_counts_years() {
    let all = vec![
        entry(4, "2026-01-01 00:00:00", "", "a"),
        entry(3, "2024-06-01 00:00:00", "", "b"),
        entry(2, "2025-06-01 00:00:00", "", "c"),
        entry(1, "2024-01-01 00:00:00", "", "d"),
    ];
    let s = stats(&all, 0, 0);
    assert_eq!(
        s.by_year,
        vec![("2024".to_string(), 2), ("2025".to_string(), 1), ("2026".to_string(), 1)]
    );
    let total: usize = s.by_year.iter().map(|(_, n)| *n).sum();
    assert_eq!(total, s.entries);
}

#[test]
fn empty_libraries_have_no_range() {
    let s = stats(&vec![], 0, 0);
    assert_eq!(s.entries, 0);
    assert!(s.first.is_none());
    assert!(s.last.is_none());
    assert!(s.by_year.is_empty());
}

fn journals() -> Vec<Journal> {
    vec![
        Journal { pk: 1, name: "Journal".to_string(), is_default: true },
        Journal { pk: 2, name: "Travel".to_string(), is_default: false },
        Journal { pk: 3, name: "Work".to_string(), is_default: false },
    ]
}

#[test]
fn the_default_journal_counts_unassigned_entries() {
    let counts = journal_counts(&journals(), &vec![1, 4, 0], 5);
    let got: Vec<(i64, i64)> = counts.iter().map(|c| (c.journal.pk, c.entries)).collect();
    assert_eq!(got, vec![(1, 6), (2, 4), (3, 0)]);
}

#[test]
fn audits_skip_the_default_journal() {
    let all = audit_targets(&journals(), None).ok().unwrap();
    let pks: Vec<i64> = all.iter().map(|j| j.pk).collect();
    assert_eq!(pks, vec![2, 3]);
    let one = audit_targets(&journals(), Some("work")).ok().unwrap();
    assert_eq!(one.len(), 1);
    assert_eq!(one[0].pk, 3);
    assert!(matches!(audit_targets(&journals(), Some("1")), Err(AuditError::DefaultJournal)));
    assert!(matches!(audit_targets(&journals(), Some("nope")), Err(AuditError::UnknownJournal)));
}

#[test]
fn audit_items_list_journals_with_pending_entries() {
    let targets = audit_targets(&journals(), None).ok().unwrap();
    let items = audit_items(&targets, &vec![0, 3]);
    assert_eq!(items.len(), 1);
    assert_eq!(items[0].name, "Work");
    assert_eq!(items[0].entries, 3);
}

#[test]
fn limits_truncate_newest_first_listings() {
    let es = vec![entry(3, "d", "", "a"), entry(2, "d", "", "b"), entry(1, "d", "", "c")];
    let ids: Vec<i64> = limit_listing(es, Some(2)).iter().map(|e| e.id).collect();
    assert_eq!(ids, vec![3, 2]);
    let es = vec![entry(3, "d", "", "a")];
    assert_eq!(limit_listing(es, Some(5)).len(), 1);
    let es = vec![entry(3, "d", "", "a"), entry(2, "d", "", "b")];
    assert_eq!(limit_listing(es, None).len(), 2);
}

#[test]
fn years_without_written_entries_are_not_listed() {
    let all = vec![
        entry(2, "2023-05-01 00:00:00", "title only", ""),
        entry(1, "2022-05-01 00:00:00", "", ""),
    ];
    let s = stats(&all, 0, 0);
    assert_eq!(s.entries, 0);
    assert!(s.by_year.is_empty());
}
