use journal_rs::model::{listed, Entry, Journal};
use journal_rs::query::{contains_id, entries, memberships, resolve_journal, Filter, QueryError};

fn entry(id: i64, ts: i64, title: &str, text: &str) -> Entry {
    Entry {
        id,
        uuid: None,
        date: Some(format!("d{ts}")),
        title: title.to_string(),
        text: text.to_string(),
        chars: 0,
        bookmarked: false,
        draft: false,
        synced: true,
        timestamp: Some(ts),
    }
}

fn journals() -> Vec<Journal> {
    vec![
        Journal { pk: 1, name: "Journal".to_string(), is_default: true },
        Journal { pk: 2, name: "Travel".to_string(), is_default: false },
        Journal { pk: 3, name: "travel".to_string(), is_default: false },
    ]
}

fn filter() -> Filter {
    Filter {
        since: None,
        until: None,
        exclusive_until: false,
        journal: None,
        text: None,
        include_empty: false,
    }
}

#[test]
fn numeric_selectors_name_keys_and_others_name_names() {
    let js = journals();
    assert_eq!(resolve_journal(&js, "2").unwrap().pk, 2);
    assert!(resolve_journal(&js, "TRAVEL").is_none());
    assert_eq!(resolve_journal(&js, "journal").unwrap().pk, 1);
    assert!(resolve_journal(&js, "9").is_none());
}

#[test]
fn entries_without_rows_belong_to_the_default_journal() {
    let m = memberships(&vec![(10, 2), (10, 3)], &journals(), &vec![10, 11]);
    assert_eq!(m.get(&10).unwrap(), &vec![2, 3]);
    assert_eq!(m.get(&11).unwrap(), &vec![1]);
    assert!(contains_id(&vec![2, 3], 3));
    assert!(!contains_id(&vec![2, 3], 1));
}

#[test]
fn empty_entries_are_listed_only_on_request() {
    let rows = vec![entry(1, 5, "", ""), entry(2, 4, "t", "")];
    assert_eq!(listed(rows, false).len(), 1);
    let rows = vec![entry(1, 5, "", ""), entry(2, 4, "t", "")];
    assert_eq!(listed(rows, true).len(), 2);
}

#[test]
fn inclusive_and_exclusive_until() {
    let rows = || vec![entry(3, 30, "", "c"), entry(2, 20, "", "b"), entry(1, 10, "", "a")];
    let m = memberships(&vec![], &journals(), &vec![1, 2, 3]);
    let mut f = filter();
    f.since = Some(10);
    f.until = Some(20);
    let ids: Vec<i64> = entries(rows(), &journals(), &m, &f).ok().unwrap().iter().map(|e| e.id).collect();
    assert_eq!(ids, vec![2, 1]);
    f.exclusive_until = true;
    let ids: Vec<i64> = entries(rows(), &journals(), &m, &f).ok().unwrap().iter().map(|e| e.id).collect();
    assert_eq!(ids, vec![1]);
}

#[test]
fn adjacent_half_open_windows_split_a_range() {
    let rows = || vec![entry(3, 30, "", "c"), entry(2, 20, "", "b"), entry(1, 10, "", "a")];
    let m = memberships(&vec![], &journals(), &vec![1, 2, 3]);
    let window = |a: i64, b: i64| {
        let mut f = filter();
        f.since = Some(a);
        f.until = Some(b);
        f.exclusive_until = true;
        entries(rows(), &journals(), &m, &f).ok().unwrap().iter().map(|e| e.id).collect::<Vec<i64>>()
    };
    let mut both = window(10, 20);
    both.extend(window(20, 31));
    both.sort();
    let mut whole = window(10, 31);
    whole.sort();
    assert_eq!(both, whole);
}

#[test]
fn search_is_case_insensitive_over_title_and_body() {
    let rows = vec![entry(2, 2, "Café", ""), entry(1, 1, "", "台灣 café 👨\u{200d}👩\u{200d}👦")];
    let m = memberships(&vec![], &journals(), &vec![1, 2]);
    let mut f = filter();
    f.text = Some("CAFÉ".to_string());
    let found = entries(rows, &journals(), &m, &f).ok().unwrap();
    assert_eq!(found.len(), 2);
}

#[test]
fn journal_filters_use_memberships() {
    let rows = vec![entry(2, 2, "", "b"), entry(1, 1, "", "a")];
    let m = memberships(&vec![(2, 2)], &journals(), &vec![1, 2]);
    let mut f = filter();
    f.journal = Some("2".to_string());
    let ids: Vec<i64> = entries(rows, &journals(), &m, &f).ok().unwrap().iter().map(|e| e.id).collect();
    assert_eq!(ids, vec![2]);
}

#[test]
fn bad_filters_are_refused() {
    let m = memberships(&vec![], &journals(), &vec![]);
    let mut f = filter();
    f.since = Some(5);
    f.until = Some(4);
    assert!(matches!(entries(vec![], &journals(), &m, &f), Err(QueryError::SinceAfterUntil)));
    let mut g = filter();
    g.journal = Some("TRAVEL".to_string());
    assert!(matches!(entries(vec![], &journals(), &m, &g), Err(QueryError::UnknownJournal)));
}
