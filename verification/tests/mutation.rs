use journal_rs::cli::MapSize;
use journal_rs::mutation::{asset_plan, AssetSource};
use journal_rs::model::Journal;
use journal_rs::mutation::{
    attachment_relative, delete_action, delete_operation, edit_guard, edit_requested, empty_plan,
    file_label, library_identifier, media_kind, next_key, ordering, pick_photo, removal_guard,
    resizes, restore_guard, stage_plan, text_length, DeleteAction, OrderingError, OrderingValue,
    Refusal, StageError, StagePlan,
};

fn text(s: &str) -> OrderingValue {
    OrderingValue::Text(s.to_string())
}

#[test]
fn primary_keys_advance_by_one() {
    assert_eq!(next_key(41), Some(42));
    assert_eq!(next_key(i64::MAX), None);
}

#[test]
fn ordering_appends_new_assets_after_kept_ones() {
    let cur = vec![text("A"), OrderingValue::Integer(0), text("B"), OrderingValue::Integer(5)];
    let out = ordering(&cur, &vec!["C".to_string(), "D".to_string()], &vec![]).ok().unwrap();
    let got: Vec<(String, i64)> = out;
    assert_eq!(
        got,
        vec![
            ("A".to_string(), 0),
            ("B".to_string(), 5),
            ("C".to_string(), 6),
            ("D".to_string(), 7)
        ]
    );
}

#[test]
fn ordering_drops_removed_assets() {
    let cur = vec![text("A"), OrderingValue::Integer(3), text("B"), OrderingValue::Integer(1)];
    let out = ordering(&cur, &vec!["N".to_string()], &vec!["A".to_string()]).ok().unwrap();
    assert_eq!(out, vec![("B".to_string(), 1), ("N".to_string(), 2)]);
    let empty = ordering(&vec![], &vec!["N".to_string()], &vec![]).ok().unwrap();
    assert_eq!(empty, vec![("N".to_string(), 0)]);
}

#[test]
fn malformed_orderings_are_refused() {
    assert!(matches!(ordering(&vec![text("A")], &vec![], &vec![]), Err(OrderingError::Pairs)));
    assert!(matches!(
        ordering(&vec![OrderingValue::Integer(42), OrderingValue::Integer(0)], &vec![], &vec![]),
        Err(OrderingError::Uuid)
    ));
    assert!(matches!(
        ordering(&vec![text("uuid"), text("bad index")], &vec![], &vec![]),
        Err(OrderingError::Index)
    ));
    assert!(matches!(
        ordering(&vec![text("uuid"), OrderingValue::Other], &vec![], &vec![]),
        Err(OrderingError::Index)
    ));
    assert!(matches!(
        ordering(&vec![text("uuid"), OrderingValue::Integer(i64::MAX)], &vec![], &vec![]),
        Err(OrderingError::Overflow)
    ));
}

#[test]
fn a_removed_pair_with_a_huge_index_is_no_overflow() {
    let cur = vec![text("uuid"), OrderingValue::Integer(i64::MAX)];
    let out = ordering(&cur, &vec![], &vec!["uuid".to_string()]).ok().unwrap();
    assert!(out.is_empty());
}

#[test]
fn adding_after_the_largest_index_overflows() {
    let cur = vec![text("a"), OrderingValue::Integer(i64::MAX - 1)];
    assert!(matches!(
        ordering(&cur, &vec!["n".to_string()], &vec![]),
        Err(OrderingError::Overflow)
    ));
}

#[test]
fn crdt_entries_refuse_text_edits_unless_forced() {
    assert!(matches!(edit_guard(true, false, true, false), Err(Refusal::MergeableText)));
    assert!(edit_guard(true, false, true, true).is_ok());
    assert!(matches!(edit_guard(false, true, true, true), Err(Refusal::MergeableJournal)));
    assert!(edit_guard(true, true, false, false).is_ok());
}

#[test]
fn synced_entries_need_force_to_purge() {
    assert!(matches!(delete_action(false, true, false), Ok(DeleteAction::Soft)));
    assert!(matches!(delete_action(true, true, false), Err(Refusal::SyncedHardDelete)));
    assert!(matches!(delete_action(true, true, true), Ok(DeleteAction::Purge)));
    assert!(matches!(delete_action(true, false, false), Ok(DeleteAction::Purge)));
    assert_eq!(delete_operation(true), "hard-delete");
    assert_eq!(delete_operation(false), "soft-delete");
}

#[test]
fn only_deleted_entries_restore() {
    assert!(restore_guard(true).is_ok());
    assert!(matches!(restore_guard(false), Err(Refusal::NotDeleted)));
}

#[test]
fn media_removal_refuses_other_assets() {
    assert!(removal_guard("photo", true).is_ok());
    assert!(removal_guard("livePhoto", true).is_ok());
    assert!(matches!(removal_guard("multiPinMap", true), Err(Refusal::NotMedia)));
    assert!(removal_guard("multiPinMap", false).is_ok());
}

#[test]
fn stored_length_counts_grapheme_clusters() {
    assert_eq!(text_length("café"), 4);
    assert_eq!(text_length("👨\u{200d}👩\u{200d}👦"), 1);
    assert_eq!(text_length(""), 0);
}

#[test]
fn emptying_skips_synced_entries_unless_forced() {
    let rows = vec![(1, false), (2, true), (3, false)];
    let plan = empty_plan(&rows, false);
    assert_eq!(plan.purge, vec![1, 3]);
    assert_eq!(plan.skipped, 1);
    let forced = empty_plan(&rows, true);
    assert_eq!(forced.purge, vec![1, 2, 3]);
    assert_eq!(forced.skipped, 0);
}

fn journals() -> Vec<Journal> {
    vec![
        Journal { pk: 1, name: "Journal".to_string(), is_default: true },
        Journal { pk: 2, name: "Travel".to_string(), is_default: false },
    ]
}

#[test]
fn staging_moves_to_custom_journals_only() {
    let js = journals();
    assert!(matches!(stage_plan(&js, None), Ok(StagePlan::Keep)));
    assert!(matches!(stage_plan(&js, Some("travel")), Ok(StagePlan::Move(2))));
    assert!(matches!(stage_plan(&js, Some("1")), Ok(StagePlan::Clear)));
    assert!(matches!(stage_plan(&js, Some("nowhere")), Err(StageError::UnknownJournal)));
}

#[test]
fn media_files_are_named_by_kind() {
    assert_eq!(media_kind("clip.MOV"), "video");
    assert_eq!(media_kind("a.png"), "photo");
    assert_eq!(file_label("heic"), "image");
    assert_eq!(file_label("mov"), "video");
    assert!(resizes("jpg", true, false));
    assert!(!resizes("jpg", true, true));
    assert!(!resizes("mov", true, false));
    assert!(!resizes("jpg", false, false));
}

#[test]
fn attachment_files_live_under_entry_and_asset() {
    assert_eq!(attachment_relative("E", "A", "F", false, "jpg"), "E/A/F_resized.jpg");
    assert_eq!(attachment_relative("E", "A", "F", true, "mov"), "E/A/F.mov");
}

#[test]
fn photos_library_files_name_their_asset() {
    let p = "/Users/me/Pictures/Photos Library.photoslibrary/originals/1/1b2c3d4e-0000-4000-8000-000000000001.jpeg";
    assert_eq!(
        library_identifier(p).unwrap(),
        "1B2C3D4E-0000-4000-8000-000000000001/L0/001"
    );
    assert!(library_identifier("/tmp/1b2c3d4e-0000-4000-8000-000000000001.jpeg").is_none());
    assert!(library_identifier("/x.photoslibrary/not-a-uuid.jpeg").is_none());
}

#[test]
fn photo_matches_need_one_candidate() {
    let one = vec![("U1".to_string(), None)];
    assert_eq!(pick_photo(&one, None).unwrap(), "U1/L0/001");
    let two = vec![("U1".to_string(), Some(10)), ("U2".to_string(), Some(20))];
    assert_eq!(pick_photo(&two, Some(20)).unwrap(), "U2/L0/001");
    assert!(pick_photo(&two, Some(30)).is_none());
    assert!(pick_photo(&two, None).is_none());
    let same = vec![("U1".to_string(), Some(10)), ("U2".to_string(), Some(10))];
    assert!(pick_photo(&same, Some(10)).is_none());
}

#[test]
fn edits_must_ask_for_something() {
    assert!(!edit_requested(false, false, false, false, false, 0));
    assert!(edit_requested(false, false, false, false, false, 1));
    assert!(edit_requested(false, false, true, false, false, 0));
}

#[test]
fn edit_plan_clears_given_blank_fields_and_keeps_omitted_ones() {
    let p = journal_rs::mutation::edit_plan(Some(""), Some("T"), false, false, true, false, true, false);
    assert_eq!(p.text, Some(false));
    assert_eq!(p.text_length, Some(0));
    assert_eq!(p.title, Some(true));
    assert!(!p.set_date);
    assert_eq!(p.flag, Some(false));
    assert!(p.remove_maps);
    assert!(!p.remove_all_media);

    let q = journal_rs::mutation::edit_plan(None, None, true, true, false, false, false, true);
    assert_eq!(q.text, None);
    assert_eq!(q.text_length, None);
    assert_eq!(q.title, None);
    assert!(q.set_date);
    assert_eq!(q.flag, Some(true));
    assert!(!q.remove_maps);
    assert!(q.remove_all_media);

    let r = journal_rs::mutation::edit_plan(Some("  新しい本文 "), Some("   "), false, false, false, true, false, false);
    assert_eq!(r.text, Some(true));
    assert_eq!(r.text_length, Some(8));
    assert_eq!(r.title, Some(false));
    assert_eq!(r.flag, None);
    assert!(r.remove_maps);
}

#[test]
fn asset_plan_orders_media_then_pair_link_and_map() {
    let media = vec!["a.MOV".to_string(), "b.jpg".to_string()];
    let steps = asset_plan(&media, true, true, Some(MapSize::Large));
    let got: Vec<(AssetSource, &str, &str, i64)> = steps.iter().map(|s| (s.from, s.kind, s.source, s.slim)).collect();
    assert_eq!(
        got,
        vec![
            (AssetSource::Media(0), "video", "imagePicker", 0),
            (AssetSource::Media(1), "photo", "imagePicker", 0),
            (AssetSource::LivePhoto, "livePhoto", "imagePicker", 0),
            (AssetSource::Link, "link", "shareSheet", 0),
            (AssetSource::Location, "multiPinMap", "locationPicker", 0),
        ]
    );
    let small = asset_plan(&Vec::new(), false, false, Some(MapSize::Small));
    assert_eq!(small.len(), 1);
    assert_eq!(small[0].slim, 1);
    assert!(asset_plan(&Vec::new(), false, false, None).is_empty());
}
