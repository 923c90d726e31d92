use journal_rs::store::{
    attachments, default_db, live_write, parse_date, uid, uuid, uuid_bytes, LiveRefusal,
};

#[test]
fn default_store_lives_under_home() {
    assert_eq!(
        default_db("/Users/me"),
        "/Users/me/Library/Group Containers/group.com.apple.moments/Library/moments.sqlite"
    );
}

#[test]
fn attachments_sit_beside_the_store() {
    assert_eq!(attachments("/tmp/demo/moments.sqlite"), "/tmp/demo/Attachments");
    assert_eq!(attachments("moments.sqlite"), "Attachments");
    assert_eq!(attachments(""), "./Attachments");
}

#[test]
fn uuid_blobs_render_upper_case_hyphenated() {
    let bytes: Vec<u8> = vec![
        0xa1, 0xa2, 0xa3, 0xa4, 0xb1, 0xb2, 0xc1, 0xc2, 0xd1, 0xd2, 0xd3, 0xd4, 0xd5, 0xd6, 0xd7, 0xd8,
    ];
    assert_eq!(uuid(Some(&bytes)).unwrap(), "A1A2A3A4-B1B2-C1C2-D1D2-D3D4D5D6D7D8");
    assert!(uuid(Some(&bytes[..15].to_vec())).is_none());
    assert!(uuid(None).is_none());
}

#[test]
fn uuid_text_reads_back_as_its_bytes() {
    let bytes: Vec<u8> = (0u8..16).map(|b| b.wrapping_mul(37)).collect();
    let text = uuid(Some(&bytes)).unwrap();
    assert_eq!(uuid_bytes(&text).ok().unwrap(), bytes);
    assert_eq!(uuid_bytes(&text.to_lowercase()).ok().unwrap(), bytes);
}

#[test]
fn malformed_uuid_text_is_refused() {
    assert!(uuid_bytes("not a uuid").is_err());
    assert!(uuid_bytes("").is_err());
}

#[test]
fn new_identifiers_are_version_four() {
    let a = uid();
    let b = uid();
    assert_eq!(a.len(), 36);
    assert_ne!(a, b);
    let chars: Vec<char> = a.chars().collect();
    assert_eq!(chars[8], '-');
    assert_eq!(chars[14], '4');
    assert!("89AB".contains(chars[19]));
    assert_eq!(a, a.to_uppercase());
    assert!(uuid_bytes(&a).is_ok());
}

#[test]
fn dates_read_in_the_documented_formats() {
    let d = parse_date("2024-02-29").unwrap();
    assert_eq!((d.year, d.month, d.day, d.hour, d.minute, d.second), (2024, 2, 29, 0, 0, 0));
    let t = parse_date("2025-09-18T12:30:05").unwrap();
    assert_eq!((t.year, t.month, t.day, t.hour, t.minute, t.second), (2025, 9, 18, 12, 30, 5));
    let u = parse_date("2025-09-18 12:30:05").unwrap();
    assert_eq!((u.hour, u.minute, u.second), (12, 30, 5));
    let v = parse_date("2025-09-18 07:45").unwrap();
    assert_eq!((v.hour, v.minute, v.second), (7, 45, 0));
}

#[test]
fn impossible_or_foreign_dates_are_refused() {
    assert!(parse_date("2024-02-31").is_none());
    assert!(parse_date("2024/02/01").is_none());
    assert!(parse_date("yesterday").is_none());
}

#[test]
fn live_writes_need_every_guard() {
    assert!(matches!(live_write(false, false, true, true), Err(LiveRefusal::NeedLive)));
    assert!(matches!(live_write(true, true, true, true), Err(LiveRefusal::JournalRunning)));
    assert!(matches!(live_write(true, false, false, false), Err(LiveRefusal::NeedRisk)));
    assert!(matches!(live_write(true, false, false, true), Ok(true)));
    assert!(matches!(live_write(true, false, true, false), Ok(false)));
}

#[test]
fn a_store_is_three_files() {
    assert_eq!(
        journal_rs::store::store_files("/s/moments.sqlite"),
        vec![
            "/s/moments.sqlite".to_string(),
            "/s/moments.sqlite-wal".to_string(),
            "/s/moments.sqlite-shm".to_string()
        ]
    );
}

#[test]
fn uuid_text_is_read_in_every_spelling() {
    let bytes: Vec<u8> = vec![
        0x55, 0x0e, 0x84, 0x00, 0xe2, 0x9b, 0x41, 0xd4, 0xa7, 0x16, 0x44, 0x66, 0x55, 0x44, 0x00, 0x00,
    ];
    assert_eq!(uuid_bytes("550e8400e29b41d4a716446655440000").ok().unwrap(), bytes);
    assert_eq!(uuid_bytes("550E8400-E29B-41d4-A716-446655440000").ok().unwrap(), bytes);
    assert_eq!(uuid_bytes("{550e8400-e29b-41d4-a716-446655440000}").ok().unwrap(), bytes);
    assert_eq!(uuid_bytes("URN:uuid:550e8400-e29b-41d4-a716-446655440000").ok().unwrap(), bytes);
    assert!(uuid_bytes("550e8400+e29b-41d4-a716-446655440000").is_err());
    assert!(uuid_bytes("urn:uuid:550e8400e29b41d4a716446655440000").is_err());
    assert!(uuid_bytes("550e8400-e29b-41d4-a716-44665544000g").is_err());
}
