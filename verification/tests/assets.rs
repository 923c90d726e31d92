use journal_rs::assets::{
    asset_kind, attachment_path, drawing_text, external_path, journal_of, metadata_source,
    transcript, AssetKind, MetadataError, MetadataSource,
};

#[test]
fn journal_rows_decode_names_and_the_default() {
    let blob: Vec<u8> = b"\x00\x01Travel\x02title\x03".to_vec();
    let j = journal_of(2, Some(&blob), false);
    assert_eq!(j.pk, 2);
    assert_eq!(j.name, "Travel");
    assert!(!j.is_default);
    let d = journal_of(1, None, true);
    assert_eq!(d.name, "Journal");
    assert!(d.is_default);
    assert!(!journal_of(1, None, false).is_default);
}

#[test]
fn metadata_blobs_point_at_their_json() {
    assert!(matches!(metadata_source(None), Ok(MetadataSource::Empty)));
    assert!(matches!(metadata_source(Some(&vec![])), Ok(MetadataSource::Empty)));
    match metadata_source(Some(&b"\x01{\"duration\":2.5}".to_vec())) {
        Ok(MetadataSource::Inline(b)) => assert_eq!(b, b"{\"duration\":2.5}".to_vec()),
        _ => panic!("inline metadata expected"),
    }
    match metadata_source(Some(&b"{}".to_vec())) {
        Ok(MetadataSource::Inline(b)) => assert_eq!(b, b"{}".to_vec()),
        _ => panic!("bare metadata expected"),
    }
    match metadata_source(Some(&b"\x02ABC\x00".to_vec())) {
        Ok(MetadataSource::External(r)) => assert_eq!(r, "ABC"),
        _ => panic!("external metadata expected"),
    }
}

#[test]
fn external_references_stay_inside_their_directory() {
    for bad in [&b"\x02../x"[..], &b"\x02.."[..], &b"\x02\x00\x00"[..], &b"\x02a/b"[..]] {
        assert!(matches!(metadata_source(Some(&bad.to_vec())), Err(MetadataError::InvalidReference)));
    }
    assert!(matches!(metadata_source(Some(&vec![2, 0xff])), Err(MetadataError::NotUtf8)));
    assert_eq!(
        external_path("/s/moments.sqlite", "ABC"),
        "/s/.moments_SUPPORT/_EXTERNAL_DATA/ABC"
    );
}

#[test]
fn asset_kinds_select_their_schema() {
    assert!(asset_kind("multiPinMap") == AssetKind::Places);
    assert!(asset_kind("genericMap") == AssetKind::Places);
    assert!(asset_kind("audio") == AssetKind::Audio);
    assert!(asset_kind("drawing") == AssetKind::Drawing);
    assert!(asset_kind("link") == AssetKind::Link);
    assert!(asset_kind("photo") == AssetKind::Other);
}

#[test]
fn transcripts_join_spoken_segments() {
    let segs = vec![Some("hello".to_string()), None, Some(String::new()), Some("world".to_string())];
    assert_eq!(transcript(&segs).unwrap(), "hello world");
    assert!(transcript(&vec![None, Some(String::new())]).is_none());
    assert_eq!(transcript(&vec![Some("spoken memory".to_string())]).unwrap(), "spoken memory");
}

#[test]
fn drawing_text_is_trimmed() {
    assert_eq!(drawing_text(Some("  handwriting  ")).unwrap(), "handwriting");
    assert!(drawing_text(Some("   ")).is_none());
    assert!(drawing_text(None).is_none());
}

#[test]
fn attachment_paths_resolve_against_the_store() {
    assert_eq!(
        attachment_path("/s/moments.sqlite", Some("E/A/f.jpg")).unwrap(),
        "/s/Attachments/E/A/f.jpg"
    );
    assert_eq!(attachment_path("/s/moments.sqlite", Some("/abs/f.jpg")).unwrap(), "/abs/f.jpg");
    assert!(attachment_path("/s/moments.sqlite", Some("")).is_none());
    assert!(attachment_path("/s/moments.sqlite", None).is_none());
}
