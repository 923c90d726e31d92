use journal_rs::cli::MapSize;
use journal_rs::input::{
    check_media, ext, live_pair, location_given, photo_ext, prepare_title, supported_media,
    video_ext, InputError, LocationLabel, PreparedEntry, PreparedText,
};

fn empty_entry() -> PreparedEntry {
    PreparedEntry {
        body: None,
        title: None,
        media: vec![],
        pair: None,
        location: None,
        link: None,
        date: None,
        journal: None,
    }
}

#[test]
fn extensions_are_lower_cased() {
    assert_eq!(ext("/tmp/IMG_0001.JPG"), "jpg");
    assert_eq!(ext("clip.mov"), "mov");
    assert_eq!(ext("archive.tar.GZ"), "gz");
    assert_eq!(ext("no_extension"), "");
    assert_eq!(ext(".bashrc"), "");
}

#[test]
fn media_types_follow_the_extension_lists() {
    for e in ["jpg", "jpeg", "heic", "heif", "png", "gif", "tiff", "webp"] {
        assert!(photo_ext(e));
        assert!(!video_ext(e));
    }
    for e in ["mov", "mp4", "m4v", "avi"] {
        assert!(video_ext(e));
        assert!(!photo_ext(e));
    }
    assert!(!photo_ext("JPG"));
    assert!(supported_media("a/B.HEIC"));
    assert!(supported_media("clip.MP4"));
    assert!(!supported_media("notes.txt"));
}

#[test]
fn live_photos_are_an_image_then_a_video() {
    assert!(matches!(live_pair(&vec![]), Ok(None)));
    let ok = live_pair(&vec!["a.jpg".to_string(), "b.mov".to_string()]);
    match ok {
        Ok(Some((a, b))) => {
            assert_eq!(a, "a.jpg");
            assert_eq!(b, "b.mov");
        }
        _ => panic!("pair refused"),
    }
    assert!(matches!(
        live_pair(&vec!["b.mov".to_string(), "a.jpg".to_string()]),
        Err(InputError::LivePhotoOrder)
    ));
    assert!(matches!(live_pair(&vec!["a.jpg".to_string()]), Err(InputError::LivePhotoOrder)));
}

#[test]
fn the_first_media_problem_is_reported() {
    let paths = vec!["a.jpg".to_string(), "b.txt".to_string(), "c.mov".to_string()];
    assert!(matches!(
        check_media(&paths, &vec![true, true, false]),
        Some(InputError::UnsupportedMedia(1))
    ));
    assert!(matches!(
        check_media(&paths, &vec![true, false, true]),
        Some(InputError::MissingMedia(1))
    ));
    let good = vec!["a.jpg".to_string(), "c.mov".to_string()];
    assert!(check_media(&good, &vec![true, true]).is_none());
}

#[test]
fn coordinates_come_in_pairs() {
    assert!(matches!(location_given(true, true), Ok(true)));
    assert!(matches!(location_given(false, false), Ok(false)));
    assert!(matches!(location_given(true, false), Err(InputError::UnpairedCoordinates)));
    assert!(matches!(location_given(false, true), Err(InputError::UnpairedCoordinates)));
}

#[test]
fn markdown_titles_keep_their_inline_text() {
    assert_eq!(prepare_title("**Bold** day", true), "Bold day");
    assert_eq!(prepare_title("**Bold** day", false), "**Bold** day");
}

#[test]
fn content_needs_more_than_whitespace() {
    let mut e = empty_entry();
    assert!(!e.has_content());
    assert!(!e.has_changes());
    e.title = Some("   ".to_string());
    assert!(!e.has_content());
    assert!(e.has_changes());
    e.body = Some(PreparedText::from_encoded("hello".to_string(), vec![1], "ignored".to_string(), false));
    assert!(e.has_content());
    assert_eq!(e.body.as_ref().unwrap().plain, "hello");
}

#[test]
fn locations_links_and_dates_count() {
    let mut e = empty_entry();
    e.location = Some(LocationLabel { place: None, city: None, size: MapSize::Small });
    assert!(e.has_content());
    let mut f = empty_entry();
    f.date = Some(0);
    assert!(!f.has_content());
    assert!(f.has_changes());
    let mut g = empty_entry();
    g.journal = Some("2".to_string());
    assert!(g.has_changes());
    let md = PreparedText::from_encoded("**a**".to_string(), vec![], "a".to_string(), true);
    assert_eq!(md.plain, "a");
}

#[test]
fn extensions_follow_the_final_path_component() {
    assert_eq!(ext("photos/holiday.HEIC/"), "heic");
    assert_eq!(ext("photos/holiday.png/."), "png");
    assert_eq!(ext("dir.d/file"), "");
    assert_eq!(ext("notes."), "");
    assert_eq!(ext("..a"), "a");
    assert_eq!(ext("a/.."), "");
    assert_eq!(ext("/"), "");
    assert_eq!(ext(""), "");
    assert_eq!(ext("写真.JPEG"), "jpeg");
}
