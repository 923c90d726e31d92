//! Text and media prepared before a write transaction opens.
use crate::cli::MapSize;
use crate::markdown::spec_inline;
use crate::paths::{extension, path_extension};
use crate::text::{all_ascii, ascii_lower, chars_of, lowercase, same_chars, spec_trim, to_lowercase, trim};
use vstd::prelude::*;

verus! {

// ---------------------------------------------------------------------------------------
// Media types
// ---------------------------------------------------------------------------------------
/// The lower-cased extension of a path; empty when it has none.
pub open spec fn spec_ext(p: Seq<char>) -> Seq<char> {
    lowercase(
        match path_extension(p) {
            Some(e) => e,
            None => Seq::empty(),
        },
    )
}

/// The lower-cased extension of a path; see `spec_ext`.
pub fn ext(p: &str) -> (r: String)
    ensures
        r@ == spec_ext(p@),
        path_extension(p@) is None ==> r@ == Seq::<char>::empty(),
        path_extension(p@) matches Some(e) ==> (all_ascii(e) ==> r@ == e.map_values(|c: char| ascii_lower(c))),
{
    match extension(p) {
        Some(e) => to_lowercase(e.as_str()),
        None => {
            let e = String::new();
            let r = to_lowercase(e.as_str());
            proof {
                assert(r@ =~= Seq::<char>::empty());
            }
            r
        },
    }
}

/// Image extensions that Journal takes as photos.
pub open spec fn is_photo_ext(e: Seq<char>) -> bool {
    e == "jpg"@ || e == "jpeg"@ || e == "heic"@ || e == "heif"@ || e == "png"@ || e == "gif"@
        || e == "tiff"@ || e == "webp"@
}

/// Movie extensions that Journal takes as videos.
pub open spec fn is_video_ext(e: Seq<char>) -> bool {
    e == "mov"@ || e == "mp4"@ || e == "m4v"@ || e == "avi"@
}

fn is_one_of(e: &Vec<char>, names: &Vec<&str>) -> (r: bool)
    ensures
        r == exists|i: int| 0 <= i < names@.len() && e@ == (#[trigger] names@[i])@,
{
    let mut i: usize = 0;
    while i < names.len()
        invariant
            0 <= i <= names@.len(),
            forall|k: int| 0 <= k < i ==> e@ != (#[trigger] names@[k])@,
        decreases names@.len() - i,
    {
        if same_chars(e, &chars_of(names[i])) {
            return true;
        }
        i = i + 1;
    }
    false
}

/// Whether an extension is a photo extension.
pub fn photo_ext(e: &str) -> (r: bool)
    ensures
        r == is_photo_ext(e@),
{
    let names: Vec<&str> = vec!["jpg", "jpeg", "heic", "heif", "png", "gif", "tiff", "webp"];
    let r = is_one_of(&chars_of(e), &names);
    proof {
        if is_photo_ext(e@) {
            if e@ == "jpg"@ { assert(e@ == names@[0]@); }
            else if e@ == "jpeg"@ { assert(e@ == names@[1]@); }
            else if e@ == "heic"@ { assert(e@ == names@[2]@); }
            else if e@ == "heif"@ { assert(e@ == names@[3]@); }
            else if e@ == "png"@ { assert(e@ == names@[4]@); }
            else if e@ == "gif"@ { assert(e@ == names@[5]@); }
            else if e@ == "tiff"@ { assert(e@ == names@[6]@); }
            else { assert(e@ == names@[7]@); }
        }
    }
    r
}

/// Whether an extension is a video extension.
pub fn video_ext(e: &str) -> (r: bool)
    ensures
        r == is_video_ext(e@),
{
    let names: Vec<&str> = vec!["mov", "mp4", "m4v", "avi"];
    let r = is_one_of(&chars_of(e), &names);
    proof {
        if is_video_ext(e@) {
            if e@ == "mov"@ { assert(e@ == names@[0]@); }
            else if e@ == "mp4"@ { assert(e@ == names@[1]@); }
            else if e@ == "m4v"@ { assert(e@ == names@[2]@); }
            else { assert(e@ == names@[3]@); }
        }
    }
    r
}

/// A media file Journal can hold: a photo or a video, by extension.
pub open spec fn is_supported_media(p: Seq<char>) -> bool {
    is_photo_ext(spec_ext(p)) || is_video_ext(spec_ext(p))
}

/// Whether a path names a supported media file; see `is_supported_media`.
pub fn supported_media(p: &str) -> (r: bool)
    ensures
        r == is_supported_media(p@),
{
    let e = ext(p);
    photo_ext(e.as_str()) || video_ext(e.as_str())
}

// ---------------------------------------------------------------------------------------
// Validation
// ---------------------------------------------------------------------------------------
/// Why prepared input is refused.
pub enum InputError {
    /// A live photo is an image followed by a video.
    LivePhotoOrder,
    /// The media file at this position (media first, then the live photo pair) is missing.
    MissingMedia(usize),
    /// The media file at this position has an unsupported type.
    UnsupportedMedia(usize),
    /// Latitude and longitude come together.
    UnpairedCoordinates,
}

/// A live photo argument: nothing, or exactly an image then a video.
pub open spec fn spec_live_pair(pair: Seq<Seq<char>>) -> Result<Option<(Seq<char>, Seq<char>)>, InputError> {
    if pair.len() == 0 {
        Ok(None)
    } else if pair.len() == 2 && is_photo_ext(spec_ext(pair[0])) && is_video_ext(spec_ext(pair[1])) {
        Ok(Some((pair[0], pair[1])))
    } else {
        Err(InputError::LivePhotoOrder)
    }
}

/// The views of a list of strings.
pub open spec fn views(v: Seq<String>) -> Seq<Seq<char>> {
    v.map_values(|s: String| s@)
}

/// Checks a live photo argument; see `spec_live_pair`.
pub fn live_pair(pair: &Vec<String>) -> (r: Result<Option<(String, String)>, InputError>)
    ensures
        match (r, spec_live_pair(views(pair@))) {
            (Ok(None), Ok(None)) => true,
            (Ok(Some((a, b))), Ok(Some((x, y)))) => a@ == x && b@ == y,
            (Err(e), Err(f)) => e == f,
            _ => false,
        },
{
    if pair.len() == 0 {
        return Ok(None);
    }
    if pair.len() == 2 {
        let e0 = ext(pair[0].as_str());
        let e1 = ext(pair[1].as_str());
        if photo_ext(e0.as_str()) && video_ext(e1.as_str()) {
            return Ok(Some((pair[0].clone(), pair[1].clone())));
        }
    }
    Err(InputError::LivePhotoOrder)
}

/// The first problem among media files, given whether each exists: a missing file, or
/// one of an unsupported type, checked file by file in order.
pub open spec fn media_problem(paths: Seq<Seq<char>>, exists: Seq<bool>) -> Option<InputError>
    decreases paths.len(),
{
    if paths.len() == 0 || exists.len() < paths.len() {
        None
    } else {
        match media_problem(paths.drop_last(), exists.take(paths.len() - 1)) {
            Some(e) => Some(e),
            None => if !exists[paths.len() - 1] {
                Some(InputError::MissingMedia((paths.len() - 1) as usize))
            } else if !is_supported_media(paths.last()) {
                Some(InputError::UnsupportedMedia((paths.len() - 1) as usize))
            } else {
                None
            },
        }
    }
}

/// Checks media files; `exists[i]` says whether `paths[i]` is a file.
pub fn check_media(paths: &Vec<String>, exists: &Vec<bool>) -> (r: Option<InputError>)
    requires
        paths@.len() == exists@.len(),
    ensures
        r == media_problem(views(paths@), exists@),
{
    let mut i: usize = 0;
    while i < paths.len()
        invariant
            0 <= i <= paths@.len(),
            paths@.len() == exists@.len(),
            media_problem(views(paths@).take(i as int), exists@.take(i as int)) is None,
        decreases paths@.len() - i,
    {
        proof {
            assert(views(paths@).take(i + 1).drop_last() =~= views(paths@).take(i as int));
            assert(exists@.take(i + 1).take(i as int) =~= exists@.take(i as int));
            assert(views(paths@).take(i + 1).last() == paths@[i as int]@);
        }
        if !exists[i] {
            proof {
                lemma_media_problem_prefix(views(paths@), exists@, i as int + 1);
            }
            return Some(InputError::MissingMedia(i));
        }
        if !supported_media(paths[i].as_str()) {
            proof {
                lemma_media_problem_prefix(views(paths@), exists@, i as int + 1);
            }
            return Some(InputError::UnsupportedMedia(i));
        }
        i = i + 1;
    }
    proof {
        assert(views(paths@).take(paths@.len() as int) =~= views(paths@));
        assert(exists@.take(exists@.len() as int) =~= exists@);
    }
    None
}

/// Once a prefix has a problem, the whole list has the same first problem.
proof fn lemma_media_problem_prefix(paths: Seq<Seq<char>>, exists: Seq<bool>, k: int)
    requires
        0 <= k <= paths.len(),
        paths.len() == exists.len(),
        media_problem(paths.take(k), exists.take(k)) is Some,
    ensures
        media_problem(paths, exists) == media_problem(paths.take(k), exists.take(k)),
    decreases paths.len() - k,
{
    if k == paths.len() {
        assert(paths.take(k) =~= paths);
        assert(exists.take(k) =~= exists);
    } else {
        assert(paths.take(k + 1).drop_last() =~= paths.take(k));
        assert(exists.take(k + 1).take(k) =~= exists.take(k));
        assert(media_problem(paths.take(k + 1), exists.take(k + 1)) == media_problem(paths.take(k), exists.take(k)));
        lemma_media_problem_prefix(paths, exists, k + 1);
    }
}

/// Coordinates come as a pair: `Ok(true)` when both are given, `Ok(false)` when neither.
pub fn location_given(has_lat: bool, has_lon: bool) -> (r: Result<bool, InputError>)
    ensures
        has_lat == has_lon ==> r == Ok::<bool, InputError>(has_lat),
        has_lat != has_lon ==> r == Err::<bool, InputError>(InputError::UnpairedCoordinates),
{
    if has_lat && has_lon {
        Ok(true)
    } else if !has_lat && !has_lon {
        Ok(false)
    } else {
        Err(InputError::UnpairedCoordinates)
    }
}

/// A title as stored: markdown titles keep their inline text.
pub open spec fn spec_title(title: Seq<char>, markdown: bool) -> Seq<char> {
    if markdown {
        spec_inline(title)
    } else {
        title
    }
}

/// Prepares a title; see `spec_title`.
pub fn prepare_title(title: &str, markdown: bool) -> (r: String)
    ensures
        r@ == spec_title(title@, markdown),
{
    if markdown {
        crate::codec::inline(title)
    } else {
        title.to_owned()
    }
}

// ---------------------------------------------------------------------------------------
// Prepared entries
// ---------------------------------------------------------------------------------------
/// An entry body: its plain text and its RTF encoding.
pub struct PreparedText {
    pub plain: String,
    pub rtf: Vec<u8>,
}

impl PreparedText {
    /// A body from the text the user wrote and what the encoder returned: markdown keeps
    /// the encoder's plain text, other text stays as written.
    pub fn from_encoded(text: String, rtf: Vec<u8>, decoded: String, markdown: bool) -> (r: PreparedText)
        ensures
            r.plain == if markdown { decoded } else { text },
            r.rtf == rtf,
    {
        PreparedText { plain: if markdown { decoded } else { text }, rtf }
    }
}

/// The labels of a location; its coordinates stay with the caller.
pub struct LocationLabel {
    pub place: Option<String>,
    pub city: Option<String>,
    pub size: MapSize,
}

/// What a write request brings, checked and encoded. `date` is in whole seconds since the
/// store's epoch.
pub struct PreparedEntry {
    pub body: Option<PreparedText>,
    pub title: Option<String>,
    pub media: Vec<String>,
    pub pair: Option<(String, String)>,
    pub location: Option<LocationLabel>,
    pub link: Option<String>,
    pub date: Option<i64>,
    pub journal: Option<String>,
}

/// Text that is not only whitespace.
pub open spec fn has_words(s: Seq<char>) -> bool {
    spec_trim(s).len() > 0
}

fn not_blank(s: &String) -> (r: bool)
    ensures
        r == has_words(s@),
{
    let t = trim(&chars_of(s.as_str()));
    t.len() > 0
}

/// Text that is empty or only whitespace: a body stored without RTF, a title not shown.
pub fn blank(s: &str) -> (r: bool)
    ensures
        r == !has_words(s@),
{
    trim(&chars_of(s)).len() == 0
}

impl PreparedEntry {
    /// Something to store: a non-blank body or title, media, a live photo, a location or a
    /// link.
    pub open spec fn spec_has_content(&self) -> bool {
        (self.body matches Some(b) && has_words(b.plain@)) || (self.title matches Some(t) && has_words(t@))
            || self.media@.len() > 0 || self.pair is Some || self.location is Some || self.link is Some
    }

    /// Anything to change: any field given.
    pub open spec fn spec_has_changes(&self) -> bool {
        self.body is Some || self.title is Some || self.media@.len() > 0 || self.pair is Some
            || self.location is Some || self.link is Some || self.date is Some || self.journal is Some
    }

    /// Whether there is something to store; see `spec_has_content`.
    pub fn has_content(&self) -> (r: bool)
        ensures
            r == self.spec_has_content(),
    {
        let body = match &self.body {
            Some(b) => not_blank(&b.plain),
            None => false,
        };
        let title = match &self.title {
            Some(t) => not_blank(t),
            None => false,
        };
        body || title || self.media.len() > 0 || self.pair.is_some() || self.location.is_some()
            || self.link.is_some()
    }

    /// Whether anything changes; see `spec_has_changes`.
    pub fn has_changes(&self) -> (r: bool)
        ensures
            r == self.spec_has_changes(),
    {
        self.body.is_some() || self.title.is_some() || self.media.len() > 0 || self.pair.is_some()
            || self.location.is_some() || self.link.is_some() || self.date.is_some()
            || self.journal.is_some()
    }
}

} // verus!
