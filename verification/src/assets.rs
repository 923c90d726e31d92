//! Asset metadata and attachment files, as far as they are decided without the store.
use crate::model::{journal_name, spec_journal_name, Journal};
use crate::paths::{join, join_path, parent, path_parent};
use crate::store::{attachments, spec_attachments};
use crate::text::{chars_of, spec_trim, string_from, trim};
use vstd::prelude::*;

verus! {

// ---------------------------------------------------------------------------------------
// Journals
// ---------------------------------------------------------------------------------------
/// A journal row: its key, its merge-attribute blob and whether its sort category is
/// negative. The default journal has no blob and a negative category.
pub fn journal_of(pk: i64, blob: Option<&Vec<u8>>, negative_category: bool) -> (r: Journal)
    ensures
        r.pk == pk,
        r.name@ == spec_journal_name(match blob {
            Some(b) => Some(b@),
            None => None,
        }),
        r.is_default == (blob is None && negative_category),
{
    Journal { pk, name: journal_name(blob), is_default: blob.is_none() && negative_category }
}

// ---------------------------------------------------------------------------------------
// Metadata blobs
// ---------------------------------------------------------------------------------------
/// Where an asset's metadata JSON is.
pub enum MetadataSource {
    /// No metadata: an empty object.
    Empty,
    /// In a file of the store's external data directory, by this reference.
    External(String),
    /// In the blob itself, as these JSON bytes.
    Inline(Vec<u8>),
}

/// Why a metadata blob is refused.
#[derive(PartialEq, Eq, Structural)]
pub enum MetadataError {
    /// The external reference is not UTF-8.
    NotUtf8,
    /// The external reference is empty, `..`, or holds a `/`.
    InvalidReference,
}

/// `std::str::from_utf8(b).ok()`: the text that valid UTF-8 bytes encode.
#[verifier::external_body]
fn utf8_text(b: &[u8]) -> (r: Option<String>)
    ensures
        r is Some <==> vstd::utf8::valid_utf8(b@),
        r matches Some(s) ==> s@ == vstd::utf8::decode_utf8(b@),
{
    std::str::from_utf8(b).ok().map(|s| s.to_owned())
}

/// A text without its trailing NUL characters.
pub open spec fn trim_nuls(s: Seq<char>) -> Seq<char>
    decreases s.len(),
{
    if s.len() > 0 && s.last() == '\0' {
        trim_nuls(s.drop_last())
    } else {
        s
    }
}

/// An external reference names one file of the directory.
pub open spec fn valid_reference(r: Seq<char>) -> bool {
    !r.contains('/') && r != ".."@ && r.len() > 0
}

/// Where a metadata blob keeps its JSON: a missing or empty blob has none; a blob that
/// starts with 2 refers to an external file by the UTF-8 text after that byte, without
/// trailing NULs; a blob that starts with 1 holds the JSON after that byte; any other
/// blob is JSON itself.
pub open spec fn spec_metadata_source(blob: Option<Seq<u8>>) -> Result<MetadataSource, MetadataError> {
    match blob {
        None => Ok(MetadataSource::Empty),
        Some(b) => if b.len() == 0 {
            Ok(MetadataSource::Empty)
        } else if b[0] == 2 {
            if !vstd::utf8::valid_utf8(b.skip(1)) {
                Err(MetadataError::NotUtf8)
            } else {
                let r = trim_nuls(vstd::utf8::decode_utf8(b.skip(1)));
                if valid_reference(r) {
                    Ok(MetadataSource::External(arbitrary_text_with(r)))
                } else {
                    Err(MetadataError::InvalidReference)
                }
            }
        } else if b[0] == 1 {
            Ok(MetadataSource::Inline(arbitrary_bytes_with(b.skip(1))))
        } else {
            Ok(MetadataSource::Inline(arbitrary_bytes_with(b)))
        },
    }
}

/// Some string whose view is `s`.
pub open spec fn arbitrary_text_with(s: Seq<char>) -> String {
    choose|t: String| t@ == s
}

/// Some vector whose view is `s`.
pub open spec fn arbitrary_bytes_with(s: Seq<u8>) -> Vec<u8> {
    choose|v: Vec<u8>| v@ == s
}

/// The view of a metadata source.
pub open spec fn source_view(m: MetadataSource) -> (int, Seq<char>, Seq<u8>) {
    match m {
        MetadataSource::Empty => (0, Seq::empty(), Seq::empty()),
        MetadataSource::External(r) => (1, r@, Seq::empty()),
        MetadataSource::Inline(b) => (2, Seq::empty(), b@),
    }
}

/// Reads where a metadata blob keeps its JSON; see `spec_metadata_source`.
pub fn metadata_source(blob: Option<&Vec<u8>>) -> (r: Result<MetadataSource, MetadataError>)
    ensures
        match (r, spec_metadata_source(match blob {
            Some(b) => Some(b@),
            None => None,
        })) {
            (Ok(a), Ok(b)) => source_view(a) == source_view(b),
            (Err(a), Err(b)) => a == b,
            _ => false,
        },
{
    let b = match blob {
        None => return Ok(MetadataSource::Empty),
        Some(b) => b,
    };
    if b.len() == 0 {
        return Ok(MetadataSource::Empty);
    }
    if b[0] == 2 {
        let rest = slice_bytes(b, 1);
        let text = match utf8_text(rest.as_slice()) {
            None => return Err(MetadataError::NotUtf8),
            Some(t) => t,
        };
        let v = chars_of(text.as_str());
        let mut n: usize = v.len();
        assert(v@.take(v@.len() as int) =~= v@);
        while n > 0 && v[n - 1] == '\0'
            invariant
                0 <= n <= v@.len(),
                trim_nuls(v@) == trim_nuls(v@.take(n as int)),
            decreases n,
        {
            proof {
                assert(v@.take(n as int).drop_last() =~= v@.take(n - 1));
            }
            n = n - 1;
        }
        proof {
            assert(v@.take(v@.len() as int) =~= v@);
        }
        let reference = crate::text::slice_vec(&v, 0, n);
        assert(reference@ =~= v@.take(n as int));
        assert(trim_nuls(v@) == reference@);
        let mut has_slash = false;
        let mut i: usize = 0;
        while i < reference.len()
            invariant
                0 <= i <= reference@.len(),
                has_slash == reference@.take(i as int).contains('/'),
            decreases reference@.len() - i,
        {
            proof {
                let a = reference@.take(i as int);
                let b = reference@.take(i + 1);
                assert(b =~= a.push(reference@[i as int]));
                if b.contains('/') {
                    let k = choose|k: int| 0 <= k < b.len() && b[k] == '/';
                    if k < i {
                        assert(a[k] == '/');
                    }
                }
                if a.contains('/') {
                    let k = choose|k: int| 0 <= k < a.len() && a[k] == '/';
                    assert(b[k] == '/');
                }
                if reference@[i as int] == '/' {
                    assert(b[i as int] == '/');
                }
            }
            if reference[i] == '/' {
                has_slash = true;
            }
            i = i + 1;
        }
        assert(reference@.take(reference@.len() as int) =~= reference@);
        let dots = reference.len() == 2 && reference[0] == '.' && reference[1] == '.';
        proof {
            reveal_strlit("..");
            if reference@ == ".."@ {
                assert(reference@.len() == 2);
            }
            if dots {
                assert(reference@ =~= ".."@);
            }
        }
        if has_slash || dots || reference.len() == 0 {
            return Err(MetadataError::InvalidReference);
        }
        return Ok(MetadataSource::External(string_from(reference.as_slice())));
    }
    if b[0] == 1 {
        return Ok(MetadataSource::Inline(slice_bytes(b, 1)));
    }
    Ok(MetadataSource::Inline(slice_bytes(b, 0)))
}

fn slice_bytes(b: &Vec<u8>, from: usize) -> (r: Vec<u8>)
    requires
        from <= b@.len(),
    ensures
        r@ == b@.skip(from as int),
{
    let mut r: Vec<u8> = Vec::new();
    let mut i: usize = from;
    while i < b.len()
        invariant
            from <= i <= b@.len(),
            r@ == b@.subrange(from as int, i as int),
        decreases b@.len() - i,
    {
        r.push(b[i]);
        i = i + 1;
    }
    assert(r@ =~= b@.skip(from as int));
    r
}

/// The file that holds external metadata: the reference inside
/// `.moments_SUPPORT/_EXTERNAL_DATA` beside the store (beside `.` without a parent).
pub open spec fn spec_external_path(db: Seq<char>, reference: Seq<char>) -> Seq<char> {
    join_path(
        join_path(
            match path_parent(db) {
                Some(p) => p,
                None => "."@,
            },
            ".moments_SUPPORT/_EXTERNAL_DATA"@,
        ),
        reference,
    )
}

/// The external metadata file of a reference; see `spec_external_path`.
pub fn external_path(db: &str, reference: &str) -> (r: String)
    ensures
        r@ == spec_external_path(db@, reference@),
{
    let dir = match parent(db) {
        Some(p) => join(p.as_str(), ".moments_SUPPORT/_EXTERNAL_DATA"),
        None => join(".", ".moments_SUPPORT/_EXTERNAL_DATA"),
    };
    join(dir.as_str(), reference)
}

// ---------------------------------------------------------------------------------------
// Asset details
// ---------------------------------------------------------------------------------------
/// The asset kinds whose metadata has a known schema.
#[derive(PartialEq, Eq, Structural)]
pub enum AssetKind {
    Places,
    Audio,
    Drawing,
    Link,
    /// Any other kind keeps its metadata as it is.
    Other,
}

/// The kind of an asset type name.
pub open spec fn spec_asset_kind(kind: Seq<char>) -> AssetKind {
    if kind == "multiPinMap"@ || kind == "genericMap"@ {
        AssetKind::Places
    } else if kind == "audio"@ {
        AssetKind::Audio
    } else if kind == "drawing"@ {
        AssetKind::Drawing
    } else if kind == "link"@ {
        AssetKind::Link
    } else {
        AssetKind::Other
    }
}

/// Classifies an asset type name; see `spec_asset_kind`.
pub fn asset_kind(kind: &str) -> (r: AssetKind)
    ensures
        r == spec_asset_kind(kind@),
{
    let k = chars_of(kind);
    if crate::text::same_chars(&k, &chars_of("multiPinMap")) || crate::text::same_chars(&k, &chars_of("genericMap")) {
        AssetKind::Places
    } else if crate::text::same_chars(&k, &chars_of("audio")) {
        AssetKind::Audio
    } else if crate::text::same_chars(&k, &chars_of("drawing")) {
        AssetKind::Drawing
    } else if crate::text::same_chars(&k, &chars_of("link")) {
        AssetKind::Link
    } else {
        AssetKind::Other
    }
}

/// The non-empty segment texts of a transcript, in order.
pub open spec fn spoken(segments: Seq<Option<Seq<char>>>) -> Seq<Seq<char>>
    decreases segments.len(),
{
    if segments.len() == 0 {
        Seq::empty()
    } else {
        match segments.last() {
            Some(t) => if t.len() > 0 {
                spoken(segments.drop_last()).push(t)
            } else {
                spoken(segments.drop_last())
            },
            None => spoken(segments.drop_last()),
        }
    }
}

/// Texts joined with single spaces.
pub open spec fn joined(ts: Seq<Seq<char>>) -> Seq<char>
    decreases ts.len(),
{
    if ts.len() == 0 {
        Seq::empty()
    } else if ts.len() == 1 {
        ts[0]
    } else {
        joined(ts.drop_last()) + seq![' '] + ts.last()
    }
}

/// A recording's transcript: its non-empty segments joined with spaces; none when no
/// segment has text.
pub open spec fn spec_transcript(segments: Seq<Option<Seq<char>>>) -> Option<Seq<char>> {
    if spoken(segments).len() == 0 {
        None
    } else {
        Some(joined(spoken(segments)))
    }
}

/// The views of optional segment texts.
pub open spec fn segments_view(s: Seq<Option<String>>) -> Seq<Option<Seq<char>>> {
    s.map_values(|o: Option<String>| match o {
        Some(t) => Some(t@),
        None => None,
    })
}

/// The view of an optional string.
pub open spec fn opt_chars(o: Option<String>) -> Option<Seq<char>> {
    match o {
        Some(t) => Some(t@),
        None => None,
    }
}

/// The transcript of a recording; see `spec_transcript`.
pub fn transcript(segments: &Vec<Option<String>>) -> (r: Option<String>)
    ensures
        opt_chars(r) == spec_transcript(segments_view(segments@)),
{
    let ghost sv = segments_view(segments@);
    let mut out: Vec<char> = Vec::new();
    let mut count: usize = 0;
    let mut i: usize = 0;
    while i < segments.len()
        invariant
            0 <= i <= segments@.len(),
            sv == segments_view(segments@),
            count == spoken(sv.take(i as int)).len(),
            out@ == joined(spoken(sv.take(i as int))),
            count <= i,
        decreases segments@.len() - i,
    {
        proof {
            assert(sv.take(i + 1).drop_last() =~= sv.take(i as int));
        }
        match &segments[i] {
            Some(t) => {
                if !t.as_str().is_empty() {
                    if count > 0 {
                        out.push(' ');
                    }
                    crate::text::push_str(&mut out, t.as_str());
                    count = count + 1;
                    proof {
                        let prev = spoken(sv.take(i as int));
                        if prev.len() == 0 {
                            assert(prev.push(t@)[0] == t@);
                            assert(out@ =~= t@);
                        } else {
                            assert(prev.push(t@).drop_last() =~= prev);
                        }
                    }
                }
            },
            None => {},
        }
        i = i + 1;
    }
    assert(sv.take(sv.len() as int) =~= sv);
    if count == 0 {
        None
    } else {
        Some(string_from(out.as_slice()))
    }
}

/// A drawing's recognised text, trimmed; none when nothing is left.
pub open spec fn spec_drawing_text(content: Option<Seq<char>>) -> Option<Seq<char>> {
    match content {
        Some(t) => if spec_trim(t).len() > 0 {
            Some(spec_trim(t))
        } else {
            None
        },
        None => None,
    }
}

/// The text of a drawing; see `spec_drawing_text`.
pub fn drawing_text(content: Option<&str>) -> (r: Option<String>)
    ensures
        opt_chars(r) == spec_drawing_text(match content {
            Some(t) => Some(t@),
            None => None,
        }),
{
    match content {
        Some(t) => {
            let v = trim(&chars_of(t));
            if v.len() > 0 {
                Some(string_from(v.as_slice()))
            } else {
                None
            }
        },
        None => None,
    }
}

// ---------------------------------------------------------------------------------------
// Attachment files
// ---------------------------------------------------------------------------------------
/// Where an attachment file is: nowhere for a missing or empty path; an absolute path as
/// it is; a relative one inside the store's attachments directory.
pub open spec fn spec_attachment_path(db: Seq<char>, file: Option<Seq<char>>) -> Option<Seq<char>> {
    match file {
        None => None,
        Some(f) => if f.len() == 0 {
            None
        } else if f[0] == '/' {
            Some(f)
        } else {
            Some(join_path(spec_attachments(db), f))
        },
    }
}

/// The full path of an attachment file; see `spec_attachment_path`.
pub fn attachment_path(db: &str, file: Option<&str>) -> (r: Option<String>)
    ensures
        opt_chars(r) == spec_attachment_path(db@, match file {
            Some(f) => Some(f@),
            None => None,
        }),
{
    match file {
        None => None,
        Some(f) => {
            let v = chars_of(f);
            if v.len() == 0 {
                None
            } else if v[0] == '/' {
                Some(f.to_owned())
            } else {
                let dir = attachments(db);
                Some(join(dir.as_str(), f))
            }
        },
    }
}

} // verus!
