//! Typed requests of the command line. The argument parser fills these values.
use crate::paths::{join, spec_expand};
use crate::text::{chars_of, same_chars};
use vstd::prelude::*;

verus! {

/// `--json`.
#[derive(Debug)]
pub struct JsonOptions {
    pub json: bool,
}

/// Output options of listings.
#[derive(Debug)]
pub struct ListOptions {
    pub limit: Option<usize>,
    pub full: bool,
    pub json: bool,
}

/// `show ID`.
#[derive(Debug)]
pub struct ShowRequest {
    pub id: i64,
    pub json: bool,
}

/// `search QUERY`.
#[derive(Debug)]
pub struct SearchRequest {
    pub query: String,
    pub output: ListOptions,
}

/// Export file format.
#[derive(Clone, Copy, Debug, PartialEq, Eq, Structural)]
pub enum ExportFormat {
    Md,
    Json,
}

/// `export --dir DIR [--format md|json]`.
#[derive(Debug)]
pub struct ExportRequest {
    pub dir: String,
    pub format: ExportFormat,
}

/// `sync-journals [--journal J]`; `live` and `dry_run` are accepted and ignored.
#[derive(Debug)]
pub struct AuditRequest {
    pub journal: Option<String>,
    pub live: bool,
    pub dry_run: bool,
}

/// `sandbox --dir DIR [--from STORE]`.
#[derive(Debug)]
pub struct SandboxRequest {
    pub dir: String,
    pub from: Option<String>,
}

/// Where an entry body comes from.
#[derive(Debug)]
pub struct TextSource {
    pub body: Option<String>,
    pub body_file: Option<String>,
    pub body_rtf: Option<String>,
    pub markdown: bool,
}

/// `render`.
#[derive(Debug)]
pub struct RenderRequest {
    pub body: Option<String>,
    pub body_file: Option<String>,
    pub plain: bool,
    pub inline: bool,
}

/// How large a location map is shown.
#[derive(Clone, Copy, Debug, PartialEq, Eq, Structural)]
pub enum MapSize {
    Small,
    Large,
}

impl MapSize {
    /// The store's `ZISSLIM` flag: 1 for a small map, 0 for a large one.
    pub fn slim(self) -> (r: i64)
        ensures
            r == if self == MapSize::Small { 1i64 } else { 0i64 },
    {
        match self {
            MapSize::Small => 1,
            MapSize::Large => 0,
        }
    }

    /// The size's name.
    pub fn name(self) -> (r: &'static str)
        ensures
            r@ == match self {
                MapSize::Small => "small"@,
                MapSize::Large => "large"@,
            },
    {
        match self {
            MapSize::Small => "small",
            MapSize::Large => "large",
        }
    }
}

impl Default for MapSize {
    fn default() -> (r: MapSize)
        ensures
            r == MapSize::Small,
    {
        MapSize::Small
    }
}

/// Why a map size is refused.
#[derive(Debug)]
pub enum MapSizeError {
    /// `off`: hiding the map is not supported.
    Off,
    /// Anything other than `small`, `large` or `off`.
    Unknown,
}

impl MapSizeError {
    /// The message shown to the user.
    pub fn message(&self) -> (r: &'static str)
        ensures
            r@ == match self {
                MapSizeError::Off => "off is not supported; use small or large"@,
                MapSizeError::Unknown => "must be small or large"@,
            },
    {
        match self {
            MapSizeError::Off => "off is not supported; use small or large",
            MapSizeError::Unknown => "must be small or large",
        }
    }
}

/// The map size a name selects.
pub open spec fn spec_map_size(s: Seq<char>) -> Result<MapSize, MapSizeError> {
    if s == "small"@ {
        Ok(MapSize::Small)
    } else if s == "large"@ {
        Ok(MapSize::Large)
    } else if s == "off"@ {
        Err(MapSizeError::Off)
    } else {
        Err(MapSizeError::Unknown)
    }
}

/// Parses `small` or `large`.
pub fn map_size(s: &str) -> (r: Result<MapSize, MapSizeError>)
    ensures
        r == spec_map_size(s@),
{
    let v = chars_of(s);
    if same_chars(&v, &chars_of("small")) {
        Ok(MapSize::Small)
    } else if same_chars(&v, &chars_of("large")) {
        Ok(MapSize::Large)
    } else if same_chars(&v, &chars_of("off")) {
        Err(MapSizeError::Off)
    } else {
        Err(MapSizeError::Unknown)
    }
}

/// Options of every media-adding request.
#[derive(Debug)]
pub struct MediaOptions {
    pub no_resize: bool,
    pub photos_link: bool,
    pub link_title: Option<String>,
}

/// Safety options of every mutation.
#[derive(Debug)]
pub struct MutationOptions {
    pub live: bool,
    pub accept_risk: bool,
    pub dry_run: bool,
}

/// `delete ID [--hard] [--force]`.
#[derive(Debug)]
pub struct DeleteRequest {
    pub id: i64,
    pub hard: bool,
    pub force: bool,
    pub safety: MutationOptions,
}

/// `restore ID`.
#[derive(Debug)]
pub struct RestoreRequest {
    pub id: i64,
    pub safety: MutationOptions,
}

/// `empty [--force]`.
#[derive(Debug)]
pub struct EmptyRequest {
    pub force: bool,
    pub safety: MutationOptions,
}

/// `repair-locations [--to small|large]`.
#[derive(Debug)]
pub struct RepairRequest {
    pub to: MapSize,
    pub safety: MutationOptions,
}

/// Expands a leading `~` against the home directory `home`; see `spec_expand`.
pub fn expand(s: &str, home: &str) -> (r: String)
    ensures
        r@ == spec_expand(s@, home@),
{
    let v = chars_of(s);
    if same_chars(&v, &chars_of("~")) {
        proof {
            reveal_strlit("~");
            assert(s@ =~= seq!['~']);
        }
        home.to_owned()
    } else if v.len() >= 2 && v[0] == '~' && v[1] == '/' {
        let rest = crate::text::slice_vec(&v, 2, v.len());
        let rest_s = crate::text::string_from(rest.as_slice());
        assert(rest@ =~= s@.skip(2));
        join(home, rest_s.as_str())
    } else {
        proof {
            reveal_strlit("~");
            assert(seq!['~'] =~= "~"@);
        }
        s.to_owned()
    }
}

/// Parses a path argument: `~` expansion against `home`.
pub fn parse_path(s: &str, home: &str) -> (r: String)
    ensures
        r@ == spec_expand(s@, home@),
{
    expand(s, home)
}

} // verus!
