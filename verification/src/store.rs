//! Store locations, identifiers and date parsing.
use crate::paths::{join, join_path, parent, path_parent};
use crate::text::{chars_of, string_from};
use vstd::prelude::*;

verus! {

// ---------------------------------------------------------------------------------------
// Locations
// ---------------------------------------------------------------------------------------
/// Where Journal keeps its store, relative to the home directory.
pub open spec fn store_suffix() -> Seq<char> {
    "Library/Group Containers/group.com.apple.moments/Library/moments.sqlite"@
}

/// The live Journal store under the home directory `home`.
pub fn default_db(home: &str) -> (r: String)
    ensures
        r@ == join_path(home@, store_suffix()),
{
    join(home, "Library/Group Containers/group.com.apple.moments/Library/moments.sqlite")
}

/// The directory that holds a store's attachment files: `Attachments` beside the store
/// (beside `.` when the store path has no parent).
pub open spec fn spec_attachments(db: Seq<char>) -> Seq<char> {
    join_path(
        match path_parent(db) {
            Some(p) => p,
            None => "."@,
        },
        "Attachments"@,
    )
}

/// The attachments directory of the store at `db`; see `spec_attachments`.
pub fn attachments(db: &str) -> (r: String)
    ensures
        r@ == spec_attachments(db@),
{
    match parent(db) {
        Some(p) => join(p.as_str(), "Attachments"),
        None => join(".", "Attachments"),
    }
}

/// The files of a store: the database and its write-ahead log and shared-memory index.
pub fn store_files(db: &str) -> (r: Vec<String>)
    ensures
        r@.len() == 3,
        r@[0]@ == db@,
        r@[1]@ == db@ + "-wal"@,
        r@[2]@ == db@ + "-shm"@,
{
    let mut wal: Vec<char> = chars_of(db);
    crate::text::push_str(&mut wal, "-wal");
    let mut shm: Vec<char> = chars_of(db);
    crate::text::push_str(&mut shm, "-shm");
    let mut r: Vec<String> = Vec::new();
    r.push(db.to_owned());
    r.push(string_from(wal.as_slice()));
    r.push(string_from(shm.as_slice()));
    r
}

// ---------------------------------------------------------------------------------------
// UUIDs
// ---------------------------------------------------------------------------------------
/// The hexadecimal digit of `d` (`0 <= d < 16`), in upper or lower case.
pub open spec fn hex_digit(d: int, upper: bool) -> char {
    if d < 10 {
        (d + 48) as char
    } else if upper {
        (d + 55) as char
    } else {
        (d + 87) as char
    }
}

/// The `j`-th hexadecimal digit of a byte string, most significant nibble first.
pub open spec fn nibble(b: Seq<u8>, j: int) -> int {
    if j % 2 == 0 {
        (b[j / 2] / 16) as int
    } else {
        (b[j / 2] % 16) as int
    }
}

/// Number of hyphens before position `k` of the hyphenated form.
pub open spec fn hyphens_before(k: int) -> int {
    if k <= 8 {
        0
    } else if k <= 13 {
        1
    } else if k <= 18 {
        2
    } else if k <= 23 {
        3
    } else {
        4
    }
}

/// The hyphenated form of 16 bytes: 32 hexadecimal digits in groups of 8-4-4-4-12.
pub open spec fn uuid_text(b: Seq<u8>, upper: bool) -> Seq<char> {
    Seq::new(
        36,
        |k: int|
            if k == 8 || k == 13 || k == 18 || k == 23 {
                '-'
            } else {
                hex_digit(nibble(b, k - hyphens_before(k)), upper)
            },
    )
}

/// `Uuid::from_slice(b).ok().map(|u| u.to_string())`: a UUID is made of exactly 16
/// bytes, and its text is their lower-case hyphenated form.
#[verifier::external_body]
fn hyphenated_lower(b: &[u8]) -> (r: Option<String>)
    ensures
        r is Some <==> b@.len() == 16,
        r matches Some(t) ==> t@ == uuid_text(b@, false),
{
    uuid::Uuid::from_slice(b).ok().map(|u| u.to_string())
}

/// The view of optional bytes.
pub open spec fn bytes_view(r: Option<Vec<u8>>) -> Option<Seq<u8>> {
    match r {
        Some(v) => Some(v@),
        None => None,
    }
}

/// A text that is the hyphenated form of 16 bytes, in either case, reads back as them.
pub open spec fn reads_back(s: Seq<char>, r: Option<Seq<u8>>) -> bool {
    &&& forall|b: Seq<u8>| b.len() == 16 && s == #[trigger] uuid_text(b, true) ==> r == Some(b)
    &&& forall|b: Seq<u8>| b.len() == 16 && s == #[trigger] uuid_text(b, false) ==> r == Some(b)
}

/// The value of a hexadecimal digit, in either case.
pub open spec fn hex_value(c: char) -> Option<int> {
    let n = c as int;
    if 48 <= n <= 57 {
        Some(n - 48)
    } else if 97 <= n <= 102 {
        Some(n - 87)
    } else if 65 <= n <= 70 {
        Some(n - 55)
    } else {
        None
    }
}

/// 32 hexadecimal digits as 16 bytes, high nibble first.
pub open spec fn hex_bytes(d: Seq<char>) -> Option<Seq<u8>> {
    if d.len() == 32 && forall|k: int| 0 <= k < 32 ==> #[trigger] hex_value(d[k]) is Some {
        Some(Seq::new(16, |j: int| (hex_value(d[2 * j])->0 * 16 + hex_value(d[2 * j + 1])->0) as u8))
    } else {
        None
    }
}

/// The bytes of a hyphenated form (8-4-4-4-12 hexadecimal digits, in either case).
pub open spec fn hyphenated_bytes(s: Seq<char>) -> Option<Seq<u8>> {
    if s.len() == 36 && s[8] == '-' && s[13] == '-' && s[18] == '-' && s[23] == '-' {
        hex_bytes(Seq::new(32, |j: int| s[j + if j < 8 { 0int } else if j < 12 { 1 } else if j < 16 { 2 } else if j < 20 { 3 } else { 4 }]))
    } else {
        None
    }
}

/// What `Uuid::parse_str` makes of a text, as bytes: 32 hexadecimal digits; the hyphenated
/// form; the hyphenated form in braces; or `urn:uuid:` (in any ASCII case) and the
/// hyphenated form. Hexadecimal digits may be of either case.
#[verifier::opaque]
pub open spec fn parsed_uuid(s: Seq<char>) -> Option<Seq<u8>> {
    if s.len() == 32 {
        hex_bytes(s)
    } else if s.len() == 36 {
        hyphenated_bytes(s)
    } else if s.len() == 38 && s[0] == '{' && s[37] == '}' {
        hyphenated_bytes(s.subrange(1, 37))
    } else if s.len() == 45 && s.subrange(0, 9).map_values(|c: char| crate::text::ascii_lower(c)) == seq!['u', 'r', 'n', ':', 'u', 'u', 'i', 'd', ':'] {
        hyphenated_bytes(s.subrange(9, 45))
    } else {
        None
    }
}

/// `Uuid::parse_str(s).ok().map(|u| u.as_bytes().to_vec())`: the bytes of a UUID text, as
/// `parsed_uuid` says. Every parsed UUID has 16 bytes, and the hyphenated form of 16
/// bytes, in either case, parses back to them.
#[verifier::external_body]
pub(crate) fn parse_uuid(s: &str) -> (r: Option<Vec<u8>>)
    ensures
        r matches Some(v) ==> parsed_uuid(s@) == Some(v@) && v@.len() == 16,
        r is None ==> parsed_uuid(s@) is None,
        reads_back(s@, bytes_view(r)),
{
    uuid::Uuid::parse_str(s).ok().map(|u| u.as_bytes().to_vec())
}

/// `Uuid::new_v4().as_bytes().to_vec()`: 16 random bytes carrying version 4 (high nibble
/// of byte 6) and the RFC 4122 variant (top bits `10` of byte 8).
#[verifier::external_body]
fn random_uuid() -> (r: Vec<u8>)
    ensures
        r@.len() == 16,
        r@[6] / 16 == 4,
        r@[8] / 64 == 2,
{
    uuid::Uuid::new_v4().as_bytes().to_vec()
}

/// Upper-cases the hexadecimal letters of a lower-case hyphenated form.
fn upper_hex(t: &String, Ghost(b): Ghost<Seq<u8>>) -> (r: String)
    requires
        b.len() == 16,
        t@ == uuid_text(b, false),
    ensures
        r@ == uuid_text(b, true),
{
    let v = chars_of(t.as_str());
    let mut out: Vec<char> = Vec::new();
    let mut i: usize = 0;
    while i < v.len()
        invariant
            0 <= i <= v@.len(),
            v@ == uuid_text(b, false),
            b.len() == 16,
            out@.len() == i,
            forall|k: int| 0 <= k < i ==> out@[k] == uuid_text(b, true)[k],
        decreases v@.len() - i,
    {
        let c = v[i];
        proof {
            let k = i as int;
            if !(k == 8 || k == 13 || k == 18 || k == 23) {
                let j = k - hyphens_before(k);
                assert(0 <= j < 32);
                assert(0 <= nibble(b, j) < 16);
            }
        }
        let u = if 'a' <= c && c <= 'f' {
            ((c as u8) - 32) as char
        } else {
            c
        };
        out.push(u);
        i = i + 1;
    }
    assert(out@ =~= uuid_text(b, true));
    string_from(out.as_slice())
}

/// The upper-case UUID text of a 16-byte blob; `None` for a missing blob or one of
/// another length.
pub open spec fn spec_uuid(blob: Option<Seq<u8>>) -> Option<Seq<char>> {
    match blob {
        Some(b) => if b.len() == 16 {
            Some(uuid_text(b, true))
        } else {
            None
        },
        None => None,
    }
}

/// The view of an optional byte blob.
pub open spec fn blob_view(blob: Option<&Vec<u8>>) -> Option<Seq<u8>> {
    match blob {
        Some(b) => Some(b@),
        None => None,
    }
}

/// The view of an optional string.
pub open spec fn text_view(t: Option<String>) -> Option<Seq<char>> {
    match t {
        Some(s) => Some(s@),
        None => None,
    }
}

/// The UUID stored in a blob, as upper-case hyphenated text; see `spec_uuid`.
pub fn uuid(blob: Option<&Vec<u8>>) -> (r: Option<String>)
    ensures
        text_view(r) == spec_uuid(blob_view(blob)),
{
    match blob {
        Some(b) => match hyphenated_lower(b.as_slice()) {
            Some(t) => Some(upper_hex(&t, Ghost(b@))),
            None => None,
        },
        None => None,
    }
}

/// A new random UUID, as upper-case hyphenated text.
pub fn uid() -> (r: String)
    ensures
        exists|b: Seq<u8>| b.len() == 16 && b[6] / 16 == 4 && b[8] / 64 == 2 && r@ == #[trigger] uuid_text(b, true),
{
    let b = random_uuid();
    match hyphenated_lower(b.as_slice()) {
        Some(t) => upper_hex(&t, Ghost(b@)),
        None => {
            assert(false);
            String::new()
        },
    }
}

/// A text that is not a UUID.
pub struct InvalidUuid;

/// The 16 bytes of a UUID text. The hyphenated form of any 16 bytes, in either case,
/// gives those bytes back.
pub fn uuid_bytes(s: &str) -> (r: Result<Vec<u8>, InvalidUuid>)
    ensures
        r matches Ok(v) ==> parsed_uuid(s@) == Some(v@) && v@.len() == 16,
        r is Err ==> parsed_uuid(s@) is None,
        reads_back(s@, match r {
            Ok(v) => Some(v@),
            Err(_) => None,
        }),
{
    match parse_uuid(s) {
        Some(v) => Ok(v),
        None => Err(InvalidUuid),
    }
}

// ---------------------------------------------------------------------------------------
// Dates
// ---------------------------------------------------------------------------------------
/// A calendar date and wall-clock time, without a time zone.
#[derive(Clone, Copy, PartialEq, Eq, Structural)]
pub struct DateTimeParts {
    pub year: i32,
    pub month: u32,
    pub day: u32,
    pub hour: u32,
    pub minute: u32,
    pub second: u32,
}

/// What `NaiveDate::parse_from_str` reads from a text in a format: (year, month, day).
pub uninterp spec fn chrono_date(s: Seq<char>, fmt: Seq<char>) -> Option<(i32, u32, u32)>;

/// What `NaiveDateTime::parse_from_str` reads from a text in a format:
/// (year, month, day, hour, minute, second).
pub uninterp spec fn chrono_datetime(s: Seq<char>, fmt: Seq<char>) -> Option<(i32, u32, u32, u32, u32, u32)>;

/// `chrono::NaiveDate::parse_from_str(s, fmt)`, as (year, month, day).
#[verifier::external_body]
fn parse_naive_date(s: &str, fmt: &str) -> (r: Option<(i32, u32, u32)>)
    ensures
        r == chrono_date(s@, fmt@),
{
    chrono::NaiveDate::parse_from_str(s, fmt).ok().map(
        |d| (chrono::Datelike::year(&d), chrono::Datelike::month(&d), chrono::Datelike::day(&d)),
    )
}

/// `chrono::NaiveDateTime::parse_from_str(s, fmt)`, as its six fields.
#[verifier::external_body]
fn parse_naive_datetime(s: &str, fmt: &str) -> (r: Option<(i32, u32, u32, u32, u32, u32)>)
    ensures
        r == chrono_datetime(s@, fmt@),
{
    chrono::NaiveDateTime::parse_from_str(s, fmt).ok().map(
        |t| (
            chrono::Datelike::year(&t),
            chrono::Datelike::month(&t),
            chrono::Datelike::day(&t),
            chrono::Timelike::hour(&t),
            chrono::Timelike::minute(&t),
            chrono::Timelike::second(&t),
        ),
    )
}

/// The six fields of a date and time.
pub open spec fn parts_of(t: (i32, u32, u32, u32, u32, u32)) -> DateTimeParts {
    DateTimeParts { year: t.0, month: t.1, day: t.2, hour: t.3, minute: t.4, second: t.5 }
}

/// The first reading that succeeds: a plain date (at midnight), else each date-time
/// reading in turn.
pub open spec fn first_reading(
    date: Option<(i32, u32, u32)>,
    a: Option<(i32, u32, u32, u32, u32, u32)>,
    b: Option<(i32, u32, u32, u32, u32, u32)>,
    c: Option<(i32, u32, u32, u32, u32, u32)>,
) -> Option<DateTimeParts> {
    match date {
        Some(d) => Some(DateTimeParts { year: d.0, month: d.1, day: d.2, hour: 0, minute: 0, second: 0 }),
        None => match a {
            Some(t) => Some(parts_of(t)),
            None => match b {
                Some(t) => Some(parts_of(t)),
                None => match c {
                    Some(t) => Some(parts_of(t)),
                    None => None,
                },
            },
        },
    }
}

/// Picks the first successful reading; see `first_reading`.
pub fn pick_reading(
    date: Option<(i32, u32, u32)>,
    a: Option<(i32, u32, u32, u32, u32, u32)>,
    b: Option<(i32, u32, u32, u32, u32, u32)>,
    c: Option<(i32, u32, u32, u32, u32, u32)>,
) -> (r: Option<DateTimeParts>)
    ensures
        r == first_reading(date, a, b, c),
{
    match date {
        Some(d) => Some(DateTimeParts { year: d.0, month: d.1, day: d.2, hour: 0, minute: 0, second: 0 }),
        None => {
            let t = match a {
                Some(t) => Some(t),
                None => match b {
                    Some(t) => Some(t),
                    None => c,
                },
            };
            match t {
                Some(t) => Some(DateTimeParts { year: t.0, month: t.1, day: t.2, hour: t.3, minute: t.4, second: t.5 }),
                None => None,
            }
        },
    }
}

/// How a date argument reads: `YYYY-MM-DD` (midnight), `YYYY-MM-DDTHH:MM:SS`,
/// `YYYY-MM-DD HH:MM:SS` or `YYYY-MM-DD HH:MM`, tried in that order.
pub open spec fn spec_parse_date(s: Seq<char>) -> Option<DateTimeParts> {
    first_reading(
        chrono_date(s, "%Y-%m-%d"@),
        chrono_datetime(s, "%Y-%m-%dT%H:%M:%S"@),
        chrono_datetime(s, "%Y-%m-%d %H:%M:%S"@),
        chrono_datetime(s, "%Y-%m-%d %H:%M"@),
    )
}

/// Reads a date argument; see `spec_parse_date`. `None` when no format fits.
pub fn parse_date(s: &str) -> (r: Option<DateTimeParts>)
    ensures
        r == spec_parse_date(s@),
{
    let d = parse_naive_date(s, "%Y-%m-%d");
    let a = parse_naive_datetime(s, "%Y-%m-%dT%H:%M:%S");
    let b = parse_naive_datetime(s, "%Y-%m-%d %H:%M:%S");
    let c = parse_naive_datetime(s, "%Y-%m-%d %H:%M");
    pick_reading(d, a, b, c)
}

// ---------------------------------------------------------------------------------------
// Writes to the live store
// ---------------------------------------------------------------------------------------
/// Why a write to the live Journal store is refused.
#[derive(PartialEq, Eq, Structural)]
pub enum LiveRefusal {
    /// The live store is only written with `--live`.
    NeedLive,
    /// Journal.app must be quit first.
    JournalRunning,
    /// The first live write needs `--accept-risk`.
    NeedRisk,
}

/// Whether a write to the live store may go ahead, and whether it records the accepted
/// risk (the first accepted live write does): `--live` is required, Journal.app must not
/// be running, and without a record of accepted risk `--accept-risk` is required.
pub open spec fn spec_live_write(live: bool, running: bool, risk_recorded: bool, accept_risk: bool) -> Result<bool, LiveRefusal> {
    if !live {
        Err(LiveRefusal::NeedLive)
    } else if running {
        Err(LiveRefusal::JournalRunning)
    } else if !risk_recorded && !accept_risk {
        Err(LiveRefusal::NeedRisk)
    } else {
        Ok(!risk_recorded)
    }
}

/// Decides a write to the live store; see `spec_live_write`.
pub fn live_write(live: bool, running: bool, risk_recorded: bool, accept_risk: bool) -> (r: Result<bool, LiveRefusal>)
    ensures
        r == spec_live_write(live, running, risk_recorded, accept_risk),
{
    if !live {
        Err(LiveRefusal::NeedLive)
    } else if running {
        Err(LiveRefusal::JournalRunning)
    } else if !risk_recorded && !accept_risk {
        Err(LiveRefusal::NeedRisk)
    } else {
        Ok(!risk_recorded)
    }
}

} // verus!
