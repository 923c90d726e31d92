//! Export file names and markdown documents.
use crate::presentation::take_chars;
use crate::text::{
    chars_of, decimal, decimal_i64, extend, is_ws, lemma_skip_ws_bounds, lemma_trim_end_bounds, push_str, skip_ws_from, spec_trim,
    string_from, trim, trim_end_at,
};
use vstd::prelude::*;

verus! {

// ---------------------------------------------------------------------------------------
// File names
// ---------------------------------------------------------------------------------------
/// Unicode alphanumeric characters (`char::is_alphanumeric`).
pub uninterp spec fn alphanumeric(c: char) -> bool;

/// `char::is_alphanumeric`: Unicode `Alphabetic` or `Numeric`; the tables are std's.
#[verifier::external_body]
fn is_alphanumeric(c: char) -> (r: bool)
    ensures
        r == alphanumeric(c),
{
    c.is_alphanumeric()
}

/// Characters a slug keeps: alphanumerics, `-`, `_` and spaces.
pub open spec fn slug_char(c: char) -> bool {
    alphanumeric(c) || c == '-' || c == '_' || c == ' '
}

/// The characters of `s` that a slug keeps, in order.
pub open spec fn slug_chars(s: Seq<char>) -> Seq<char>
    decreases s.len(),
{
    if s.len() == 0 {
        Seq::empty()
    } else if slug_char(s.last()) {
        slug_chars(s.drop_last()).push(s.last())
    } else {
        slug_chars(s.drop_last())
    }
}

/// A title's slug: its first 50 kept characters, trimmed, with spaces turned into hyphens.
pub open spec fn spec_slug(title: Seq<char>) -> Seq<char> {
    spec_trim(take_chars(slug_chars(title), 50)).map_values(|c: char| if c == ' ' { '-' } else { c })
}

/// Every character of a slug is a kept one: alphanumeric, `-` or `_` (a kept space
/// having become `-`); and a title made only of kept characters is kept whole.
pub proof fn lemma_slug_characters(title: Seq<char>)
    ensures
        forall|i: int| 0 <= i < spec_slug(title).len() ==> alphanumeric(#[trigger] spec_slug(title)[i]) || spec_slug(title)[i]
            == '-' || spec_slug(title)[i] == '_',
        (forall|i: int| 0 <= i < title.len() ==> slug_char(#[trigger] title[i])) ==> slug_chars(title) == title,
{
    lemma_slug_chars_kept(title);
    let k = slug_chars(title);
    let f = take_chars(k, 50);
    let a = skip_ws_from(f, 0);
    lemma_skip_ws_bounds(f, 0);
    if a < f.len() {
        lemma_trim_end_bounds(f, f.len() as int, a);
        let e = trim_end_at(f, f.len() as int);
        let r = spec_slug(title);
        assert forall|i: int| 0 <= i < r.len() implies alphanumeric(#[trigger] r[i]) || r[i] == '-' || r[i] == '_' by {
            assert(spec_trim(f)[i] == f[a + i]);
            assert(f[a + i] == k[a + i]);
        }
    }
}

proof fn lemma_slug_chars_kept(t: Seq<char>)
    ensures
        forall|i: int| 0 <= i < slug_chars(t).len() ==> slug_char(#[trigger] slug_chars(t)[i]),
        slug_chars(t).len() <= t.len(),
        (forall|i: int| 0 <= i < t.len() ==> slug_char(#[trigger] t[i])) ==> slug_chars(t) == t,
    decreases t.len(),
{
    if t.len() > 0 {
        lemma_slug_chars_kept(t.drop_last());
        if forall|i: int| 0 <= i < t.len() ==> slug_char(#[trigger] t[i]) {
            assert(forall|i: int| 0 <= i < t.drop_last().len() ==> t.drop_last()[i] == t[i]);
            assert(slug_char(t[t.len() - 1]));
            assert(t.drop_last().push(t.last()) =~= t);
        }
    }
}

/// A slug starts where the title's kept characters start: when the first kept character
/// is not whitespace, the slug is non-empty, at most 50 characters long, and its `i`-th
/// character is the `i`-th kept character of the title (a space turned into a hyphen).
/// When at most 50 characters are kept and the last of them is not whitespace either, the
/// slug holds all of them.
pub proof fn lemma_slug_is_a_prefix(title: Seq<char>)
    requires
        slug_chars(title).len() > 0,
        !is_ws(slug_chars(title)[0]),
    ensures
        ({
            let k = slug_chars(title);
            let r = spec_slug(title);
            &&& 0 < r.len() <= 50
            &&& r.len() <= k.len()
            &&& forall|i: int| 0 <= i < r.len() ==> #[trigger] r[i] == (if k[i] == ' ' { '-' } else { k[i] })
            &&& (k.len() <= 50 && !is_ws(k.last())) ==> r.len() == k.len()
            &&& !is_ws(k[r.len() - 1])
            &&& forall|i: int| r.len() <= i < k.len() && i < 50 ==> is_ws(#[trigger] k[i])
        }),
{
    let k = slug_chars(title);
    let f = take_chars(k, 50);
    assert(f[0] == k[0]);
    lemma_skip_ws_bounds(f, 0);
    assert(skip_ws_from(f, 0) == 0);
    lemma_trim_end_bounds(f, f.len() as int, 0);
    let e = trim_end_at(f, f.len() as int);
    assert(spec_trim(f) == f.subrange(0, e));
    if k.len() <= 50 && !is_ws(k.last()) {
        assert(f == k);
        assert(e == f.len());
    }
    let r = spec_slug(title);
    assert(r.len() == e);
    assert(f[e - 1] == k[e - 1]);
    assert forall|i: int| r.len() <= i < k.len() && i < 50 implies is_ws(#[trigger] k[i]) by {
        assert(f[i] == k[i]);
    }
}

/// The slug of a title; see `spec_slug`.
pub fn slug(title: &str) -> (r: Vec<char>)
    ensures
        r@ == spec_slug(title@),
{
    let t = chars_of(title);
    let mut kept: Vec<char> = Vec::new();
    let mut i: usize = 0;
    while i < t.len()
        invariant
            0 <= i <= t@.len(),
            kept@ == slug_chars(t@.take(i as int)),
        decreases t@.len() - i,
    {
        proof {
            assert(t@.take(i + 1).drop_last() =~= t@.take(i as int));
        }
        let c = t[i];
        if is_alphanumeric(c) || c == '-' || c == '_' || c == ' ' {
            kept.push(c);
        }
        i = i + 1;
    }
    assert(t@.take(t@.len() as int) =~= t@);
    let mut first: Vec<char> = Vec::new();
    let mut j: usize = 0;
    while j < kept.len() && j < 50
        invariant
            0 <= j <= kept@.len(),
            j <= 50,
            first@ == kept@.subrange(0, j as int),
        decreases kept@.len() - j,
    {
        first.push(kept[j]);
        j = j + 1;
    }
    assert(first@ =~= take_chars(kept@, 50));
    let trimmed = trim(&first);
    let mut out: Vec<char> = Vec::new();
    let mut k: usize = 0;
    while k < trimmed.len()
        invariant
            0 <= k <= trimmed@.len(),
            out@ == trimmed@.take(k as int).map_values(|c: char| if c == ' ' { '-' } else { c }),
        decreases trimmed@.len() - k,
    {
        let c = trimmed[k];
        out.push(if c == ' ' { '-' } else { c });
        proof {
            assert(trimmed@.take(k + 1).map_values(|c: char| if c == ' ' { '-' } else { c })
                =~= trimmed@.take(k as int).map_values(|c: char| if c == ' ' { '-' } else { c }).push(if c == ' ' { '-' } else { c }));
        }
        k = k + 1;
    }
    assert(trimmed@.take(trimmed@.len() as int) =~= trimmed@);
    out
}

/// Bytes of a character in UTF-8.
pub open spec fn utf8_width(c: char) -> int {
    let n = c as u32;
    if n < 0x80 {
        1
    } else if n < 0x800 {
        2
    } else if n < 0x10000 {
        3
    } else {
        4
    }
}

/// Bytes of a character sequence in UTF-8.
pub open spec fn utf8_len(s: Seq<char>) -> int
    decreases s.len(),
{
    if s.len() == 0 {
        0
    } else {
        utf8_len(s.drop_last()) + utf8_width(s.last())
    }
}

/// `str::get(..n)`: the leading characters that take exactly `n` bytes, when `n` falls on
/// a character boundary within the text.
pub open spec fn byte_prefix(s: Seq<char>, n: int) -> Option<Seq<char>> {
    if exists|k: int| 0 <= k <= s.len() && #[trigger] utf8_len(s.take(k)) == n {
        Some(s.take(choose|k: int| 0 <= k <= s.len() && #[trigger] utf8_len(s.take(k)) == n))
    } else {
        None
    }
}

proof fn lemma_utf8_len_grows(s: Seq<char>, i: int, j: int)
    requires
        0 <= i < j <= s.len(),
    ensures
        utf8_len(s.take(i)) < utf8_len(s.take(j)),
    decreases j - i,
{
    assert(s.take(j).drop_last() =~= s.take(j - 1));
    if i < j - 1 {
        lemma_utf8_len_grows(s, i, j - 1);
    }
}

fn width(c: char) -> (r: usize)
    ensures
        r == utf8_width(c),
{
    let n: u32 = c as u32;
    if n < 0x80 {
        1
    } else if n < 0x800 {
        2
    } else if n < 0x10000 {
        3
    } else {
        4
    }
}

/// The leading `n` bytes of a text; see `byte_prefix`.
pub fn prefix_bytes(s: &Vec<char>, n: usize) -> (r: Option<Vec<char>>)
    ensures
        match r {
            Some(p) => byte_prefix(s@, n as int) == Some(p@),
            None => byte_prefix(s@, n as int) is None,
        },
{
    let mut k: usize = 0;
    let mut b: u128 = 0;
    let limit: u128 = n as u128;
    assert(s@.take(0) =~= Seq::<char>::empty());
    while k < s.len() && b < limit
        invariant
            0 <= k <= s@.len(),
            limit == n,
            b == utf8_len(s@.take(k as int)),
            b <= n + 4,
            k > 0 ==> utf8_len(s@.take(k - 1)) < n,
        decreases s@.len() - k,
    {
        proof {
            assert(s@.take(k + 1).drop_last() =~= s@.take(k as int));
        }
        b = b + width(s[k]) as u128;
        k = k + 1;
    }
    if b == limit {
        let p = crate::text::slice_vec(s, 0, k);
        proof {
            assert(p@ =~= s@.take(k as int));
            let w = choose|m: int| 0 <= m <= s@.len() && #[trigger] utf8_len(s@.take(m)) == n;
            if w < k {
                lemma_utf8_len_grows(s@, w, k as int);
            } else if w > k {
                lemma_utf8_len_grows(s@, k as int, w);
            }
        }
        Some(p)
    } else {
        proof {
            assert forall|m: int| 0 <= m <= s@.len() implies #[trigger] utf8_len(s@.take(m)) != n by {
                if b > n {
                    if m < k {
                        if m < k - 1 {
                            lemma_utf8_len_grows(s@, m, k - 1);
                        }
                    } else if m > k {
                        lemma_utf8_len_grows(s@, k as int, m);
                    }
                } else {
                    if m < k {
                        lemma_utf8_len_grows(s@, m, k as int);
                    }
                }
            }
        }
        None
    }
}

/// The export file name of an entry: the date's first ten bytes (nothing when the date is
/// missing or shorter), the id, and the title's slug when it has one.
pub open spec fn spec_export_name(date: Option<Seq<char>>, id: i64, title: Seq<char>) -> Seq<char> {
    let d = match date {
        Some(t) => match byte_prefix(t, 10) {
            Some(p) => p,
            None => Seq::empty(),
        },
        None => Seq::empty(),
    };
    let s = spec_slug(title);
    d + seq!['-'] + decimal(id as int) + (if s.len() == 0 { Seq::empty() } else { seq!['-'] + s }) + ".md"@
}

/// The export file name of an entry; see `spec_export_name`.
pub fn export_name(date: Option<&str>, id: i64, title: &str) -> (r: String)
    ensures
        r@ == spec_export_name(match date {
            Some(t) => Some(t@),
            None => None,
        }, id, title@),
{
    let mut out: Vec<char> = Vec::new();
    match date {
        Some(t) => match prefix_bytes(&chars_of(t), 10) {
            Some(p) => extend(&mut out, &p),
            None => {},
        },
        None => {},
    }
    let ghost d = out@;
    out.push('-');
    extend(&mut out, &decimal_i64(id));
    let s = slug(title);
    if s.len() > 0 {
        out.push('-');
        extend(&mut out, &s);
    }
    push_str(&mut out, ".md");
    proof {
        let sl = spec_slug(title@);
        if sl.len() == 0 {
            assert(out@ =~= d + seq!['-'] + decimal(id as int) + Seq::<char>::empty() + ".md"@);
        } else {
            assert(out@ =~= d + seq!['-'] + decimal(id as int) + (seq!['-'] + sl) + ".md"@);
        }
    }
    string_from(out.as_slice())
}

// ---------------------------------------------------------------------------------------
// Markdown documents
// ---------------------------------------------------------------------------------------
/// A character inside a JSON string: `"` and `\` behind a backslash, backspace, tab, line
/// feed, form feed and carriage return as `\b`, `\t`, `\n`, `\f`, `\r`, the other control
/// characters below U+0020 as `\u00` and two lower-case hexadecimal digits, and every
/// other character as itself.
pub open spec fn json_char(c: char) -> Seq<char> {
    let n = c as int;
    if c == '"' {
        seq!['\\', '"']
    } else if c == '\\' {
        seq!['\\', '\\']
    } else if n == 8 {
        seq!['\\', 'b']
    } else if n == 9 {
        seq!['\\', 't']
    } else if n == 10 {
        seq!['\\', 'n']
    } else if n == 12 {
        seq!['\\', 'f']
    } else if n == 13 {
        seq!['\\', 'r']
    } else if n < 0x20 {
        seq!['\\', 'u', '0', '0', crate::store::hex_digit(n / 16, false), crate::store::hex_digit(n % 16, false)]
    } else {
        seq![c]
    }
}

/// The characters of `s` as they stand inside a JSON string.
pub open spec fn json_escaped(s: Seq<char>) -> Seq<char>
    decreases s.len(),
{
    if s.len() == 0 {
        Seq::empty()
    } else {
        json_escaped(s.drop_last()) + json_char(s.last())
    }
}

/// What `serde_json::to_string` writes for an optional string: `null`, or the escaped
/// string in double quotes.
#[verifier::opaque]
pub open spec fn json_text(s: Option<Seq<char>>) -> Seq<char> {
    match s {
        Some(t) => seq!['"'] + json_escaped(t) + seq!['"'],
        None => seq!['n', 'u', 'l', 'l'],
    }
}

/// `serde_json::to_string(&s)` for an optional string: `null` for `None`, else the string
/// in double quotes, escaped as `json_char` says (the compact formatter's escaping).
/// Serialising a string cannot fail.
#[verifier::external_body]
fn json_string(s: Option<&str>) -> (r: String)
    ensures
        r@ == json_text(match s {
            Some(t) => Some(t@),
            None => None,
        }),
{
    serde_json::to_string(&s).unwrap_or_default()
}

/// A place of an exported entry. `lat` and `lon` are already written out: `lat` as a
/// number, `lon` as JSON (a number or `null`).
pub struct ExportPlace {
    pub name: Option<String>,
    pub lat: String,
    pub lon: String,
}

/// A file of an exported entry.
pub struct ExportFile {
    pub name: Option<String>,
    pub path: String,
}

/// What an exported markdown document shows of an entry.
pub struct ExportDoc {
    pub date: Option<String>,
    pub id: i64,
    pub title: String,
    pub bookmarked: bool,
    pub text: String,
    pub places: Vec<ExportPlace>,
    pub files: Vec<ExportFile>,
}

/// The view of an optional string.
pub open spec fn opt_view(s: Option<String>) -> Option<Seq<char>> {
    match s {
        Some(t) => Some(t@),
        None => None,
    }
}

/// The front-matter lines of places.
pub open spec fn place_lines(ps: Seq<ExportPlace>) -> Seq<char>
    decreases ps.len(),
{
    if ps.len() == 0 {
        Seq::empty()
    } else {
        let p = ps.last();
        place_lines(ps.drop_last()) + "  - name: "@ + json_text(opt_view(p.name)) + "\n    lat: "@ + p.lat@
            + "\n    lon: "@ + p.lon@ + "\n"@
    }
}

/// The image links of files.
pub open spec fn file_lines(fs: Seq<ExportFile>) -> Seq<char>
    decreases fs.len(),
{
    if fs.len() == 0 {
        Seq::empty()
    } else {
        let f = fs.last();
        file_lines(fs.drop_last()) + "!["@ + (match f.name {
            Some(n) => n@,
            None => "file"@,
        }) + "]("@ + f.path@ + ")\n"@
    }
}

/// An exported entry: front matter (date, id, title when there is one, bookmark, places),
/// the body, then a link per file.
pub open spec fn spec_export_markdown(d: ExportDoc) -> Seq<char> {
    "---\ndate: "@ + (match d.date {
        Some(t) => t@,
        None => Seq::empty(),
    }) + "\nid: "@ + decimal(d.id as int) + "\n"@
        + (if d.title@.len() > 0 { "title: "@ + json_text(Some(d.title@)) + "\n"@ } else { Seq::empty() })
        + (if d.bookmarked { "bookmarked: true\n"@ } else { Seq::empty() })
        + (if d.places@.len() > 0 { "locations:\n"@ + place_lines(d.places@) } else { Seq::empty() })
        + "---\n\n"@ + d.text@ + "\n"@
        + (if d.files@.len() > 0 { "\n"@ + file_lines(d.files@) } else { Seq::empty() })
}

/// Writes an exported entry; see `spec_export_markdown`.
#[verifier::rlimit(50)]
pub fn export_markdown(d: &ExportDoc) -> (r: String)
    ensures
        r@ == spec_export_markdown(*d),
{
    let mut out: Vec<char> = Vec::new();
    push_str(&mut out, "---\ndate: ");
    match &d.date {
        Some(t) => push_str(&mut out, t.as_str()),
        None => {},
    }
    push_str(&mut out, "\nid: ");
    extend(&mut out, &decimal_i64(d.id));
    push_str(&mut out, "\n");
    let ghost head = out@;
    if !d.title.as_str().is_empty() {
        push_str(&mut out, "title: ");
        let q = json_string(Some(d.title.as_str()));
        push_str(&mut out, q.as_str());
        push_str(&mut out, "\n");
    }
    let ghost with_title = out@;
    if d.bookmarked {
        push_str(&mut out, "bookmarked: true\n");
    }
    let ghost with_mark = out@;
    if d.places.len() > 0 {
        push_str(&mut out, "locations:\n");
        let ghost start = out@;
        let mut i: usize = 0;
        while i < d.places.len()
            invariant
                0 <= i <= d.places@.len(),
                out@ == start + place_lines(d.places@.take(i as int)),
            decreases d.places@.len() - i,
        {
            proof {
                assert(d.places@.take(i + 1).drop_last() =~= d.places@.take(i as int));
            }
            let p = &d.places[i];
            push_str(&mut out, "  - name: ");
            let q = json_string(match &p.name {
                Some(n) => Some(n.as_str()),
                None => None,
            });
            push_str(&mut out, q.as_str());
            push_str(&mut out, "\n    lat: ");
            push_str(&mut out, p.lat.as_str());
            push_str(&mut out, "\n    lon: ");
            push_str(&mut out, p.lon.as_str());
            push_str(&mut out, "\n");
            proof {
                assert(q@ == json_text(opt_view(p.name)));
            }
            i = i + 1;
        }
        assert(d.places@.take(d.places@.len() as int) =~= d.places@);
    }
    let ghost with_places = out@;
    push_str(&mut out, "---\n\n");
    push_str(&mut out, d.text.as_str());
    push_str(&mut out, "\n");
    let ghost with_text = out@;
    if d.files.len() > 0 {
        push_str(&mut out, "\n");
        let ghost start = out@;
        let mut i: usize = 0;
        while i < d.files.len()
            invariant
                0 <= i <= d.files@.len(),
                out@ == start + file_lines(d.files@.take(i as int)),
            decreases d.files@.len() - i,
        {
            proof {
                assert(d.files@.take(i + 1).drop_last() =~= d.files@.take(i as int));
            }
            let f = &d.files[i];
            push_str(&mut out, "![");
            match &f.name {
                Some(n) => push_str(&mut out, n.as_str()),
                None => push_str(&mut out, "file"),
            }
            push_str(&mut out, "](");
            push_str(&mut out, f.path.as_str());
            push_str(&mut out, ")\n");
            i = i + 1;
        }
        assert(d.files@.take(d.files@.len() as int) =~= d.files@);
    }
    proof {
        assert(out@ =~= spec_export_markdown(*d));
    }
    string_from(out.as_slice())
}

} // verus!
