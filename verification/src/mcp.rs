//! Paging and ordering for the MCP tools. The transport itself lives outside the library.
use crate::model::Entry;
use crate::query::recorded;
use std::collections::BTreeMap;
use vstd::prelude::*;

verus! {

broadcast use vstd::std_specs::btree::group_btree_axioms, vstd::seq_lib::to_multiset_build,
    vstd::seq_lib::to_multiset_insert, vstd::laws_cmp::group_laws_cmp;

/// Write, edit and export tools preview unless asked otherwise.
pub fn preview_by_default() -> (r: bool)
    ensures
        r,
{
    true
}

/// Page size when none is given.
pub const DEFAULT_LIMIT: usize = 50;

/// Largest page size.
pub const MAX_LIMIT: usize = 100;

/// A page size outside 1..=100.
pub enum PageError {
    LimitOutOfRange,
}

/// The requested page size, 50 by default; it must lie in 1..=100.
pub fn page_limit(limit: Option<usize>) -> (r: Result<usize, PageError>)
    ensures
        match r {
            Ok(n) => n == (match limit {
                Some(l) => l,
                None => DEFAULT_LIMIT,
            }) && 1 <= n <= MAX_LIMIT,
            Err(_) => limit matches Some(l) && !(1 <= l <= MAX_LIMIT),
        },
{
    let n = match limit {
        Some(l) => l,
        None => DEFAULT_LIMIT,
    };
    if 1 <= n && n <= MAX_LIMIT {
        Ok(n)
    } else {
        Err(PageError::LimitOutOfRange)
    }
}

// ---------------------------------------------------------------------------------------
// Newest first
// ---------------------------------------------------------------------------------------
/// `a` may precede `b`: it is newer, or equally new with a key at least as large.
pub open spec fn precedes(a: Entry, b: Entry) -> bool {
    a.timestamp->0 > b.timestamp->0 || (a.timestamp->0 == b.timestamp->0 && a.id >= b.id)
}

/// Newest first, ties broken by the larger entry key.
pub open spec fn newest_first(s: Seq<Entry>) -> bool {
    forall|i: int, j: int| 0 <= i < j < s.len() ==> precedes(#[trigger] s[i], #[trigger] s[j])
}

pub open spec fn all_dated(s: Seq<Entry>) -> bool {
    forall|i: int| 0 <= i < s.len() ==> (#[trigger] s[i]).timestamp is Some
}

fn strictly_after(a: &Entry, b: &Entry) -> (r: bool)
    requires
        a.timestamp is Some,
        b.timestamp is Some,
    ensures
        r == !precedes(*a, *b),
{
    let ta = match a.timestamp {
        Some(t) => t,
        None => 0,
    };
    let tb = match b.timestamp {
        Some(t) => t,
        None => 0,
    };
    ta < tb || (ta == tb && a.id < b.id)
}

/// The entries ordered newest first (ties by the larger key); a rearrangement of the input.
pub fn sort_newest_first(v: Vec<Entry>) -> (r: Vec<Entry>)
    requires
        all_dated(v@),
    ensures
        r@.to_multiset() == v@.to_multiset(),
        newest_first(r@),
        all_dated(r@),
{
    let ghost all = v@;
    let mut r: Vec<Entry> = Vec::new();
    assert(all.take(0) =~= r@);
    for e in it: v
        invariant
            it.seq() == all,
            all_dated(all),
            all_dated(r@),
            newest_first(r@),
            r@.to_multiset() == all.take(it.index() as int).to_multiset(),
    {
        proof {
            assert(all.take(it.index() + 1) =~= all.take(it.index() as int).push(e));
            assert(e == all[it.index() as int]);
        }
        let mut p: usize = 0;
        while p < r.len() && !strictly_after(&r[p], &e)
            invariant
                0 <= p <= r@.len(),
                e.timestamp is Some,
                all_dated(r@),
                forall|k: int| 0 <= k < p ==> precedes(#[trigger] r@[k], e),
            decreases r@.len() - p,
        {
            p = p + 1;
        }
        let ghost before = r@;
        r.insert(p, e);
        proof {
            assert(r@ == before.insert(p as int, e));
            assert forall|i: int, j: int| 0 <= i < j < r@.len() implies precedes(#[trigger] r@[i], #[trigger] r@[j]) by {
                if j < p {
                    assert(r@[i] == before[i] && r@[j] == before[j]);
                } else if j == p {
                    assert(r@[i] == before[i]);
                } else if i < p {
                    assert(r@[i] == before[i] && r@[j] == before[j - 1]);
                    assert(precedes(before[i], e));
                    assert(!precedes(before[p as int], e));
                    assert(precedes(before[p as int], before[j - 1]) || p == j - 1);
                } else if i == p {
                    assert(r@[j] == before[j - 1]);
                    assert(!precedes(before[p as int], e));
                    assert(precedes(before[p as int], before[j - 1]) || p == j - 1);
                } else {
                    assert(r@[i] == before[i - 1] && r@[j] == before[j - 1]);
                }
            }
        }
    }
    proof {
        assert(all.take(all.len() as int) =~= all);
    }
    r
}

// ---------------------------------------------------------------------------------------
// Pages
// ---------------------------------------------------------------------------------------
/// An entry with the journals it belongs to.
pub struct PageEntry {
    pub entry: Entry,
    pub journal_ids: Vec<i64>,
}

/// One page of a listing: its entries, the size of the whole listing, and the offset of
/// the next page when entries remain.
pub struct Page {
    pub entries: Vec<PageEntry>,
    pub total: usize,
    pub next_offset: Option<usize>,
}

/// First index of the page at `offset`.
pub open spec fn page_start(total: int, offset: int) -> int {
    if offset < total { offset } else { total }
}

/// End of the page at `offset` of at most `limit` entries.
pub open spec fn page_end(total: int, offset: int, limit: int) -> int {
    if offset + limit < total { offset + limit } else { total }
}

/// Offset of the page after the one at `offset`, when entries remain after it.
pub open spec fn spec_next_offset(total: int, offset: int, limit: int) -> Option<usize> {
    let n = page_end(total, offset, limit) - page_start(total, offset);
    let next = if offset + n > usize::MAX { usize::MAX as int } else { offset + n };
    if next < total {
        Some(next as usize)
    } else {
        None
    }
}

/// The entries of a page.
pub open spec fn page_entries(s: Seq<Entry>, offset: int, limit: int) -> Seq<Entry> {
    s.subrange(page_start(s.len() as int, offset), page_end(s.len() as int, offset, limit))
}

pub open spec fn page_view(p: Page) -> Seq<Entry> {
    p.entries@.map_values(|pe: PageEntry| pe.entry)
}

fn journal_ids_of(m: &BTreeMap<i64, Vec<i64>>, id: i64) -> (r: Vec<i64>)
    ensures
        r@ == match recorded(m@, id) {
            Some(ids) => ids,
            None => Seq::empty(),
        },
{
    match m.get(&id) {
        Some(ids) => {
            let mut r: Vec<i64> = Vec::new();
            let mut i: usize = 0;
            while i < ids.len()
                invariant
                    0 <= i <= ids@.len(),
                    r@ == ids@.take(i as int),
                decreases ids@.len() - i,
            {
                r.push(ids[i]);
                proof {
                    assert(ids@.take(i + 1) =~= ids@.take(i as int).push(ids@[i as int]));
                }
                i = i + 1;
            }
            assert(ids@.take(ids@.len() as int) =~= ids@);
            r
        },
        None => Vec::new(),
    }
}

/// The page of a listing that starts at `offset` and holds at most `limit` entries, each
/// with its journal keys from the membership map (none when it has no recorded membership).
pub fn page(listing: Vec<Entry>, m: &BTreeMap<i64, Vec<i64>>, limit: usize, offset: usize) -> (r: Page)
    ensures
        page_view(r) == page_entries(listing@, offset as int, limit as int),
        r.total == listing@.len(),
        r.next_offset == spec_next_offset(listing@.len() as int, offset as int, limit as int),
        forall|i: int| 0 <= i < r.entries@.len() ==> (#[trigger] r.entries@[i]).journal_ids@ == match recorded(
            m@,
            r.entries@[i].entry.id,
        ) {
            Some(ids) => ids,
            None => Seq::empty(),
        },
{
    let total = listing.len();
    let ghost all = listing@;
    let start: usize = if offset < total { offset } else { total };
    let end: usize = if offset < total && limit < total - offset { offset + limit } else { total };
    let mut out: Vec<PageEntry> = Vec::new();
    let mut idx: usize = 0;
    for e in it: listing
        invariant
            it.seq() == all,
            idx == it.index(),
            total == all.len(),
            start == page_start(total as int, offset as int),
            end == page_end(total as int, offset as int, limit as int),
            start <= end <= total,
            out@.map_values(|pe: PageEntry| pe.entry) == all.subrange(
                start as int,
                if it.index() < start { start as int } else if it.index() > end { end as int } else { it.index() as int },
            ),
            forall|i: int| 0 <= i < out@.len() ==> (#[trigger] out@[i]).journal_ids@ == match recorded(
                m@,
                out@[i].entry.id,
            ) {
                Some(ids) => ids,
                None => Seq::empty(),
            },
    {
        if start <= idx && idx < end {
            let ids = journal_ids_of(m, e.id);
            let ghost before = out@;
            proof {
                assert(e == all[idx as int]);
            }
            out.push(PageEntry { entry: e, journal_ids: ids });
            proof {
                assert(out@.map_values(|pe: PageEntry| pe.entry) =~= before.map_values(|pe: PageEntry| pe.entry).push(all[idx as int]));
                assert(all.subrange(start as int, idx + 1) =~= all.subrange(start as int, idx as int).push(all[idx as int]));
            }
        }
        idx = idx + 1;
    }
    let n = end - start;
    let next = if offset > usize::MAX - n { usize::MAX } else { offset + n };
    let next_offset = if next < total { Some(next) } else { None };
    proof {
        assert(out@.map_values(|pe: PageEntry| pe.entry) =~= all.subrange(start as int, end as int));
    }
    Page { entries: out, total, next_offset }
}

} // verus!

verus! {

/// The entries of the page at `offset` followed by those of every later page reached by
/// following `next_offset` until there is none.
pub open spec fn pages_from(s: Seq<Entry>, limit: int, offset: int) -> Seq<Entry>
    decreases s.len() - offset,
{
    match spec_next_offset(s.len() as int, offset, limit) {
        Some(n) => if offset < n < s.len() {
            page_entries(s, offset, limit) + pages_from(s, limit, n as int)
        } else {
            page_entries(s, offset, limit)
        },
        None => page_entries(s, offset, limit),
    }
}

/// Paging covers the listing: following `next_offset` from any offset up to the end, with
/// the same listing and page size, yields every remaining entry exactly once, in listing
/// order; from offset zero, the whole listing.
pub proof fn lemma_pages_cover_listing(s: Seq<Entry>, limit: int, offset: int)
    requires
        1 <= limit,
        0 <= offset <= s.len(),
        s.len() <= usize::MAX,
    ensures
        pages_from(s, limit, offset) == s.subrange(offset, s.len() as int),
    decreases s.len() - offset,
{
    let total = s.len() as int;
    match spec_next_offset(total, offset, limit) {
        Some(n) => {
            let e = page_end(total, offset, limit);
            assert(n == e);
            lemma_pages_cover_listing(s, limit, n as int);
            assert(s.subrange(offset, e) + s.subrange(e, total) =~= s.subrange(offset, total));
        },
        None => {
            assert(page_end(total, offset, limit) == total);
        },
    }
}

// ---------------------------------------------------------------------------------------
// Tool arguments
// ---------------------------------------------------------------------------------------
/// A search needs a query that is not blank.
pub fn search_query_ok(query: Option<&str>) -> (r: bool)
    ensures
        r == (query matches Some(q) && crate::input::has_words(q@)),
{
    match query {
        Some(q) => crate::text::trim(&crate::text::chars_of(q)).len() > 0,
        None => false,
    }
}

/// An edit through the tools leaves the text and journal of an entry with merge attributes
/// alone: it goes ahead unless the entry has them and a title, body or journal is given.
pub fn tool_edit_allowed(has_merge: bool, title: bool, body: bool, journal: bool) -> (r: bool)
    ensures
        r == (!has_merge || (!title && !body && !journal)),
{
    !has_merge || (!title && !body && !journal)
}

/// The bookmark flags of an edit: `true` sets the bookmark, `false` clears it, nothing
/// keeps it. The result is (bookmark, no_bookmark).
pub fn bookmark_flags(bookmark: Option<bool>) -> (r: (bool, bool))
    ensures
        r.0 == (bookmark == Some(true)),
        r.1 == (bookmark == Some(false)),
{
    match bookmark {
        Some(true) => (true, false),
        Some(false) => (false, true),
        None => (false, false),
    }
}

/// Where an export goes: the directory itself for markdown files, `journal.json` inside
/// it for JSON.
pub fn export_target(dir: &str, format: crate::cli::ExportFormat) -> (r: String)
    ensures
        r@ == match format {
            crate::cli::ExportFormat::Md => dir@,
            crate::cli::ExportFormat::Json => crate::paths::join_path(dir@, "journal.json"@),
        },
{
    match format {
        crate::cli::ExportFormat::Md => dir.to_owned(),
        crate::cli::ExportFormat::Json => crate::paths::join(dir, "journal.json"),
    }
}

/// An absolute path starts at the root.
pub fn is_absolute(p: &str) -> (r: bool)
    ensures
        r == (p@.len() > 0 && p@[0] == '/'),
{
    let v = crate::text::chars_of(p);
    v.len() > 0 && v[0] == '/'
}

} // verus!
