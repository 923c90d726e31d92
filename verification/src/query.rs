//! Selection semantics shared by the command-line reads and the MCP tools.
use crate::model::{Entry, Journal, is_listed, listed, listed_prefix};
use crate::text::{chars_of, contains, contains_seq, lowercase, parse_i64, parse_int, same_chars, to_lowercase};
use std::collections::BTreeMap;
use vstd::prelude::*;

verus! {

broadcast use vstd::std_specs::btree::group_btree_axioms, vstd::laws_cmp::group_laws_cmp;

// ---------------------------------------------------------------------------------------
// Journal membership
// ---------------------------------------------------------------------------------------
/// Journals that the membership rows give entry `e`, in row order.
pub open spec fn explicit_journals(rows: Seq<(i64, i64)>, e: i64) -> Seq<i64>
    decreases rows.len(),
{
    if rows.len() == 0 {
        Seq::empty()
    } else if rows.last().0 == e {
        explicit_journals(rows.drop_last(), e).push(rows.last().1)
    } else {
        explicit_journals(rows.drop_last(), e)
    }
}

/// Keys of the default journals, in order.
pub open spec fn default_journals(js: Seq<Journal>) -> Seq<i64>
    decreases js.len(),
{
    if js.len() == 0 {
        Seq::empty()
    } else if js.last().is_default {
        default_journals(js.drop_last()).push(js.last().pk)
    } else {
        default_journals(js.drop_last())
    }
}

/// The journals that entry `e` belongs to: those of its membership rows or, when it has
/// none and the store has a default journal, the default journals. `None` means that the
/// entry has no recorded membership.
pub open spec fn membership_of(rows: Seq<(i64, i64)>, js: Seq<Journal>, ids: Seq<i64>, e: i64) -> Option<Seq<i64>> {
    if explicit_journals(rows, e).len() > 0 {
        Some(explicit_journals(rows, e))
    } else if default_journals(js).len() > 0 && ids.contains(e) {
        Some(default_journals(js))
    } else {
        None
    }
}

/// What a membership map records for entry `e`.
pub open spec fn recorded(m: Map<i64, Vec<i64>>, e: i64) -> Option<Seq<i64>> {
    if m.contains_key(e) {
        Some(m[e]@)
    } else {
        None
    }
}

fn copy_ids(v: &Vec<i64>) -> (r: Vec<i64>)
    ensures
        r@ == v@,
{
    let mut r: Vec<i64> = Vec::new();
    let mut i: usize = 0;
    while i < v.len()
        invariant
            0 <= i <= v@.len(),
            r@ == v@.take(i as int),
        decreases v@.len() - i,
    {
        r.push(v[i]);
        proof {
            assert(v@.take(i + 1) =~= v@.take(i as int).push(v@[i as int]));
        }
        i = i + 1;
    }
    assert(v@.take(v@.len() as int) =~= v@);
    r
}

fn defaults_of(js: &Vec<Journal>) -> (r: Vec<i64>)
    ensures
        r@ == default_journals(js@),
{
    let mut r: Vec<i64> = Vec::new();
    let mut i: usize = 0;
    while i < js.len()
        invariant
            0 <= i <= js@.len(),
            r@ == default_journals(js@.take(i as int)),
        decreases js@.len() - i,
    {
        proof {
            assert(js@.take(i + 1).drop_last() =~= js@.take(i as int));
        }
        if js[i].is_default {
            r.push(js[i].pk);
        }
        i = i + 1;
    }
    assert(js@.take(js@.len() as int) =~= js@);
    r
}

/// Journal membership of every entry, including the implicit default-journal membership
/// of entries without rows; see `membership_of`.
pub fn memberships(rows: &Vec<(i64, i64)>, js: &Vec<Journal>, ids: &Vec<i64>) -> (r: BTreeMap<i64, Vec<i64>>)
    ensures
        forall|e: i64| #[trigger] recorded(r@, e) == membership_of(rows@, js@, ids@, e),
{
    let mut m: BTreeMap<i64, Vec<i64>> = BTreeMap::new();
    let mut i: usize = 0;
    while i < rows.len()
        invariant
            0 <= i <= rows@.len(),
            forall|e: i64| #[trigger] recorded(m@, e) == (if explicit_journals(rows@.take(i as int), e).len() > 0 {
                Some(explicit_journals(rows@.take(i as int), e))
            } else {
                None
            }),
        decreases rows@.len() - i,
    {
        proof {
            assert(rows@.take(i + 1).drop_last() =~= rows@.take(i as int));
        }
        let (e, j) = rows[i];
        let ghost mold = m@;
        let mut v = match m.remove(&e) {
            Some(v) => v,
            None => Vec::new(),
        };
        let ghost vold = v@;
        assert(vold == if mold.contains_key(e) { mold[e]@ } else { Seq::empty() });
        v.push(j);
        m.insert(e, v);
        proof {
            let t = rows@.take(i + 1);
            assert(t.last() == (e, j));
            assert forall|x: i64| #[trigger] recorded(m@, x) == (if explicit_journals(t, x).len() > 0 {
                Some(explicit_journals(t, x))
            } else {
                None
            }) by {
                if x == e {
                    assert(m@.contains_key(e) && m@[e]@ == vold.push(j));
                    assert(explicit_journals(t, x) == explicit_journals(rows@.take(i as int), x).push(j));
                } else {
                    assert(m@.contains_key(x) == mold.contains_key(x));
                    assert(m@.contains_key(x) ==> m@[x] == mold[x]);
                    assert(recorded(m@, x) == recorded(mold, x));
                    assert(explicit_journals(t, x) == explicit_journals(rows@.take(i as int), x));
                }
            }
        }
        i = i + 1;
    }
    proof {
        assert(rows@.take(rows@.len() as int) =~= rows@);
    }
    let defaults = defaults_of(js);
    if defaults.len() > 0 {
        let mut k: usize = 0;
        while k < ids.len()
            invariant
                0 <= k <= ids@.len(),
                defaults@ == default_journals(js@),
                defaults@.len() > 0,
                forall|e: i64| #[trigger] recorded(m@, e) == (if explicit_journals(rows@, e).len() > 0 {
                    Some(explicit_journals(rows@, e))
                } else if ids@.take(k as int).contains(e) {
                    Some(default_journals(js@))
                } else {
                    None
                }),
            decreases ids@.len() - k,
        {
            let id = ids[k];
            let ghost mold = m@;
            if !m.contains_key(&id) {
                let copy = copy_ids(&defaults);
                m.insert(id, copy);
            }
            proof {
                assert forall|e: i64| e != id implies recorded(m@, e) == recorded(mold, e) by {
                    assert(m@.contains_key(e) == mold.contains_key(e));
                    assert(m@.contains_key(e) ==> m@[e] == mold[e]);
                }
                assert forall|e: i64| #[trigger] recorded(m@, e) == (if explicit_journals(rows@, e).len() > 0 {
                    Some(explicit_journals(rows@, e))
                } else if ids@.take(k + 1).contains(e) {
                    Some(default_journals(js@))
                } else {
                    None
                }) by {
                    let t0 = ids@.take(k as int);
                    let t1 = ids@.take(k + 1);
                    assert(t1 =~= t0.push(id));
                    assert(recorded(mold, e) == (if explicit_journals(rows@, e).len() > 0 {
                        Some(explicit_journals(rows@, e))
                    } else if t0.contains(e) {
                        Some(default_journals(js@))
                    } else {
                        None
                    }));
                    if e != id {
                        assert(recorded(m@, e) == recorded(mold, e));
                        if t0.contains(e) {
                            let w = choose|w: int| 0 <= w < t0.len() && t0[w] == e;
                            assert(t1[w] == e);
                        }
                        if t1.contains(e) {
                            let w = choose|w: int| 0 <= w < t1.len() && t1[w] == e;
                            assert(w < t0.len());
                            assert(t0[w] == e);
                        }
                    } else {
                        assert(t1[k as int] == id);
                        assert(t1.contains(e));
                        if !mold.contains_key(id) {
                            assert(m@.contains_key(id) && m@[id]@ == default_journals(js@));
                        } else {
                            assert(m@ == mold);
                        }
                    }
                }
            }
            k = k + 1;
        }
        proof {
            assert(ids@.take(ids@.len() as int) =~= ids@);
        }
    }
    m
}


} // verus!

verus! {

// ---------------------------------------------------------------------------------------
// Journal selection
// ---------------------------------------------------------------------------------------
/// A journal selector names a journal by its numeric key when it parses as an integer, and
/// otherwise by its name, compared case-insensitively.
pub open spec fn selects(j: Journal, selector: Seq<char>) -> bool {
    match parse_i64(selector) {
        Some(pk) => j.pk == pk,
        None => lowercase(j.name@) == lowercase(selector),
    }
}

/// The journals that a selector names, in order.
pub open spec fn selected_journals(js: Seq<Journal>, selector: Seq<char>) -> Seq<Journal>
    decreases js.len(),
{
    if js.len() == 0 {
        Seq::empty()
    } else if selects(js.last(), selector) {
        selected_journals(js.drop_last(), selector).push(js.last())
    } else {
        selected_journals(js.drop_last(), selector)
    }
}

/// The journal a selector names, when exactly one journal matches.
pub open spec fn spec_resolve_journal(js: Seq<Journal>, selector: Seq<char>) -> Option<Journal> {
    let hits = selected_journals(js, selector);
    if hits.len() == 1 {
        Some(hits[0])
    } else {
        None
    }
}

impl Journal {
    /// A copy of this journal record.
    pub fn duplicate(&self) -> (r: Journal)
        ensures
            r == *self,
    {
        Journal { pk: self.pk, name: self.name.clone(), is_default: self.is_default }
    }
}

fn lowered(s: &str) -> (r: Vec<char>)
    ensures
        r@ == lowercase(s@),
{
    let l = to_lowercase(s);
    chars_of(l.as_str())
}

/// Finds the one journal that `selector` names; `None` when it names none or several.
pub fn resolve_journal(js: &Vec<Journal>, selector: &str) -> (r: Option<Journal>)
    ensures
        r == spec_resolve_journal(js@, selector@),
{
    let chars = chars_of(selector);
    let pk = parse_int(&chars);
    let wanted = lowered(selector);
    let mut count: usize = 0;
    let mut first: usize = 0;
    let ghost mut hs: Seq<Journal> = Seq::empty();
    let mut i: usize = 0;
    while i < js.len()
        invariant
            0 <= i <= js@.len(),
            chars@ == selector@,
            pk == parse_i64(selector@),
            wanted@ == lowercase(selector@),
            hs == selected_journals(js@.take(i as int), selector@),
            count == hs.len(),
            count <= i,
            count > 0 ==> first < js@.len() && js@[first as int] == hs[0],
        decreases js@.len() - i,
    {
        proof {
            assert(js@.take(i + 1).drop_last() =~= js@.take(i as int));
        }
        let hit = match pk {
            Some(p) => js[i].pk == p,
            None => {
                let name = lowered(js[i].name.as_str());
                same_chars(&name, &wanted)
            },
        };
        if hit {
            if count == 0 {
                first = i;
            }
            count = count + 1;
            proof {
                hs = hs.push(js@[i as int]);
            }
        }
        i = i + 1;
    }
    proof {
        assert(js@.take(js@.len() as int) =~= js@);
    }
    if count == 1 {
        Some(js[first].duplicate())
    } else {
        None
    }
}

// ---------------------------------------------------------------------------------------
// Entry selection
// ---------------------------------------------------------------------------------------
/// Which entries a read selects. Instants are integer keys ordered like the store's dates.
pub struct Filter {
    pub since: Option<i64>,
    pub until: Option<i64>,
    pub exclusive_until: bool,
    pub journal: Option<String>,
    pub text: Option<String>,
    pub include_empty: bool,
}

/// Why a selection is refused.
pub enum QueryError {
    /// `since` lies after `until`.
    SinceAfterUntil,
    /// The journal selector names no journal, or several.
    UnknownJournal,
}

/// The entry date lies in the window: at or after `since`, and before `until` (or at it,
/// when `until` is inclusive).
pub open spec fn in_window(ts: i64, f: Filter) -> bool {
    (f.since matches Some(since) ==> ts >= since) && (f.until matches Some(until) ==> if f.exclusive_until {
        ts < until
    } else {
        ts <= until
    })
}

/// The entry belongs to the selected journal, if one is selected.
pub open spec fn in_journal(id: i64, pk: Option<i64>, m: Map<i64, Vec<i64>>) -> bool {
    pk matches Some(p) ==> m.contains_key(id) && m[id]@.contains(p)
}

/// The title or body contains the query, both compared in lowercase.
pub open spec fn matches_text(e: Entry, text: Option<String>) -> bool {
    text matches Some(q) ==> contains_seq(lowercase(e.title@), lowercase(q@)) || contains_seq(
        lowercase(e.text@),
        lowercase(q@),
    )
}

pub open spec fn is_selected(e: Entry, f: Filter, pk: Option<i64>, m: Map<i64, Vec<i64>>) -> bool {
    &&& in_window(e.timestamp->0, f)
    &&& in_journal(e.id, pk, m)
    &&& matches_text(e, f.text)
}

pub open spec fn select_prefix(es: Seq<Entry>, f: Filter, pk: Option<i64>, m: Map<i64, Vec<i64>>) -> Seq<Entry>
    decreases es.len(),
{
    if es.len() == 0 {
        Seq::empty()
    } else if is_selected(es.last(), f, pk, m) {
        select_prefix(es.drop_last(), f, pk, m).push(es.last())
    } else {
        select_prefix(es.drop_last(), f, pk, m)
    }
}

/// Journal key that a filter selects, when its selector resolves.
pub open spec fn filter_journal(js: Seq<Journal>, f: Filter) -> Option<i64> {
    match f.journal {
        Some(s) => match spec_resolve_journal(js, s@) {
            Some(j) => Some(j.pk),
            None => None,
        },
        None => None,
    }
}

/// Outcome of a selection: refused when `since` is after `until`, or when the journal
/// selector resolves to no single journal; otherwise the listed entries of `rows` (see
/// `model::is_listed`) that lie in the date window, belong to the journal (by the
/// membership map `m`) and contain the text, in store order.
pub open spec fn spec_entries(
    rows: Seq<Entry>,
    js: Seq<Journal>,
    m: Map<i64, Vec<i64>>,
    f: Filter,
) -> Result<Seq<Entry>, QueryError> {
    if f.since is Some && f.until is Some && f.since->0 > f.until->0 {
        Err(QueryError::SinceAfterUntil)
    } else if f.journal is Some && spec_resolve_journal(js, f.journal->0@) is None {
        Err(QueryError::UnknownJournal)
    } else {
        Ok(select_prefix(listed_prefix(rows, f.include_empty), f, filter_journal(js, f), m))
    }
}

/// Entries are dated whenever they carry a date string.
pub open spec fn dated(rows: Seq<Entry>) -> bool {
    forall|i: int| 0 <= i < rows.len() ==> (#[trigger] rows[i]).date is Some ==> rows[i].timestamp is Some
}

fn text_matches(e: &Entry, q: &Option<Vec<char>>) -> (r: bool)
    ensures
        q matches Some(v) ==> r == (contains_seq(lowercase(e.title@), v@) || contains_seq(lowercase(e.text@), v@)),
        q is None ==> r,
{
    match q {
        None => true,
        Some(v) => {
            let title = lowered(e.title.as_str());
            if contains(&title, v) {
                true
            } else {
                let text = lowered(e.text.as_str());
                contains(&text, v)
            }
        },
    }
}

/// Selects entries of a store; see `spec_entries`. `rows` are the store's active entries,
/// newest first; `m` is the membership map (see `memberships`) and is consulted only when
/// a journal is selected.
pub fn entries(rows: Vec<Entry>, js: &Vec<Journal>, m: &BTreeMap<i64, Vec<i64>>, f: &Filter) -> (r: Result<Vec<Entry>, QueryError>)
    requires
        dated(rows@),
    ensures
        match (r, spec_entries(rows@, js@, m@, *f)) {
            (Ok(v), Ok(s)) => v@ == s,
            (Err(QueryError::SinceAfterUntil), Err(QueryError::SinceAfterUntil)) => true,
            (Err(QueryError::UnknownJournal), Err(QueryError::UnknownJournal)) => true,
            _ => false,
        },
{
    if let (Some(since), Some(until)) = (f.since, f.until) {
        if since > until {
            return Err(QueryError::SinceAfterUntil);
        }
    }
    let pk: Option<i64> = match &f.journal {
        Some(s) => match resolve_journal(js, s.as_str()) {
            Some(j) => Some(j.pk),
            None => {
                return Err(QueryError::UnknownJournal);
            },
        },
        None => None,
    };
    let q: Option<Vec<char>> = match &f.text {
        Some(t) => Some(lowered(t.as_str())),
        None => None,
    };
    let ghost lq = q;
    let candidates = listed(rows, f.include_empty);
    proof {
        assert forall|i: int| 0 <= i < candidates@.len() implies (#[trigger] candidates@[i]).timestamp is Some by {
            lemma_listed_dated(rows@, f.include_empty, i);
        }
    }
    let ghost all = candidates@;
    let mut out: Vec<Entry> = Vec::new();
    for e in it: candidates
        invariant
            it.seq() == all,
            forall|i: int| 0 <= i < all.len() ==> (#[trigger] all[i]).timestamp is Some,
            pk == filter_journal(js@, *f),
            f.text matches Some(t) ==> q matches Some(v) && v@ == lowercase(t@),
            f.text is None ==> q is None,
            out@ == select_prefix(all.take(it.index() as int), *f, pk, m@),
    {
        proof {
            assert(all.take(it.index() + 1).drop_last() =~= all.take(it.index() as int));
            assert(all.take(it.index() + 1).last() == e);
        }
        let ts = match e.timestamp {
            Some(t) => t,
            None => 0,
        };
        let in_since = match f.since {
            Some(since) => ts >= since,
            None => true,
        };
        let in_until = match f.until {
            Some(until) => if f.exclusive_until {
                ts < until
            } else {
                ts <= until
            },
            None => true,
        };
        let in_j = match pk {
            Some(p) => match m.get(&e.id) {
                Some(ids) => contains_id(ids, p),
                None => false,
            },
            None => true,
        };
        if in_since && in_until && in_j && text_matches(&e, &q) {
            out.push(e);
        }
    }
    proof {
        assert(all.take(all.len() as int) =~= all);
    }
    Ok(out)
}

proof fn lemma_listed_dated(rows: Seq<Entry>, include_empty: bool, i: int)
    requires
        dated(rows),
        0 <= i < listed_prefix(rows, include_empty).len(),
    ensures
        listed_prefix(rows, include_empty)[i].timestamp is Some,
    decreases rows.len(),
{
    let p = listed_prefix(rows.drop_last(), include_empty);
    assert(dated(rows.drop_last())) by {
        assert forall|k: int| 0 <= k < rows.drop_last().len() && (#[trigger] rows.drop_last()[k]).date is Some implies rows.drop_last()[k].timestamp is Some by {
            assert(rows.drop_last()[k] == rows[k]);
        }
    }
    if is_listed(rows.last(), include_empty) && i == p.len() {
        assert(rows[rows.len() - 1] == rows.last());
    } else {
        lemma_listed_dated(rows.drop_last(), include_empty, i);
    }
}

/// Whether `p` occurs in `ids`.
pub fn contains_id(ids: &Vec<i64>, p: i64) -> (r: bool)
    ensures
        r == ids@.contains(p),
{
    let mut i: usize = 0;
    while i < ids.len()
        invariant
            0 <= i <= ids@.len(),
            forall|k: int| 0 <= k < i ==> ids@[k] != p,
        decreases ids@.len() - i,
    {
        if ids[i] == p {
            return true;
        }
        i = i + 1;
    }
    false
}

// ---------------------------------------------------------------------------------------
// Laws of selection
// ---------------------------------------------------------------------------------------
/// Adjacent half-open windows neither overlap nor leave a gap: with exclusive ends, an
/// instant of `[a, c)` lies in exactly one of `[a, b)` and `[b, c)`.
pub proof fn lemma_adjacent_windows(ts: i64, a: i64, b: i64, c: i64, f: Filter)
    requires
        a <= b <= c,
        f.exclusive_until,
    ensures
        in_window(ts, Filter { since: Some(a), until: Some(c), ..f }) == (in_window(
            ts,
            Filter { since: Some(a), until: Some(b), ..f },
        ) != in_window(ts, Filter { since: Some(b), until: Some(c), ..f })),
{
}

/// An inclusive `until` selects what the exclusive one selects, plus the instants exactly
/// at `until` that are not before `since`.
pub proof fn lemma_inclusive_until(ts: i64, f: Filter)
    requires
        f.until is Some,
    ensures
        in_window(ts, Filter { exclusive_until: false, ..f }) == (in_window(ts, Filter { exclusive_until: true, ..f })
            || (ts == f.until->0 && (f.since matches Some(s) ==> ts >= s))),
{
}

/// The selection of a list holds exactly the selected entries of the list.
pub proof fn lemma_select_prefix_members(es: Seq<Entry>, f: Filter, pk: Option<i64>, m: Map<i64, Vec<i64>>)
    ensures
        forall|x: Entry| #[trigger] select_prefix(es, f, pk, m).contains(x) <==> (es.contains(x) && is_selected(x, f, pk, m)),
    decreases es.len(),
{
    if es.len() > 0 {
        let rest = es.drop_last();
        lemma_select_prefix_members(rest, f, pk, m);
        assert(es =~= rest.push(es.last()));
        assert forall|x: Entry| #[trigger] select_prefix(es, f, pk, m).contains(x) <==> (es.contains(x) && is_selected(x, f, pk, m)) by {
            let sel = select_prefix(rest, f, pk, m);
            if is_selected(es.last(), f, pk, m) {
                assert(select_prefix(es, f, pk, m) == sel.push(es.last()));
                if sel.push(es.last()).contains(x) {
                    let k = choose|k: int| 0 <= k < sel.push(es.last()).len() && sel.push(es.last())[k] == x;
                    if k < sel.len() {
                        assert(sel[k] == x);
                        assert(sel.contains(x));
                    }
                }
                if sel.contains(x) {
                    let k = choose|k: int| 0 <= k < sel.len() && sel[k] == x;
                    assert(sel.push(es.last())[k] == x);
                }
                assert(sel.push(es.last())[sel.len() as int] == es.last());
            } else {
                assert(select_prefix(es, f, pk, m) == sel);
            }
            if es.contains(x) {
                let k = choose|k: int| 0 <= k < es.len() && es[k] == x;
                if k < rest.len() {
                    assert(rest[k] == x);
                }
            }
            if rest.contains(x) {
                let k = choose|k: int| 0 <= k < rest.len() && rest[k] == x;
                assert(es[k] == x);
            }
        }
    }
}

/// The listed part of a list holds exactly its listed entries.
pub proof fn lemma_listed_prefix_members(es: Seq<Entry>, include_empty: bool)
    ensures
        forall|x: Entry| #[trigger] listed_prefix(es, include_empty).contains(x) <==> (es.contains(x) && is_listed(x, include_empty)),
    decreases es.len(),
{
    if es.len() > 0 {
        let rest = es.drop_last();
        lemma_listed_prefix_members(rest, include_empty);
        assert forall|x: Entry| #[trigger] listed_prefix(es, include_empty).contains(x) <==> (es.contains(x) && is_listed(x, include_empty)) by {
            let sel = listed_prefix(rest, include_empty);
            if is_listed(es.last(), include_empty) {
                assert(listed_prefix(es, include_empty) == sel.push(es.last()));
                if sel.push(es.last()).contains(x) {
                    let k = choose|k: int| 0 <= k < sel.push(es.last()).len() && sel.push(es.last())[k] == x;
                    if k < sel.len() {
                        assert(sel[k] == x);
                    }
                }
                if sel.contains(x) {
                    let k = choose|k: int| 0 <= k < sel.len() && sel[k] == x;
                    assert(sel.push(es.last())[k] == x);
                }
                assert(sel.push(es.last())[sel.len() as int] == es.last());
            } else {
                assert(listed_prefix(es, include_empty) == sel);
            }
            if es.contains(x) {
                let k = choose|k: int| 0 <= k < es.len() && es[k] == x;
                if k < rest.len() {
                    assert(rest[k] == x);
                }
            }
            if rest.contains(x) {
                let k = choose|k: int| 0 <= k < rest.len() && rest[k] == x;
                assert(es[k] == x);
            }
        }
    }
}

/// A selection returns exactly the listed rows that match the filter: each returned entry
/// is such a row, and each such row is returned.
pub proof fn lemma_selection_exact(rows: Seq<Entry>, js: Seq<Journal>, m: Map<i64, Vec<i64>>, f: Filter)
    requires
        spec_entries(rows, js, m, f) is Ok,
    ensures
        forall|x: Entry| #[trigger] spec_entries(rows, js, m, f)->Ok_0.contains(x) <==> (rows.contains(x) && is_listed(
            x,
            f.include_empty,
        ) && is_selected(x, f, filter_journal(js, f), m)),
{
    lemma_listed_prefix_members(rows, f.include_empty);
    lemma_select_prefix_members(listed_prefix(rows, f.include_empty), f, filter_journal(js, f), m);
}

/// A text search looks at the title and the body alike: among the listed rows inside the
/// date window and the journal, an entry is returned exactly when its title or its body,
/// both lower-cased, contains the lower-cased query, whatever the other holds. In
/// particular an entry whose body contains the query is returned, titled or not.
pub proof fn lemma_text_search(rows: Seq<Entry>, js: Seq<Journal>, m: Map<i64, Vec<i64>>, f: Filter, q: String)
    requires
        spec_entries(rows, js, m, f) is Ok,
        f.text == Some(q),
    ensures
        forall|x: Entry|
            rows.contains(x) && is_listed(x, f.include_empty) && in_window(x.timestamp->0, f) && in_journal(
                x.id,
                filter_journal(js, f),
                m,
            ) ==> (#[trigger] spec_entries(rows, js, m, f)->Ok_0.contains(x) <==> (contains_seq(
                lowercase(x.title@),
                lowercase(q@),
            ) || contains_seq(lowercase(x.text@), lowercase(q@)))),
        forall|x: Entry|
            rows.contains(x) && is_listed(x, f.include_empty) && in_window(x.timestamp->0, f) && in_journal(
                x.id,
                filter_journal(js, f),
                m,
            ) && contains_seq(lowercase(x.text@), lowercase(q@)) ==> #[trigger] spec_entries(rows, js, m, f)->Ok_0.contains(x),
{
    lemma_selection_exact(rows, js, m, f);
}

/// The selected journals of a list hold exactly the journals the selector names.
proof fn lemma_selected_members(js: Seq<Journal>, sel: Seq<char>)
    ensures
        forall|x: Journal| #[trigger] selected_journals(js, sel).contains(x) <==> (js.contains(x) && selects(x, sel)),
    decreases js.len(),
{
    if js.len() > 0 {
        let rest = js.drop_last();
        lemma_selected_members(rest, sel);
        assert forall|x: Journal| #[trigger] selected_journals(js, sel).contains(x) <==> (js.contains(x) && selects(x, sel)) by {
            let hs = selected_journals(rest, sel);
            if selects(js.last(), sel) {
                if hs.push(js.last()).contains(x) {
                    let k = choose|k: int| 0 <= k < hs.push(js.last()).len() && hs.push(js.last())[k] == x;
                    if k < hs.len() {
                        assert(hs[k] == x);
                    }
                }
                if hs.contains(x) {
                    let k = choose|k: int| 0 <= k < hs.len() && hs[k] == x;
                    assert(hs.push(js.last())[k] == x);
                }
                assert(hs.push(js.last())[hs.len() as int] == js.last());
            }
            if js.contains(x) {
                let k = choose|k: int| 0 <= k < js.len() && js[k] == x;
                if k < rest.len() {
                    assert(rest[k] == x);
                }
            }
            if rest.contains(x) {
                let k = choose|k: int| 0 <= k < rest.len() && rest[k] == x;
                assert(js[k] == x);
            }
        }
    }
}

/// A selector resolves only to the one journal it names: the resolved journal is in the
/// list, the selector names it, and every journal of the list that the selector names is
/// that journal.
pub proof fn lemma_resolved_unique(js: Seq<Journal>, sel: Seq<char>)
    requires
        spec_resolve_journal(js, sel) is Some,
    ensures
        js.contains(spec_resolve_journal(js, sel)->0),
        selects(spec_resolve_journal(js, sel)->0, sel),
        forall|i: int| 0 <= i < js.len() && selects(#[trigger] js[i], sel) ==> js[i] == spec_resolve_journal(js, sel)->0,
{
    lemma_selected_members(js, sel);
    let hs = selected_journals(js, sel);
    assert(hs.contains(hs[0]));
    assert forall|i: int| 0 <= i < js.len() && selects(#[trigger] js[i], sel) implies js[i] == spec_resolve_journal(js, sel)->0 by {
        assert(js.contains(js[i]));
        assert(hs.contains(js[i]));
    }
}

/// `a` is `b` with some entries left out, the rest kept in order.
pub open spec fn subsequence(a: Seq<Entry>, b: Seq<Entry>) -> bool
    decreases b.len(),
{
    if a.len() == 0 {
        true
    } else if b.len() == 0 {
        false
    } else if a.last() == b.last() {
        subsequence(a.drop_last(), b.drop_last()) || subsequence(a, b.drop_last())
    } else {
        subsequence(a, b.drop_last())
    }
}

proof fn lemma_subsequence_transitive(a: Seq<Entry>, b: Seq<Entry>, c: Seq<Entry>)
    requires
        subsequence(a, b),
        subsequence(b, c),
    ensures
        subsequence(a, c),
    decreases c.len(),
{
    if a.len() > 0 && b.len() > 0 && c.len() > 0 {
        let cp = c.drop_last();
        if b.last() == c.last() && subsequence(b.drop_last(), cp) {
            if a.last() == b.last() && subsequence(a.drop_last(), b.drop_last()) {
                lemma_subsequence_transitive(a.drop_last(), b.drop_last(), cp);
            } else {
                lemma_subsequence_transitive(a, b.drop_last(), cp);
            }
        } else {
            lemma_subsequence_transitive(a, b, cp);
        }
    }
}

proof fn lemma_select_subsequence(es: Seq<Entry>, f: Filter, pk: Option<i64>, m: Map<i64, Vec<i64>>)
    ensures
        subsequence(select_prefix(es, f, pk, m), es),
    decreases es.len(),
{
    if es.len() > 0 {
        lemma_select_subsequence(es.drop_last(), f, pk, m);
        let sel = select_prefix(es.drop_last(), f, pk, m);
        if is_selected(es.last(), f, pk, m) {
            assert(sel.push(es.last()).drop_last() =~= sel);
        }
    }
}

proof fn lemma_listed_subsequence(es: Seq<Entry>, include_empty: bool)
    ensures
        subsequence(listed_prefix(es, include_empty), es),
    decreases es.len(),
{
    if es.len() > 0 {
        lemma_listed_subsequence(es.drop_last(), include_empty);
        let sel = listed_prefix(es.drop_last(), include_empty);
        if is_listed(es.last(), include_empty) {
            assert(sel.push(es.last()).drop_last() =~= sel);
        }
    }
}

/// A selection keeps the store's order: it is the store's rows with some left out.
pub proof fn lemma_selection_in_store_order(rows: Seq<Entry>, js: Seq<Journal>, m: Map<i64, Vec<i64>>, f: Filter)
    requires
        spec_entries(rows, js, m, f) is Ok,
    ensures
        subsequence(spec_entries(rows, js, m, f)->Ok_0, rows),
{
    let listed = listed_prefix(rows, f.include_empty);
    lemma_listed_subsequence(rows, f.include_empty);
    lemma_select_subsequence(listed, f, filter_journal(js, f), m);
    lemma_subsequence_transitive(select_prefix(listed, f, filter_journal(js, f), m), listed, rows);
}

} // verus!
