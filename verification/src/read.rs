//! Read-only reports computed from entries and counts that the store yields.
use crate::model::{Entry, Journal};
use crate::query::{resolve_journal, spec_resolve_journal};
use crate::response::{AuditItem, JournalCount, Stats};
use crate::text::{chars_of, is_whitespace, is_ws, slice_vec, string_from};
use vstd::prelude::*;

verus! {

// ---------------------------------------------------------------------------------------
// Words
// ---------------------------------------------------------------------------------------
/// Number of maximal runs of non-whitespace characters (`str::split_whitespace().count()`).
pub open spec fn word_count(s: Seq<char>) -> int
    decreases s.len(),
{
    if s.len() == 0 {
        0
    } else {
        word_count(s.drop_last()) + if !is_ws(s.last()) && (s.len() == 1 || is_ws(s[s.len() - 2])) {
            1int
        } else {
            0int
        }
    }
}

proof fn lemma_word_count_bound(s: Seq<char>)
    ensures
        0 <= word_count(s) <= s.len(),
    decreases s.len(),
{
    if s.len() > 0 {
        lemma_word_count_bound(s.drop_last());
    }
}

/// Number of words of a text; see `word_count`.
pub fn words(s: &str) -> (r: usize)
    ensures
        r == word_count(s@),
{
    let v = chars_of(s);
    let mut n: usize = 0;
    let mut i: usize = 0;
    while i < v.len()
        invariant
            0 <= i <= v@.len(),
            n == word_count(v@.take(i as int)),
            n <= i,
        decreases v@.len() - i,
    {
        proof {
            assert(v@.take(i + 1).drop_last() =~= v@.take(i as int));
            lemma_word_count_bound(v@.take(i as int));
        }
        if !is_whitespace(v[i]) && (i == 0 || is_whitespace(v[i - 1])) {
            n = n + 1;
        }
        i = i + 1;
    }
    assert(v@.take(v@.len() as int) =~= v@);
    n
}

// ---------------------------------------------------------------------------------------
// Statistics
// ---------------------------------------------------------------------------------------
/// An entry counts as written when its body is not empty.
pub open spec fn has_text(e: Entry) -> bool {
    e.text@.len() > 0
}

/// Written entries of a listing, in order.
pub open spec fn written(es: Seq<Entry>) -> Seq<Entry>
    decreases es.len(),
{
    if es.len() == 0 {
        Seq::empty()
    } else if has_text(es.last()) {
        written(es.drop_last()).push(es.last())
    } else {
        written(es.drop_last())
    }
}

pub open spec fn total_words(es: Seq<Entry>) -> int
    decreases es.len(),
{
    if es.len() == 0 {
        0
    } else {
        total_words(es.drop_last()) + word_count(es.last().text@)
    }
}

/// The year of a dated entry: the first four characters of its date.
pub open spec fn year_of(e: Entry) -> Seq<char> {
    e.date->0@.subrange(0, 4)
}

/// Dates of written entries start with four ASCII characters (a year).
pub open spec fn years_shaped(es: Seq<Entry>) -> bool {
    forall|i: int| 0 <= i < es.len() && has_text(#[trigger] es[i]) ==> {
        &&& es[i].date is Some
        &&& es[i].date->0@.len() >= 4
        &&& forall|k: int| 0 <= k < 4 ==> (#[trigger] es[i].date->0@[k] as u32) < 128
    }
}

/// Number of written entries of a year.
pub open spec fn year_count(es: Seq<Entry>, y: Seq<char>) -> int
    decreases es.len(),
{
    if es.len() == 0 {
        0
    } else {
        year_count(es.drop_last(), y) + if has_text(es.last()) && year_of(es.last()) == y {
            1int
        } else {
            0int
        }
    }
}

/// Lexicographic order on character sequences (the order of `String`).
pub open spec fn seq_less(a: Seq<char>, b: Seq<char>) -> bool
    decreases a.len(),
{
    if a.len() == 0 {
        b.len() > 0
    } else if b.len() == 0 {
        false
    } else if a[0] != b[0] {
        a[0] < b[0]
    } else {
        seq_less(a.drop_first(), b.drop_first())
    }
}

/// The histogram by year: strictly increasing years, each written entry's year present,
/// each year with the number of written entries in it, and no year without one.
pub open spec fn is_year_histogram(ys: Seq<(String, usize)>, es: Seq<Entry>) -> bool {
    &&& forall|i: int, j: int| 0 <= i < j < ys.len() ==> seq_less(#[trigger] ys[i].0@, #[trigger] ys[j].0@)
    &&& forall|i: int| 0 <= i < ys.len() ==> (#[trigger] ys[i]).1 == year_count(es, ys[i].0@)
    &&& forall|i: int| 0 <= i < ys.len() ==> (#[trigger] ys[i]).1 > 0
    &&& forall|i: int| 0 <= i < es.len() && has_text(#[trigger] es[i]) ==> exists|k: int|
        0 <= k < ys.len() && ys[k].0@ == year_of(es[i])
}

} // verus!

verus! {

pub proof fn lemma_seq_less_irreflexive(a: Seq<char>)
    ensures
        !seq_less(a, a),
    decreases a.len(),
{
    if a.len() > 0 {
        lemma_seq_less_irreflexive(a.drop_first());
    }
}

pub proof fn lemma_seq_less_transitive(a: Seq<char>, b: Seq<char>, c: Seq<char>)
    requires
        seq_less(a, b),
        seq_less(b, c),
    ensures
        seq_less(a, c),
    decreases a.len(),
{
    if a.len() > 0 && b.len() > 0 && c.len() > 0 && a[0] == b[0] && b[0] == c[0] {
        lemma_seq_less_transitive(a.drop_first(), b.drop_first(), c.drop_first());
    }
}

pub proof fn lemma_seq_less_total(a: Seq<char>, b: Seq<char>)
    ensures
        a == b || seq_less(a, b) || seq_less(b, a),
    decreases a.len(),
{
    if a.len() > 0 && b.len() > 0 && a[0] == b[0] {
        lemma_seq_less_total(a.drop_first(), b.drop_first());
        if a.drop_first() == b.drop_first() {
            assert(a =~= seq![a[0]] + a.drop_first());
            assert(b =~= seq![b[0]] + b.drop_first());
        }
    } else if a.len() == 0 && b.len() == 0 {
        assert(a =~= b);
    }
}

proof fn lemma_seq_less_skip(a: Seq<char>, b: Seq<char>, k: int)
    requires
        0 <= k < a.len(),
        k < b.len(),
        a[k] == b[k],
    ensures
        seq_less(a.skip(k), b.skip(k)) == seq_less(a.skip(k + 1), b.skip(k + 1)),
{
    assert(a.skip(k).drop_first() =~= a.skip(k + 1));
    assert(b.skip(k).drop_first() =~= b.skip(k + 1));
}

/// Whether `a` sorts before `b`; see `seq_less`.
pub fn chars_less(a: &Vec<char>, b: &Vec<char>) -> (r: bool)
    ensures
        r == seq_less(a@, b@),
{
    let mut k: usize = 0;
    assert(a@.skip(0) =~= a@ && b@.skip(0) =~= b@);
    loop
        invariant
            0 <= k <= a@.len(),
            k <= b@.len(),
            seq_less(a@, b@) == seq_less(a@.skip(k as int), b@.skip(k as int)),
        decreases a@.len() - k,
    {
        if k == a.len() {
            return k < b.len();
        }
        if k == b.len() {
            return false;
        }
        if a[k] != b[k] {
            return a[k] < b[k];
        }
        proof {
            lemma_seq_less_skip(a@, b@, k as int);
        }
        k = k + 1;
    }
}

proof fn lemma_year_count_bound(es: Seq<Entry>, y: Seq<char>)
    ensures
        0 <= year_count(es, y) <= es.len(),
    decreases es.len(),
{
    if es.len() > 0 {
        lemma_year_count_bound(es.drop_last(), y);
    }
}

proof fn lemma_total_words_bound(es: Seq<Entry>)
    ensures
        total_words(es) >= 0,
        forall|k: int| 0 <= k <= es.len() ==> total_words(#[trigger] es.take(k)) <= total_words(es),
    decreases es.len(),
{
    if es.len() > 0 {
        lemma_total_words_bound(es.drop_last());
        lemma_word_count_bound(es.last().text@);
        assert forall|k: int| 0 <= k <= es.len() implies total_words(#[trigger] es.take(k)) <= total_words(es) by {
            if k == es.len() {
                assert(es.take(k) =~= es);
            } else {
                assert(es.take(k) =~= es.drop_last().take(k));
            }
        }
    }
}

/// Library statistics from the dated entries (empty ones included), newest first, and the
/// store's attachment and location counts: written entries (non-empty body), all rows,
/// words of written entries, the histogram of written entries by year, and the dates of
/// the oldest and newest written entries.
pub open spec fn stats_of(all: Seq<Entry>, attachments: i64, locations: i64, s: Stats) -> bool {
    let w = written(all);
    &&& s.entries == w.len()
    &&& s.rows == all.len()
    &&& s.words == total_words(w)
    &&& s.attachments == attachments
    &&& s.locations == locations
    &&& is_year_histogram(s.by_year@, all)
    &&& s.first == if w.len() > 0 { w.last().date } else { None }
    &&& s.last == if w.len() > 0 { w[0].date } else { None }
}

fn copy_string(s: &String) -> (r: String)
    ensures
        r == *s,
{
    s.clone()
}

fn year_key(e: &Entry) -> (r: Vec<char>)
    requires
        e.date is Some,
        e.date->0@.len() >= 4,
    ensures
        r@ == year_of(*e),
{
    match &e.date {
        Some(d) => {
            let v = chars_of(d.as_str());
            slice_vec(&v, 0, 4)
        },
        None => Vec::new(),
    }
}

/// Statistics of a store; see `stats_of`.
pub fn stats(all: &Vec<Entry>, attachments: i64, locations: i64) -> (r: Stats)
    requires
        years_shaped(all@),
        total_words(written(all@)) <= usize::MAX,
    ensures
        stats_of(all@, attachments, locations, r),
{
    let mut entries: usize = 0;
    let mut words_total: usize = 0;
    let mut ys: Vec<(String, usize)> = Vec::new();
    let mut first_real: Option<usize> = None;
    let mut last_real: Option<usize> = None;
    let ghost es = all@;
    let mut i: usize = 0;
    proof {
        lemma_total_words_bound(written(es));
    }
    while i < all.len()
        invariant
            0 <= i <= es.len(),
            es == all@,
            years_shaped(es),
            total_words(written(es)) <= usize::MAX,
            forall|k: int| 0 <= k <= written(es).len() ==> total_words(#[trigger] written(es).take(k)) <= total_words(written(es)),
            entries == written(es.take(i as int)).len(),
            words_total == total_words(written(es.take(i as int))),
            entries <= i,
            is_year_histogram(ys@, es.take(i as int)),
            forall|y: Seq<char>| (forall|k: int| 0 <= k < ys@.len() ==> (#[trigger] ys@[k]).0@ != y) ==> year_count(es.take(i as int), y) == 0,
            first_real matches Some(f) ==> f < i && written(es.take(i as int)).len() > 0 && all@[f as int] == written(es.take(i as int))[0],
            first_real is None ==> written(es.take(i as int)).len() == 0,
            last_real matches Some(l) ==> l < i && written(es.take(i as int)).len() > 0 && all@[l as int] == written(es.take(i as int)).last(),
            last_real is None ==> written(es.take(i as int)).len() == 0,
        decreases es.len() - i,
    {
        let ghost pre = es.take(i as int);
        let ghost post = es.take(i + 1);
        proof {
            assert(post.drop_last() =~= pre);
            assert(post.last() == es[i as int]);
            assert(post =~= pre.push(es[i as int]));
        }
        let e = &all[i];
        if !e.text.as_str().is_empty() {
            proof {
                assert(written(post) == written(pre).push(es[i as int]));
                lemma_prefix_of_written(es, i as int);
            }
            proof {
                assert(written(pre).push(es[i as int]).drop_last() =~= written(pre));
                lemma_word_count_bound(es[i as int].text@);
            }
            entries = entries + 1;
            let wc = words(e.text.as_str());
            assert(written(es).take(written(post).len() as int) == written(post));
            assert(total_words(written(post)) <= total_words(written(es)));
            words_total = words_total + wc;
            if first_real.is_none() {
                first_real = Some(i);
            }
            last_real = Some(i);
            let y = year_key(e);
            // Find the year, or the place where it belongs.
            let mut p: usize = 0;
            let mut found = false;
            let mut stop = false;
            while p < ys.len() && !stop
                invariant
                    0 <= p <= ys@.len(),
                    forall|k: int| 0 <= k < p ==> seq_less((#[trigger] ys@[k]).0@, y@),
                    found ==> stop && p < ys@.len() && ys@[p as int].0@ == y@,
                    stop && !found ==> p < ys@.len() && !seq_less(ys@[p as int].0@, y@) && ys@[p as int].0@ != y@,
                decreases ys@.len() - p + if stop { 0int } else { 1int },
            {
                let key = chars_of(ys[p].0.as_str());
                if crate::text::same_chars(&key, &y) {
                    found = true;
                    stop = true;
                } else if !chars_less(&key, &y) {
                    stop = true;
                } else {
                    p = p + 1;
                }
            }
            proof {
                lemma_year_count_bound(pre, y@);
            }
            let ghost old_ys = ys@;
            if found {
                let name = copy_string(&ys[p].0);
                let c = ys[p].1;
                proof {
                    assert(c == year_count(pre, y@));
                }
                ys.set(p, (name, c + 1));
            } else {
                let name = string_from(y.as_slice());
                ys.insert(p, (name, 1));
            }
            proof {
                lemma_histogram_step(old_ys, ys@, pre, es[i as int], p as int, found);
            }
        } else {
            proof {
                assert(written(post) == written(pre));
                assert forall|y: Seq<char>| year_count(post, y) == year_count(pre, y) by {}
                assert forall|k: int| 0 <= k < post.len() && has_text(#[trigger] post[k]) implies exists|m: int|
                    0 <= m < ys@.len() && ys@[m].0@ == year_of(post[k]) by {
                    assert(k < pre.len());
                    assert(post[k] == pre[k]);
                }
            }
        }
        i = i + 1;
    }
    proof {
        assert(es.take(es.len() as int) =~= es);
    }
    let first = match last_real {
        Some(l) => {
            assert(all@[l as int] == written(es).last());
            match &all[l].date {
                Some(d) => Some(copy_string(d)),
                None => None,
            }
        },
        None => None,
    };
    let last = match first_real {
        Some(f) => match &all[f].date {
            Some(d) => Some(copy_string(d)),
            None => None,
        },
        None => None,
    };
    let r = Stats {
        entries,
        rows: all.len(),
        words: words_total,
        attachments,
        locations,
        by_year: ys,
        first,
        last,
    };
    r
}

proof fn lemma_prefix_of_written(es: Seq<Entry>, i: int)
    requires
        0 <= i < es.len(),
    ensures
        written(es.take(i)).len() <= written(es).len(),
        written(es.take(i + 1)).len() <= written(es).len(),
        written(es).take(written(es.take(i + 1)).len() as int) == written(es.take(i + 1)),
    decreases es.len() - i,
{
    lemma_written_prefix(es, i + 1);
    lemma_written_prefix(es, i);
}

proof fn lemma_written_prefix(es: Seq<Entry>, k: int)
    requires
        0 <= k <= es.len(),
    ensures
        written(es.take(k)).len() <= written(es).len(),
        written(es).take(written(es.take(k)).len() as int) == written(es.take(k)),
    decreases es.len() - k,
{
    if k == es.len() {
        assert(es.take(k) =~= es);
        assert(written(es).take(written(es).len() as int) =~= written(es));
    } else {
        lemma_written_prefix(es, k + 1);
        let a = written(es.take(k));
        let b = written(es.take(k + 1));
        assert(es.take(k + 1).drop_last() =~= es.take(k));
        if has_text(es[k]) {
            assert(b == a.push(es[k]));
            assert(written(es).take(a.len() as int) =~= b.take(a.len() as int));
            assert(b.take(a.len() as int) =~= a);
        } else {
            assert(b == a);
        }
    }
}

proof fn lemma_histogram_step(
    old_ys: Seq<(String, usize)>,
    ys: Seq<(String, usize)>,
    pre: Seq<Entry>,
    e: Entry,
    p: int,
    found: bool,
)
    requires
        has_text(e),
        is_year_histogram(old_ys, pre),
        forall|y: Seq<char>| (forall|k: int| 0 <= k < old_ys.len() ==> (#[trigger] old_ys[k]).0@ != y) ==> year_count(pre, y) == 0,
        0 <= p <= old_ys.len(),
        forall|k: int| 0 <= k < p ==> seq_less((#[trigger] old_ys[k]).0@, year_of(e)),
        found ==> p < old_ys.len() && old_ys[p].0@ == year_of(e) && ys.len() == old_ys.len() && ys[p].0@ == old_ys[p].0@ && ys[p].1 == old_ys[p].1 + 1 && (forall|k: int| 0 <= k < ys.len() && k != p ==> ys[k] == old_ys[k]),
        !found ==> ys.len() == old_ys.len() + 1 && ys[p].0@ == year_of(e) && ys[p].1 == 1 && (p < old_ys.len() ==> !seq_less(old_ys[p].0@, year_of(e)) && old_ys[p].0@ != year_of(e)) && (forall|k: int| 0 <= k < p ==> ys[k] == old_ys[k]) && (forall|k: int| p < k < ys.len() ==> ys[k] == old_ys[k - 1]),
    ensures
        is_year_histogram(ys, pre.push(e)),
        forall|y: Seq<char>| (forall|k: int| 0 <= k < ys.len() ==> (#[trigger] ys[k]).0@ != y) ==> year_count(pre.push(e), y) == 0,
{
    let post = pre.push(e);
    let y = year_of(e);
    assert(post.drop_last() =~= pre);
    assert forall|z: Seq<char>| year_count(post, z) == year_count(pre, z) + if z == y { 1int } else { 0int } by {}
    assert forall|i: int| 0 <= i < ys.len() implies (#[trigger] ys[i]).1 > 0 by {
        if found {
            if i != p {
                assert(ys[i] == old_ys[i]);
            }
        } else if i < p {
            assert(ys[i] == old_ys[i]);
        } else if i > p {
            assert(ys[i] == old_ys[i - 1]);
        }
    }
    if found {
        assert forall|i: int, j: int| 0 <= i < j < ys.len() implies seq_less(#[trigger] ys[i].0@, #[trigger] ys[j].0@) by {
            assert(ys[i].0@ == old_ys[i].0@ && ys[j].0@ == old_ys[j].0@);
        }
        assert forall|i: int| 0 <= i < ys.len() implies (#[trigger] ys[i]).1 == year_count(post, ys[i].0@) by {
            if i != p {
                assert(ys[i] == old_ys[i]);
                if old_ys[i].0@ == y {
                    // Years are distinct in a strictly increasing sequence.
                    if i < p {
                        assert(seq_less(old_ys[i].0@, old_ys[p].0@));
                    } else {
                        assert(seq_less(old_ys[p].0@, old_ys[i].0@));
                    }
                    lemma_seq_less_irreflexive(y);
                }
            }
        }
        assert forall|i: int| 0 <= i < post.len() && has_text(#[trigger] post[i]) implies exists|k: int|
            0 <= k < ys.len() && ys[k].0@ == year_of(post[i]) by {
            if i < pre.len() {
                assert(post[i] == pre[i]);
                let k = choose|k: int| 0 <= k < old_ys.len() && old_ys[k].0@ == year_of(pre[i]);
                assert(ys[k].0@ == old_ys[k].0@);
            } else {
                assert(ys[p].0@ == y);
            }
        }
        assert forall|z: Seq<char>| (forall|k: int| 0 <= k < ys.len() ==> (#[trigger] ys[k]).0@ != z) implies year_count(post, z) == 0 by {
            assert forall|k: int| 0 <= k < old_ys.len() implies (#[trigger] old_ys[k]).0@ != z by {
                assert(ys[k].0@ == old_ys[k].0@);
            }
            assert(ys[p].0@ != z);
        }
    } else {
        // y is absent from old_ys: everything before p is smaller, everything from p larger.
        assert forall|k: int| 0 <= k < old_ys.len() implies (#[trigger] old_ys[k]).0@ != y by {
            if k < p {
                lemma_seq_less_irreflexive(y);
            } else {
                lemma_seq_less_total(old_ys[p].0@, y);
                if k > p {
                    assert(seq_less(old_ys[p].0@, old_ys[k].0@));
                    if old_ys[k].0@ == y {
                        lemma_seq_less_transitive(y, old_ys[p].0@, old_ys[k].0@);
                        lemma_seq_less_irreflexive(y);
                    }
                }
            }
        }
        assert(year_count(pre, y) == 0);
        if p < old_ys.len() {
            lemma_seq_less_total(old_ys[p].0@, y);
        }
        assert forall|i: int, j: int| 0 <= i < j < ys.len() implies seq_less(#[trigger] ys[i].0@, #[trigger] ys[j].0@) by {
            if j < p {
                assert(ys[i] == old_ys[i] && ys[j] == old_ys[j]);
            } else if j == p {
                assert(ys[i] == old_ys[i]);
            } else if i < p {
                assert(ys[i] == old_ys[i] && ys[j] == old_ys[j - 1]);
                if p < j - 1 {
                    assert(seq_less(old_ys[p].0@, old_ys[j - 1].0@));
                    lemma_seq_less_transitive(y, old_ys[p].0@, old_ys[j - 1].0@);
                }
                lemma_seq_less_transitive(old_ys[i].0@, y, old_ys[j - 1].0@);
            } else if i == p {
                assert(ys[j] == old_ys[j - 1]);
                if p < j - 1 {
                    assert(seq_less(old_ys[p].0@, old_ys[j - 1].0@));
                    lemma_seq_less_transitive(y, old_ys[p].0@, old_ys[j - 1].0@);
                }
            } else {
                assert(ys[i] == old_ys[i - 1] && ys[j] == old_ys[j - 1]);
            }
        }
        assert forall|i: int| 0 <= i < ys.len() implies (#[trigger] ys[i]).1 == year_count(post, ys[i].0@) by {
            if i < p {
                assert(ys[i] == old_ys[i]);
            } else if i > p {
                assert(ys[i] == old_ys[i - 1]);
            }
        }
        assert forall|i: int| 0 <= i < post.len() && has_text(#[trigger] post[i]) implies exists|k: int|
            0 <= k < ys.len() && ys[k].0@ == year_of(post[i]) by {
            if i < pre.len() {
                assert(post[i] == pre[i]);
                let k = choose|k: int| 0 <= k < old_ys.len() && old_ys[k].0@ == year_of(pre[i]);
                if k < p {
                    assert(ys[k] == old_ys[k]);
                } else {
                    assert(ys[k + 1] == old_ys[k]);
                }
            } else {
                assert(ys[p].0@ == y);
            }
        }
        assert forall|z: Seq<char>| (forall|k: int| 0 <= k < ys.len() ==> (#[trigger] ys[k]).0@ != z) implies year_count(post, z) == 0 by {
            assert forall|k: int| 0 <= k < old_ys.len() implies (#[trigger] old_ys[k]).0@ != z by {
                if k < p {
                    assert(ys[k] == old_ys[k]);
                } else {
                    assert(ys[k + 1] == old_ys[k]);
                }
            }
            assert(ys[p].0@ != z);
        }
    }
}

// ---------------------------------------------------------------------------------------
// Journal counts
// ---------------------------------------------------------------------------------------
/// The count shown for a journal: its own live members, plus the live entries that belong
/// to no journal when it is the default journal.
pub open spec fn journal_total(j: Journal, members: i64, unassigned: i64) -> int {
    members + if j.is_default { unassigned as int } else { 0int }
}

/// Pairs each journal with its count; `members[i]` is the number of live members of
/// `journals[i]`, `unassigned` the number of live entries in no journal.
pub fn journal_counts(journals: &Vec<Journal>, members: &Vec<i64>, unassigned: i64) -> (r: Vec<JournalCount>)
    requires
        journals@.len() == members@.len(),
        forall|i: int| 0 <= i < journals@.len() ==> i64::MIN <= #[trigger] journal_total(journals@[i], members@[i], unassigned) <= i64::MAX,
    ensures
        r@.len() == journals@.len(),
        forall|i: int| 0 <= i < r@.len() ==> (#[trigger] r@[i]).journal == journals@[i] && r@[i].entries == journal_total(journals@[i], members@[i], unassigned),
{
    let mut out: Vec<JournalCount> = Vec::new();
    let mut i: usize = 0;
    while i < journals.len()
        invariant
            0 <= i <= journals@.len(),
            journals@.len() == members@.len(),
            forall|k: int| 0 <= k < journals@.len() ==> i64::MIN <= #[trigger] journal_total(journals@[k], members@[k], unassigned) <= i64::MAX,
            out@.len() == i,
            forall|k: int| 0 <= k < i ==> (#[trigger] out@[k]).journal == journals@[k] && out@[k].entries == journal_total(journals@[k], members@[k], unassigned),
        decreases journals@.len() - i,
    {
        let j = journals[i].duplicate();
        proof {
            assert(i64::MIN <= journal_total(journals@[i as int], members@[i as int], unassigned) <= i64::MAX);
        }
        let entries = if j.is_default { members[i] + unassigned } else { members[i] };
        out.push(JournalCount { journal: j, entries });
        i = i + 1;
    }
    out
}

// ---------------------------------------------------------------------------------------
// Membership audit
// ---------------------------------------------------------------------------------------
/// Why an audit is refused.
pub enum AuditError {
    /// The selector names no journal, or several.
    UnknownJournal,
    /// The default journal has no custom membership to audit.
    DefaultJournal,
}

/// The journals other than the default one, in order.
pub open spec fn custom_journals(js: Seq<Journal>) -> Seq<Journal>
    decreases js.len(),
{
    if js.len() == 0 {
        Seq::empty()
    } else if js.last().is_default {
        custom_journals(js.drop_last())
    } else {
        custom_journals(js.drop_last()).push(js.last())
    }
}

/// Which journals an audit inspects: the one a selector names (refused when it names none,
/// several, or the default journal), or else every custom journal.
pub open spec fn spec_audit_targets(js: Seq<Journal>, selector: Option<Seq<char>>) -> Result<Seq<Journal>, AuditError> {
    match selector {
        Some(s) => match spec_resolve_journal(js, s) {
            None => Err(AuditError::UnknownJournal),
            Some(j) => if j.is_default {
                Err(AuditError::DefaultJournal)
            } else {
                Ok(seq![j])
            },
        },
        None => Ok(custom_journals(js)),
    }
}

/// The view of an optional selector.
pub open spec fn selector_view(s: Option<&str>) -> Option<Seq<char>> {
    match s {
        Some(t) => Some(t@),
        None => None,
    }
}

/// The journals to audit; see `spec_audit_targets`.
pub fn audit_targets(js: &Vec<Journal>, selector: Option<&str>) -> (r: Result<Vec<Journal>, AuditError>)
    ensures
        match (r, spec_audit_targets(js@, selector_view(selector))) {
            (Ok(v), Ok(w)) => v@ == w,
            (Err(a), Err(b)) => a == b,
            _ => false,
        },
{
    match selector {
        Some(s) => match resolve_journal(js, s) {
            None => Err(AuditError::UnknownJournal),
            Some(j) => {
                if j.is_default {
                    Err(AuditError::DefaultJournal)
                } else {
                    let mut v: Vec<Journal> = Vec::new();
                    v.push(j);
                    assert(v@ =~= seq![j]);
                    Ok(v)
                }
            },
        },
        None => {
            let mut v: Vec<Journal> = Vec::new();
            let mut i: usize = 0;
            while i < js.len()
                invariant
                    0 <= i <= js@.len(),
                    v@ == custom_journals(js@.take(i as int)),
                decreases js@.len() - i,
            {
                proof {
                    assert(js@.take(i + 1).drop_last() =~= js@.take(i as int));
                }
                if !js[i].is_default {
                    v.push(js[i].duplicate());
                }
                i = i + 1;
            }
            assert(js@.take(js@.len() as int) =~= js@);
            Ok(v)
        },
    }
}

/// The audit report: each target with a positive number of entries still awaiting
/// finalisation, as (name, count), in order.
pub open spec fn audit_report(ts: Seq<Journal>, pending: Seq<i64>) -> Seq<(Seq<char>, i64)>
    decreases ts.len(),
{
    if ts.len() == 0 || pending.len() < ts.len() {
        Seq::empty()
    } else {
        let rest = audit_report(ts.drop_last(), pending.take(ts.len() - 1));
        if pending[ts.len() - 1] > 0 {
            rest.push((ts.last().name@, pending[ts.len() - 1]))
        } else {
            rest
        }
    }
}

/// Audit items from the targets and their pending counts (`pending[i]` for `targets[i]`).
pub fn audit_items(targets: &Vec<Journal>, pending: &Vec<i64>) -> (r: Vec<AuditItem>)
    requires
        targets@.len() == pending@.len(),
    ensures
        r@.len() == audit_report(targets@, pending@).len(),
        forall|i: int| 0 <= i < r@.len() ==> (#[trigger] r@[i]).name@ == audit_report(targets@, pending@)[i].0 && r@[i].entries == audit_report(targets@, pending@)[i].1,
{
    let mut out: Vec<AuditItem> = Vec::new();
    let mut i: usize = 0;
    while i < targets.len()
        invariant
            0 <= i <= targets@.len(),
            targets@.len() == pending@.len(),
            out@.len() == audit_report(targets@.take(i as int), pending@.take(i as int)).len(),
            forall|k: int| 0 <= k < out@.len() ==> (#[trigger] out@[k]).name@ == audit_report(targets@.take(i as int), pending@.take(i as int))[k].0 && out@[k].entries == audit_report(targets@.take(i as int), pending@.take(i as int))[k].1,
        decreases targets@.len() - i,
    {
        proof {
            assert(targets@.take(i + 1).drop_last() =~= targets@.take(i as int));
            assert(pending@.take(i + 1).take(i as int) =~= pending@.take(i as int));
        }
        if pending[i] > 0 {
            let name = targets[i].name.clone();
            out.push(AuditItem { name, entries: pending[i] });
        }
        i = i + 1;
    }
    assert(targets@.take(targets@.len() as int) =~= targets@);
    assert(pending@.take(pending@.len() as int) =~= pending@);
    out
}

// ---------------------------------------------------------------------------------------
// Listings
// ---------------------------------------------------------------------------------------
/// A listing cut to at most `limit` entries, when a limit is given.
pub fn limit_listing(entries: Vec<Entry>, limit: Option<usize>) -> (r: Vec<Entry>)
    ensures
        r@ == match limit {
            Some(n) => if n < entries@.len() { entries@.take(n as int) } else { entries@ },
            None => entries@,
        },
{
    let mut v = entries;
    match limit {
        Some(n) => {
            if n < v.len() {
                v.truncate(n);
            }
        },
        None => {},
    }
    v
}

// ---------------------------------------------------------------------------------------
// The histogram accounts for every written entry
// ---------------------------------------------------------------------------------------
/// The sum of the counts of a histogram.
pub open spec fn histogram_total(ys: Seq<(String, usize)>) -> int
    decreases ys.len(),
{
    if ys.len() == 0 {
        0
    } else {
        histogram_total(ys.drop_last()) + ys.last().1
    }
}

/// The sum, over a list of years, of the written entries of each year.
spec fn counts_over(keys: Seq<Seq<char>>, es: Seq<Entry>) -> int
    decreases keys.len(),
{
    if keys.len() == 0 {
        0
    } else {
        counts_over(keys.drop_last(), es) + year_count(es, keys.last())
    }
}

/// How many of the keys equal `y`.
spec fn occurrences(keys: Seq<Seq<char>>, y: Seq<char>) -> int
    decreases keys.len(),
{
    if keys.len() == 0 {
        0
    } else {
        occurrences(keys.drop_last(), y) + if keys.last() == y { 1int } else { 0int }
    }
}

proof fn lemma_counts_step(keys: Seq<Seq<char>>, pre: Seq<Entry>, e: Entry)
    ensures
        counts_over(keys, pre.push(e)) == counts_over(keys, pre) + if has_text(e) { occurrences(keys, year_of(e)) } else { 0int },
    decreases keys.len(),
{
    let post = pre.push(e);
    assert(post.drop_last() =~= pre);
    if keys.len() > 0 {
        lemma_counts_step(keys.drop_last(), pre, e);
    }
}

proof fn lemma_occurrences_distinct(keys: Seq<Seq<char>>, y: Seq<char>)
    requires
        forall|i: int, j: int| 0 <= i < j < keys.len() ==> keys[i] != keys[j],
    ensures
        keys.contains(y) ==> occurrences(keys, y) == 1,
        !keys.contains(y) ==> occurrences(keys, y) == 0,
    decreases keys.len(),
{
    if keys.len() > 0 {
        let rest = keys.drop_last();
        lemma_occurrences_distinct(rest, y);
        if rest.contains(y) {
            let k = choose|k: int| 0 <= k < rest.len() && rest[k] == y;
            assert(keys[k] == y);
            assert(keys.contains(y));
            assert(keys.last() != y);
        } else if keys.contains(y) {
            let k = choose|k: int| 0 <= k < keys.len() && keys[k] == y;
            if k < rest.len() {
                assert(rest[k] == y);
            }
        } else {
            assert(keys.last() != y) by {
                if keys.last() == y {
                    assert(keys[keys.len() - 1] == y);
                }
            }
        }
    }
}

proof fn lemma_counts_cover(keys: Seq<Seq<char>>, es: Seq<Entry>)
    requires
        forall|i: int, j: int| 0 <= i < j < keys.len() ==> keys[i] != keys[j],
        forall|i: int| 0 <= i < es.len() && has_text(#[trigger] es[i]) ==> keys.contains(year_of(es[i])),
    ensures
        counts_over(keys, es) == written(es).len(),
    decreases es.len(),
{
    if es.len() == 0 {
        assert forall|i: int| 0 <= i < keys.len() implies year_count(es, keys[i]) == 0 by {}
        lemma_counts_zero(keys, es);
    } else {
        let pre = es.drop_last();
        let e = es.last();
        assert(es =~= pre.push(e));
        assert forall|i: int| 0 <= i < pre.len() && has_text(#[trigger] pre[i]) implies keys.contains(year_of(pre[i])) by {
            assert(es[i] == pre[i]);
        }
        lemma_counts_cover(keys, pre);
        lemma_counts_step(keys, pre, e);
        if has_text(e) {
            assert(es[es.len() - 1] == e);
            lemma_occurrences_distinct(keys, year_of(e));
        }
    }
}

proof fn lemma_counts_zero(keys: Seq<Seq<char>>, es: Seq<Entry>)
    requires
        es.len() == 0,
    ensures
        counts_over(keys, es) == 0,
    decreases keys.len(),
{
    if keys.len() > 0 {
        lemma_counts_zero(keys.drop_last(), es);
    }
}

proof fn lemma_total_is_counts(ys: Seq<(String, usize)>, es: Seq<Entry>)
    requires
        forall|i: int| 0 <= i < ys.len() ==> (#[trigger] ys[i]).1 == year_count(es, ys[i].0@),
    ensures
        histogram_total(ys) == counts_over(ys.map_values(|p: (String, usize)| p.0@), es),
    decreases ys.len(),
{
    if ys.len() > 0 {
        let rest = ys.drop_last();
        assert forall|i: int| 0 <= i < rest.len() implies (#[trigger] rest[i]).1 == year_count(es, rest[i].0@) by {
            assert(rest[i] == ys[i]);
        }
        lemma_total_is_counts(rest, es);
        assert(ys.map_values(|p: (String, usize)| p.0@).drop_last() =~= rest.map_values(|p: (String, usize)| p.0@));
        assert(ys[ys.len() - 1].1 == year_count(es, ys[ys.len() - 1].0@));
    }
}

/// The histogram by year accounts for every written entry exactly once: its counts add up
/// to the number of written entries.
pub proof fn lemma_histogram_total(ys: Seq<(String, usize)>, es: Seq<Entry>)
    requires
        is_year_histogram(ys, es),
    ensures
        histogram_total(ys) == written(es).len(),
{
    let keys = ys.map_values(|p: (String, usize)| p.0@);
    lemma_total_is_counts(ys, es);
    assert forall|i: int, j: int| 0 <= i < j < keys.len() implies keys[i] != keys[j] by {
        assert(seq_less(ys[i].0@, ys[j].0@));
        if keys[i] == keys[j] {
            lemma_seq_less_irreflexive(ys[i].0@);
        }
    }
    assert forall|i: int| 0 <= i < es.len() && has_text(#[trigger] es[i]) implies keys.contains(year_of(es[i])) by {
        let k = choose|k: int| 0 <= k < ys.len() && ys[k].0@ == year_of(es[i]);
        assert(keys[k] == year_of(es[i]));
    }
    lemma_counts_cover(keys, es);
}

/// The statistics account for every written entry in the histogram by year.
pub proof fn lemma_stats_histogram(all: Seq<Entry>, attachments: i64, locations: i64, s: Stats)
    requires
        stats_of(all, attachments, locations, s),
    ensures
        histogram_total(s.by_year@) == s.entries,
{
    lemma_histogram_total(s.by_year@, all);
}

} // verus!
