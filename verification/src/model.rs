//! Typed domain records decoded from the Journal store.
use crate::text::string_from;
use vstd::prelude::*;

verus! {

/// A journal entry. `timestamp` is the entry date as an integer key that orders instants
/// exactly as the store's floating-point seconds do; `date` is its local-time rendering.
#[derive(Debug)]
pub struct Entry {
    pub id: i64,
    pub uuid: Option<String>,
    pub date: Option<String>,
    pub title: String,
    pub text: String,
    pub chars: i64,
    pub bookmarked: bool,
    pub draft: bool,
    pub synced: bool,
    pub timestamp: Option<i64>,
}

/// A file that belongs to an asset; `path` is absolute.
#[derive(Debug)]
pub struct Attachment {
    pub path: String,
    pub name: Option<String>,
    pub exists: bool,
}

/// A journal (folder) of entries.
#[derive(Debug)]
pub struct Journal {
    pub pk: i64,
    pub name: String,
    pub is_default: bool,
}

/// An entry is listed when it has a date and, unless empty entries are requested, a
/// non-empty title or body.
pub open spec fn is_listed(e: Entry, include_empty: bool) -> bool {
    e.date is Some && (include_empty || e.text@.len() > 0 || e.title@.len() > 0)
}

pub open spec fn listed_prefix(es: Seq<Entry>, include_empty: bool) -> Seq<Entry>
    decreases es.len(),
{
    if es.len() == 0 {
        Seq::empty()
    } else if is_listed(es.last(), include_empty) {
        listed_prefix(es.drop_last(), include_empty).push(es.last())
    } else {
        listed_prefix(es.drop_last(), include_empty)
    }
}

/// The listed entries of a store, in store order.
pub fn listed(rows: Vec<Entry>, include_empty: bool) -> (r: Vec<Entry>)
    ensures
        r@ == listed_prefix(rows@, include_empty),
{
    let ghost all = rows@;
    let mut out: Vec<Entry> = Vec::new();
    for e in it: rows
        invariant
            it.seq() == all,
            out@ == listed_prefix(all.take(it.index() as int), include_empty),
    {
        proof {
            assert(all.take(it.index() + 1).drop_last() =~= all.take(it.index() as int));
        }
        if e.date.is_some() && (include_empty || !e.text.as_str().is_empty() || !e.title.as_str().is_empty()) {
            out.push(e);
        }
    }
    proof {
        assert(all.take(all.len() as int) =~= all);
    }
    out
}

// ---------------------------------------------------------------------------------------
// Journal names
// ---------------------------------------------------------------------------------------
pub open spec fn is_printable(b: u8) -> bool {
    0x20 <= b < 0x7f
}

/// The pieces of `b` between non-printable bytes (one more piece than separators).
pub open spec fn split_printable(b: Seq<u8>) -> Seq<Seq<u8>>
    decreases b.len(),
{
    if b.len() == 0 {
        seq![Seq::empty()]
    } else {
        let p = split_printable(b.drop_last());
        if !is_printable(b.last()) {
            p.push(Seq::empty())
        } else {
            p.update(p.len() - 1, p.last().push(b.last()))
        }
    }
}

pub open spec fn long_runs(rs: Seq<Seq<u8>>) -> Seq<Seq<u8>>
    decreases rs.len(),
{
    if rs.len() == 0 {
        Seq::empty()
    } else if rs.last().len() >= 3 {
        long_runs(rs.drop_last()).push(rs.last())
    } else {
        long_runs(rs.drop_last())
    }
}

/// Runs of at least three printable ASCII bytes in a journal's merge attributes.
pub open spec fn printable_runs(b: Seq<u8>) -> Seq<Seq<u8>> {
    long_runs(split_printable(b))
}

pub open spec fn title_key() -> Seq<u8> {
    seq![116u8, 105u8, 116u8, 108u8, 101u8]
}

/// Index of the first run equal to `title`.
pub open spec fn first_title(rs: Seq<Seq<u8>>, k: int) -> Option<int>
    decreases rs.len() - k,
{
    if k < 0 || k >= rs.len() {
        None
    } else if rs[k] == title_key() {
        Some(k)
    } else {
        first_title(rs, k + 1)
    }
}

pub open spec fn ascii_chars(b: Seq<u8>) -> Seq<char> {
    b.map_values(|x: u8| x as char)
}

pub open spec fn default_journal_name() -> Seq<char> {
    seq!['J', 'o', 'u', 'r', 'n', 'a', 'l']
}

/// A journal's display name: the printable run just before the first `title` run of its
/// merge attributes, or `Journal` when there is no such run (or no attributes).
pub open spec fn spec_journal_name(blob: Option<Seq<u8>>) -> Seq<char> {
    match blob {
        None => default_journal_name(),
        Some(b) => {
            let rs = printable_runs(b);
            match first_title(rs, 0) {
                Some(i) => if i > 0 { ascii_chars(rs[i - 1]) } else { default_journal_name() },
                None => default_journal_name(),
            }
        },
    }
}

proof fn lemma_split_printable_pieces(b: Seq<u8>)
    ensures
        split_printable(b).len() >= 1,
        forall|i: int, j: int| 0 <= i < split_printable(b).len() && 0 <= j < split_printable(b)[i].len() ==> is_printable(
            #[trigger] split_printable(b)[i][j],
        ),
        (forall|k: int| 0 <= k < b.len() ==> is_printable(#[trigger] b[k])) ==> split_printable(b) == seq![b],
    decreases b.len(),
{
    if b.len() > 0 {
        let d = b.drop_last();
        lemma_split_printable_pieces(d);
        let p = split_printable(d);
        if is_printable(b.last()) {
            let q = p.update(p.len() - 1, p.last().push(b.last()));
            assert forall|i: int, j: int| 0 <= i < q.len() && 0 <= j < q[i].len() implies is_printable(#[trigger] q[i][j]) by {
                if i < p.len() - 1 {
                    assert(q[i] == p[i]);
                } else if j < p.last().len() {
                    assert(q[i][j] == p[p.len() - 1][j]);
                }
            }
            if forall|k: int| 0 <= k < b.len() ==> is_printable(#[trigger] b[k]) {
                assert(forall|k: int| 0 <= k < d.len() ==> d[k] == b[k]);
                assert(p == seq![d]);
                assert(d.push(b.last()) =~= b);
                assert(q =~= seq![b]);
            }
        } else {
            let q = p.push(Seq::<u8>::empty());
            assert forall|i: int, j: int| 0 <= i < q.len() && 0 <= j < q[i].len() implies is_printable(#[trigger] q[i][j]) by {
                assert(q[i] == p[i]);
            }
            assert(!is_printable(b[b.len() - 1]));
        }
    } else {
        assert(b =~= Seq::<u8>::empty());
    }
}

proof fn lemma_long_runs_pieces(rs: Seq<Seq<u8>>)
    ensures
        forall|i: int| 0 <= i < long_runs(rs).len() ==> (#[trigger] long_runs(rs)[i]).len() >= 3 && rs.contains(long_runs(rs)[i]),
    decreases rs.len(),
{
    if rs.len() > 0 {
        let d = rs.drop_last();
        lemma_long_runs_pieces(d);
        let l = long_runs(rs);
        assert forall|i: int| 0 <= i < l.len() implies (#[trigger] l[i]).len() >= 3 && rs.contains(l[i]) by {
            if i < long_runs(d).len() {
                assert(l[i] == long_runs(d)[i]);
                let k = choose|k: int| 0 <= k < d.len() && d[k] == l[i];
                assert(rs[k] == d[k]);
            } else {
                assert(l[i] == rs.last());
                assert(rs[rs.len() - 1] == rs.last());
            }
        }
    }
}

/// The runs of a journal's merge attributes are pieces of at least three printable ASCII
/// bytes; attributes made only of printable bytes are one run when at least three bytes
/// long, and no run when shorter.
pub proof fn lemma_printable_runs(b: Seq<u8>)
    ensures
        forall|i: int| 0 <= i < printable_runs(b).len() ==> (#[trigger] printable_runs(b)[i]).len() >= 3,
        forall|i: int, j: int| 0 <= i < printable_runs(b).len() && 0 <= j < printable_runs(b)[i].len() ==> is_printable(
            #[trigger] printable_runs(b)[i][j],
        ),
        (forall|k: int| 0 <= k < b.len() ==> is_printable(#[trigger] b[k])) ==> printable_runs(b) == if b.len() >= 3 {
            seq![b]
        } else {
            Seq::<Seq<u8>>::empty()
        },
{
    lemma_split_printable_pieces(b);
    let sp = split_printable(b);
    lemma_long_runs_pieces(sp);
    let r = printable_runs(b);
    assert forall|i: int, j: int| 0 <= i < r.len() && 0 <= j < r[i].len() implies is_printable(#[trigger] r[i][j]) by {
        let k = choose|k: int| 0 <= k < sp.len() && sp[k] == r[i];
        assert(sp[k][j] == r[i][j]);
    }
    if forall|k: int| 0 <= k < b.len() ==> is_printable(#[trigger] b[k]) {
        assert(sp == seq![b]);
        assert(sp.drop_last() =~= Seq::<Seq<u8>>::empty());
        assert(sp.drop_last() == Seq::<Seq<u8>>::empty());
        assert(long_runs(sp.drop_last()) == Seq::<Seq<u8>>::empty());
        assert(sp.last() == b);
        assert(r == long_runs(sp));
        if b.len() >= 3 {
            assert(r =~= seq![b]);
        } else {
            assert(r =~= Seq::<Seq<u8>>::empty());
        }
    }
}

proof fn lemma_first_title_at(rs: Seq<Seq<u8>>, k: int, i: int)
    requires
        0 <= k <= i < rs.len(),
        rs[i] == title_key(),
        forall|j: int| 0 <= j < i ==> rs[j] != title_key(),
    ensures
        first_title(rs, k) == Some(i),
    decreases i - k,
{
    if k < i {
        lemma_first_title_at(rs, k + 1, i);
    }
}

proof fn lemma_no_title(rs: Seq<Seq<u8>>, k: int)
    requires
        0 <= k,
        forall|j: int| 0 <= j < rs.len() ==> rs[j] != title_key(),
    ensures
        first_title(rs, k) is None,
    decreases rs.len() - k,
{
    if k < rs.len() {
        lemma_no_title(rs, k + 1);
    }
}

/// A journal is named by the printable run right before the first `title` run of its
/// merge attributes: when the first run equal to `title` has index `i > 0`, the name is
/// run `i - 1`. When no run is `title`, or the first run is, or there are no attributes,
/// the name is `Journal`.
pub proof fn lemma_journal_name_precedes_title(b: Seq<u8>, i: int)
    requires
        0 <= i < printable_runs(b).len(),
        printable_runs(b)[i] == title_key(),
        forall|j: int| 0 <= j < i ==> printable_runs(b)[j] != title_key(),
    ensures
        i > 0 ==> spec_journal_name(Some(b)) == printable_runs(b)[i - 1].map_values(|x: u8| x as char),
        i == 0 ==> spec_journal_name(Some(b)) == seq!['J', 'o', 'u', 'r', 'n', 'a', 'l'],
{
    lemma_first_title_at(printable_runs(b), 0, i);
}

/// Without a `title` run, or without attributes, a journal is named `Journal`.
pub proof fn lemma_journal_name_default(blob: Option<Seq<u8>>)
    requires
        blob matches Some(b) ==> forall|j: int| 0 <= j < printable_runs(b).len() ==> printable_runs(b)[j] != title_key(),
    ensures
        spec_journal_name(blob) == seq!['J', 'o', 'u', 'r', 'n', 'a', 'l'],
{
    if let Some(b) = blob {
        lemma_no_title(printable_runs(b), 0);
    }
}

proof fn lemma_split_printable_nonempty(b: Seq<u8>)
    ensures
        split_printable(b).len() >= 1,
    decreases b.len(),
{
    if b.len() > 0 {
        lemma_split_printable_nonempty(b.drop_last());
    }
}

fn runs_of(b: &Vec<u8>) -> (r: Vec<Vec<u8>>)
    ensures
        r@.len() == printable_runs(b@).len(),
        forall|i: int| 0 <= i < r@.len() ==> #[trigger] r@[i]@ == printable_runs(b@)[i],
{
    let mut r: Vec<Vec<u8>> = Vec::new();
    let mut cur: Vec<u8> = Vec::new();
    let mut k: usize = 0;
    proof {
        assert(b@.take(0) =~= Seq::<u8>::empty());
        assert(long_runs(split_printable(b@.take(0)).drop_last()) =~= Seq::<Seq<u8>>::empty());
    }
    while k < b.len()
        invariant
            0 <= k <= b@.len(),
            split_printable(b@.take(k as int)).len() >= 1,
            r@.len() == long_runs(split_printable(b@.take(k as int)).drop_last()).len(),
            forall|i: int| 0 <= i < r@.len() ==> #[trigger] r@[i]@ == long_runs(
                split_printable(b@.take(k as int)).drop_last(),
            )[i],
            cur@ == split_printable(b@.take(k as int)).last(),
        decreases b@.len() - k,
    {
        let ghost p = split_printable(b@.take(k as int));
        proof {
            assert(b@.take(k + 1).drop_last() =~= b@.take(k as int));
        }
        let x = b[k];
        if !(0x20 <= x && x < 0x7f) {
            proof {
                assert(split_printable(b@.take(k + 1)).drop_last() =~= p);
                assert(p =~= p.drop_last().push(p.last()));
            }
            if cur.len() >= 3 {
                let done = cur;
                r.push(done);
            }
            cur = Vec::new();
        } else {
            cur.push(x);
            proof {
                assert(split_printable(b@.take(k + 1)).drop_last() =~= p.drop_last());
            }
        }
        k = k + 1;
    }
    proof {
        assert(b@.take(b@.len() as int) =~= b@);
        let p = split_printable(b@);
        assert(p =~= p.drop_last().push(p.last()));
    }
    if cur.len() >= 3 {
        r.push(cur);
    }
    r
}

fn is_title(run: &Vec<u8>) -> (r: bool)
    ensures
        r == (run@ == title_key()),
{
    if run.len() == 5 && run[0] == 116u8 && run[1] == 105u8 && run[2] == 116u8 && run[3] == 108u8
        && run[4] == 101u8 {
        assert(run@ =~= title_key());
        true
    } else {
        false
    }
}

/// A journal's display name; see `spec_journal_name`.
pub fn journal_name(blob: Option<&Vec<u8>>) -> (r: String)
    ensures
        r@ == spec_journal_name(
            match blob {
                Some(b) => Some(b@),
                None => None,
            },
        ),
{
    let fallback = vec!['J', 'o', 'u', 'r', 'n', 'a', 'l'];
    assert(fallback@ =~= default_journal_name());
    let b = match blob {
        None => {
            return string_from(fallback.as_slice());
        },
        Some(b) => b,
    };
    let rs = runs_of(b);
    let ghost spec_rs = printable_runs(b@);
    let mut i: usize = 0;
    while i < rs.len()
        invariant
            0 <= i <= rs@.len(),
            rs@.len() == spec_rs.len(),
            blob == Some(b),
            spec_rs == printable_runs(b@),
            fallback@ == default_journal_name(),
            forall|k: int| 0 <= k < rs@.len() ==> #[trigger] rs@[k]@ == spec_rs[k],
            first_title(spec_rs, 0) == first_title(spec_rs, i as int),
        decreases rs@.len() - i,
    {
        if is_title(&rs[i]) {
            if i == 0 {
                return string_from(fallback.as_slice());
            }
            let run = &rs[i - 1];
            let mut name: Vec<char> = Vec::new();
            let mut k: usize = 0;
            while k < run.len()
                invariant
                    0 <= k <= run@.len(),
                    name@ == ascii_chars(run@.take(k as int)),
                decreases run@.len() - k,
            {
                name.push(run[k] as char);
                proof {
                    assert(ascii_chars(run@.take(k + 1)) =~= ascii_chars(run@.take(k as int)).push(
                        run@[k as int] as char,
                    ));
                }
                k = k + 1;
            }
            proof {
                assert(run@.take(run@.len() as int) =~= run@);
            }
            return string_from(name.as_slice());
        }
        i = i + 1;
    }
    string_from(fallback.as_slice())
}

} // verus!
