//! Terminal text for operation results; operations never print directly.
use crate::markdown::{lines_of, split_lines};
use crate::model::Entry;
use crate::response::{AuditItem, DeletedEntry, JournalCount, MutationEffects, MutationResult, Stats};
use crate::text::{
    chars_of, contains_seq, decimal, lemma_contains_concat, lemma_contains_middle, lemma_contains_trans, decimal_i64, decimal_u64, extend, find_char, find_from, lemma_find_from, digit_char, nat_digits, same_chars,
    pad_left, pad_right, push_padded_left, push_padded_right, push_str, slice_vec, string_from,
};
use vstd::prelude::*;
use vstd::string::StrSliceExecFns;

verus! {

// ---------------------------------------------------------------------------------------
// Entry headings
// ---------------------------------------------------------------------------------------
/// The first line of a text as `str::lines` yields it: up to the first line feed, without
/// a carriage return that precedes that line feed; `None` for empty text.
pub open spec fn first_line(t: Seq<char>) -> Option<Seq<char>> {
    if t.len() == 0 {
        None
    } else {
        let k = find_from(t, 0, '\n');
        if k < t.len() && k > 0 && t[k - 1] == '\r' {
            Some(t.subrange(0, k - 1))
        } else {
            Some(t.subrange(0, k))
        }
    }
}

/// At most the first `n` characters.
pub open spec fn take_chars(s: Seq<char>, n: int) -> Seq<char> {
    if s.len() <= n { s } else { s.subrange(0, n) }
}

/// An entry's heading: its title, or else the first 60 characters of its first line, or
/// `(empty)` when it has no text.
pub open spec fn spec_head(title: Seq<char>, text: Seq<char>) -> Seq<char> {
    if title.len() > 0 {
        title
    } else {
        take_chars(
            match first_line(text) {
                Some(l) => l,
                None => "(empty)"@,
            },
            60,
        )
    }
}

fn take(s: &Vec<char>, n: usize) -> (r: Vec<char>)
    ensures
        r@ == take_chars(s@, n as int),
{
    if s.len() <= n {
        slice_vec(s, 0, s.len())
    } else {
        slice_vec(s, 0, n)
    }
}

/// An entry's heading; see `spec_head`.
pub fn head(e: &Entry) -> (r: Vec<char>)
    ensures
        r@ == spec_head(e.title@, e.text@),
{
    let title = chars_of(e.title.as_str());
    if title.len() > 0 {
        return title;
    }
    let text = chars_of(e.text.as_str());
    let line = if text.len() == 0 {
        chars_of("(empty)")
    } else {
        let k = find_char(&text, 0, '\n');
        proof {
            lemma_find_from(text@, 0, '\n');
        }
        if k < text.len() && k > 0 && text[k - 1] == '\r' {
            slice_vec(&text, 0, k - 1)
        } else {
            slice_vec(&text, 0, k)
        }
    };
    take(&line, 60)
}

// ---------------------------------------------------------------------------------------
// Entry listings
// ---------------------------------------------------------------------------------------
/// `*` for a bookmarked entry, a space for a synced one, `+` otherwise.
pub open spec fn marker(e: Entry) -> char {
    if e.bookmarked { '*' } else if e.synced { ' ' } else { '+' }
}

pub open spec fn indented_lines(ls: Seq<Seq<char>>) -> Seq<char>
    decreases ls.len(),
{
    if ls.len() == 0 {
        Seq::empty()
    } else {
        indented_lines(ls.drop_last()) + "        "@ + ls.last() + "\n"@
    }
}

pub open spec fn opt_text(s: Option<String>, fallback: Seq<char>) -> Seq<char> {
    match s {
        Some(t) => t@,
        None => fallback,
    }
}

/// One entry of a listing: marker, key in five columns, date and heading; with `full`,
/// every line of a non-empty body follows, indented by eight spaces, then a blank line.
pub open spec fn list_line(e: Entry, full: bool) -> Seq<char> {
    list_heading(e) + list_body(e, full)
}

pub open spec fn list_heading(e: Entry) -> Seq<char> {
    seq![marker(e)] + pad_left(decimal(e.id as int), 5) + "  "@ + opt_text(e.date, ""@) + "  "@
        + spec_head(e.title@, e.text@) + "\n"@
}

pub open spec fn list_body(e: Entry, full: bool) -> Seq<char> {
    if full && e.text@.len() > 0 {
        indented_lines(split_lines(e.text@)) + "\n"@
    } else {
        Seq::empty()
    }
}

pub open spec fn list_lines(es: Seq<Entry>, full: bool) -> Seq<char>
    decreases es.len(),
{
    if es.len() == 0 {
        Seq::empty()
    } else {
        list_lines(es.drop_last(), full) + list_line(es.last(), full)
    }
}

/// A listing of entries, with a count line; `No entries.` when there are none.
pub open spec fn spec_list_text(es: Seq<Entry>, full: bool) -> Seq<char> {
    if es.len() == 0 {
        "No entries.\n"@
    } else {
        list_lines(es, full) + count_line(es.len() as int)
    }
}

/// The count line that closes a non-empty listing.
pub open spec fn count_line(n: int) -> Seq<char> {
    "\n"@ + decimal(n) + if n == 1 {
        " entry.\n"@
    } else {
        " entries.\n"@
    }
}

proof fn lemma_list_lines_prefix(es: Seq<Entry>, full: bool, k: int)
    requires
        0 <= k <= es.len(),
    ensures
        list_lines(es.take(k), full).len() <= list_lines(es, full).len(),
        list_lines(es, full).subrange(0, list_lines(es.take(k), full).len() as int) == list_lines(es.take(k), full),
    decreases es.len(),
{
    if k == es.len() {
        assert(es.take(k) =~= es);
        assert(list_lines(es, full).subrange(0, list_lines(es, full).len() as int) =~= list_lines(es, full));
    } else {
        let d = es.drop_last();
        assert(d.take(k) =~= es.take(k));
        lemma_list_lines_prefix(d, full, k);
        let a = list_lines(es.take(k), full);
        assert(list_lines(es, full).subrange(0, a.len() as int) =~= list_lines(d, full).subrange(0, a.len() as int));
    }
}

/// A non-empty listing ends with its count line (`1 entry.` or `n entries.`), and the
/// entries' lines come before it in order: the line of entry `i` stands right after those
/// of the entries before it.
pub proof fn lemma_list_text_in_order(es: Seq<Entry>, full: bool)
    requires
        es.len() > 0,
    ensures
        ({
            let t = spec_list_text(es, full);
            let c = count_line(es.len() as int);
            &&& t.len() >= c.len()
            &&& t.subrange(t.len() - c.len(), t.len() as int) == c
            &&& forall|i: int| 0 <= i < es.len() ==> t.subrange(
                list_lines(es.take(i), full).len() as int,
                list_lines(es.take(i + 1), full).len() as int,
            ) == list_line(#[trigger] es[i], full)
        }),
{
    let t = spec_list_text(es, full);
    let ll = list_lines(es, full);
    let c = count_line(es.len() as int);
    assert(t =~= ll + c);
    assert(t.subrange(t.len() - c.len(), t.len() as int) =~= c);
    assert forall|i: int| 0 <= i < es.len() implies t.subrange(
        list_lines(es.take(i), full).len() as int,
        list_lines(es.take(i + 1), full).len() as int,
    ) == list_line(#[trigger] es[i], full) by {
        let a = list_lines(es.take(i), full);
        let b = list_lines(es.take(i + 1), full);
        assert(es.take(i + 1).drop_last() =~= es.take(i));
        assert(b == a + list_line(es[i], full));
        lemma_list_lines_prefix(es, full, i + 1);
        assert(t.subrange(a.len() as int, b.len() as int) =~= ll.subrange(0, b.len() as int).subrange(a.len() as int, b.len() as int));
        assert(b.subrange(a.len() as int, b.len() as int) =~= list_line(es[i], full));
    }
}

fn push_opt(out: &mut Vec<char>, s: &Option<String>, fallback: &str)
    ensures
        final(out)@ == old(out)@ + opt_text(*s, fallback@),
{
    match s {
        Some(t) => push_str(out, t.as_str()),
        None => push_str(out, fallback),
    }
}

fn push_list_line(out: &mut Vec<char>, e: &Entry, full: bool)
    ensures
        final(out)@ == old(out)@ + list_line(*e, full),
{
    let ghost start = out@;
    out.push(if e.bookmarked { '*' } else if e.synced { ' ' } else { '+' });
    let id = decimal_i64(e.id);
    push_padded_left(out, &id, 5);
    push_str(out, "  ");
    push_opt(out, &e.date, "");
    push_str(out, "  ");
    let h = head(e);
    extend(out, &h);
    push_str(out, "\n");
    assert(out@ =~= start + list_heading(*e));
    let ghost line_start = out@;
    if full && !e.text.as_str().is_empty() {
        let text = chars_of(e.text.as_str());
        let ls = lines_of(&text);
        let ghost sl = split_lines(text@);
        let mut i: usize = 0;
        while i < ls.len()
            invariant
                0 <= i <= ls@.len(),
                ls@.len() == sl.len(),
                forall|k: int| 0 <= k < ls@.len() ==> #[trigger] ls@[k]@ == sl[k],
                out@ == line_start + indented_lines(sl.take(i as int)),
            decreases ls@.len() - i,
        {
            proof {
                assert(sl.take(i + 1).drop_last() =~= sl.take(i as int));
            }
            push_str(out, "        ");
            extend(out, &ls[i]);
            push_str(out, "\n");
            i = i + 1;
        }
        proof {
            assert(sl.take(ls@.len() as int) =~= sl);
        }
        push_str(out, "\n");
    }
    assert(out@ =~= line_start + list_body(*e, full));
    assert(out@ =~= start + list_line(*e, full));
}

/// Text for a listing of entries; see `spec_list_text`.
pub fn list_text(es: &Vec<Entry>, full: bool) -> (r: String)
    ensures
        r@ == spec_list_text(es@, full),
{
    let mut out: Vec<char> = Vec::new();
    if es.len() == 0 {
        push_str(&mut out, "No entries.\n");
        return string_from(out.as_slice());
    }
    let mut i: usize = 0;
    while i < es.len()
        invariant
            0 <= i <= es@.len(),
            out@ == list_lines(es@.take(i as int), full),
        decreases es@.len() - i,
    {
        proof {
            assert(es@.take(i + 1).drop_last() =~= es@.take(i as int));
        }
        push_list_line(&mut out, &es[i], full);
        i = i + 1;
    }
    proof {
        assert(es@.take(es@.len() as int) =~= es@);
    }
    push_str(&mut out, "\n");
    let n = decimal_u64(es.len() as u64);
    extend(&mut out, &n);
    if es.len() == 1 {
        push_str(&mut out, " entry.\n");
    } else {
        push_str(&mut out, " entries.\n");
    }
    string_from(out.as_slice())
}

// ---------------------------------------------------------------------------------------
// Recently Deleted
// ---------------------------------------------------------------------------------------
/// One deleted entry: key, entry date (ten characters), deletion time (sixteen), and its
/// title, or its text when it has no title.
pub open spec fn deleted_line(e: DeletedEntry) -> Seq<char> {
    pad_left(decimal(e.id as int), 5) + "  entry "@ + take_chars(opt_text(e.date, "?"@), 10) + "  deleted "@
        + take_chars(opt_text(e.deleted, "?"@), 16) + "  "@ + (if e.title@.len() == 0 {
        e.text@
    } else {
        e.title@
    }) + "\n"@
}

pub open spec fn deleted_lines(es: Seq<DeletedEntry>) -> Seq<char>
    decreases es.len(),
{
    if es.len() == 0 {
        Seq::empty()
    } else {
        deleted_lines(es.drop_last()) + deleted_line(es.last())
    }
}

/// The Recently Deleted listing, with its count and restore hint.
pub open spec fn spec_deleted_text(es: Seq<DeletedEntry>) -> Seq<char> {
    if es.len() == 0 {
        "Recently Deleted is empty.\n"@
    } else {
        deleted_lines(es) + "\n"@ + decimal(es.len() as int)
            + " entries in Recently Deleted. restore <id> brings one back; they purge ~30 days after deletion.\n"@
    }
}

proof fn lemma_deleted_lines_prefix(es: Seq<DeletedEntry>, k: int)
    requires
        0 <= k <= es.len(),
    ensures
        deleted_lines(es.take(k)).len() <= deleted_lines(es).len(),
        deleted_lines(es).subrange(0, deleted_lines(es.take(k)).len() as int) == deleted_lines(es.take(k)),
    decreases es.len(),
{
    if k == es.len() {
        assert(es.take(k) =~= es);
        assert(deleted_lines(es).subrange(0, deleted_lines(es).len() as int) =~= deleted_lines(es));
    } else {
        let d = es.drop_last();
        assert(d.take(k) =~= es.take(k));
        lemma_deleted_lines_prefix(d, k);
        let a = deleted_lines(es.take(k));
        assert(deleted_lines(es).subrange(0, a.len() as int) =~= deleted_lines(d).subrange(0, a.len() as int));
    }
}

/// In the Recently Deleted listing, the entries' lines come in order, each line ends with
/// two spaces, the entry's title and a line feed, or with its text when the title is
/// empty, and the listing closes with the count of entries.
pub proof fn lemma_deleted_lines_show_titles(es: Seq<DeletedEntry>)
    requires
        es.len() > 0,
    ensures
        ({
            let t = spec_deleted_text(es);
            &&& forall|i: int| 0 <= i < es.len() ==> ({
                let a = deleted_lines(es.take(i)).len() as int;
                let b = deleted_lines(es.take(i + 1)).len() as int;
                let s = if (#[trigger] es[i]).title@.len() > 0 { es[i].title@ } else { es[i].text@ };
                &&& a + s.len() + 3 <= b <= t.len()
                &&& t.subrange(b - s.len() - 3, b) == "  "@ + s + "\n"@
                &&& t.subrange(a, b) == pad_left(decimal(es[i].id as int), 5) + "  entry "@ + take_chars(
                    opt_text(es[i].date, "?"@),
                    10,
                ) + "  deleted "@ + take_chars(opt_text(es[i].deleted, "?"@), 16) + "  "@ + s + "\n"@
            })
            &&& t.subrange(deleted_lines(es).len() as int, t.len() as int) == "\n"@ + decimal(es.len() as int)
                + " entries in Recently Deleted. restore <id> brings one back; they purge ~30 days after deletion.\n"@
        }),
{
    reveal_strlit("  ");
    reveal_strlit("\n");
    let t = spec_deleted_text(es);
    let dl = deleted_lines(es);
    let tail = "\n"@ + decimal(es.len() as int)
        + " entries in Recently Deleted. restore <id> brings one back; they purge ~30 days after deletion.\n"@;
    assert(t =~= dl + tail);
    assert(t.subrange(dl.len() as int, t.len() as int) =~= tail);
    assert forall|i: int| 0 <= i < es.len() implies ({
        let a = deleted_lines(es.take(i)).len() as int;
        let b = deleted_lines(es.take(i + 1)).len() as int;
        let s = if (#[trigger] es[i]).title@.len() > 0 { es[i].title@ } else { es[i].text@ };
        &&& a + s.len() + 3 <= b <= t.len()
        &&& t.subrange(b - s.len() - 3, b) == "  "@ + s + "\n"@
        &&& t.subrange(a, b) == pad_left(decimal(es[i].id as int), 5) + "  entry "@ + take_chars(
            opt_text(es[i].date, "?"@),
            10,
        ) + "  deleted "@ + take_chars(opt_text(es[i].deleted, "?"@), 16) + "  "@ + s + "\n"@
    }) by {
        let e = es[i];
        let a = deleted_lines(es.take(i));
        let b = deleted_lines(es.take(i + 1));
        let s = if e.title@.len() > 0 { e.title@ } else { e.text@ };
        assert(es.take(i + 1).drop_last() =~= es.take(i));
        assert(es.take(i + 1).last() == e);
        let front = pad_left(decimal(e.id as int), 5) + "  entry "@ + take_chars(opt_text(e.date, "?"@), 10) + "  deleted "@
            + take_chars(opt_text(e.deleted, "?"@), 16);
        assert(deleted_line(e) =~= front + ("  "@ + s + "\n"@));
        assert(b =~= a + front + ("  "@ + s + "\n"@));
        lemma_deleted_lines_prefix(es, i + 1);
        assert(("  "@ + s + "\n"@).len() == s.len() + 3);
        assert(t.subrange(b.len() - s.len() - 3, b.len() as int) =~= b.subrange(b.len() - s.len() - 3, b.len() as int));
        assert(b.subrange(b.len() - s.len() - 3, b.len() as int) =~= "  "@ + s + "\n"@);
        assert(t.subrange(a.len() as int, b.len() as int) =~= b.subrange(a.len() as int, b.len() as int));
        assert(b.subrange(a.len() as int, b.len() as int) =~= front + ("  "@ + s + "\n"@));
    }
}

fn push_taken(out: &mut Vec<char>, s: &Option<String>, n: usize)
    ensures
        final(out)@ == old(out)@ + take_chars(opt_text(*s, "?"@), n as int),
{
    let v = match s {
        Some(t) => chars_of(t.as_str()),
        None => chars_of("?"),
    };
    let t = take(&v, n);
    extend(out, &t);
}

/// Text for the Recently Deleted listing; see `spec_deleted_text`.
pub fn deleted_text(es: &Vec<DeletedEntry>) -> (r: String)
    ensures
        r@ == spec_deleted_text(es@),
{
    let mut out: Vec<char> = Vec::new();
    if es.len() == 0 {
        push_str(&mut out, "Recently Deleted is empty.\n");
        return string_from(out.as_slice());
    }
    let mut i: usize = 0;
    while i < es.len()
        invariant
            0 <= i <= es@.len(),
            out@ == deleted_lines(es@.take(i as int)),
        decreases es@.len() - i,
    {
        proof {
            assert(es@.take(i + 1).drop_last() =~= es@.take(i as int));
        }
        let ghost before = out@;
        let e = &es[i];
        let id = decimal_i64(e.id);
        push_padded_left(&mut out, &id, 5);
        push_str(&mut out, "  entry ");
        push_taken(&mut out, &e.date, 10);
        push_str(&mut out, "  deleted ");
        push_taken(&mut out, &e.deleted, 16);
        push_str(&mut out, "  ");
        if e.title.as_str().is_empty() {
            push_str(&mut out, e.text.as_str());
        } else {
            push_str(&mut out, e.title.as_str());
        }
        push_str(&mut out, "\n");
        proof {
            assert(out@ =~= before + deleted_line(*e));
        }
        i = i + 1;
    }
    proof {
        assert(es@.take(es@.len() as int) =~= es@);
    }
    push_str(&mut out, "\n");
    let n = decimal_u64(es.len() as u64);
    extend(&mut out, &n);
    push_str(
        &mut out,
        " entries in Recently Deleted. restore <id> brings one back; they purge ~30 days after deletion.\n",
    );
    string_from(out.as_slice())
}

// ---------------------------------------------------------------------------------------
// Journals
// ---------------------------------------------------------------------------------------
/// One journal: key in three columns, name in twenty-four, entry count in four.
pub open spec fn journal_line(j: JournalCount) -> Seq<char> {
    pad_left(decimal(j.journal.pk as int), 3) + "  "@ + pad_right(j.journal.name@, 24) + " "@ + pad_left(
        decimal(j.entries as int),
        4,
    ) + " entries"@ + (if j.journal.is_default {
        "  (default)"@
    } else {
        Seq::empty()
    }) + "\n"@
}

pub open spec fn spec_journals_text(js: Seq<JournalCount>) -> Seq<char>
    decreases js.len(),
{
    if js.len() == 0 {
        Seq::empty()
    } else {
        spec_journals_text(js.drop_last()) + journal_line(js.last())
    }
}

/// Text for the journal listing; see `journal_line`.
pub fn journals_text(js: &Vec<JournalCount>) -> (r: String)
    ensures
        r@ == spec_journals_text(js@),
{
    let mut out: Vec<char> = Vec::new();
    let mut i: usize = 0;
    while i < js.len()
        invariant
            0 <= i <= js@.len(),
            out@ == spec_journals_text(js@.take(i as int)),
        decreases js@.len() - i,
    {
        proof {
            assert(js@.take(i + 1).drop_last() =~= js@.take(i as int));
        }
        let ghost before = out@;
        let j = &js[i];
        let pk = decimal_i64(j.journal.pk);
        push_padded_left(&mut out, &pk, 3);
        push_str(&mut out, "  ");
        let name = chars_of(j.journal.name.as_str());
        push_padded_right(&mut out, &name, 24);
        push_str(&mut out, " ");
        let n = decimal_i64(j.entries);
        push_padded_left(&mut out, &n, 4);
        push_str(&mut out, " entries");
        if j.journal.is_default {
            push_str(&mut out, "  (default)");
        }
        push_str(&mut out, "\n");
        proof {
            assert(out@ =~= before + journal_line(*j));
        }
        i = i + 1;
    }
    proof {
        assert(js@.take(js@.len() as int) =~= js@);
    }
    string_from(out.as_slice())
}

} // verus!

verus! {

// ---------------------------------------------------------------------------------------
// Statistics
// ---------------------------------------------------------------------------------------
/// `d[..k]` with a comma before each digit that starts a group of three counted from the end.
pub open spec fn grouped_upto(d: Seq<char>, k: int) -> Seq<char>
    decreases k,
{
    if k <= 0 {
        Seq::empty()
    } else {
        grouped_upto(d, k - 1) + (if k - 1 > 0 && (d.len() - (k - 1)) % 3 == 0 {
            seq![',']
        } else {
            Seq::empty()
        }) + seq![d[k - 1]]
    }
}

/// A decimal number with thousands separators.
pub open spec fn thousands(n: int) -> Seq<char> {
    grouped_upto(decimal(n), decimal(n).len() as int)
}

/// A text with its commas left out.
pub open spec fn without_commas(s: Seq<char>) -> Seq<char>
    decreases s.len(),
{
    if s.len() == 0 {
        Seq::empty()
    } else if s.last() == ',' {
        without_commas(s.drop_last())
    } else {
        without_commas(s.drop_last()).push(s.last())
    }
}

proof fn lemma_without_commas_concat(a: Seq<char>, b: Seq<char>)
    ensures
        without_commas(a + b) == without_commas(a) + without_commas(b),
    decreases b.len(),
{
    if b.len() == 0 {
        assert(a + b =~= a);
        assert(without_commas(a) + Seq::<char>::empty() =~= without_commas(a));
    } else {
        lemma_without_commas_concat(a, b.drop_last());
        assert((a + b).drop_last() =~= a + b.drop_last());
        if b.last() != ',' {
            assert(without_commas(a) + without_commas(b.drop_last()).push(b.last()) =~= (without_commas(a)
                + without_commas(b.drop_last())).push(b.last()));
        }
    }
}

proof fn lemma_grouped_digits(d: Seq<char>, k: int)
    requires
        0 <= k <= d.len(),
        forall|i: int| 0 <= i < d.len() ==> #[trigger] d[i] != ',',
    ensures
        without_commas(grouped_upto(d, k)) == d.take(k),
    decreases k,
{
    if k > 0 {
        lemma_grouped_digits(d, k - 1);
        let sep: Seq<char> = if k - 1 > 0 && (d.len() - (k - 1)) % 3 == 0 { seq![','] } else { Seq::empty() };
        lemma_without_commas_concat(grouped_upto(d, k - 1), sep);
        lemma_without_commas_concat(grouped_upto(d, k - 1) + sep, seq![d[k - 1]]);
        let e = Seq::<char>::empty();
        assert(without_commas(e) == e);
        assert(without_commas(seq![',']) == e) by {
            assert(seq![','].last() == ',');
            assert(seq![','].drop_last() =~= e);
        }
        assert(without_commas(seq![d[k - 1]]) =~= seq![d[k - 1]]) by {
            assert(seq![d[k - 1]].last() == d[k - 1]);
            assert(d[k - 1] != ',');
            assert(seq![d[k - 1]].drop_last() =~= e);
            assert(e.push(d[k - 1]) =~= seq![d[k - 1]]);
        }
        assert(d.take(k - 1) + seq![d[k - 1]] =~= d.take(k));
        if sep.len() == 0 {
            assert(grouped_upto(d, k - 1) + sep =~= grouped_upto(d, k - 1));
        }
    }
}

proof fn lemma_digits_are_digits(n: nat)
    ensures
        forall|i: int| 0 <= i < nat_digits(n).len() ==> #[trigger] nat_digits(n)[i] != ',',
    decreases n,
{
    if n >= 10 {
        lemma_digits_are_digits((n / 10) as nat);
        lemma_digit_not_comma((n % 10) as int);
        let s = nat_digits(n);
        assert forall|i: int| 0 <= i < s.len() implies #[trigger] s[i] != ',' by {
            if i < s.len() - 1 {
                assert(s[i] == nat_digits((n / 10) as nat)[i]);
            }
        }
    } else {
        lemma_digit_not_comma(n as int);
    }
}

proof fn lemma_digit_not_comma(d: int)
    requires
        0 <= d < 10,
    ensures
        digit_char(d) != ',',
{
    if d == 0 {
        assert(digit_char(0) == '0');
    } else if d == 1 {
        assert(digit_char(1) == '1');
    } else if d == 2 {
        assert(digit_char(2) == '2');
    } else if d == 3 {
        assert(digit_char(3) == '3');
    } else if d == 4 {
        assert(digit_char(4) == '4');
    } else if d == 5 {
        assert(digit_char(5) == '5');
    } else if d == 6 {
        assert(digit_char(6) == '6');
    } else if d == 7 {
        assert(digit_char(7) == '7');
    } else if d == 8 {
        assert(digit_char(8) == '8');
    } else {
        assert(digit_char(9) == '9');
    }
}

/// Thousands separators only add commas: leaving them out gives the plain decimal digits.
pub proof fn lemma_thousands_digits(n: int)
    requires
        n >= 0,
    ensures
        without_commas(thousands(n)) == decimal(n),
{
    let d = decimal(n);
    lemma_digits_are_digits(n as nat);
    assert forall|i: int| 0 <= i < d.len() implies #[trigger] d[i] != ',' by {
        assert(nat_digits(n as nat)[i] != ',');
    }
    lemma_grouped_digits(d, d.len() as int);
    assert(d.take(d.len() as int) =~= d);
}

/// A date string whose first ten characters are ASCII, so that its first ten bytes are
/// its first ten characters.
pub open spec fn date_shaped(s: Seq<char>) -> bool {
    s.len() >= 10 && forall|i: int| 0 <= i < 10 ==> (#[trigger] s[i] as u32) < 128
}

pub open spec fn hashes(n: int) -> Seq<char> {
    Seq::new(if n > 0 { n as nat } else { 0 }, |i: int| '#')
}

/// One year of the histogram: year, count in four columns, and a bar of at most fifty `#`.
pub open spec fn year_line(y: (String, usize)) -> Seq<char> {
    "  "@ + y.0@ + "  "@ + pad_left(decimal(y.1 as int), 4) + "  "@ + hashes(if y.1 < 50 { y.1 as int } else { 50 }) + "\n"@
}

pub open spec fn year_lines(ys: Seq<(String, usize)>) -> Seq<char>
    decreases ys.len(),
{
    if ys.len() == 0 {
        Seq::empty()
    } else {
        year_lines(ys.drop_last()) + year_line(ys.last())
    }
}

pub open spec fn range_line(s: Stats) -> Seq<char> {
    match (s.first, s.last) {
        (Some(f), Some(l)) => "range        "@ + f@.subrange(0, 10) + " .. "@ + l@.subrange(0, 10) + "\n"@,
        _ => Seq::empty(),
    }
}

/// The statistics report: counts, words with thousands separators, the date range when
/// known, and a histogram by year.
pub open spec fn spec_stats_text(s: Stats) -> Seq<char> {
    "entries      "@ + decimal(s.entries as int) + " with text ("@ + decimal(s.rows as int)
        + " rows total)\nwords        "@ + thousands(s.words as int) + "\nattachments  "@ + decimal(
        s.attachments as int,
    ) + "\nlocations    "@ + decimal(s.locations as int) + "\n"@ + range_line(s) + "\nby year\n"@
        + year_lines(s.by_year@)
}

fn push_thousands(out: &mut Vec<char>, n: u64)
    ensures
        final(out)@ == old(out)@ + thousands(n as int),
{
    let d = decimal_u64(n);
    let ghost start = out@;
    let mut i: usize = 0;
    while i < d.len()
        invariant
            0 <= i <= d@.len(),
            d@ == decimal(n as int),
            out@ == start + grouped_upto(d@, i as int),
        decreases d@.len() - i,
    {
        if i > 0 && (d.len() - i) % 3 == 0 {
            out.push(',');
        }
        out.push(d[i]);
        proof {
            assert(out@ =~= start + grouped_upto(d@, i + 1));
        }
        i = i + 1;
    }
}

fn push_date_prefix(out: &mut Vec<char>, s: &String)
    requires
        date_shaped(s@),
    ensures
        final(out)@ == old(out)@ + s@.subrange(0, 10),
{
    let v = chars_of(s.as_str());
    let p = slice_vec(&v, 0, 10);
    extend(out, &p);
}

/// Text for the statistics report; see `spec_stats_text`.
pub fn stats_text(s: &Stats) -> (r: String)
    requires
        s.first matches Some(f) ==> date_shaped(f@),
        s.last matches Some(l) ==> date_shaped(l@),
    ensures
        r@ == spec_stats_text(*s),
{
    let mut out: Vec<char> = Vec::new();
    push_str(&mut out, "entries      ");
    let d = decimal_u64(s.entries as u64);
    extend(&mut out, &d);
    push_str(&mut out, " with text (");
    let d = decimal_u64(s.rows as u64);
    extend(&mut out, &d);
    push_str(&mut out, " rows total)\nwords        ");
    push_thousands(&mut out, s.words as u64);
    push_str(&mut out, "\nattachments  ");
    let d = decimal_i64(s.attachments);
    extend(&mut out, &d);
    push_str(&mut out, "\nlocations    ");
    let d = decimal_i64(s.locations);
    extend(&mut out, &d);
    push_str(&mut out, "\n");
    let ghost before_range = out@;
    match (&s.first, &s.last) {
        (Some(f), Some(l)) => {
            push_str(&mut out, "range        ");
            push_date_prefix(&mut out, f);
            push_str(&mut out, " .. ");
            push_date_prefix(&mut out, l);
            push_str(&mut out, "\n");
        },
        _ => {},
    }
    assert(out@ =~= before_range + range_line(*s));
    push_str(&mut out, "\nby year\n");
    let ghost base = out@;
    let mut i: usize = 0;
    while i < s.by_year.len()
        invariant
            0 <= i <= s.by_year@.len(),
            out@ == base + year_lines(s.by_year@.take(i as int)),
        decreases s.by_year@.len() - i,
    {
        proof {
            assert(s.by_year@.take(i + 1).drop_last() =~= s.by_year@.take(i as int));
        }
        let ghost before = out@;
        let (y, n) = &s.by_year[i];
        push_str(&mut out, "  ");
        push_str(&mut out, y.as_str());
        push_str(&mut out, "  ");
        let d = decimal_u64(*n as u64);
        push_padded_left(&mut out, &d, 4);
        push_str(&mut out, "  ");
        let bar: usize = if *n < 50 { *n } else { 50 };
        let mut k: usize = 0;
        while k < bar
            invariant
                0 <= k <= bar,
                out@ == before + "  "@ + y@ + "  "@ + pad_left(decimal(*n as int), 4) + "  "@ + hashes(k as int),
            decreases bar - k,
        {
            out.push('#');
            proof {
                assert(hashes(k + 1) =~= hashes(k as int).push('#'));
            }
            k = k + 1;
        }
        push_str(&mut out, "\n");
        proof {
            assert(out@ =~= before + year_line(s.by_year@[i as int]));
        }
        i = i + 1;
    }
    proof {
        assert(s.by_year@.take(s.by_year@.len() as int) =~= s.by_year@);
    }
    string_from(out.as_slice())
}

// ---------------------------------------------------------------------------------------
// Membership audit
// ---------------------------------------------------------------------------------------
pub open spec fn audit_lines(items: Seq<AuditItem>) -> Seq<char>
    decreases items.len(),
{
    if items.len() == 0 {
        Seq::empty()
    } else {
        audit_lines(items.drop_last()) + "  "@ + items.last().name@ + ": "@ + decimal(
            items.last().entries as int,
        ) + " entries\n"@
    }
}

/// The steps that finalise Mac-local memberships in Journal.app.
pub open spec fn audit_steps() -> Seq<char> {
    "\nDirect database relationships lack per-entry iCloud merge data.\n1. In Journal.app create a new final journal with a different name.\n2. Open the staging journal, choose Select Entries > Select All.\n3. Choose Move / Choose Journals and select the final journal.\n4. Wait for the staging journal to reach 0 entries and iCloud to finish syncing.\n\nThis command is read-only.\n"@
}

/// The membership audit: each staging journal with its entry count and the steps that
/// finalise them, or a note that there is nothing to finalise.
pub open spec fn spec_audit_text(items: Seq<AuditItem>) -> Seq<char> {
    if items.len() == 0 {
        "No Mac-local custom-journal memberships found.\n"@
    } else {
        "Mac-local memberships that require finalization in Journal.app:\n"@ + audit_lines(items) + audit_steps()
    }
}

/// Text for the membership audit; see `spec_audit_text`.
pub fn audit_text(items: &Vec<AuditItem>) -> (r: String)
    ensures
        r@ == spec_audit_text(items@),
{
    let mut out: Vec<char> = Vec::new();
    if items.len() == 0 {
        push_str(&mut out, "No Mac-local custom-journal memberships found.\n");
        return string_from(out.as_slice());
    }
    push_str(&mut out, "Mac-local memberships that require finalization in Journal.app:\n");
    let ghost base = out@;
    let mut i: usize = 0;
    while i < items.len()
        invariant
            0 <= i <= items@.len(),
            out@ == base + audit_lines(items@.take(i as int)),
        decreases items@.len() - i,
    {
        proof {
            assert(items@.take(i + 1).drop_last() =~= items@.take(i as int));
        }
        push_str(&mut out, "  ");
        push_str(&mut out, items[i].name.as_str());
        push_str(&mut out, ": ");
        let d = decimal_i64(items[i].entries);
        extend(&mut out, &d);
        push_str(&mut out, " entries\n");
        i = i + 1;
    }
    proof {
        assert(items@.take(items@.len() as int) =~= items@);
    }
    push_str(
        &mut out,
        "\nDirect database relationships lack per-entry iCloud merge data.\n1. In Journal.app create a new final journal with a different name.\n2. Open the staging journal, choose Select Entries > Select All.\n3. Choose Move / Choose Journals and select the final journal.\n4. Wait for the staging journal to reach 0 entries and iCloud to finish syncing.\n\nThis command is read-only.\n",
    );
    string_from(out.as_slice())
}

} // verus!

verus! {

// ---------------------------------------------------------------------------------------
// Mutations
// ---------------------------------------------------------------------------------------
/// The line (or lines) that report a mutation's result.
pub open spec fn spec_mutation_text(r: MutationResult) -> Seq<char> {
    match r {
        MutationResult::Created { id, chars, has_title } => "Created entry "@ + decimal(id as int) + " ("@
            + decimal(chars as int) + " chars"@ + (if has_title {
            ", title"@
        } else {
            Seq::empty()
        }) + ").\n"@,
        MutationResult::Updated { id } => "Updated entry "@ + decimal(id as int) + ".\n"@,
        MutationResult::Deleted { id, hard } => "Entry "@ + decimal(id as int) + " "@ + (if hard {
            "hard-deleted"@
        } else {
            "marked deleted (Recently Deleted); deletion will sync"@
        }) + ".\n"@,
        MutationResult::Restored { id } => "Entry "@ + decimal(id as int) + " restored; the restore will sync.\n"@,
        MutationResult::Emptied { purged, skipped } => "Purged "@ + decimal(purged as int) + " entries."@
            + (if skipped > 0 {
            " Skipped "@ + decimal(skipped as int)
                + " synced entries: empty Recently Deleted in Journal.app, or --force to accept resurrection risk."@
        } else {
            Seq::empty()
        }) + "\n"@,
        MutationResult::Repaired { assets, size } => if assets == 0 {
            "No hidden map assets found. Nothing to repair.\n"@
        } else {
            "Repaired "@ + decimal(assets as int) + " map asset(s) to '"@ + size@ + "'.\n"@
        },
        MutationResult::DryRun { operation, id, repair } => match repair {
            Some((n, size)) => "DRY RUN: would repair "@ + decimal(n as int) + " hidden map asset(s) to '"@
                + size@ + "'. Nothing written.\n"@,
            None => "DRY RUN: would "@ + operation@ + (match id {
                Some(i) => " entry "@ + decimal(i as int),
                None => if operation@ == "create"@ {
                    " entry"@
                } else {
                    Seq::empty()
                },
            }) + ". Nothing written.\n"@,
        },
    }
}

/// Text that reports a mutation's result; see `spec_mutation_text`.
pub fn mutation_text(r: &MutationResult) -> (s: String)
    ensures
        s@ == spec_mutation_text(*r),
{
    let mut out: Vec<char> = Vec::new();
    match r {
        MutationResult::Created { id, chars, has_title } => {
            push_str(&mut out, "Created entry ");
            let d = decimal_i64(*id);
            extend(&mut out, &d);
            push_str(&mut out, " (");
            let d = decimal_u64(*chars as u64);
            extend(&mut out, &d);
            push_str(&mut out, " chars");
            if *has_title {
                push_str(&mut out, ", title");
            }
            push_str(&mut out, ").\n");
        },
        MutationResult::Updated { id } => {
            push_str(&mut out, "Updated entry ");
            let d = decimal_i64(*id);
            extend(&mut out, &d);
            push_str(&mut out, ".\n");
        },
        MutationResult::Deleted { id, hard } => {
            push_str(&mut out, "Entry ");
            let d = decimal_i64(*id);
            extend(&mut out, &d);
            push_str(&mut out, " ");
            if *hard {
                push_str(&mut out, "hard-deleted");
            } else {
                push_str(&mut out, "marked deleted (Recently Deleted); deletion will sync");
            }
            push_str(&mut out, ".\n");
        },
        MutationResult::Restored { id } => {
            push_str(&mut out, "Entry ");
            let d = decimal_i64(*id);
            extend(&mut out, &d);
            push_str(&mut out, " restored; the restore will sync.\n");
        },
        MutationResult::Emptied { purged, skipped } => {
            push_str(&mut out, "Purged ");
            let d = decimal_u64(*purged as u64);
            extend(&mut out, &d);
            push_str(&mut out, " entries.");
            if *skipped > 0 {
                push_str(&mut out, " Skipped ");
                let d = decimal_u64(*skipped as u64);
                extend(&mut out, &d);
                push_str(
                    &mut out,
                    " synced entries: empty Recently Deleted in Journal.app, or --force to accept resurrection risk.",
                );
            }
            push_str(&mut out, "\n");
        },
        MutationResult::Repaired { assets, size } => {
            if *assets == 0 {
                push_str(&mut out, "No hidden map assets found. Nothing to repair.\n");
            } else {
                push_str(&mut out, "Repaired ");
                let d = decimal_u64(*assets as u64);
                extend(&mut out, &d);
                push_str(&mut out, " map asset(s) to '");
                push_str(&mut out, size);
                push_str(&mut out, "'.\n");
            }
        },
        MutationResult::DryRun { operation, id, repair } => {
            match repair {
                Some((n, size)) => {
                    push_str(&mut out, "DRY RUN: would repair ");
                    let d = decimal_i64(*n);
                    extend(&mut out, &d);
                    push_str(&mut out, " hidden map asset(s) to '");
                    push_str(&mut out, size);
                    push_str(&mut out, "'. Nothing written.\n");
                },
                None => {
                    push_str(&mut out, "DRY RUN: would ");
                    push_str(&mut out, operation);
                    match id {
                        Some(i) => {
                            push_str(&mut out, " entry ");
                            let d = decimal_i64(*i);
                            extend(&mut out, &d);
                        },
                        None => {
                            let op = chars_of(operation);
                            let create = chars_of("create");
                            if same_chars(&op, &create) {
                                push_str(&mut out, " entry");
                            }
                        },
                    }
                    push_str(&mut out, ". Nothing written.\n");
                },
            }
        },
    }
    string_from(out.as_slice())
}

pub open spec fn warning_lines(ws: Seq<String>) -> Seq<char>
    decreases ws.len(),
{
    if ws.len() == 0 {
        Seq::empty()
    } else {
        warning_lines(ws.drop_last()) + "warning: "@ + ws.last()@ + "\n"@
    }
}

/// The staging notice for custom-journal memberships.
pub open spec fn staging_notice() -> Seq<char> {
    "warning: this is a Mac-local staging membership. Run sync-journals --journal NAME for the native Journal.app steps required to sync that membership.\n"@
}

/// Diagnostics of a mutation: its backup path, the staging notice and each warning.
pub open spec fn spec_effects_text(e: MutationEffects) -> Seq<char> {
    (match e.backup {
        Some(p) => "backup: "@ + p@ + "\n"@,
        None => Seq::empty(),
    }) + (if e.staged {
        staging_notice()
    } else {
        Seq::empty()
    }) + warning_lines(e.warnings@)
}

/// Diagnostics of a mutation; see `spec_effects_text`.
pub fn effects_text(e: &MutationEffects) -> (s: String)
    ensures
        s@ == spec_effects_text(*e),
{
    let mut out: Vec<char> = Vec::new();
    if let Some(p) = &e.backup {
        push_str(&mut out, "backup: ");
        push_str(&mut out, p.as_str());
        push_str(&mut out, "\n");
    }
    if e.staged {
        push_str(
            &mut out,
            "warning: this is a Mac-local staging membership. Run sync-journals --journal NAME for the native Journal.app steps required to sync that membership.\n",
        );
    }
    let ghost base = out@;
    let mut i: usize = 0;
    while i < e.warnings.len()
        invariant
            0 <= i <= e.warnings@.len(),
            out@ == base + warning_lines(e.warnings@.take(i as int)),
        decreases e.warnings@.len() - i,
    {
        proof {
            assert(e.warnings@.take(i + 1).drop_last() =~= e.warnings@.take(i as int));
        }
        push_str(&mut out, "warning: ");
        push_str(&mut out, e.warnings[i].as_str());
        push_str(&mut out, "\n");
        i = i + 1;
    }
    proof {
        assert(e.warnings@.take(e.warnings@.len() as int) =~= e.warnings@);
    }
    string_from(out.as_slice())
}

// ---------------------------------------------------------------------------------------
// Output
// ---------------------------------------------------------------------------------------
/// Bytes for standard output and standard error.
pub struct Output {
    pub stdout: Vec<u8>,
    pub stderr: Vec<u8>,
}

/// The output of a mutation: its report on standard output, its diagnostics on standard
/// error, both in UTF-8.
pub fn mutation_output(result: &MutationResult, effects: &MutationEffects) -> (r: Output)
    ensures
        r.stdout@ == vstd::utf8::encode_utf8(spec_mutation_text(*result)),
        r.stderr@ == vstd::utf8::encode_utf8(spec_effects_text(*effects)),
{
    let text = mutation_text(result);
    let diagnostics = effects_text(effects);
    Output { stdout: text.as_str().as_bytes_vec(), stderr: diagnostics.as_str().as_bytes_vec() }
}

/// The output of a text report: the text on standard output when there is any.
pub fn text_output(text: &String) -> (r: Output)
    ensures
        r.stdout@ == vstd::utf8::encode_utf8(text@),
        r.stderr@.len() == 0,
{
    Output { stdout: text.as_str().as_bytes_vec(), stderr: Vec::new() }
}

// ---------------------------------------------------------------------------------------
// Entry details
// ---------------------------------------------------------------------------------------
/// A place of a location asset; `lat` and `lon` are already written out (`lon` as JSON).
pub struct PlaceText {
    pub name: Option<String>,
    pub city: Option<String>,
    pub lat: String,
    pub lon: String,
}

/// What an asset shows besides its files; numbers are already written out.
pub enum AssetText {
    Places(Vec<PlaceText>),
    Audio { duration: String, transcript: Option<String> },
    Link { url: Option<String>, link_title: Option<String> },
    Drawing(Option<String>),
    Other,
}

/// A file of an asset.
pub struct FileText {
    pub exists: bool,
    pub path: String,
}

/// An asset as the detail view shows it.
pub struct AssetView {
    pub id: i64,
    pub kind: String,
    pub details: AssetText,
    pub files: Vec<FileText>,
}

pub open spec fn place_lines(ps: Seq<PlaceText>) -> Seq<char>
    decreases ps.len(),
{
    if ps.len() == 0 {
        Seq::empty()
    } else {
        let p = ps.last();
        place_lines(ps.drop_last()) + "\nlocation  "@ + opt_text(p.name, Seq::empty()) + ", "@ + opt_text(
            p.city,
            Seq::empty(),
        ) + "  ("@ + p.lat@ + ", "@ + p.lon@ + ")\n"@
    }
}

pub open spec fn details_text(id: i64, d: AssetText) -> Seq<char> {
    match d {
        AssetText::Places(ps) => place_lines(ps@),
        AssetText::Audio { duration, transcript } => "\naudio (asset "@ + decimal(id as int) + ")  "@ + duration@ + "s  "@
            + opt_text(transcript, Seq::empty()) + "\n"@,
        AssetText::Link { url, link_title } => "\nlink  "@ + opt_text(link_title, Seq::empty()) + "  "@ + opt_text(
            url,
            Seq::empty(),
        ) + "\n"@,
        AssetText::Drawing(t) => "\ndrawing  "@ + opt_text(t, Seq::empty()) + "\n"@,
        AssetText::Other => Seq::empty(),
    }
}

/// The line of one file of an asset: its kind, key, whether the file exists, and its path.
pub open spec fn file_line(kind: Seq<char>, id: i64, f: FileText) -> Seq<char> {
    "\n"@ + kind + " (asset "@ + decimal(id as int) + ")  "@ + (if f.exists {
        "ok"@
    } else {
        "MISSING"@
    }) + "  "@ + f.path@ + "\n"@
}

pub open spec fn file_lines(kind: Seq<char>, id: i64, fs: Seq<FileText>) -> Seq<char>
    decreases fs.len(),
{
    if fs.len() == 0 {
        Seq::empty()
    } else {
        file_lines(kind, id, fs.drop_last()) + file_line(kind, id, fs.last())
    }
}

pub open spec fn asset_lines(as_: Seq<AssetView>) -> Seq<char>
    decreases as_.len(),
{
    if as_.len() == 0 {
        Seq::empty()
    } else {
        let a = as_.last();
        asset_lines(as_.drop_last()) + details_text(a.id, a.details) + file_lines(a.kind@, a.id, a.files@)
    }
}

/// The detail view of an entry: its key, UUID, date, title and body, then each asset's
/// details and files.
pub open spec fn spec_detail_text(e: Entry, assets: Seq<AssetView>) -> Seq<char> {
    "id      "@ + decimal(e.id as int) + "\nuuid    "@ + opt_text(e.uuid, Seq::empty()) + "\ndate    "@ + opt_text(
        e.date,
        Seq::empty(),
    ) + "\ntitle   "@ + e.title@ + "\n\n"@ + e.text@ + "\n"@ + asset_lines(assets)
}

fn push_present(out: &mut Vec<char>, s: &Option<String>)
    ensures
        final(out)@ == old(out)@ + opt_text(*s, Seq::empty()),
{
    match s {
        Some(t) => push_str(out, t.as_str()),
        None => {
            assert(old(out)@ + Seq::<char>::empty() =~= old(out)@);
        },
    }
}

fn push_details(out: &mut Vec<char>, id: i64, d: &AssetText)
    ensures
        final(out)@ == old(out)@ + details_text(id, *d),
{
    let ghost start = out@;
    match d {
        AssetText::Places(ps) => {
            let mut i: usize = 0;
            while i < ps.len()
                invariant
                    0 <= i <= ps@.len(),
                    out@ == start + place_lines(ps@.take(i as int)),
                decreases ps@.len() - i,
            {
                proof {
                    assert(ps@.take(i + 1).drop_last() =~= ps@.take(i as int));
                }
                let p = &ps[i];
                push_str(out, "\nlocation  ");
                push_present(out, &p.name);
                push_str(out, ", ");
                push_present(out, &p.city);
                push_str(out, "  (");
                push_str(out, p.lat.as_str());
                push_str(out, ", ");
                push_str(out, p.lon.as_str());
                push_str(out, ")\n");
                i = i + 1;
            }
            assert(ps@.take(ps@.len() as int) =~= ps@);
        },
        AssetText::Audio { duration, transcript } => {
            push_str(out, "\naudio (asset ");
            extend(out, &decimal_i64(id));
            push_str(out, ")  ");
            push_str(out, duration.as_str());
            push_str(out, "s  ");
            push_present(out, transcript);
            push_str(out, "\n");
        },
        AssetText::Link { url, link_title } => {
            push_str(out, "\nlink  ");
            push_present(out, link_title);
            push_str(out, "  ");
            push_present(out, url);
            push_str(out, "\n");
        },
        AssetText::Drawing(t) => {
            push_str(out, "\ndrawing  ");
            push_present(out, t);
            push_str(out, "\n");
        },
        AssetText::Other => {
            assert(out@ =~= start + Seq::<char>::empty());
        },
    }
}

/// Text for the detail view of an entry; see `spec_detail_text`.
pub fn detail_text(e: &Entry, assets: &Vec<AssetView>) -> (r: String)
    ensures
        r@ == spec_detail_text(*e, assets@),
{
    let mut out: Vec<char> = Vec::new();
    push_str(&mut out, "id      ");
    extend(&mut out, &decimal_i64(e.id));
    push_str(&mut out, "\nuuid    ");
    push_present(&mut out, &e.uuid);
    push_str(&mut out, "\ndate    ");
    push_present(&mut out, &e.date);
    push_str(&mut out, "\ntitle   ");
    push_str(&mut out, e.title.as_str());
    push_str(&mut out, "\n\n");
    push_str(&mut out, e.text.as_str());
    push_str(&mut out, "\n");
    let ghost head = out@;
    let mut i: usize = 0;
    while i < assets.len()
        invariant
            0 <= i <= assets@.len(),
            out@ == head + asset_lines(assets@.take(i as int)),
        decreases assets@.len() - i,
    {
        proof {
            assert(assets@.take(i + 1).drop_last() =~= assets@.take(i as int));
        }
        let a = &assets[i];
        push_details(&mut out, a.id, &a.details);
        let ghost mid = out@;
        let mut k: usize = 0;
        while k < a.files.len()
            invariant
                0 <= k <= a.files@.len(),
                out@ == mid + file_lines(a.kind@, a.id, a.files@.take(k as int)),
            decreases a.files@.len() - k,
        {
            proof {
                assert(a.files@.take(k + 1).drop_last() =~= a.files@.take(k as int));
            }
            let f = &a.files[k];
            let ghost before = out@;
            push_str(&mut out, "\n");
            push_str(&mut out, a.kind.as_str());
            push_str(&mut out, " (asset ");
            extend(&mut out, &decimal_i64(a.id));
            push_str(&mut out, ")  ");
            if f.exists {
                push_str(&mut out, "ok");
            } else {
                push_str(&mut out, "MISSING");
            }
            push_str(&mut out, "  ");
            push_str(&mut out, f.path.as_str());
            push_str(&mut out, "\n");
            proof {
                assert(out@ =~= before + file_line(a.kind@, a.id, *f));
            }
            k = k + 1;
        }
        assert(a.files@.take(a.files@.len() as int) =~= a.files@);
        i = i + 1;
    }
    assert(assets@.take(assets@.len() as int) =~= assets@);
    assert(out@ =~= spec_detail_text(*e, assets@));
    string_from(out.as_slice())
}

/// The texts that an asset's details show: each place's name and city, a transcript, a
/// link's title and address, or a drawing's text.
pub open spec fn shown_fields(d: AssetText) -> Seq<Seq<char>> {
    match d {
        AssetText::Places(ps) => place_fields(ps@),
        AssetText::Audio { duration, transcript } => seq![opt_text(transcript, Seq::empty())],
        AssetText::Link { url, link_title } => seq![opt_text(link_title, Seq::empty()), opt_text(url, Seq::empty())],
        AssetText::Drawing(t) => seq![opt_text(t, Seq::empty())],
        AssetText::Other => Seq::empty(),
    }
}

/// The name and city of each place, in order.
pub open spec fn place_fields(ps: Seq<PlaceText>) -> Seq<Seq<char>>
    decreases ps.len(),
{
    if ps.len() == 0 {
        Seq::empty()
    } else {
        place_fields(ps.drop_last()) + seq![opt_text(ps.last().name, Seq::empty()), opt_text(ps.last().city, Seq::empty())]
    }
}

proof fn lemma_place_lines_show(ps: Seq<PlaceText>)
    ensures
        forall|k: int| 0 <= k < place_fields(ps).len() ==> contains_seq(place_lines(ps), #[trigger] place_fields(ps)[k]),
    decreases ps.len(),
{
    if ps.len() > 0 {
        let p = ps.last();
        let prev = place_lines(ps.drop_last());
        let name = opt_text(p.name, Seq::empty());
        let city = opt_text(p.city, Seq::empty());
        let tail = "  ("@ + p.lat@ + ", "@ + p.lon@ + ")\n"@;
        lemma_place_lines_show(ps.drop_last());
        assert(place_lines(ps) =~= (prev + "\nlocation  "@) + name + (", "@ + city + tail));
        lemma_contains_middle(prev + "\nlocation  "@, name, ", "@ + city + tail);
        assert(place_lines(ps) =~= (prev + "\nlocation  "@ + name + ", "@) + city + tail);
        lemma_contains_middle(prev + "\nlocation  "@ + name + ", "@, city, tail);
        let rest = "\nlocation  "@ + name + ", "@ + city + tail;
        assert(place_lines(ps) =~= prev + rest);
        let fs = place_fields(ps);
        assert forall|k: int| 0 <= k < fs.len() implies contains_seq(place_lines(ps), #[trigger] fs[k]) by {
            if k < place_fields(ps.drop_last()).len() {
                assert(fs[k] == place_fields(ps.drop_last())[k]);
                lemma_contains_concat(prev, rest, fs[k]);
            } else if k == place_fields(ps.drop_last()).len() {
                assert(fs[k] == name);
            } else {
                assert(fs[k] == city);
            }
        }
    }
}

proof fn lemma_details_show(id: i64, d: AssetText)
    ensures
        forall|k: int| 0 <= k < shown_fields(d).len() ==> contains_seq(details_text(id, d), #[trigger] shown_fields(d)[k]),
{
    match d {
        AssetText::Places(ps) => {
            lemma_place_lines_show(ps@);
        },
        AssetText::Audio { duration, transcript } => {
            let t = opt_text(transcript, Seq::empty());
            let a = "\naudio (asset "@ + decimal(id as int) + ")  "@ + duration@ + "s  "@;
            assert(details_text(id, d) =~= a + t + "\n"@);
            lemma_contains_middle(a, t, "\n"@);
            assert(shown_fields(d)[0] == t);
        },
        AssetText::Link { url, link_title } => {
            let t = opt_text(link_title, Seq::empty());
            let u = opt_text(url, Seq::empty());
            assert(details_text(id, d) =~= "\nlink  "@ + t + ("  "@ + u + "\n"@));
            lemma_contains_middle("\nlink  "@, t, "  "@ + u + "\n"@);
            assert(details_text(id, d) =~= ("\nlink  "@ + t + "  "@) + u + "\n"@);
            lemma_contains_middle("\nlink  "@ + t + "  "@, u, "\n"@);
            assert(shown_fields(d)[0] == t);
            assert(shown_fields(d)[1] == u);
        },
        AssetText::Drawing(x) => {
            let t = opt_text(x, Seq::empty());
            assert(details_text(id, d) =~= "\ndrawing  "@ + t + "\n"@);
            lemma_contains_middle("\ndrawing  "@, t, "\n"@);
            assert(shown_fields(d)[0] == t);
        },
        AssetText::Other => {},
    }
}

proof fn lemma_file_lines_show(kind: Seq<char>, id: i64, fs: Seq<FileText>)
    ensures
        forall|j: int| 0 <= j < fs.len() ==> contains_seq(file_lines(kind, id, fs), file_line(kind, id, #[trigger] fs[j])),
    decreases fs.len(),
{
    if fs.len() > 0 {
        let prev = file_lines(kind, id, fs.drop_last());
        let last = file_line(kind, id, fs.last());
        lemma_file_lines_show(kind, id, fs.drop_last());
        assert(prev + last =~= prev + last + Seq::<char>::empty());
        lemma_contains_middle(prev, last, Seq::<char>::empty());
        assert forall|j: int| 0 <= j < fs.len() implies contains_seq(file_lines(kind, id, fs), file_line(kind, id, #[trigger] fs[j])) by {
            if j < fs.len() - 1 {
                assert(fs[j] == fs.drop_last()[j]);
                lemma_contains_concat(prev, last, file_line(kind, id, fs[j]));
            }
        }
    }
}

proof fn lemma_asset_lines_show(as_: Seq<AssetView>)
    ensures
        forall|i: int, k: int| 0 <= i < as_.len() && 0 <= k < shown_fields(as_[i].details).len() ==> contains_seq(
            asset_lines(as_),
            #[trigger] shown_fields(as_[i].details)[k],
        ),
        forall|i: int, j: int| 0 <= i < as_.len() && 0 <= j < as_[i].files@.len() ==> contains_seq(
            asset_lines(as_),
            file_line(as_[i].kind@, as_[i].id, #[trigger] as_[i].files@[j]),
        ),
    decreases as_.len(),
{
    if as_.len() > 0 {
        let a = as_.last();
        let prev = asset_lines(as_.drop_last());
        let det = details_text(a.id, a.details);
        let fl = file_lines(a.kind@, a.id, a.files@);
        lemma_asset_lines_show(as_.drop_last());
        lemma_details_show(a.id, a.details);
        lemma_file_lines_show(a.kind@, a.id, a.files@);
        lemma_contains_middle(prev, det, fl);
        assert(asset_lines(as_) =~= prev + (det + fl));
        assert forall|i: int, k: int| 0 <= i < as_.len() && 0 <= k < shown_fields(as_[i].details).len() implies contains_seq(
            asset_lines(as_),
            #[trigger] shown_fields(as_[i].details)[k],
        ) by {
            let x = shown_fields(as_[i].details)[k];
            if i < as_.len() - 1 {
                assert(as_[i] == as_.drop_last()[i]);
                lemma_contains_concat(prev, det + fl, x);
            } else {
                lemma_contains_trans(asset_lines(as_), det, x);
            }
        }
        assert(contains_seq(prev + det + fl, fl)) by {
            assert(prev + det + fl =~= (prev + det) + fl + Seq::<char>::empty());
            lemma_contains_middle(prev + det, fl, Seq::<char>::empty());
        }
        assert forall|i: int, j: int| 0 <= i < as_.len() && 0 <= j < as_[i].files@.len() implies contains_seq(
            asset_lines(as_),
            file_line(as_[i].kind@, as_[i].id, #[trigger] as_[i].files@[j]),
        ) by {
            let x = file_line(as_[i].kind@, as_[i].id, as_[i].files@[j]);
            if i < as_.len() - 1 {
                assert(as_[i] == as_.drop_last()[i]);
                lemma_contains_concat(prev, det + fl, x);
            } else {
                lemma_contains_trans(asset_lines(as_), fl, x);
            }
        }
    }
}

/// The detail view keeps the entry's content: its title and body, every text its assets'
/// details show (place names and cities, transcripts, link titles and addresses, drawing
/// text), and for every file of every asset the line with the asset's kind and key, `ok`
/// or `MISSING`, and the file's path.
pub proof fn lemma_detail_shows_content(e: Entry, assets: Seq<AssetView>)
    ensures
        contains_seq(spec_detail_text(e, assets), e.title@),
        contains_seq(spec_detail_text(e, assets), e.text@),
        forall|i: int, k: int| 0 <= i < assets.len() && 0 <= k < shown_fields(assets[i].details).len() ==> contains_seq(
            spec_detail_text(e, assets),
            #[trigger] shown_fields(assets[i].details)[k],
        ),
        forall|i: int, j: int| 0 <= i < assets.len() && 0 <= j < assets[i].files@.len() ==> contains_seq(
            spec_detail_text(e, assets),
            file_line(assets[i].kind@, assets[i].id, #[trigger] assets[i].files@[j]),
        ),
{
    let head = "id      "@ + decimal(e.id as int) + "\nuuid    "@ + opt_text(e.uuid, Seq::empty()) + "\ndate    "@ + opt_text(
        e.date,
        Seq::empty(),
    ) + "\ntitle   "@;
    let al = asset_lines(assets);
    let t = spec_detail_text(e, assets);
    let before = head + e.title@ + "\n\n"@ + e.text@ + "\n"@;
    assert(t =~= head + e.title@ + ("\n\n"@ + e.text@ + "\n"@ + al));
    lemma_contains_middle(head, e.title@, "\n\n"@ + e.text@ + "\n"@ + al);
    assert(t =~= (head + e.title@ + "\n\n"@) + e.text@ + ("\n"@ + al));
    lemma_contains_middle(head + e.title@ + "\n\n"@, e.text@, "\n"@ + al);
    assert(t =~= before + al);
    lemma_asset_lines_show(assets);
    assert forall|i: int, k: int| 0 <= i < assets.len() && 0 <= k < shown_fields(assets[i].details).len() implies contains_seq(
        t,
        #[trigger] shown_fields(assets[i].details)[k],
    ) by {
        lemma_contains_concat(before, al, shown_fields(assets[i].details)[k]);
    }
    assert forall|i: int, j: int| 0 <= i < assets.len() && 0 <= j < assets[i].files@.len() implies contains_seq(
        t,
        file_line(assets[i].kind@, assets[i].id, #[trigger] assets[i].files@[j]),
    ) by {
        lemma_contains_concat(before, al, file_line(assets[i].kind@, assets[i].id, assets[i].files@[j]));
    }
}

// ---------------------------------------------------------------------------------------
// Doctor
// ---------------------------------------------------------------------------------------
/// The store diagnosis; `megabytes` is the store size already written out.
pub open spec fn spec_doctor_text(d: crate::response::Doctor, megabytes: Seq<char>) -> Seq<char> {
    "store    "@ + d.path@ + "\n         readable, "@ + megabytes + " MB\nattach   "@ + d.attachments@ + "  "@ + (if d.attachments_exist {
        "ok"@
    } else {
        "missing"@
    }) + "\nJournal  "@ + (if d.journal_running {
        "RUNNING (quit before writing)"@
    } else {
        "not running"@
    }) + "\n\nRead "@ + decimal(d.entries as int) + " entries. All good.\n"@
}

/// Text for the store diagnosis; see `spec_doctor_text`.
pub fn doctor_text(d: &crate::response::Doctor, megabytes: &str) -> (r: String)
    ensures
        r@ == spec_doctor_text(*d, megabytes@),
{
    let mut out: Vec<char> = Vec::new();
    push_str(&mut out, "store    ");
    push_str(&mut out, d.path.as_str());
    push_str(&mut out, "\n         readable, ");
    push_str(&mut out, megabytes);
    push_str(&mut out, " MB\nattach   ");
    push_str(&mut out, d.attachments.as_str());
    push_str(&mut out, "  ");
    if d.attachments_exist {
        push_str(&mut out, "ok");
    } else {
        push_str(&mut out, "missing");
    }
    push_str(&mut out, "\nJournal  ");
    if d.journal_running {
        push_str(&mut out, "RUNNING (quit before writing)");
    } else {
        push_str(&mut out, "not running");
    }
    push_str(&mut out, "\n\nRead ");
    extend(&mut out, &decimal_u64(d.entries as u64));
    push_str(&mut out, " entries. All good.\n");
    assert(out@ =~= spec_doctor_text(*d, megabytes@));
    string_from(out.as_slice())
}

} // verus!
