//! Decisions of the write operations: keys, asset ordering, guards and plans.
use crate::model::Journal;
use crate::query::{resolve_journal, spec_resolve_journal};
use crate::cli::MapSize;
use crate::input::{blank, has_words, is_photo_ext, is_video_ext, photo_ext, spec_ext, video_ext, ext};
use crate::paths::{file_stem, join, join_path, path_stem};
use crate::store::{parse_uuid, parsed_uuid};
use crate::text::{chars_of, contains, contains_seq, grapheme_clusters, graphemes, push_str, same_chars, string_from, to_uppercase, uppercase};
use vstd::prelude::*;

verus! {

// ---------------------------------------------------------------------------------------
// Primary keys
// ---------------------------------------------------------------------------------------
/// The next primary key after `max`; `None` when it would overflow.
pub fn next_key(max: i64) -> (r: Option<i64>)
    ensures
        max < i64::MAX ==> r == Some((max + 1) as i64),
        max == i64::MAX ==> r is None,
{
    max.checked_add(1)
}

// ---------------------------------------------------------------------------------------
// Asset ordering
// ---------------------------------------------------------------------------------------
/// One JSON value of a stored asset ordering, as far as the ordering reads it.
pub enum OrderingValue {
    /// A string.
    Text(String),
    /// A number that is an `i64`.
    Integer(i64),
    /// Anything else.
    Other,
}

/// Why a stored asset ordering is refused.
#[derive(PartialEq, Eq, Structural)]
pub enum OrderingError {
    /// An odd number of values: the ordering is a flat list of (UUID, index) pairs.
    Pairs,
    /// The first value of a pair is not a string.
    Uuid,
    /// The second value of a pair is not an `i64`.
    Index,
    /// An index would pass `i64::MAX`.
    Overflow,
}

/// The (UUID, index) pairs kept from the first `p` pairs of `cur`, with the next free
/// index: every pair whose UUID is not in `gone` stays, and the next index is one past
/// the largest kept index (0 when none is kept).
pub open spec fn kept_pairs(cur: Seq<OrderingValue>, gone: Seq<Seq<char>>, p: nat) -> Result<(Seq<(Seq<char>, i64)>, int), OrderingError>
    decreases p,
{
    if p == 0 {
        Ok((Seq::empty(), 0int))
    } else {
        match kept_pairs(cur, gone, (p - 1) as nat) {
            Err(e) => Err(e),
            Ok((out, n)) => match cur[2 * p - 2] {
                OrderingValue::Text(u) => match cur[2 * p - 1] {
                    OrderingValue::Integer(i) => if gone.contains(u@) {
                        Ok((out, n))
                    } else if i == i64::MAX {
                        Err(OrderingError::Overflow)
                    } else {
                        Ok((out.push((u@, i)), if n < i + 1 { i + 1 } else { n }))
                    },
                    _ => Err(OrderingError::Index),
                },
                _ => Err(OrderingError::Uuid),
            },
        }
    }
}

/// Appends the first `k` added UUIDs with consecutive indices from `n`.
pub open spec fn appended(out: Seq<(Seq<char>, i64)>, n: int, added: Seq<Seq<char>>, k: nat) -> Result<Seq<(Seq<char>, i64)>, OrderingError>
    decreases k,
{
    if k == 0 {
        Ok(out)
    } else {
        match appended(out, n, added, (k - 1) as nat) {
            Err(e) => Err(e),
            Ok(o) => if n + k - 1 >= i64::MAX {
                Err(OrderingError::Overflow)
            } else {
                Ok(o.push((added[k - 1], (n + k - 1) as i64)))
            },
        }
    }
}

/// The new asset ordering: the stored pairs minus those of removed assets, then the added
/// assets with indices after every kept one.
pub open spec fn spec_ordering(cur: Seq<OrderingValue>, added: Seq<Seq<char>>, gone: Seq<Seq<char>>) -> Result<Seq<(Seq<char>, i64)>, OrderingError> {
    if cur.len() % 2 != 0 {
        Err(OrderingError::Pairs)
    } else {
        match kept_pairs(cur, gone, (cur.len() / 2) as nat) {
            Err(e) => Err(e),
            Ok((out, n)) => appended(out, n, added, added.len()),
        }
    }
}

/// The views of the pairs of an ordering.
pub open spec fn pairs_view(v: Seq<(String, i64)>) -> Seq<(Seq<char>, i64)> {
    v.map_values(|p: (String, i64)| (p.0@, p.1))
}

fn contains_text(gone: &Vec<String>, u: &String) -> (r: bool)
    ensures
        r == gone@.map_values(|s: String| s@).contains(u@),
{
    let key = chars_of(u.as_str());
    let mut i: usize = 0;
    while i < gone.len()
        invariant
            0 <= i <= gone@.len(),
            key@ == u@,
            forall|k: int| 0 <= k < i ==> (#[trigger] gone@[k])@ != u@,
        decreases gone@.len() - i,
    {
        if same_chars(&chars_of(gone[i].as_str()), &key) {
            proof {
                assert(gone@.map_values(|s: String| s@)[i as int] == u@);
            }
            return true;
        }
        i = i + 1;
    }
    proof {
        let gv = gone@.map_values(|s: String| s@);
        if gv.contains(u@) {
            let k = choose|k: int| 0 <= k < gv.len() && gv[k] == u@;
            assert(gone@[k]@ == u@);
        }
    }
    false
}

proof fn lemma_kept_bounds(cur: Seq<OrderingValue>, gone: Seq<Seq<char>>, p: nat)
    requires
        kept_pairs(cur, gone, p) is Ok,
    ensures
        ({
            let (out, n) = kept_pairs(cur, gone, p)->Ok_0;
            &&& 0 <= n <= i64::MAX
            &&& forall|i: int| 0 <= i < out.len() ==> (#[trigger] out[i]).1 < n
        }),
    decreases p,
{
    if p > 0 {
        lemma_kept_bounds(cur, gone, (p - 1) as nat);
    }
}

proof fn lemma_kept_next(cur: Seq<OrderingValue>, gone: Seq<Seq<char>>, p: nat)
    requires
        kept_pairs(cur, gone, p) is Ok,
    ensures
        ({
            let (out, n) = kept_pairs(cur, gone, p)->Ok_0;
            &&& n == 0 || exists|i: int| 0 <= i < out.len() && (#[trigger] out[i]).1 + 1 == n
            &&& forall|i: int| 0 <= i < out.len() ==> !gone.contains((#[trigger] out[i]).0)
        }),
    decreases p,
{
    if p > 0 {
        lemma_kept_next(cur, gone, (p - 1) as nat);
        let (out0, n0) = kept_pairs(cur, gone, (p - 1) as nat)->Ok_0;
        let (out, n) = kept_pairs(cur, gone, p)->Ok_0;
        if out.len() > out0.len() {
            assert(out == out0.push(out.last()));
            assert forall|i: int| 0 <= i < out.len() implies !gone.contains((#[trigger] out[i]).0) by {
                if i < out0.len() {
                    assert(out[i] == out0[i]);
                }
            }
            if n != n0 {
                assert(out[out.len() - 1].1 + 1 == n);
            } else if n0 != 0 {
                let i = choose|i: int| 0 <= i < out0.len() && (#[trigger] out0[i]).1 + 1 == n0;
                assert(out[i] == out0[i]);
            }
        }
    }
}

proof fn lemma_appended(out: Seq<(Seq<char>, i64)>, n: int, added: Seq<Seq<char>>, k: nat)
    requires
        appended(out, n, added, k) is Ok,
        k <= added.len(),
    ensures
        ({
            let r = appended(out, n, added, k)->Ok_0;
            &&& r.len() == out.len() + k
            &&& r.subrange(0, out.len() as int) == out
            &&& forall|j: int| 0 <= j < k ==> #[trigger] r[out.len() + j] == (added[j], (n + j) as i64)
        }),
    decreases k,
{
    if k == 0 {
        assert(out.subrange(0, out.len() as int) =~= out);
    } else {
        lemma_appended(out, n, added, (k - 1) as nat);
        let o = appended(out, n, added, (k - 1) as nat)->Ok_0;
        let r = appended(out, n, added, k)->Ok_0;
        assert(r == o.push((added[k - 1], (n + k - 1) as i64)));
        assert(r.subrange(0, out.len() as int) =~= o.subrange(0, out.len() as int));
        assert forall|j: int| 0 <= j < k implies #[trigger] r[out.len() + j] == (added[j], (n + j) as i64) by {
            if j < k - 1 {
                assert(r[out.len() + j] == o[out.len() + j]);
            }
        }
    }
}

/// A new asset ordering keeps the stored pairs of the assets that stay, in their stored
/// order, and then gives the added assets consecutive indices from the next free one: one
/// past the largest kept index, or 0 when nothing is kept.
pub proof fn lemma_ordering_appends(cur: Seq<OrderingValue>, added: Seq<Seq<char>>, gone: Seq<Seq<char>>)
    requires
        spec_ordering(cur, added, gone) is Ok,
    ensures
        ({
            let r = spec_ordering(cur, added, gone)->Ok_0;
            let (kept, n) = kept_pairs(cur, gone, (cur.len() / 2) as nat)->Ok_0;
            &&& r.len() == kept.len() + added.len()
            &&& r.subrange(0, kept.len() as int) == kept
            &&& forall|j: int| 0 <= j < added.len() ==> #[trigger] r[kept.len() + j] == (added[j], (n + j) as i64)
            &&& forall|i: int| 0 <= i < kept.len() ==> (#[trigger] kept[i]).1 < n
            &&& n == 0 || exists|i: int| 0 <= i < kept.len() && (#[trigger] kept[i]).1 + 1 == n
            &&& forall|i: int| 0 <= i < kept.len() ==> !gone.contains((#[trigger] kept[i]).0)
        }),
{
    let p = (cur.len() / 2) as nat;
    lemma_kept_bounds(cur, gone, p);
    lemma_kept_next(cur, gone, p);
    let (kept, n) = kept_pairs(cur, gone, p)->Ok_0;
    lemma_appended(kept, n, added, added.len());
}

/// Computes the new asset ordering; see `spec_ordering`.
pub fn ordering(cur: &Vec<OrderingValue>, added: &Vec<String>, gone: &Vec<String>) -> (r: Result<Vec<(String, i64)>, OrderingError>)
    ensures
        match (r, spec_ordering(cur@, added@.map_values(|s: String| s@), gone@.map_values(|s: String| s@))) {
            (Ok(v), Ok(w)) => pairs_view(v@) == w,
            (Err(a), Err(b)) => a == b,
            _ => false,
        },
{
    let ghost g = gone@.map_values(|s: String| s@);
    let ghost a = added@.map_values(|s: String| s@);
    if cur.len() % 2 != 0 {
        return Err(OrderingError::Pairs);
    }
    let mut out: Vec<(String, i64)> = Vec::new();
    let mut n: i64 = 0;
    let mut p: usize = 0;
    assert(pairs_view(out@) =~= Seq::<(Seq<char>, i64)>::empty());
    while p < cur.len() / 2
        invariant
            0 <= p <= cur@.len() / 2,
            cur@.len() % 2 == 0,
            g == gone@.map_values(|s: String| s@),
            kept_pairs(cur@, g, p as nat) == Ok::<(Seq<(Seq<char>, i64)>, int), OrderingError>((pairs_view(out@), n as int)),
            0 <= n,
        decreases cur@.len() / 2 - p,
    {
        let first = &cur[2 * p];
        let second = &cur[2 * p + 1];
        let u = match first {
            OrderingValue::Text(u) => u,
            _ => {
                proof {
                    lemma_kept_error_stays(cur@, g, (p + 1) as nat, (cur@.len() / 2) as nat);
                }
                return Err(OrderingError::Uuid);
            },
        };
        let i = match second {
            OrderingValue::Integer(i) => *i,
            _ => {
                proof {
                    lemma_kept_error_stays(cur@, g, (p + 1) as nat, (cur@.len() / 2) as nat);
                }
                return Err(OrderingError::Index);
            },
        };
        if !contains_text(gone, u) {
            if i == i64::MAX {
                proof {
                    lemma_kept_error_stays(cur@, g, (p + 1) as nat, (cur@.len() / 2) as nat);
                }
                return Err(OrderingError::Overflow);
            }
            let ghost before = out@;
            out.push((u.clone(), i));
            if n < i + 1 {
                n = i + 1;
            }
            proof {
                assert(pairs_view(out@) =~= pairs_view(before).push((u@, i)));
            }
        }
        p = p + 1;
    }
    proof {
        lemma_kept_bounds(cur@, g, (cur@.len() / 2) as nat);
    }
    let ghost kept = pairs_view(out@);
    let ghost base = n as int;
    let mut k: usize = 0;
    while k < added.len()
        invariant
            0 <= k <= added@.len(),
            a == added@.map_values(|s: String| s@),
            g == gone@.map_values(|s: String| s@),
            cur@.len() % 2 == 0,
            kept_pairs(cur@, g, (cur@.len() / 2) as nat) == Ok::<(Seq<(Seq<char>, i64)>, int), OrderingError>((kept, base)),
            0 <= base <= i64::MAX,
            n == base + k,
            appended(kept, base, a, k as nat) == Ok::<Seq<(Seq<char>, i64)>, OrderingError>(pairs_view(out@)),
        decreases added@.len() - k,
    {
        if n == i64::MAX {
            proof {
                lemma_appended_error_stays(kept, base, a, (k + 1) as nat, added@.len() as nat);
            }
            return Err(OrderingError::Overflow);
        }
        let ghost before = out@;
        out.push((added[k].clone(), n));
        proof {
            assert(pairs_view(out@) =~= pairs_view(before).push((a[k as int], n)));
        }
        n = n + 1;
        k = k + 1;
    }
    Ok(out)
}

proof fn lemma_kept_error_stays(cur: Seq<OrderingValue>, gone: Seq<Seq<char>>, p: nat, q: nat)
    requires
        p <= q,
        kept_pairs(cur, gone, p) is Err,
    ensures
        kept_pairs(cur, gone, q) == kept_pairs(cur, gone, p),
    decreases q - p,
{
    if p < q {
        lemma_kept_error_stays(cur, gone, p, (q - 1) as nat);
    }
}

proof fn lemma_appended_error_stays(out: Seq<(Seq<char>, i64)>, n: int, added: Seq<Seq<char>>, k: nat, m: nat)
    requires
        k <= m,
        appended(out, n, added, k) is Err,
    ensures
        appended(out, n, added, m) == appended(out, n, added, k),
    decreases m - k,
{
    if k < m {
        lemma_appended_error_stays(out, n, added, k, (m - 1) as nat);
    }
}

proof fn lemma_kept_not_gone(cur: Seq<OrderingValue>, gone: Seq<Seq<char>>, p: nat)
    requires
        kept_pairs(cur, gone, p) is Ok,
    ensures
        forall|i: int| 0 <= i < kept_pairs(cur, gone, p)->Ok_0.0.len() ==> !gone.contains(
            #[trigger] kept_pairs(cur, gone, p)->Ok_0.0[i].0,
        ),
    decreases p,
{
    if p > 0 {
        lemma_kept_not_gone(cur, gone, (p - 1) as nat);
    }
}

proof fn lemma_appended_shape(out: Seq<(Seq<char>, i64)>, n: int, added: Seq<Seq<char>>, k: nat)
    requires
        k <= added.len(),
        appended(out, n, added, k) is Ok,
    ensures
        ({
            let o = appended(out, n, added, k)->Ok_0;
            &&& o.len() == out.len() + k
            &&& forall|i: int| 0 <= i < out.len() ==> #[trigger] o[i] == out[i]
            &&& forall|m: int| out.len() <= m < o.len() ==> #[trigger] o[m] == (added[m - out.len()], (n + m - out.len()) as i64) && n + m - out.len() < i64::MAX
        }),
    decreases k,
{
    if k > 0 {
        lemma_appended_shape(out, n, added, (k - 1) as nat);
    }
}

/// Laws of the asset ordering. When it succeeds, the result is the kept pairs followed by
/// one pair per added asset: no kept pair belongs to a removed asset; the added assets
/// come in the order given, with consecutive indices; and every added index is greater
/// than every kept index, so a new asset never takes the place of an existing one.
pub proof fn lemma_ordering_laws(cur: Seq<OrderingValue>, added: Seq<Seq<char>>, gone: Seq<Seq<char>>)
    requires
        spec_ordering(cur, added, gone) is Ok,
    ensures
        ({
            let out = spec_ordering(cur, added, gone)->Ok_0;
            let k = out.len() - added.len();
            &&& k >= 0
            &&& forall|i: int| 0 <= i < k ==> !gone.contains(#[trigger] out[i].0)
            &&& forall|m: int| k <= m < out.len() ==> (#[trigger] out[m]).0 == added[m - k]
            &&& forall|m: int| k <= m < out.len() ==> (#[trigger] out[m]).1 == out[k].1 + (m - k)
            &&& forall|i: int, m: int| 0 <= i < k <= m < out.len() ==> (#[trigger] out[i]).1 < (#[trigger] out[m]).1
        }),
{
    let p = (cur.len() / 2) as nat;
    let (kept, n) = kept_pairs(cur, gone, p)->Ok_0;
    lemma_kept_bounds(cur, gone, p);
    lemma_kept_not_gone(cur, gone, p);
    lemma_appended_shape(kept, n, added, added.len());
    let out = spec_ordering(cur, added, gone)->Ok_0;
    assert(out == appended(kept, n, added, added.len())->Ok_0);
    let k = out.len() - added.len();
    assert(k == kept.len());
    assert forall|i: int| 0 <= i < k implies !gone.contains(#[trigger] out[i].0) by {
        assert(out[i] == kept[i]);
    }
    assert forall|i: int, m: int| 0 <= i < k <= m < out.len() implies (#[trigger] out[i]).1 < (#[trigger] out[m]).1 by {
        assert(out[i] == kept[i]);
    }
    assert forall|m: int| k <= m < out.len() implies (#[trigger] out[m]).1 == out[k].1 + (m - k) by {
        assert(out[k] == (added[0], n as i64));
    }
}

// ---------------------------------------------------------------------------------------
// Guards
// ---------------------------------------------------------------------------------------
/// Why a mutation is refused before it changes anything.
#[derive(PartialEq, Eq, Structural)]
pub enum Refusal {
    /// The entry carries a merge CRDT: a text edit may be reverted or duplicated on sync.
    MergeableText,
    /// The entry carries merge attributes: moving it between journals belongs to Journal.
    MergeableJournal,
    /// The entry has synced to iCloud: a local hard deletion can resurrect it.
    SyncedHardDelete,
    /// The entry is not in Recently Deleted.
    NotDeleted,
    /// The asset is not media and media removal was asked for.
    NotMedia,
}

/// Whether an edit may go ahead: text edits of an entry with a merge CRDT need `force`,
/// and moving such an entry to another journal is refused.
pub open spec fn spec_edit_guard(changes_text: bool, changes_journal: bool, has_merge: bool, force: bool) -> Result<(), Refusal> {
    if changes_text && has_merge && !force {
        Err(Refusal::MergeableText)
    } else if changes_journal && has_merge {
        Err(Refusal::MergeableJournal)
    } else {
        Ok(())
    }
}

/// Checks an edit; see `spec_edit_guard`.
pub fn edit_guard(changes_text: bool, changes_journal: bool, has_merge: bool, force: bool) -> (r: Result<(), Refusal>)
    ensures
        r == spec_edit_guard(changes_text, changes_journal, has_merge, force),
{
    if changes_text && has_merge && !force {
        Err(Refusal::MergeableText)
    } else if changes_journal && has_merge {
        Err(Refusal::MergeableJournal)
    } else {
        Ok(())
    }
}

/// How an entry is deleted.
#[derive(PartialEq, Eq, Structural)]
pub enum DeleteAction {
    /// Moved to Recently Deleted.
    Soft,
    /// Removed with its assets and files.
    Purge,
}

/// A soft deletion always goes ahead; a hard deletion of a synced entry needs `force`.
pub open spec fn spec_delete_action(hard: bool, synced: bool, force: bool) -> Result<DeleteAction, Refusal> {
    if !hard {
        Ok(DeleteAction::Soft)
    } else if synced && !force {
        Err(Refusal::SyncedHardDelete)
    } else {
        Ok(DeleteAction::Purge)
    }
}

/// Decides a deletion; see `spec_delete_action`.
pub fn delete_action(hard: bool, synced: bool, force: bool) -> (r: Result<DeleteAction, Refusal>)
    ensures
        r == spec_delete_action(hard, synced, force),
{
    if !hard {
        Ok(DeleteAction::Soft)
    } else if synced && !force {
        Err(Refusal::SyncedHardDelete)
    } else {
        Ok(DeleteAction::Purge)
    }
}

/// Only an entry in Recently Deleted can be restored.
pub fn restore_guard(deleted: bool) -> (r: Result<(), Refusal>)
    ensures
        deleted ==> r == Ok::<(), Refusal>(()),
        !deleted ==> r == Err::<(), Refusal>(Refusal::NotDeleted),
{
    if deleted {
        Ok(())
    } else {
        Err(Refusal::NotDeleted)
    }
}

/// Asset kinds that count as media.
pub open spec fn is_media_kind(kind: Seq<char>) -> bool {
    kind == "photo"@ || kind == "video"@ || kind == "livePhoto"@
}

/// An asset may be removed as media only when it is a photo, video or live photo.
pub fn removal_guard(kind: &str, media_only: bool) -> (r: Result<(), Refusal>)
    ensures
        (!media_only || is_media_kind(kind@)) ==> r == Ok::<(), Refusal>(()),
        (media_only && !is_media_kind(kind@)) ==> r == Err::<(), Refusal>(Refusal::NotMedia),
{
    let k = chars_of(kind);
    let media = same_chars(&k, &chars_of("photo")) || same_chars(&k, &chars_of("video"))
        || same_chars(&k, &chars_of("livePhoto"));
    if !media_only || media {
        Ok(())
    } else {
        Err(Refusal::NotMedia)
    }
}

// ---------------------------------------------------------------------------------------
// Stored text
// ---------------------------------------------------------------------------------------
/// The stored length of a text: its number of extended grapheme clusters.
pub fn text_length(s: &str) -> (r: usize)
    ensures
        r == grapheme_clusters(s@).len(),
{
    graphemes(s).len()
}

// ---------------------------------------------------------------------------------------
// Recently Deleted
// ---------------------------------------------------------------------------------------
/// What emptying Recently Deleted does: which entries it purges, in order, and how many
/// synced entries it skips (all are purged when forced).
pub struct EmptyPlan {
    pub purge: Vec<i64>,
    pub skipped: usize,
}

/// The entries that emptying purges: every row unless it is synced and not forced.
pub open spec fn purged_ids(rows: Seq<(i64, bool)>, force: bool) -> Seq<i64>
    decreases rows.len(),
{
    if rows.len() == 0 {
        Seq::empty()
    } else if rows.last().1 && !force {
        purged_ids(rows.drop_last(), force)
    } else {
        purged_ids(rows.drop_last(), force).push(rows.last().0)
    }
}

/// The number of rows that emptying skips.
pub open spec fn skipped_count(rows: Seq<(i64, bool)>, force: bool) -> int
    decreases rows.len(),
{
    if rows.len() == 0 {
        0
    } else {
        skipped_count(rows.drop_last(), force) + if rows.last().1 && !force { 1int } else { 0int }
    }
}

/// Plans emptying Recently Deleted from its rows (id, synced).
pub fn empty_plan(rows: &Vec<(i64, bool)>, force: bool) -> (r: EmptyPlan)
    ensures
        r.purge@ == purged_ids(rows@, force),
        r.skipped == skipped_count(rows@, force),
        r.purge@.len() + r.skipped == rows@.len(),
{
    let mut purge: Vec<i64> = Vec::new();
    let mut skipped: usize = 0;
    let mut i: usize = 0;
    while i < rows.len()
        invariant
            0 <= i <= rows@.len(),
            purge@ == purged_ids(rows@.take(i as int), force),
            skipped == skipped_count(rows@.take(i as int), force),
            purge@.len() + skipped == i,
        decreases rows@.len() - i,
    {
        proof {
            assert(rows@.take(i + 1).drop_last() =~= rows@.take(i as int));
        }
        let (id, synced) = rows[i];
        if synced && !force {
            skipped = skipped + 1;
        } else {
            purge.push(id);
        }
        i = i + 1;
    }
    assert(rows@.take(rows@.len() as int) =~= rows@);
    EmptyPlan { purge, skipped }
}

// ---------------------------------------------------------------------------------------
// Journal staging
// ---------------------------------------------------------------------------------------
/// What moving an entry to a journal does to its memberships.
#[derive(PartialEq, Eq, Structural)]
pub enum StagePlan {
    /// No journal given: memberships stay.
    Keep,
    /// The default journal: memberships are cleared.
    Clear,
    /// A custom journal: memberships are replaced by this journal's key.
    Move(i64),
}

/// Why staging is refused.
#[derive(PartialEq, Eq, Structural)]
pub enum StageError {
    /// The selector names no journal, or several.
    UnknownJournal,
}

/// The staging plan for an optional journal selector.
pub open spec fn spec_stage_plan(js: Seq<Journal>, selector: Option<Seq<char>>) -> Result<StagePlan, StageError> {
    match selector {
        None => Ok(StagePlan::Keep),
        Some(s) => match spec_resolve_journal(js, s) {
            None => Err(StageError::UnknownJournal),
            Some(j) => if j.is_default {
                Ok(StagePlan::Clear)
            } else {
                Ok(StagePlan::Move(j.pk))
            },
        },
    }
}

/// Plans staging; see `spec_stage_plan`.
pub fn stage_plan(js: &Vec<Journal>, selector: Option<&str>) -> (r: Result<StagePlan, StageError>)
    ensures
        r == spec_stage_plan(js@, crate::read::selector_view(selector)),
{
    match selector {
        None => Ok(StagePlan::Keep),
        Some(s) => match resolve_journal(js, s) {
            None => Err(StageError::UnknownJournal),
            Some(j) => if j.is_default {
                Ok(StagePlan::Clear)
            } else {
                Ok(StagePlan::Move(j.pk))
            },
        },
    }
}

// ---------------------------------------------------------------------------------------
// Media assets and their files
// ---------------------------------------------------------------------------------------
/// The asset kind of a media file: a video by its extension, else a photo.
pub fn media_kind(path: &str) -> (r: &'static str)
    ensures
        r@ == if is_video_ext(spec_ext(path@)) { "video"@ } else { "photo"@ },
{
    let e = ext(path);
    if video_ext(e.as_str()) {
        "video"
    } else {
        "photo"
    }
}

/// The name recorded for an attachment file: an image by its extension, else a video.
pub fn file_label(ext: &str) -> (r: &'static str)
    ensures
        r@ == if is_photo_ext(ext@) { "image"@ } else { "video"@ },
{
    if photo_ext(ext) {
        "image"
    } else {
        "video"
    }
}

/// Images are resized on import unless resizing is off or they belong to a live photo.
pub fn resizes(ext: &str, resize: bool, live_photo: bool) -> (r: bool)
    ensures
        r == (is_photo_ext(ext@) && resize && !live_photo),
{
    photo_ext(ext) && resize && !live_photo
}

/// The file name of a stored attachment: a fresh identifier, `_resized` unless it belongs
/// to a live photo, and the extension.
pub open spec fn attachment_file_name(file_uid: Seq<char>, live_photo: bool, ext: Seq<char>) -> Seq<char> {
    file_uid + (if live_photo { Seq::empty() } else { "_resized"@ }) + seq!['.'] + ext
}

/// Where an attachment file lives, relative to the attachments directory:
/// `ENTRY/ASSET/NAME`.
pub open spec fn spec_attachment_relative(entry_uuid: Seq<char>, asset_uuid: Seq<char>, file_uid: Seq<char>, live_photo: bool, ext: Seq<char>) -> Seq<char> {
    join_path(join_path(entry_uuid, asset_uuid), attachment_file_name(file_uid, live_photo, ext))
}

/// The relative path of an attachment file; see `spec_attachment_relative`.
pub fn attachment_relative(entry_uuid: &str, asset_uuid: &str, file_uid: &str, live_photo: bool, ext: &str) -> (r: String)
    ensures
        r@ == spec_attachment_relative(entry_uuid@, asset_uuid@, file_uid@, live_photo, ext@),
{
    let mut name: Vec<char> = Vec::new();
    push_str(&mut name, file_uid);
    if !live_photo {
        push_str(&mut name, "_resized");
    }
    name.push('.');
    push_str(&mut name, ext);
    proof {
        if live_photo {
            assert(name@ =~= attachment_file_name(file_uid@, live_photo, ext@));
        } else {
            assert(name@ =~= attachment_file_name(file_uid@, live_photo, ext@));
        }
    }
    let name_s = string_from(name.as_slice());
    let dir = join(entry_uuid, asset_uuid);
    join(dir.as_str(), name_s.as_str())
}

// ---------------------------------------------------------------------------------------
// Photos library links
// ---------------------------------------------------------------------------------------
/// A Photos-library asset identifier: the asset UUID and the suffix of its first resource.
pub open spec fn photos_identifier(uuid: Seq<char>) -> Seq<char> {
    uuid + "/L0/001"@
}

/// A file inside a Photos library names its asset: a path through a `.photoslibrary/`
/// whose stem is a UUID gives that UUID, upper-cased.
pub open spec fn spec_library_identifier(path: Seq<char>) -> Option<Seq<char>> {
    match path_stem(path) {
        Some(stem) => if contains_seq(path, ".photoslibrary/"@) && parsed_uuid(stem) is Some {
            Some(photos_identifier(uppercase(stem)))
        } else {
            None
        },
        None => None,
    }
}

fn identifier_of(uuid: &str) -> (r: String)
    ensures
        r@ == photos_identifier(uuid@),
{
    let mut v: Vec<char> = Vec::new();
    push_str(&mut v, uuid);
    push_str(&mut v, "/L0/001");
    string_from(v.as_slice())
}

/// The identifier a path inside a Photos library names; see `spec_library_identifier`.
pub fn library_identifier(path: &str) -> (r: Option<String>)
    ensures
        text_opt(r) == spec_library_identifier(path@),
{
    match file_stem(path) {
        Some(stem) => {
            let inside = contains(&chars_of(path), &chars_of(".photoslibrary/"));
            if inside && parse_uuid(stem.as_str()).is_some() {
                let upper = to_uppercase(stem.as_str());
                Some(identifier_of(upper.as_str()))
            } else {
                None
            }
        },
        None => None,
    }
}

/// The view of an optional string.
pub open spec fn text_opt(t: Option<String>) -> Option<Seq<char>> {
    match t {
        Some(s) => Some(s@),
        None => None,
    }
}

/// The Photos asset that matches a file: the only candidate recorded under the file's name,
/// or else the only one whose recorded size is the file's size (none without a size).
pub open spec fn spec_pick_photo(rows: Seq<(Seq<char>, Option<i64>)>, size: Option<i64>) -> Option<Seq<char>> {
    if rows.len() == 1 {
        Some(photos_identifier(rows[0].0))
    } else {
        match size {
            None => None,
            Some(n) => {
                let hits = rows.filter(|r: (Seq<char>, Option<i64>)| r.1 == Some(n));
                if hits.len() == 1 {
                    Some(photos_identifier(hits[0].0))
                } else {
                    None
                }
            },
        }
    }
}

/// The views of the candidate rows.
pub open spec fn rows_view(rows: Seq<(String, Option<i64>)>) -> Seq<(Seq<char>, Option<i64>)> {
    rows.map_values(|r: (String, Option<i64>)| (r.0@, r.1))
}

/// Picks the matching Photos asset; see `spec_pick_photo`. `rows` are (UUID, recorded
/// size) of the assets with the file's name, `size` the file's size when known.
pub fn pick_photo(rows: &Vec<(String, Option<i64>)>, size: Option<i64>) -> (r: Option<String>)
    ensures
        text_opt(r) == spec_pick_photo(rows_view(rows@), size),
{
    if rows.len() == 1 {
        return Some(identifier_of(rows[0].0.as_str()));
    }
    match size {
        None => None,
        Some(n) => {
            let ghost rv = rows_view(rows@);
            let ghost pred = |r: (Seq<char>, Option<i64>)| r.1 == Some(n);
            let mut count: usize = 0;
            let mut first: usize = 0;
            let mut i: usize = 0;
            while i < rows.len()
                invariant
                    0 <= i <= rows@.len(),
                    rv == rows_view(rows@),
                    pred == (|r: (Seq<char>, Option<i64>)| r.1 == Some(n)),
                    count == rv.take(i as int).filter(pred).len(),
                    count > 0 ==> first < i && rv.take(i as int).filter(pred)[0] == rv[first as int],
                decreases rows@.len() - i,
            {
                proof {
                    assert(rv.take(i + 1).drop_last() =~= rv.take(i as int));
                    reveal(Seq::filter);
                }
                if rows[i].1 == Some(n) {
                    if count == 0 {
                        first = i;
                    }
                    count = count + 1;
                }
                i = i + 1;
            }
            proof {
                assert(rv.take(rv.len() as int) =~= rv);
            }
            if count == 1 {
                Some(identifier_of(rows[first].0.as_str()))
            } else {
                None
            }
        },
    }
}

// ---------------------------------------------------------------------------------------
// Requests
// ---------------------------------------------------------------------------------------
/// An edit asks for something: a prepared change, a bookmark change, clearing the
/// location, or removing media.
pub fn edit_requested(has_changes: bool, bookmark: bool, no_bookmark: bool, clear_location: bool, remove_all_media: bool, remove_media: usize) -> (r: bool)
    ensures
        r == (has_changes || bookmark || no_bookmark || clear_location || remove_all_media || remove_media > 0),
{
    has_changes || bookmark || no_bookmark || clear_location || remove_all_media || remove_media > 0
}

/// The operation a dry run of a deletion names.
pub fn delete_operation(hard: bool) -> (r: &'static str)
    ensures
        r@ == if hard { "hard-delete"@ } else { "soft-delete"@ },
{
    if hard {
        "hard-delete"
    } else {
        "soft-delete"
    }
}

// ---------------------------------------------------------------------------------------
// Edits
// ---------------------------------------------------------------------------------------
/// What an edit changes. `None` and `false` leave a field as it is.
#[derive(Debug, PartialEq, Eq, Structural)]
pub struct EditPlan {
    /// The body is replaced: `Some(true)` stores its RTF, `Some(false)` clears the stored
    /// text (a blank body).
    pub text: Option<bool>,
    /// The stored length of a replaced body.
    pub text_length: Option<usize>,
    /// The title is replaced: `Some(true)` stores and shows it, `Some(false)` clears and
    /// hides it (a blank title).
    pub title: Option<bool>,
    /// The entry date is replaced.
    pub set_date: bool,
    /// The bookmark is set (`Some(true)`) or removed (`Some(false)`).
    pub flag: Option<bool>,
    /// The location (map) assets are removed.
    pub remove_maps: bool,
    /// Every media asset is removed.
    pub remove_all_media: bool,
}

/// The view of an optional text.
pub open spec fn opt_str_view(s: Option<&str>) -> Option<Seq<char>> {
    match s {
        Some(t) => Some(t@),
        None => None,
    }
}

/// What an edit changes. Fields left out are kept; a blank title or body clears that
/// field; a bookmark flag sets or removes the bookmark; a new location or clearing the
/// location removes the map assets; removing all media removes every media asset.
pub open spec fn spec_edit_plan(
    body: Option<Seq<char>>,
    title: Option<Seq<char>>,
    has_date: bool,
    bookmark: bool,
    no_bookmark: bool,
    clear_location: bool,
    has_location: bool,
    remove_all_media: bool,
) -> EditPlan {
    EditPlan {
        text: match body {
            Some(b) => Some(has_words(b)),
            None => None,
        },
        text_length: match body {
            Some(b) => Some(grapheme_clusters(b).len() as usize),
            None => None,
        },
        title: match title {
            Some(t) => Some(has_words(t)),
            None => None,
        },
        set_date: has_date,
        flag: if bookmark || no_bookmark { Some(bookmark) } else { None },
        remove_maps: clear_location || has_location,
        remove_all_media,
    }
}

/// Plans an edit; see `spec_edit_plan`.
pub fn edit_plan(
    body: Option<&str>,
    title: Option<&str>,
    has_date: bool,
    bookmark: bool,
    no_bookmark: bool,
    clear_location: bool,
    has_location: bool,
    remove_all_media: bool,
) -> (p: EditPlan)
    ensures
        p == spec_edit_plan(
            opt_str_view(body),
            opt_str_view(title),
            has_date,
            bookmark,
            no_bookmark,
            clear_location,
            has_location,
            remove_all_media,
        ),
{
    let (text, text_length) = match body {
        Some(b) => (Some(!blank(b)), Some(text_length(b))),
        None => (None, None),
    };
    let title = match title {
        Some(t) => Some(!blank(t)),
        None => None,
    };
    EditPlan {
        text,
        text_length,
        title,
        set_date: has_date,
        flag: if bookmark || no_bookmark { Some(bookmark) } else { None },
        remove_maps: clear_location || has_location,
        remove_all_media,
    }
}

/// The edit law. A field left out is kept: the plan changes the body, title, date,
/// bookmark or map assets only when the edit gives that field. An empty body or title
/// clears it, `no_bookmark` removes the bookmark, and a new or cleared location removes
/// the map assets.
pub proof fn lemma_edit_keeps_omitted(
    body: Option<Seq<char>>,
    title: Option<Seq<char>>,
    has_date: bool,
    bookmark: bool,
    no_bookmark: bool,
    clear_location: bool,
    has_location: bool,
    remove_all_media: bool,
)
    ensures
        ({
            let p = spec_edit_plan(body, title, has_date, bookmark, no_bookmark, clear_location, has_location, remove_all_media);
            &&& (p.text is None <==> body is None)
            &&& (p.text_length is None <==> body is None)
            &&& (p.title is None <==> title is None)
            &&& (p.set_date <==> has_date)
            &&& (p.flag is None <==> !(bookmark || no_bookmark))
            &&& (p.remove_maps <==> (clear_location || has_location))
            &&& (p.remove_all_media <==> remove_all_media)
            &&& (body matches Some(b) && b.len() == 0 ==> p.text == Some(false))
            &&& (title matches Some(t) && t.len() == 0 ==> p.title == Some(false))
            &&& (no_bookmark && !bookmark ==> p.flag == Some(false))
        }),
{
    crate::text::lemma_trim_len(Seq::<char>::empty());
}

// ---------------------------------------------------------------------------------------
// Added assets
// ---------------------------------------------------------------------------------------
/// Where an added asset comes from.
#[derive(Clone, Copy, Debug, PartialEq, Eq, Structural)]
pub enum AssetSource {
    /// The media file at this position.
    Media(usize),
    /// The live photo pair.
    LivePhoto,
    /// The link archive.
    Link,
    /// The location.
    Location,
}

/// One asset that a write adds: where it comes from, its kind, its source name in the
/// store, and its `ZISSLIM` flag.
#[derive(Debug)]
pub struct AssetStep {
    pub from: AssetSource,
    pub kind: &'static str,
    pub source: &'static str,
    pub slim: i64,
}

/// An asset step as (origin, kind, source, slim).
pub open spec fn step_view(s: AssetStep) -> (AssetSource, Seq<char>, Seq<char>, i64) {
    (s.from, s.kind@, s.source@, s.slim)
}

/// The media steps for the first `k` media files.
pub open spec fn media_steps(media: Seq<Seq<char>>, k: nat) -> Seq<(AssetSource, Seq<char>, Seq<char>, i64)>
    decreases k,
{
    if k == 0 {
        Seq::empty()
    } else {
        media_steps(media, (k - 1) as nat).push((
            AssetSource::Media((k - 1) as usize),
            if is_video_ext(spec_ext(media[k - 1])) { "video"@ } else { "photo"@ },
            "imagePicker"@,
            0i64,
        ))
    }
}

/// The assets a write adds, in the order they are added (and ordered): each media file
/// (a video or a photo, from the image picker), then the live photo, then the link (from
/// the share sheet), then the location map (from the location picker, small or large).
pub open spec fn spec_asset_plan(media: Seq<Seq<char>>, pair: bool, link: bool, location: Option<MapSize>) -> Seq<(AssetSource, Seq<char>, Seq<char>, i64)> {
    media_steps(media, media.len())
        + (if pair { seq![(AssetSource::LivePhoto, "livePhoto"@, "imagePicker"@, 0i64)] } else { Seq::empty() })
        + (if link { seq![(AssetSource::Link, "link"@, "shareSheet"@, 0i64)] } else { Seq::empty() })
        + (match location {
            Some(size) => seq![(AssetSource::Location, "multiPinMap"@, "locationPicker"@, if size == MapSize::Small { 1i64 } else { 0i64 })],
            None => Seq::empty(),
        })
}

/// Plans the added assets; see `spec_asset_plan`.
pub fn asset_plan(media: &Vec<String>, pair: bool, link: bool, location: Option<MapSize>) -> (r: Vec<AssetStep>)
    ensures
        r@.map_values(|s: AssetStep| step_view(s)) == spec_asset_plan(crate::input::views(media@), pair, link, location),
{
    let ghost mv = crate::input::views(media@);
    let mut out: Vec<AssetStep> = Vec::new();
    let mut i: usize = 0;
    while i < media.len()
        invariant
            0 <= i <= media@.len(),
            mv == crate::input::views(media@),
            out@.len() == i,
            out@.map_values(|s: AssetStep| step_view(s)) == media_steps(mv, i as nat),
        decreases media@.len() - i,
    {
        let ghost before = out@;
        let kind = media_kind(media[i].as_str());
        out.push(AssetStep { from: AssetSource::Media(i), kind, source: "imagePicker", slim: 0 });
        proof {
            assert(out@.map_values(|s: AssetStep| step_view(s)) =~= before.map_values(|s: AssetStep| step_view(s)).push(
                step_view(out@[i as int]),
            ));
            assert(mv[i as int] == media@[i as int]@);
        }
        i = i + 1;
    }
    let ghost m = out@.map_values(|s: AssetStep| step_view(s));
    if pair {
        out.push(AssetStep { from: AssetSource::LivePhoto, kind: "livePhoto", source: "imagePicker", slim: 0 });
    }
    let ghost p = out@.map_values(|s: AssetStep| step_view(s));
    assert(p =~= m + (if pair { seq![(AssetSource::LivePhoto, "livePhoto"@, "imagePicker"@, 0i64)] } else { Seq::empty() }));
    if link {
        out.push(AssetStep { from: AssetSource::Link, kind: "link", source: "shareSheet", slim: 0 });
    }
    let ghost l = out@.map_values(|s: AssetStep| step_view(s));
    assert(l =~= p + (if link { seq![(AssetSource::Link, "link"@, "shareSheet"@, 0i64)] } else { Seq::empty() }));
    match location {
        Some(size) => {
            out.push(AssetStep { from: AssetSource::Location, kind: "multiPinMap", source: "locationPicker", slim: size.slim() });
        },
        None => {},
    }
    assert(out@.map_values(|s: AssetStep| step_view(s)) =~= spec_asset_plan(mv, pair, link, location));
    out
}

} // verus!
