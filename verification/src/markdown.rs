//! The journal's small Markdown dialect, expressed as styled spans. A line is classified
//! by its leading markers; inline links and emphasis become span attributes. Serialising
//! the spans to RTF belongs to the platform layer.
use crate::text::{
    chars_of, clusters, extend, find_char, find_from, grapheme_clusters, is_whitespace, is_word_char, is_ws,
    lemma_find_from, unicode_word,
    lemma_skip_ws_bounds, lemma_trim_len, skip_ws, skip_ws_from, slice_vec, same_chars, spec_trim, string_from,
    trim,
};
use vstd::prelude::*;

verus! {

/// Characters that a backslash escapes, in the order that fixes their hidden stand-ins.
pub open spec fn escapable() -> Seq<char> {
    seq!['\\', '`', '*', '_', '{', '}', '[', ']', '(', ')', '#', '+', '-', '.', '!', '>', '~', '|']
}

/// Number of escapable characters: the width of a block of hidden stand-ins.
pub const ESCAPE_WIDTH: u32 = 18;

/// Position of `c` among the escapable characters.
pub open spec fn escapable_index(c: char) -> Option<int> {
    if c == '\\' { Some(0) }
    else if c == '`' { Some(1) }
    else if c == '*' { Some(2) }
    else if c == '_' { Some(3) }
    else if c == '{' { Some(4) }
    else if c == '}' { Some(5) }
    else if c == '[' { Some(6) }
    else if c == ']' { Some(7) }
    else if c == '(' { Some(8) }
    else if c == ')' { Some(9) }
    else if c == '#' { Some(10) }
    else if c == '+' { Some(11) }
    else if c == '-' { Some(12) }
    else if c == '.' { Some(13) }
    else if c == '!' { Some(14) }
    else if c == '>' { Some(15) }
    else if c == '~' { Some(16) }
    else if c == '|' { Some(17) }
    else { None }
}

proof fn lemma_escapable_index(c: char)
    ensures
        escapable().len() == ESCAPE_WIDTH,
        escapable_index(c) matches Some(i) ==> 0 <= i < ESCAPE_WIDTH && escapable()[i] == c,
        escapable_index(c) is None ==> forall|i: int|
            0 <= i < ESCAPE_WIDTH ==> escapable()[i] != c,
{
}

fn escapable_position(c: char) -> (r: Option<u32>)
    ensures
        r matches Some(i) ==> escapable_index(c) == Some(i as int),
        r is None ==> escapable_index(c) is None,
{
    match c {
        '\\' => Some(0),
        '`' => Some(1),
        '*' => Some(2),
        '_' => Some(3),
        '{' => Some(4),
        '}' => Some(5),
        '[' => Some(6),
        ']' => Some(7),
        '(' => Some(8),
        ')' => Some(9),
        '#' => Some(10),
        '+' => Some(11),
        '-' => Some(12),
        '.' => Some(13),
        '!' => Some(14),
        '>' => Some(15),
        '~' => Some(16),
        '|' => Some(17),
        _ => None,
    }
}

fn escapable_at(i: u32) -> (c: char)
    requires
        i < ESCAPE_WIDTH,
    ensures
        c == escapable()[i as int],
{
    let table: [char; 18] = [
        '\\', '`', '*', '_', '{', '}', '[', ']', '(', ')', '#', '+', '-', '.', '!', '>', '~', '|',
    ];
    assert(table@ =~= escapable());
    table[i as usize]
}

/// `char::from_u32` on a private-use code point, which is always a valid `char`.
#[verifier::external_body]
fn private_use_char(n: u32) -> (c: char)
    requires
        0xe000 <= n <= 0xf8ff,
    ensures
        c as u32 == n,
{
    char::from_u32(n).unwrap()
}

// ---------------------------------------------------------------------------------------
// Hidden stand-ins for escaped characters
// ---------------------------------------------------------------------------------------
/// First code point of the `k`-th candidate block of stand-ins in the private-use area.
pub open spec fn block_base(k: int) -> int {
    0xe000 + ESCAPE_WIDTH * k
}

/// No character of `s` falls inside the block starting at `base`.
pub open spec fn block_free(s: Seq<char>, base: int) -> bool {
    forall|i: int| 0 <= i < s.len() ==> !(base <= #[trigger] (s[i] as u32) < base + ESCAPE_WIDTH)
}

/// Number of candidate blocks: those that end inside the private-use area.
pub open spec fn block_count() -> int {
    355
}

pub open spec fn first_free_block(s: Seq<char>, k: int) -> int
    decreases block_count() - k,
{
    if k >= block_count() {
        0xe000
    } else if block_free(s, block_base(k)) {
        block_base(k)
    } else {
        first_free_block(s, k + 1)
    }
}

/// The base of the first block of private-use code points unused by `s`, or the start of
/// the private-use area when every block is taken.
pub open spec fn spec_escape_base(s: Seq<char>) -> u32 {
    first_free_block(s, 0) as u32
}

proof fn lemma_first_free_block_range(s: Seq<char>, k: int)
    requires
        0 <= k,
    ensures
        0xe000 <= first_free_block(s, k) <= 0xf8ff - ESCAPE_WIDTH,
    decreases block_count() - k,
{
    if k < block_count() && !block_free(s, block_base(k)) {
        lemma_first_free_block_range(s, k + 1);
    }
}

fn block_is_free(s: &Vec<char>, base: u32) -> (r: bool)
    requires
        base <= 0xf8ff,
    ensures
        r == block_free(s@, base as int),
{
    let mut i: usize = 0;
    while i < s.len()
        invariant
            0 <= i <= s@.len(),
            base <= 0xf8ff,
            forall|j: int| 0 <= j < i ==> !(base <= #[trigger] (s@[j] as u32) < base + ESCAPE_WIDTH),
        decreases s@.len() - i,
    {
        let n: u32 = s[i] as u32;
        if base <= n && n < base + ESCAPE_WIDTH {
            return false;
        }
        i = i + 1;
    }
    true
}

/// Chooses the block of private-use code points that stands in for escaped characters.
pub fn escape_base(s: &Vec<char>) -> (base: u32)
    ensures
        base == spec_escape_base(s@),
        0xe000 <= base <= 0xf8ff - ESCAPE_WIDTH,
{
    proof {
        lemma_first_free_block_range(s@, 0);
    }
    let mut k: u32 = 0;
    while k < 355
        invariant
            0 <= k <= 355,
            first_free_block(s@, k as int) == first_free_block(s@, 0),
        decreases 355 - k,
    {
        let base: u32 = 0xe000 + ESCAPE_WIDTH * k;
        if block_is_free(s, base) {
            return base;
        }
        k = k + 1;
    }
    0xe000
}

/// The stand-in for grapheme `g`, when `g` is a single escapable character.
pub open spec fn spec_hidden(g: Seq<char>, base: u32) -> Option<char> {
    if g.len() == 1 {
        match escapable_index(g[0]) {
            Some(i) => Some((base + i) as char),
            None => None,
        }
    } else {
        None
    }
}

/// The stand-in for grapheme `g`, when `g` is a single escapable character.
pub fn hidden(g: &Vec<char>, base: u32) -> (r: Option<char>)
    requires
        0xe000 <= base <= 0xf8ff - ESCAPE_WIDTH,
    ensures
        r == spec_hidden(g@, base),
{
    if g.len() == 1 {
        match escapable_position(g[0]) {
            Some(i) => {
                proof {
                    lemma_escapable_index(g@[0]);
                }
                let c = private_use_char(base + i);
                Some(c)
            },
            None => None,
        }
    } else {
        None
    }
}

pub open spec fn hide_one(g: Seq<char>, base: u32) -> Seq<char> {
    match spec_hidden(g, base) {
        Some(c) => seq![c],
        None => g,
    }
}

pub open spec fn hide_clusters(gs: Seq<Seq<char>>, base: u32) -> Seq<char>
    decreases gs.len(),
{
    if gs.len() == 0 {
        Seq::empty()
    } else {
        hide_clusters(gs.drop_last(), base) + hide_one(gs.last(), base)
    }
}

/// Every escapable grapheme of `s` replaced by its stand-in.
pub open spec fn spec_hide_all(s: Seq<char>, base: u32) -> Seq<char> {
    hide_clusters(grapheme_clusters(s), base)
}

/// Every escapable grapheme of `s` replaced by its stand-in.
pub fn hide_all(s: &Vec<char>, base: u32) -> (r: Vec<char>)
    requires
        0xe000 <= base <= 0xf8ff - ESCAPE_WIDTH,
    ensures
        r@ == spec_hide_all(s@, base),
{
    let gs = clusters(s);
    let ghost cs = grapheme_clusters(s@);
    let mut out: Vec<char> = Vec::new();
    let mut i: usize = 0;
    while i < gs.len()
        invariant
            0 <= i <= gs@.len(),
            0xe000 <= base <= 0xf8ff - ESCAPE_WIDTH,
            gs@.len() == cs.len(),
            forall|k: int| 0 <= k < gs@.len() ==> #[trigger] gs@[k]@ == cs[k],
            out@ == hide_clusters(cs.take(i as int), base),
        decreases gs@.len() - i,
    {
        proof {
            assert(cs.take(i + 1).drop_last() =~= cs.take(i as int));
        }
        match hidden(&gs[i], base) {
            Some(c) => out.push(c),
            None => extend(&mut out, &gs[i]),
        }
        i = i + 1;
    }
    proof {
        assert(cs.take(gs@.len() as int) =~= cs);
    }
    out
}

/// When some block of private-use code points is unused by a line, the chosen base is the
/// start of such a block: stand-ins never collide with the line's own characters.
pub proof fn lemma_escape_base_free(s: Seq<char>)
    requires
        exists|k: int| 0 <= k < block_count() && #[trigger] block_free(s, block_base(k)),
    ensures
        block_free(s, spec_escape_base(s) as int),
        0xe000 <= spec_escape_base(s) <= 0xf8ff - ESCAPE_WIDTH,
{
    lemma_first_free_block_range(s, 0);
    let k = choose|k: int| 0 <= k < block_count() && #[trigger] block_free(s, block_base(k));
    lemma_first_free_block_found(s, 0, k);
}

proof fn lemma_first_free_block_found(s: Seq<char>, j: int, k: int)
    requires
        0 <= j <= k < block_count(),
        block_free(s, block_base(k)),
    ensures
        block_free(s, first_free_block(s, j)),
    decreases k - j,
{
    if !block_free(s, block_base(j)) {
        lemma_first_free_block_found(s, j + 1, k);
    }
}

/// The escapable character whose stand-in is grapheme `g`, or `g` itself.
pub open spec fn restore_one(g: Seq<char>, base: u32) -> Seq<char> {
    if g.len() == 1 && base <= (g[0] as u32) < base + ESCAPE_WIDTH {
        seq![escapable()[(g[0] as u32) - base]]
    } else {
        g
    }
}

pub open spec fn restore_clusters(gs: Seq<Seq<char>>, base: u32) -> Seq<char>
    decreases gs.len(),
{
    if gs.len() == 0 {
        Seq::empty()
    } else {
        restore_clusters(gs.drop_last(), base) + restore_one(gs.last(), base)
    }
}

/// Restoring the stand-in of a grapheme gives the grapheme back, when the grapheme does
/// not itself use the stand-in block: an escaped character comes out literally.
pub proof fn lemma_stand_in_roundtrip(g: Seq<char>, base: u32)
    requires
        0xe000 <= base <= 0xf8ff - ESCAPE_WIDTH,
        block_free(g, base as int),
    ensures
        restore_one(hide_one(g, base), base) == g,
{
    lemma_escapable_index(if g.len() > 0 { g[0] } else { ' ' });
    if g.len() == 1 {
        match escapable_index(g[0]) {
            Some(i) => {
                let c = (base + i) as char;
                assert(hide_one(g, base) == seq![c]);
                assert(seq![c][0] as u32 == base + i);
                assert(restore_one(seq![c], base) =~= seq![escapable()[i]]);
                assert(g =~= seq![g[0]]);
            },
            None => {
                assert(!(base <= (g[0] as u32) < base + ESCAPE_WIDTH));
            },
        }
    }
}

/// Every stand-in grapheme of `s` turned back into the character it hides.
pub open spec fn spec_restore(s: Seq<char>, base: u32) -> Seq<char> {
    restore_clusters(grapheme_clusters(s), base)
}

/// Every stand-in grapheme of `s` turned back into the character it hides.
pub fn restore(s: &Vec<char>, base: u32) -> (r: Vec<char>)
    requires
        0xe000 <= base <= 0xf8ff - ESCAPE_WIDTH,
    ensures
        r@ == spec_restore(s@, base),
        block_free(s@, base as int) ==> r@ == s@,
{
    let gs = clusters(s);
    let ghost cs = grapheme_clusters(s@);
    let mut out: Vec<char> = Vec::new();
    let mut i: usize = 0;
    while i < gs.len()
        invariant
            0 <= i <= gs@.len(),
            0xe000 <= base <= 0xf8ff - ESCAPE_WIDTH,
            gs@.len() == cs.len(),
            forall|k: int| 0 <= k < gs@.len() ==> #[trigger] gs@[k]@ == cs[k],
            out@ == restore_clusters(cs.take(i as int), base),
        decreases gs@.len() - i,
    {
        proof {
            assert(cs.take(i + 1).drop_last() =~= cs.take(i as int));
        }
        let g = &gs[i];
        if g.len() == 1 && base <= g[0] as u32 && (g[0] as u32) < base + ESCAPE_WIDTH {
            let c = escapable_at(g[0] as u32 - base);
            out.push(c);
        } else {
            extend(&mut out, g);
        }
        i = i + 1;
    }
    proof {
        assert(cs.take(gs@.len() as int) =~= cs);
        if block_free(s@, base as int) {
            cs.lemma_flatten_and_flatten_alt_are_equivalent();
            lemma_cluster_chars(cs, |c: char| !(base <= (c as u32) < base + ESCAPE_WIDTH));
            lemma_restore_plain(cs, base);
        }
    }
    out
}

/// Hiding and then restoring graphemes one by one gives back their text, when none of them
/// uses the stand-in block.
pub proof fn lemma_hidden_clusters_roundtrip(gs: Seq<Seq<char>>, base: u32)
    requires
        0xe000 <= base <= 0xf8ff - ESCAPE_WIDTH,
        forall|i: int| 0 <= i < gs.len() ==> block_free(#[trigger] gs[i], base as int),
    ensures
        hide_clusters(gs, base) == gs.map_values(|g: Seq<char>| hide_one(g, base)).flatten_alt(),
        restore_clusters(gs.map_values(|g: Seq<char>| hide_one(g, base)), base) == gs.flatten_alt(),
    decreases gs.len(),
{
    if gs.len() > 0 {
        let hs = gs.map_values(|g: Seq<char>| hide_one(g, base));
        assert(hs.drop_last() =~= gs.drop_last().map_values(|g: Seq<char>| hide_one(g, base)));
        assert forall|i: int| 0 <= i < gs.drop_last().len() implies block_free(#[trigger] gs.drop_last()[i], base as int) by {
            assert(gs.drop_last()[i] == gs[i]);
        }
        lemma_hidden_clusters_roundtrip(gs.drop_last(), base);
        assert(block_free(gs[gs.len() - 1], base as int));
        lemma_stand_in_roundtrip(gs.last(), base);
    }
}

} // verus!

verus! {

// ---------------------------------------------------------------------------------------
// Escapes and code spans
// ---------------------------------------------------------------------------------------
/// Scanner state while protecting a line: text so far, an open code span's content,
/// whether a backslash is pending, and whether a code span is open.
pub type ProtectState = (Seq<char>, Seq<char>, bool, bool);

pub open spec fn protect_step(st: ProtectState, g: Seq<char>, base: u32) -> ProtectState {
    let (out, code, escaping, in_code) = st;
    if in_code {
        if g == seq!['`'] {
            (out + spec_hide_all(seq!['`'] + code + seq!['`'], base), Seq::empty(), escaping, false)
        } else {
            (out, code + g, escaping, true)
        }
    } else if escaping {
        match spec_hidden(g, base) {
            Some(c) => (out.push(c), code, false, in_code),
            None => (out + seq!['\\'] + g, code, false, in_code),
        }
    } else if g == seq!['\\'] {
        (out, code, true, in_code)
    } else if g == seq!['`'] {
        (out, Seq::empty(), escaping, true)
    } else {
        (out + g, code, escaping, in_code)
    }
}

pub open spec fn protect_clusters(gs: Seq<Seq<char>>, base: u32) -> ProtectState
    decreases gs.len(),
{
    if gs.len() == 0 {
        (Seq::empty(), Seq::empty(), false, false)
    } else {
        protect_step(protect_clusters(gs.drop_last(), base), gs.last(), base)
    }
}

pub open spec fn protect_finish(st: ProtectState, base: u32) -> Seq<char> {
    let (out, code, escaping, in_code) = st;
    let out = if in_code {
        out + spec_hide_all(seq!['`'] + code, base)
    } else {
        out
    };
    if escaping {
        out.push('\\')
    } else {
        out
    }
}

/// A line with escaped characters and code spans replaced by stand-ins, so that no later
/// pattern can see their markup. Graphemes are examined one at a time: `\x` hides `x` when
/// it is escapable and keeps the backslash otherwise, and everything between backticks
/// (backticks included) is hidden; an unclosed code span or a trailing backslash is kept.
pub open spec fn spec_protect(s: Seq<char>, base: u32) -> Seq<char> {
    protect_finish(protect_clusters(grapheme_clusters(s), base), base)
}

fn backtick_wrapped(code: &Vec<char>, close: bool) -> (r: Vec<char>)
    ensures
        r@ == if close { seq!['`'] + code@ + seq!['`'] } else { seq!['`'] + code@ },
{
    let mut r: Vec<char> = Vec::new();
    r.push('`');
    extend(&mut r, code);
    if close {
        r.push('`');
    }
    proof {
        assert(r@ =~= if close { seq!['`'] + code@ + seq!['`'] } else { seq!['`'] + code@ });
    }
    r
}

fn is_single(g: &Vec<char>, c: char) -> (r: bool)
    ensures
        r == (g@ == seq![c]),
{
    if g.len() == 1 && g[0] == c {
        assert(g@ =~= seq![c]);
        true
    } else {
        false
    }
}

/// Hides escaped characters and code spans of a line behind stand-ins.
pub fn protect(s: &Vec<char>, base: u32) -> (r: Vec<char>)
    requires
        0xe000 <= base <= 0xf8ff - ESCAPE_WIDTH,
    ensures
        r@ == spec_protect(s@, base),
        (forall|k: int| 0 <= k < s@.len() ==> #[trigger] s@[k] != '\\' && s@[k] != '`') ==> r@ == s@,
{
    let gs = clusters(s);
    let ghost cs = grapheme_clusters(s@);
    let mut out: Vec<char> = Vec::new();
    let mut code: Vec<char> = Vec::new();
    let mut escaping = false;
    let mut in_code = false;
    let mut i: usize = 0;
    while i < gs.len()
        invariant
            0 <= i <= gs@.len(),
            0xe000 <= base <= 0xf8ff - ESCAPE_WIDTH,
            gs@.len() == cs.len(),
            forall|k: int| 0 <= k < gs@.len() ==> #[trigger] gs@[k]@ == cs[k],
            (out@, code@, escaping, in_code) == protect_clusters(cs.take(i as int), base),
        decreases gs@.len() - i,
    {
        proof {
            assert(cs.take(i + 1).drop_last() =~= cs.take(i as int));
        }
        let g = &gs[i];
        if in_code {
            if is_single(g, '`') {
                let wrapped = backtick_wrapped(&code, true);
                let hid = hide_all(&wrapped, base);
                extend(&mut out, &hid);
                in_code = false;
                code = Vec::new();
            } else {
                extend(&mut code, g);
            }
        } else if escaping {
            match hidden(g, base) {
                Some(c) => out.push(c),
                None => {
                    out.push('\\');
                    extend(&mut out, g);
                },
            }
            escaping = false;
        } else if is_single(g, '\\') {
            escaping = true;
        } else if is_single(g, '`') {
            in_code = true;
            code = Vec::new();
        } else {
            extend(&mut out, g);
        }
        i = i + 1;
    }
    proof {
        assert(cs.take(gs@.len() as int) =~= cs);
        if forall|k: int| 0 <= k < s@.len() ==> #[trigger] s@[k] != '\\' && s@[k] != '`' {
            cs.lemma_flatten_and_flatten_alt_are_equivalent();
            lemma_cluster_chars(cs, |c: char| c != '\\' && c != '`');
            assert forall|i: int| 0 <= i < cs.len() implies #[trigger] cs[i] != seq!['\\'] && cs[i] != seq!['`'] by {
                if cs[i] == seq!['\\'] || cs[i] == seq!['`'] {
                    assert(cs[i][0] == '\\' || cs[i][0] == '`');
                }
            }
            lemma_protect_plain(cs, base);
        }
    }
    if in_code {
        let wrapped = backtick_wrapped(&code, false);
        let hid = hide_all(&wrapped, base);
        extend(&mut out, &hid);
    }
    if escaping {
        out.push('\\');
    }
    out
}

} // verus!

verus! {

// ---------------------------------------------------------------------------------------
// Inline links: `[label](url)` and `[label](url "title")`, but not images `![..](..)`
// ---------------------------------------------------------------------------------------
/// End of a link destination: the first `)` or whitespace at or after `k` (the length if none).
pub open spec fn url_end_from(s: Seq<char>, k: int) -> int
    decreases s.len() - k,
{
    if k >= s.len() {
        s.len() as int
    } else if s[k] == ')' || is_ws(s[k]) {
        k
    } else {
        url_end_from(s, k + 1)
    }
}

pub proof fn lemma_url_end(s: Seq<char>, k: int)
    requires
        0 <= k <= s.len(),
    ensures
        k <= url_end_from(s, k) <= s.len(),
    decreases s.len() - k,
{
    if k < s.len() && !(s[k] == ')' || is_ws(s[k])) {
        lemma_url_end(s, k + 1);
    }
}

/// The link that starts at `i`, as (end of label, start of url, end of url, end of link).
/// The label runs to the first `]`, which `(` must follow; the destination is a non-empty
/// run without `)` or whitespace, closed by `)` or by whitespace, a quoted title and `)`.
pub open spec fn link_at(s: Seq<char>, i: int) -> Option<(int, int, int, int)> {
    if !(0 <= i < s.len() && s[i] == '[' && (i == 0 || s[i - 1] != '!')) {
        None
    } else {
        let le = find_from(s, i + 1, ']');
        if le + 1 >= s.len() || s[le + 1] != '(' {
            None
        } else {
            let us = le + 2;
            let ue = url_end_from(s, us);
            if ue == us || ue >= s.len() {
                None
            } else if s[ue] == ')' {
                Some((le, us, ue, ue + 1))
            } else {
                let k = skip_ws_from(s, ue);
                if k < s.len() && s[k] == '"' {
                    let q = find_from(s, k + 1, '"');
                    if q + 1 < s.len() && s[q + 1] == ')' {
                        Some((le, us, ue, q + 2))
                    } else {
                        None
                    }
                } else {
                    None
                }
            }
        }
    }
}

/// Start of the leftmost link at or after `k`.
pub open spec fn first_link_from(s: Seq<char>, k: int) -> Option<int>
    decreases s.len() - k,
{
    if k >= s.len() {
        None
    } else if link_at(s, k) is Some {
        Some(k)
    } else {
        first_link_from(s, k + 1)
    }
}

/// What a link turns into: its destination, or `label (url)` when the trimmed label is
/// neither empty nor the destination itself.
pub open spec fn link_text(label: Seq<char>, url: Seq<char>) -> Seq<char> {
    let label = spec_trim(label);
    if label.len() == 0 || label == url {
        url
    } else {
        label + seq![' ', '('] + url + seq![')']
    }
}

pub open spec fn rewrite_link(s: Seq<char>, i: int, m: (int, int, int, int)) -> Seq<char> {
    let (le, us, ue, end) = m;
    s.subrange(0, i) + link_text(s.subrange(i + 1, le), s.subrange(us, ue)) + s.subrange(end, s.len() as int)
}

pub proof fn lemma_link_at(s: Seq<char>, i: int)
    requires
        link_at(s, i) is Some,
    ensures
        ({
            let (le, us, ue, end) = link_at(s, i)->0;
            &&& 0 <= i < le && le + 2 == us && us < ue && ue < end && end <= s.len()
            &&& rewrite_link(s, i, (le, us, ue, end)).len() < s.len()
        }),
{
    lemma_find_from(s, i + 1, ']');
    let le = find_from(s, i + 1, ']');
    lemma_url_end(s, le + 2);
    let ue = url_end_from(s, le + 2);
    if s[ue] != ')' {
        lemma_skip_ws_bounds(s, ue);
        let k = skip_ws_from(s, ue);
        lemma_find_from(s, k + 1, '"');
    }
    let (le, us, ue, end) = link_at(s, i)->0;
    lemma_trim_len(s.subrange(i + 1, le));
}

pub proof fn lemma_first_link(s: Seq<char>, k: int)
    requires
        0 <= k,
    ensures
        first_link_from(s, k) matches Some(i) ==> k <= i && link_at(s, i) is Some,
    decreases s.len() - k,
{
    if k < s.len() && link_at(s, k) is None {
        lemma_first_link(s, k + 1);
    }
}

/// The line with every link rewritten, leftmost first, until none is left.
pub open spec fn spec_links(s: Seq<char>) -> Seq<char>
    decreases s.len(),
{
    match first_link_from(s, 0) {
        Some(i) => {
            proof {
                lemma_first_link(s, 0);
                lemma_link_at(s, i);
            }
            if link_at(s, i) is Some && rewrite_link(s, i, link_at(s, i)->0).len() < s.len() {
                spec_links(rewrite_link(s, i, link_at(s, i)->0))
            } else {
                s
            }
        },
        None => s,
    }
}

fn url_end(s: &Vec<char>, k: usize) -> (r: usize)
    requires
        k <= s@.len(),
    ensures
        r == url_end_from(s@, k as int),
        k <= r <= s@.len(),
{
    let mut j: usize = k;
    while j < s.len() && !(s[j] == ')' || is_whitespace(s[j]))
        invariant
            k <= j <= s@.len(),
            url_end_from(s@, j as int) == url_end_from(s@, k as int),
        decreases s@.len() - j,
    {
        j = j + 1;
    }
    j
}

fn find_link_at(s: &Vec<char>, i: usize) -> (r: Option<(usize, usize, usize, usize)>)
    requires
        i < s@.len(),
    ensures
        match r {
            Some((le, us, ue, end)) => link_at(s@, i as int) == Some(
                (le as int, us as int, ue as int, end as int),
            ),
            None => link_at(s@, i as int) is None,
        },
{
    let n: usize = s.len();
    if !(s[i] == '[' && (i == 0 || s[i - 1] != '!')) {
        return None;
    }
    let le = find_char(s, i + 1, ']');
    if le >= n - 1 || s[le + 1] != '(' {
        return None;
    }
    let us = le + 2;
    let ue = url_end(s, us);
    if ue == us || ue >= s.len() {
        return None;
    }
    if s[ue] == ')' {
        return Some((le, us, ue, ue + 1));
    }
    let k = skip_ws(s, ue);
    if k < s.len() && s[k] == '"' {
        let q = find_char(s, k + 1, '"');
        if q < n - 1 && s[q + 1] == ')' {
            return Some((le, us, ue, q + 2));
        }
    }
    None
}

fn first_link(s: &Vec<char>) -> (r: Option<(usize, (usize, usize, usize, usize))>)
    ensures
        match r {
            Some((i, (le, us, ue, end))) => first_link_from(s@, 0) == Some(i as int) && link_at(
                s@,
                i as int,
            ) == Some((le as int, us as int, ue as int, end as int)),
            None => first_link_from(s@, 0) is None,
        },
{
    let mut i: usize = 0;
    while i < s.len()
        invariant
            0 <= i <= s@.len(),
            first_link_from(s@, 0) == first_link_from(s@, i as int),
        decreases s@.len() - i,
    {
        match find_link_at(s, i) {
            Some(m) => {
                return Some((i, m));
            },
            None => {
                i = i + 1;
            },
        }
    }
    None
}

fn link_replacement(label: &Vec<char>, url: &Vec<char>) -> (r: Vec<char>)
    ensures
        r@ == link_text(label@, url@),
{
    let trimmed = trim(label);
    let same = same_chars(&trimmed, url);
    if trimmed.len() == 0 || same {
        let r = slice_vec(url, 0, url.len());
        assert(r@ =~= url@);
        return r;
    }
    let mut r = trimmed;
    r.push(' ');
    r.push('(');
    extend(&mut r, url);
    r.push(')');
    proof {
        assert(r@ =~= spec_trim(label@) + seq![' ', '('] + url@ + seq![')']);
    }
    r
}

/// Rewrites every link of a protected line, leftmost first, until none is left.
pub fn links(s: &Vec<char>) -> (r: Vec<char>)
    ensures
        r@ == spec_links(s@),
{
    let mut cur = slice_vec(s, 0, s.len());
    assert(cur@ =~= s@);
    loop
        invariant
            spec_links(cur@) == spec_links(s@),
        decreases cur@.len(),
    {
        match first_link(&cur) {
            None => {
                return cur;
            },
            Some((i, (le, us, ue, end))) => {
                proof {
                    lemma_link_at(cur@, i as int);
                }
                let label = slice_vec(&cur, i + 1, le);
                let url = slice_vec(&cur, us, ue);
                let repl = link_replacement(&label, &url);
                let mut next = slice_vec(&cur, 0, i);
                extend(&mut next, &repl);
                let rest = slice_vec(&cur, end, cur.len());
                extend(&mut next, &rest);
                proof {
                    assert(next@ =~= rewrite_link(cur@, i as int, (le as int, us as int, ue as int, end as int)));
                }
                cur = next;
            },
        }
    }
}

} // verus!

verus! {

// ---------------------------------------------------------------------------------------
// Emphasis: `***x***`, `___x___`, `**x**`, `__x__`, `~~x~~`, `*x*` and `_x_`
// ---------------------------------------------------------------------------------------
/// `n` copies of `c` start at `i`.
pub open spec fn delim_run(s: Seq<char>, i: int, c: char, n: int) -> bool {
    0 <= i && i + n <= s.len() && forall|k: int| i <= k < i + n ==> #[trigger] s[k] == c
}

/// A character that may not touch an underscore delimiter from outside.
pub open spec fn wordish(c: char) -> bool {
    unicode_word(c) || c == '_'
}

/// The content that ends before `j` may be closed there: it ends in a non-space, the
/// closing run follows, and an underscore run is not followed by a word character.
pub open spec fn close_ok(s: Seq<char>, j: int, c: char, n: int, bounded: bool) -> bool {
    &&& !is_ws(s[j - 1])
    &&& delim_run(s, j, c, n)
    &&& bounded ==> (j + n == s.len() || !wordish(s[j + n]))
}

/// The shortest content end at or after `j` that can be closed; content never spans a
/// line feed.
pub open spec fn delim_close(s: Seq<char>, j: int, c: char, n: int, bounded: bool) -> Option<int>
    decreases s.len() - j,
{
    if j < 1 || j > s.len() {
        None
    } else if s[j - 1] == '\n' {
        None
    } else if close_ok(s, j, c, n, bounded) {
        Some(j)
    } else if j >= s.len() {
        None
    } else {
        delim_close(s, j + 1, c, n, bounded)
    }
}

/// The end of the content of the delimited span that opens at `i`: `n` copies of `c`
/// followed by a non-space and, for underscores, not preceded by a word character.
pub open spec fn delim_at(s: Seq<char>, i: int, c: char, n: int, bounded: bool) -> Option<int> {
    if 0 <= i && i + n < s.len() && (bounded ==> (i == 0 || !wordish(s[i - 1]))) && delim_run(
        s,
        i,
        c,
        n,
    ) && !is_ws(s[i + n]) {
        delim_close(s, i + n + 1, c, n, bounded)
    } else {
        None
    }
}

pub proof fn lemma_delim_close(s: Seq<char>, j: int, c: char, n: int, bounded: bool)
    ensures
        delim_close(s, j, c, n, bounded) matches Some(e) ==> j <= e <= s.len() && 1 <= e
            && close_ok(s, e, c, n, bounded),
    decreases s.len() - j,
{
    if 1 <= j <= s.len() && s[j - 1] != '\n' && !close_ok(s, j, c, n, bounded) && j < s.len() {
        lemma_delim_close(s, j + 1, c, n, bounded);
    }
}

/// Every delimited span, leftmost first and without overlap, rewritten as `open`, its
/// content and `close`; the rest of the text is kept.
pub open spec fn delim_pass(
    s: Seq<char>,
    k: int,
    c: char,
    n: int,
    bounded: bool,
    open: Seq<char>,
    close: Seq<char>,
) -> Seq<char>
    decreases s.len() - k,
{
    if k < 0 || k >= s.len() {
        Seq::empty()
    } else {
        match delim_at(s, k, c, n, bounded) {
            Some(j) => {
                proof {
                    lemma_delim_close(s, k + n + 1, c, n, bounded);
                }
                if n >= 1 && j + n > k {
                    open + s.subrange(k + n, j) + close + delim_pass(s, j + n, c, n, bounded, open, close)
                } else {
                    Seq::empty()
                }
            },
            None => seq![s[k]] + delim_pass(s, k + 1, c, n, bounded, open, close),
        }
    }
}

fn is_delim_run(s: &Vec<char>, i: usize, c: char, n: usize) -> (r: bool)
    requires
        i + n <= s@.len(),
    ensures
        r == delim_run(s@, i as int, c, n as int),
{
    let len = s.len();
    let end: usize = i + n;
    let mut k: usize = i;
    while k < end
        invariant
            end == i + n,
            i <= k <= i + n <= s@.len(),
            forall|m: int| i <= m < k ==> #[trigger] s@[m] == c,
        decreases i + n - k,
    {
        if s[k] != c {
            return false;
        }
        k = k + 1;
    }
    true
}

fn is_wordish(c: char) -> (r: bool)
    ensures
        r == wordish(c),
{
    c == '_' || is_word_char(c)
}

fn find_delim_close(s: &Vec<char>, start: usize, c: char, n: usize, bounded: bool) -> (r: Option<usize>)
    requires
        1 <= start <= s@.len(),
        n <= 3,
    ensures
        match r {
            Some(j) => delim_close(s@, start as int, c, n as int, bounded) == Some(j as int),
            None => delim_close(s@, start as int, c, n as int, bounded) is None,
        },
{
    let len = s.len();
    let mut j: usize = start;
    loop
        invariant
            1 <= start <= j <= len,
            len == s@.len(),
            n <= 3,
            delim_close(s@, j as int, c, n as int, bounded) == delim_close(s@, start as int, c, n as int, bounded),
        decreases len - j,
    {
        if s[j - 1] == '\n' {
            return None;
        }
        let ok = !is_whitespace(s[j - 1]) && n <= len && j <= len - n && is_delim_run(s, j, c, n) && (!bounded
            || j + n == len || !is_wordish(s[j + n]));
        if ok {
            return Some(j);
        }
        if j >= len {
            return None;
        }
        j = j + 1;
    }
}

fn find_delim_at(s: &Vec<char>, i: usize, c: char, n: usize, bounded: bool) -> (r: Option<usize>)
    requires
        i < s@.len(),
        1 <= n <= 3,
    ensures
        match r {
            Some(j) => delim_at(s@, i as int, c, n as int, bounded) == Some(j as int),
            None => delim_at(s@, i as int, c, n as int, bounded) is None,
        },
{
    let len = s.len();
    if n < len && i < len - n && (!bounded || i == 0 || !is_wordish(s[i - 1])) && is_delim_run(s, i, c, n)
        && !is_whitespace(s[i + n]) {
        find_delim_close(s, i + n + 1, c, n, bounded)
    } else {
        None
    }
}

/// Rewrites every delimited span of `s`; see `delim_pass`.
pub fn delim_replace(
    s: &Vec<char>,
    c: char,
    n: usize,
    bounded: bool,
    open: &Vec<char>,
    close: &Vec<char>,
) -> (r: Vec<char>)
    requires
        1 <= n <= 3,
    ensures
        r@ == delim_pass(s@, 0, c, n as int, bounded, open@, close@),
{
    let len = s.len();
    let mut out: Vec<char> = Vec::new();
    let mut k: usize = 0;
    while k < len
        invariant
            0 <= k <= len + n,
            len == s@.len(),
            1 <= n <= 3,
            out@ + delim_pass(s@, k as int, c, n as int, bounded, open@, close@) == delim_pass(
                s@,
                0,
                c,
                n as int,
                bounded,
                open@,
                close@,
            ),
        decreases len - k,
    {
        let ghost before = out@;
        match find_delim_at(s, k, c, n, bounded) {
            Some(j) => {
                proof {
                    lemma_delim_close(s@, k + n + 1, c, n as int, bounded);
                }
                extend(&mut out, open);
                let mid = slice_vec(s, k + n, j);
                extend(&mut out, &mid);
                extend(&mut out, close);
                proof {
                    let rest = delim_pass(s@, j + n, c, n as int, bounded, open@, close@);
                    assert(before + (open@ + s@.subrange(k + n, j as int) + close@ + rest) =~= out@ + rest);
                }
                k = j + n;
            },
            None => {
                out.push(s[k]);
                proof {
                    let rest = delim_pass(s@, k + 1, c, n as int, bounded, open@, close@);
                    assert(before + (seq![s@[k as int]] + rest) =~= out@ + rest);
                }
                k = k + 1;
            },
        }
    }
    proof {
        assert(out@ + delim_pass(s@, k as int, c, n as int, bounded, open@, close@) =~= out@);
    }
    out
}

} // verus!

verus! {

/// A single-character emphasis delimiter.
pub open spec fn emph_mark(c: char) -> bool {
    c == '*' || c == '_'
}

/// A character that may not touch a single-character emphasis from outside.
pub open spec fn emph_outer(c: char) -> bool {
    unicode_word(c) || emph_mark(c)
}

/// Index of the first emphasis delimiter at or after `k` (the length if none).
pub open spec fn find_mark_from(s: Seq<char>, k: int) -> int
    decreases s.len() - k,
{
    if k >= s.len() {
        s.len() as int
    } else if emph_mark(s[k]) {
        k
    } else {
        find_mark_from(s, k + 1)
    }
}

pub proof fn lemma_find_mark(s: Seq<char>, k: int)
    requires
        0 <= k <= s.len(),
    ensures
        k <= find_mark_from(s, k) <= s.len(),
    decreases s.len() - k,
{
    if k < s.len() && !emph_mark(s[k]) {
        lemma_find_mark(s, k + 1);
    }
}

/// The end of the content of a single-delimiter emphasis that opens at `i`: the content
/// holds no delimiter, starts and ends with a non-space, and is closed by the opening
/// delimiter; neither side touches a word character or another delimiter.
pub open spec fn emph_at(s: Seq<char>, i: int) -> Option<int> {
    if 0 <= i && i + 1 < s.len() && emph_mark(s[i]) && (i == 0 || !emph_outer(s[i - 1]))
        && !is_ws(s[i + 1]) {
        let j = find_mark_from(s, i + 1);
        if j >= i + 2 && j < s.len() && s[j] == s[i] && !is_ws(s[j - 1]) && (j + 1 == s.len()
            || !emph_outer(s[j + 1])) {
            Some(j)
        } else {
            None
        }
    } else {
        None
    }
}

/// Every single-delimiter emphasis, leftmost first, with its delimiters replaced by the
/// italic marker.
pub open spec fn emph_pass(s: Seq<char>, k: int) -> Seq<char>
    decreases s.len() - k,
{
    if k < 0 || k >= s.len() {
        Seq::empty()
    } else {
        match emph_at(s, k) {
            Some(j) => {
                if j + 1 > k {
                    seq!['\x02'] + s.subrange(k + 1, j) + seq!['\x02'] + emph_pass(s, j + 1)
                } else {
                    Seq::empty()
                }
            },
            None => seq![s[k]] + emph_pass(s, k + 1),
        }
    }
}

fn find_mark(s: &Vec<char>, k: usize) -> (r: usize)
    requires
        k <= s@.len(),
    ensures
        r == find_mark_from(s@, k as int),
        k <= r <= s@.len(),
{
    let mut j: usize = k;
    while j < s.len() && !(s[j] == '*' || s[j] == '_')
        invariant
            k <= j <= s@.len(),
            find_mark_from(s@, j as int) == find_mark_from(s@, k as int),
        decreases s@.len() - j,
    {
        j = j + 1;
    }
    j
}

fn is_emph_outer(c: char) -> (r: bool)
    ensures
        r == emph_outer(c),
{
    c == '*' || c == '_' || is_word_char(c)
}

fn find_emph_at(s: &Vec<char>, i: usize) -> (r: Option<usize>)
    requires
        i < s@.len(),
    ensures
        match r {
            Some(j) => emph_at(s@, i as int) == Some(j as int),
            None => emph_at(s@, i as int) is None,
        },
{
    let len = s.len();
    if i + 1 < len && (s[i] == '*' || s[i] == '_') && (i == 0 || !is_emph_outer(s[i - 1]))
        && !is_whitespace(s[i + 1]) {
        let j = find_mark(s, i + 1);
        if j >= i + 2 && j < len && s[j] == s[i] && !is_whitespace(s[j - 1]) && (j + 1 == len
            || !is_emph_outer(s[j + 1])) {
            return Some(j);
        }
    }
    None
}

/// Rewrites every single-delimiter emphasis of `s`; see `emph_pass`.
pub fn emph_replace(s: &Vec<char>) -> (r: Vec<char>)
    ensures
        r@ == emph_pass(s@, 0),
{
    let len = s.len();
    let mut out: Vec<char> = Vec::new();
    let mut k: usize = 0;
    while k < len
        invariant
            0 <= k <= len,
            len == s@.len(),
            out@ + emph_pass(s@, k as int) == emph_pass(s@, 0),
        decreases len - k,
    {
        let ghost before = out@;
        match find_emph_at(s, k) {
            Some(j) => {
                out.push('\x02');
                let mid = slice_vec(s, k + 1, j);
                extend(&mut out, &mid);
                out.push('\x02');
                proof {
                    let rest = emph_pass(s@, j + 1);
                    assert(before + (seq!['\x02'] + s@.subrange(k + 1, j as int) + seq!['\x02']
                        + rest) =~= out@ + rest);
                }
                k = j + 1;
            },
            None => {
                out.push(s[k]);
                proof {
                    let rest = emph_pass(s@, k + 1);
                    assert(before + (seq![s@[k as int]] + rest) =~= out@ + rest);
                }
                k = k + 1;
            },
        }
    }
    proof {
        assert(out@ + emph_pass(s@, k as int) =~= out@);
    }
    out
}

} // verus!

verus! {

// ---------------------------------------------------------------------------------------
// Styled spans
// ---------------------------------------------------------------------------------------
/// A run of text with uniform style.
pub struct Span {
    pub text: String,
    pub bold: bool,
    pub italic: bool,
    pub strike: bool,
}

/// A span as (text, bold, italic, strike).
pub type SpanView = (Seq<char>, bool, bool, bool);

impl View for Span {
    type V = SpanView;

    open spec fn view(&self) -> SpanView {
        (self.text@, self.bold, self.italic, self.strike)
    }
}

/// Bold on/off.
pub open spec fn bold_marker() -> char {
    '\x01'
}

/// Italic on/off.
pub open spec fn italic_marker() -> char {
    '\x02'
}

/// Strike-through on/off.
pub open spec fn strike_marker() -> char {
    '\x03'
}

/// A protected, link-free line with its emphasis turned into style markers, in the order
/// bold-italic (`***`, `___`), bold (`**`, `__`), strike-through (`~~`), italic (`*`, `_`).
pub open spec fn spec_mark(s: Seq<char>) -> Seq<char> {
    let t = delim_pass(s, 0, '*', 3, false, seq!['\x01', '\x02'], seq!['\x02', '\x01']);
    let t = delim_pass(t, 0, '_', 3, true, seq!['\x01', '\x02'], seq!['\x02', '\x01']);
    let t = delim_pass(t, 0, '*', 2, false, seq!['\x01'], seq!['\x01']);
    let t = delim_pass(t, 0, '_', 2, true, seq!['\x01'], seq!['\x01']);
    let t = delim_pass(t, 0, '~', 2, false, seq!['\x03'], seq!['\x03']);
    emph_pass(t, 0)
}

/// Splitter state: spans so far, pending text, and the bold, italic and strike flags.
pub type SplitState = (Seq<SpanView>, Seq<char>, bool, bool, bool);

pub open spec fn split_flush(st: SplitState, base: u32, force_bold: bool) -> SplitState {
    let (out, current, bold, italic, strike) = st;
    if current.len() > 0 {
        (
            out.push((spec_restore(current, base), bold || force_bold, italic, strike)),
            Seq::empty(),
            bold,
            italic,
            strike,
        )
    } else {
        st
    }
}

pub open spec fn split_step(st: SplitState, g: Seq<char>, base: u32, force_bold: bool) -> SplitState {
    if g == seq![bold_marker()] {
        let (out, current, bold, italic, strike) = split_flush(st, base, force_bold);
        (out, current, !bold, italic, strike)
    } else if g == seq![italic_marker()] {
        let (out, current, bold, italic, strike) = split_flush(st, base, force_bold);
        (out, current, bold, !italic, strike)
    } else if g == seq![strike_marker()] {
        let (out, current, bold, italic, strike) = split_flush(st, base, force_bold);
        (out, current, bold, italic, !strike)
    } else {
        let (out, current, bold, italic, strike) = st;
        (out, current + g, bold, italic, strike)
    }
}

pub open spec fn split_clusters(gs: Seq<Seq<char>>, base: u32, force_bold: bool) -> SplitState
    decreases gs.len(),
{
    if gs.len() == 0 {
        (Seq::empty(), Seq::empty(), false, false, false)
    } else {
        split_step(split_clusters(gs.drop_last(), base, force_bold), gs.last(), base, force_bold)
    }
}

/// The spans of a marked line: markers toggle styles, the text between them (with its
/// stand-ins restored) becomes a span unless it is empty. `force_bold` makes every span bold.
pub open spec fn spec_split(t: Seq<char>, base: u32, force_bold: bool) -> Seq<SpanView> {
    split_flush(split_clusters(grapheme_clusters(t), base, force_bold), base, force_bold).0
}

/// The styled spans of one line of Markdown.
pub open spec fn spec_spans(line: Seq<char>, force_bold: bool) -> Seq<SpanView> {
    let base = spec_escape_base(line);
    spec_split(spec_mark(spec_links(spec_protect(line, base))), base, force_bold)
}

pub open spec fn spans_view(v: Seq<Span>) -> Seq<SpanView> {
    v.map_values(|s: Span| s@)
}

fn mark(s: &Vec<char>) -> (r: Vec<char>)
    ensures
        r@ == spec_mark(s@),
{
    let bi_open = vec!['\x01', '\x02'];
    let bi_close = vec!['\x02', '\x01'];
    let b = vec!['\x01'];
    let st = vec!['\x03'];
    proof {
        assert(bi_open@ =~= seq!['\x01', '\x02']);
        assert(bi_close@ =~= seq!['\x02', '\x01']);
        assert(b@ =~= seq!['\x01']);
        assert(st@ =~= seq!['\x03']);
    }
    let t = delim_replace(s, '*', 3, false, &bi_open, &bi_close);
    let t = delim_replace(&t, '_', 3, true, &bi_open, &bi_close);
    let t = delim_replace(&t, '*', 2, false, &b, &b);
    let t = delim_replace(&t, '_', 2, true, &b, &b);
    let t = delim_replace(&t, '~', 2, false, &st, &st);
    emph_replace(&t)
}

fn flush(
    out: &mut Vec<Span>,
    current: &mut Vec<char>,
    bold: bool,
    italic: bool,
    strike: bool,
    base: u32,
    force_bold: bool,
)
    requires
        0xe000 <= base <= 0xf8ff - ESCAPE_WIDTH,
    ensures
        (spans_view(final(out)@), final(current)@, bold, italic, strike) == split_flush(
            (spans_view(old(out)@), old(current)@, bold, italic, strike),
            base,
            force_bold,
        ),
{
    if current.len() > 0 {
        let text = restore(current, base);
        let span = Span { text: string_from(text.as_slice()), bold: bold || force_bold, italic, strike };
        let ghost before = out@;
        out.push(span);
        *current = Vec::new();
        proof {
            assert(spans_view(out@) =~= spans_view(before).push(span@));
        }
    }
}

/// Splits a marked line into spans; see `spec_split`.
fn split(t: &Vec<char>, base: u32, force_bold: bool) -> (r: Vec<Span>)
    requires
        0xe000 <= base <= 0xf8ff - ESCAPE_WIDTH,
    ensures
        spans_view(r@) == spec_split(t@, base, force_bold),
        (forall|k: int| 0 <= k < t@.len() ==> !(1 <= (#[trigger] t@[k] as u32) <= 3) && !(base <= (t@[k] as u32) < base
            + ESCAPE_WIDTH)) ==> spans_view(r@) == plain_spans(t@, force_bold),
{
    let gs = clusters(t);
    let ghost cs = grapheme_clusters(t@);
    let mut out: Vec<Span> = Vec::new();
    let mut current: Vec<char> = Vec::new();
    let mut bold = false;
    let mut italic = false;
    let mut strike = false;
    let mut i: usize = 0;
    proof {
        assert(spans_view(out@) =~= Seq::<SpanView>::empty());
    }
    while i < gs.len()
        invariant
            0 <= i <= gs@.len(),
            0xe000 <= base <= 0xf8ff - ESCAPE_WIDTH,
            gs@.len() == cs.len(),
            forall|k: int| 0 <= k < gs@.len() ==> #[trigger] gs@[k]@ == cs[k],
            (spans_view(out@), current@, bold, italic, strike) == split_clusters(
                cs.take(i as int),
                base,
                force_bold,
            ),
        decreases gs@.len() - i,
    {
        proof {
            assert(cs.take(i + 1).drop_last() =~= cs.take(i as int));
        }
        let g = &gs[i];
        if is_single(g, '\x01') {
            flush(&mut out, &mut current, bold, italic, strike, base, force_bold);
            bold = !bold;
        } else if is_single(g, '\x02') {
            flush(&mut out, &mut current, bold, italic, strike, base, force_bold);
            italic = !italic;
        } else if is_single(g, '\x03') {
            flush(&mut out, &mut current, bold, italic, strike, base, force_bold);
            strike = !strike;
        } else {
            extend(&mut current, g);
        }
        i = i + 1;
    }
    proof {
        assert(cs.take(gs@.len() as int) =~= cs);
        if forall|k: int| 0 <= k < t@.len() ==> !(1 <= (#[trigger] t@[k] as u32) <= 3) && !(base <= (t@[k] as u32) < base
            + ESCAPE_WIDTH) {
            cs.lemma_flatten_and_flatten_alt_are_equivalent();
            lemma_cluster_chars(cs, |c: char| !(1 <= (c as u32) <= 3) && !(base <= (c as u32) < base + ESCAPE_WIDTH));
            assert forall|i: int| 0 <= i < cs.len() implies #[trigger] cs[i] != seq![bold_marker()] && cs[i] != seq![
                italic_marker(),
            ] && cs[i] != seq![strike_marker()] by {
                if cs[i].len() == 1 {
                    assert(!(1 <= (cs[i][0] as u32) <= 3));
                }
            }
            lemma_split_plain(cs, base, force_bold);
            lemma_restore_plain(cs, base);
        }
    }
    flush(&mut out, &mut current, bold, italic, strike, base, force_bold);
    proof {
        if forall|k: int| 0 <= k < t@.len() ==> !(1 <= (#[trigger] t@[k] as u32) <= 3) && !(base <= (t@[k] as u32) < base
            + ESCAPE_WIDTH) {
            if t@.len() > 0 {
                assert(spans_view(out@) =~= plain_spans(t@, force_bold));
            } else {
                assert(spans_view(out@) =~= plain_spans(t@, force_bold));
            }
        }
    }
    out
}


// ---------------------------------------------------------------------------------------
// Lines without markup
// ---------------------------------------------------------------------------------------
/// A character that no inline rule reacts to: not `\`, `` ` ``, `*`, `_`, `~` or `[`, not
/// a style marker, and not in the private-use area where stand-ins live.
pub open spec fn inert(c: char) -> bool {
    &&& c != '\\'
    &&& c != '`'
    &&& c != '*'
    &&& c != '_'
    &&& c != '~'
    &&& c != '['
    &&& !(1 <= (c as u32) <= 3)
    &&& !(0xe000 <= (c as u32) <= 0xf8ff)
}

/// The spans of a line without markup: none for an empty line, else the whole line as one
/// span, bold only where bold is forced.
pub open spec fn plain_spans(line: Seq<char>, force_bold: bool) -> Seq<SpanView> {
    if line.len() == 0 {
        Seq::empty()
    } else {
        seq![(line, force_bold, false, false)]
    }
}

/// What holds of every character of a concatenation holds of every character of its parts.
proof fn lemma_cluster_chars(gs: Seq<Seq<char>>, p: spec_fn(char) -> bool)
    requires
        forall|k: int| 0 <= k < gs.flatten_alt().len() ==> p(#[trigger] gs.flatten_alt()[k]),
    ensures
        forall|i: int, j: int| 0 <= i < gs.len() && 0 <= j < gs[i].len() ==> p(#[trigger] gs[i][j]),
    decreases gs.len(),
{
    if gs.len() > 0 {
        let a = gs.drop_last().flatten_alt();
        assert(gs.flatten_alt() == a + gs.last());
        assert forall|k: int| 0 <= k < a.len() implies p(#[trigger] a[k]) by {
            assert(gs.flatten_alt()[k] == a[k]);
        }
        lemma_cluster_chars(gs.drop_last(), p);
        assert forall|i: int, j: int| 0 <= i < gs.len() && 0 <= j < gs[i].len() implies p(#[trigger] gs[i][j]) by {
            if i < gs.len() - 1 {
                assert(gs[i] == gs.drop_last()[i]);
            } else {
                assert(gs.flatten_alt()[a.len() + j] == gs.last()[j]);
            }
        }
    }
}

/// Graphemes that are neither a lone backslash nor a lone backtick pass through unchanged.
proof fn lemma_protect_plain(gs: Seq<Seq<char>>, base: u32)
    requires
        forall|i: int| 0 <= i < gs.len() ==> #[trigger] gs[i] != seq!['\\'] && gs[i] != seq!['`'],
    ensures
        protect_clusters(gs, base) == (gs.flatten_alt(), Seq::<char>::empty(), false, false),
    decreases gs.len(),
{
    if gs.len() > 0 {
        assert forall|i: int| 0 <= i < gs.drop_last().len() implies #[trigger] gs.drop_last()[i] != seq!['\\']
            && gs.drop_last()[i] != seq!['`'] by {
            assert(gs.drop_last()[i] == gs[i]);
        }
        lemma_protect_plain(gs.drop_last(), base);
    }
}

/// Graphemes that are not style markers only add to the pending text.
proof fn lemma_split_plain(gs: Seq<Seq<char>>, base: u32, force_bold: bool)
    requires
        forall|i: int| 0 <= i < gs.len() ==> #[trigger] gs[i] != seq![bold_marker()] && gs[i] != seq![
            italic_marker(),
        ] && gs[i] != seq![strike_marker()],
    ensures
        split_clusters(gs, base, force_bold) == (Seq::<SpanView>::empty(), gs.flatten_alt(), false, false, false),
    decreases gs.len(),
{
    if gs.len() > 0 {
        assert forall|i: int| 0 <= i < gs.drop_last().len() implies #[trigger] gs.drop_last()[i] != seq![
            bold_marker(),
        ] && gs.drop_last()[i] != seq![italic_marker()] && gs.drop_last()[i] != seq![strike_marker()] by {
            assert(gs.drop_last()[i] == gs[i]);
        }
        lemma_split_plain(gs.drop_last(), base, force_bold);
    }
}

/// Restoring graphemes that hold no stand-in gives their concatenation.
proof fn lemma_restore_plain(gs: Seq<Seq<char>>, base: u32)
    requires
        forall|i: int, j: int| 0 <= i < gs.len() && 0 <= j < gs[i].len() ==> !(base <= (#[trigger] gs[i][j] as u32) < base + ESCAPE_WIDTH),
    ensures
        restore_clusters(gs, base) == gs.flatten_alt(),
    decreases gs.len(),
{
    if gs.len() > 0 {
        assert forall|i: int, j: int| 0 <= i < gs.drop_last().len() && 0 <= j < gs.drop_last()[i].len() implies !(base
            <= (#[trigger] gs.drop_last()[i][j] as u32) < base + ESCAPE_WIDTH) by {
            assert(gs.drop_last()[i] == gs[i]);
        }
        lemma_restore_plain(gs.drop_last(), base);
        let g = gs.last();
        if g.len() == 1 {
            assert(gs[gs.len() - 1][0] == g[0]);
        }
    }
}

/// A pass for a delimiter that does not occur keeps the text.
proof fn lemma_delim_pass_plain(
    s: Seq<char>,
    k: int,
    c: char,
    n: int,
    bounded: bool,
    open: Seq<char>,
    close: Seq<char>,
)
    requires
        0 <= k <= s.len(),
        n >= 1,
        forall|m: int| 0 <= m < s.len() ==> #[trigger] s[m] != c,
    ensures
        delim_pass(s, k, c, n, bounded, open, close) == s.subrange(k, s.len() as int),
    decreases s.len() - k,
{
    if k < s.len() {
        if delim_run(s, k, c, n) {
            assert(s[k] == c);
        }
        lemma_delim_pass_plain(s, k + 1, c, n, bounded, open, close);
        assert(seq![s[k]] + s.subrange(k + 1, s.len() as int) =~= s.subrange(k, s.len() as int));
    } else {
        assert(s.subrange(k, s.len() as int) =~= Seq::<char>::empty());
    }
}

/// Without `*` and `_`, the single-delimiter pass keeps the text.
proof fn lemma_emph_pass_plain(s: Seq<char>, k: int)
    requires
        0 <= k <= s.len(),
        forall|m: int| 0 <= m < s.len() ==> !emph_mark(#[trigger] s[m]),
    ensures
        emph_pass(s, k) == s.subrange(k, s.len() as int),
    decreases s.len() - k,
{
    if k < s.len() {
        lemma_emph_pass_plain(s, k + 1);
        assert(seq![s[k]] + s.subrange(k + 1, s.len() as int) =~= s.subrange(k, s.len() as int));
    } else {
        assert(s.subrange(k, s.len() as int) =~= Seq::<char>::empty());
    }
}

/// Without `*`, `_` and `~`, marking keeps the text.
proof fn lemma_mark_plain(s: Seq<char>)
    requires
        forall|m: int| 0 <= m < s.len() ==> #[trigger] s[m] != '*' && s[m] != '_' && s[m] != '~',
    ensures
        spec_mark(s) == s,
{
    assert(s.subrange(0, s.len() as int) =~= s);
    lemma_delim_pass_plain(s, 0, '*', 3, false, seq!['\x01', '\x02'], seq!['\x02', '\x01']);
    lemma_delim_pass_plain(s, 0, '_', 3, true, seq!['\x01', '\x02'], seq!['\x02', '\x01']);
    lemma_delim_pass_plain(s, 0, '*', 2, false, seq!['\x01'], seq!['\x01']);
    lemma_delim_pass_plain(s, 0, '_', 2, true, seq!['\x01'], seq!['\x01']);
    lemma_delim_pass_plain(s, 0, '~', 2, false, seq!['\x03'], seq!['\x03']);
    lemma_emph_pass_plain(s, 0);
}

/// Text that may stand between strong delimiters: non-empty, starting and ending with a
/// non-space, and holding no `*`, `_`, `~` or line feed.
pub open spec fn strong_content(x: Seq<char>) -> bool {
    &&& x.len() > 0
    &&& !is_ws(x[0])
    &&& !is_ws(x.last())
    &&& forall|k: int| 0 <= k < x.len() ==> #[trigger] x[k] != '*' && x[k] != '_' && x[k] != '~' && x[k] != '\n'
}

/// `x` between two doubled delimiters `c`.
pub open spec fn doubled(c: char, x: Seq<char>) -> Seq<char> {
    seq![c, c] + x + seq![c, c]
}

/// A pass keeps the text from `k` on when no delimited span opens there or later.
proof fn lemma_delim_pass_none(
    s: Seq<char>,
    k: int,
    c: char,
    n: int,
    bounded: bool,
    open: Seq<char>,
    close: Seq<char>,
)
    requires
        0 <= k <= s.len(),
        forall|m: int| k <= m < s.len() ==> #[trigger] delim_at(s, m, c, n, bounded) is None,
    ensures
        delim_pass(s, k, c, n, bounded, open, close) == s.subrange(k, s.len() as int),
    decreases s.len() - k,
{
    if k < s.len() {
        assert(delim_at(s, k, c, n, bounded) is None);
        lemma_delim_pass_none(s, k + 1, c, n, bounded, open, close);
        assert(seq![s[k]] + s.subrange(k + 1, s.len() as int) =~= s.subrange(k, s.len() as int));
    } else {
        assert(s.subrange(k, s.len() as int) =~= Seq::<char>::empty());
    }
}

/// In a doubled span, the closing run is the one at the end.
proof fn lemma_doubled_close(c: char, x: Seq<char>, j: int, bounded: bool)
    requires
        strong_content(x),
        c == '*' || c == '_' || c == '~',
        3 <= j <= x.len() + 2,
    ensures
        delim_close(doubled(c, x), j, c, 2, bounded) == Some((x.len() + 2) as int),
    decreases x.len() + 2 - j,
{
    let s = doubled(c, x);
    assert(s[j - 1] == x[j - 3]);
    if j < x.len() + 2 {
        assert(s[j] == x[j - 2]);
        assert(!delim_run(s, j, c, 2));
        lemma_doubled_close(c, x, j + 1, bounded);
    } else {
        assert(s[j] == c && s[j + 1] == c);
        assert(delim_run(s, j, c, 2));
    }
}

/// The doubled pass turns `cc x cc` into the marker, `x` and the marker.
proof fn lemma_doubled_pass(c: char, x: Seq<char>, bounded: bool, mk: char)
    requires
        strong_content(x),
        c == '*' || c == '_' || c == '~',
    ensures
        delim_pass(doubled(c, x), 0, c, 2, bounded, seq![mk], seq![mk]) == seq![mk] + x + seq![mk],
{
    let s = doubled(c, x);
    let len = s.len() as int;
    assert(s[0] == c && s[1] == c && s[2] == x[0]);
    assert(delim_run(s, 0, c, 2));
    lemma_doubled_close(c, x, 3, bounded);
    assert(delim_at(s, 0, c, 2, bounded) == Some(len - 2));
    lemma_delim_close(s, 3, c, 2, bounded);
    assert(s.subrange(2, len - 2) =~= x);
    assert(delim_pass(s, len, c, 2, bounded, seq![mk], seq![mk]) == Seq::<char>::empty());
    assert(seq![mk] + s.subrange(2, len - 2) + seq![mk] + Seq::<char>::empty() =~= seq![mk] + x + seq![mk]);
}

/// The tripled pass finds no span in `cc x cc`.
proof fn lemma_doubled_no_triple(c: char, x: Seq<char>, bounded: bool, open: Seq<char>, close: Seq<char>)
    requires
        strong_content(x),
        c == '*' || c == '_',
    ensures
        delim_pass(doubled(c, x), 0, c, 3, bounded, open, close) == doubled(c, x),
{
    let s = doubled(c, x);
    assert forall|m: int| 0 <= m < s.len() implies #[trigger] delim_at(s, m, c, 3, bounded) is None by {
        if delim_run(s, m, c, 3) {
            if m <= 2 {
                assert(s[2] == x[0]);
                assert(s[2] == c);
            } else {
                assert(s[m] == x[m - 2]);
                assert(s[m] == c);
            }
        }
    }
    lemma_delim_pass_none(s, 0, c, 3, bounded, open, close);
    assert(s.subrange(0, s.len() as int) =~= s);
}

/// Strong emphasis is marked alike with either delimiter: `__x__` and `**x**` both become
/// the bold marker, `x` and the bold marker, for any `x` that starts and ends with a
/// non-space and holds no `*`, `_`, `~` or line feed.
pub proof fn lemma_strong_either_delimiter(x: Seq<char>)
    requires
        strong_content(x),
    ensures
        spec_mark(doubled('_', x)) == seq!['\x01'] + x + seq!['\x01'],
        spec_mark(doubled('*', x)) == seq!['\x01'] + x + seq!['\x01'],
{
    let b = seq!['\x01'] + x + seq!['\x01'];
    assert forall|m: int| 0 <= m < b.len() implies #[trigger] b[m] != '*' && b[m] != '_' && b[m] != '~' by {
        if 0 < m < b.len() - 1 {
            assert(b[m] == x[m - 1]);
        }
    }
    assert(b.subrange(0, b.len() as int) =~= b);
    // `__x__`
    let u = doubled('_', x);
    assert forall|m: int| 0 <= m < u.len() implies #[trigger] u[m] != '*' by {
        if 2 <= m < u.len() - 2 {
            assert(u[m] == x[m - 2]);
        }
    }
    assert(u.subrange(0, u.len() as int) =~= u);
    lemma_delim_pass_plain(u, 0, '*', 3, false, seq!['\x01', '\x02'], seq!['\x02', '\x01']);
    lemma_doubled_no_triple('_', x, true, seq!['\x01', '\x02'], seq!['\x02', '\x01']);
    lemma_delim_pass_plain(u, 0, '*', 2, false, seq!['\x01'], seq!['\x01']);
    lemma_doubled_pass('_', x, true, '\x01');
    lemma_delim_pass_plain(b, 0, '~', 2, false, seq!['\x03'], seq!['\x03']);
    lemma_emph_pass_plain(b, 0);
    // `**x**`
    let a = doubled('*', x);
    assert forall|m: int| 0 <= m < a.len() implies #[trigger] a[m] != '_' by {
        if 2 <= m < a.len() - 2 {
            assert(a[m] == x[m - 2]);
        }
    }
    assert(a.subrange(0, a.len() as int) =~= a);
    lemma_doubled_no_triple('*', x, false, seq!['\x01', '\x02'], seq!['\x02', '\x01']);
    lemma_delim_pass_plain(a, 0, '_', 3, true, seq!['\x01', '\x02'], seq!['\x02', '\x01']);
    lemma_doubled_pass('*', x, false, '\x01');
    lemma_delim_pass_plain(b, 0, '_', 2, true, seq!['\x01'], seq!['\x01']);
}

proof fn lemma_split_after_marker(xs: Seq<Seq<char>>, m: char, base: u32, force_bold: bool)
    requires
        m == bold_marker() || m == italic_marker() || m == strike_marker(),
        forall|i: int| 0 <= i < xs.len() ==> #[trigger] xs[i] != seq![bold_marker()] && xs[i] != seq![
            italic_marker(),
        ] && xs[i] != seq![strike_marker()],
    ensures
        split_clusters(seq![seq![m]] + xs, base, force_bold) == (
            Seq::<SpanView>::empty(),
            xs.flatten_alt(),
            m == bold_marker(),
            m == italic_marker(),
            m == strike_marker(),
        ),
    decreases xs.len(),
{
    let g = seq![seq![m]] + xs;
    assert(seq![m][0] == m && seq![bold_marker()][0] == bold_marker() && seq![italic_marker()][0] == italic_marker());
    assert(seq![strike_marker()][0] == strike_marker());
    if xs.len() == 0 {
        assert(g.drop_last() =~= Seq::<Seq<char>>::empty());
        assert(g.last() == seq![m]);
        let st0 = split_clusters(g.drop_last(), base, force_bold);
        assert(st0 == (Seq::<SpanView>::empty(), Seq::<char>::empty(), false, false, false));
        assert(split_flush(st0, base, force_bold) == st0);
        assert(xs.flatten_alt() == Seq::<char>::empty());
        assert(split_clusters(g, base, force_bold) == split_step(st0, seq![m], base, force_bold));
    } else {
        assert(g.drop_last() =~= seq![seq![m]] + xs.drop_last());
        assert(g.last() == xs.last());
        assert forall|i: int| 0 <= i < xs.drop_last().len() implies #[trigger] xs.drop_last()[i] != seq![bold_marker()]
            && xs.drop_last()[i] != seq![italic_marker()] && xs.drop_last()[i] != seq![strike_marker()] by {
            assert(xs.drop_last()[i] == xs[i]);
        }
        lemma_split_after_marker(xs.drop_last(), m, base, force_bold);
        assert(xs.last() == xs[xs.len() - 1]);
    }
}

/// A style marker turns its style on and the same marker off again: graphemes made of a
/// marker, text graphemes without markers (not all empty), and the marker give one span,
/// the restored text, in that marker's style (bold as well where bold is forced).
pub proof fn lemma_split_styles(xs: Seq<Seq<char>>, m: char, base: u32, force_bold: bool)
    requires
        m == bold_marker() || m == italic_marker() || m == strike_marker(),
        xs.flatten().len() > 0,
        forall|i: int| 0 <= i < xs.len() ==> #[trigger] xs[i] != seq![bold_marker()] && xs[i] != seq![
            italic_marker(),
        ] && xs[i] != seq![strike_marker()],
    ensures
        split_flush(split_clusters(seq![seq![m]] + xs + seq![seq![m]], base, force_bold), base, force_bold).0 == seq![
            (spec_restore(xs.flatten(), base), m == bold_marker() || force_bold, m == italic_marker(), m == strike_marker()),
        ],
{
    xs.lemma_flatten_and_flatten_alt_are_equivalent();
    lemma_split_after_marker(xs, m, base, force_bold);
    let g = seq![seq![m]] + xs + seq![seq![m]];
    assert(g.drop_last() =~= seq![seq![m]] + xs);
    assert(g.last() == seq![m]);
}

/// `x` between two tripled delimiters `c`.
pub open spec fn tripled(c: char, x: Seq<char>) -> Seq<char> {
    seq![c, c, c] + x + seq![c, c, c]
}

proof fn lemma_tripled_close(c: char, x: Seq<char>, j: int, bounded: bool)
    requires
        strong_content(x),
        c == '*' || c == '_',
        4 <= j <= x.len() + 3,
    ensures
        delim_close(tripled(c, x), j, c, 3, bounded) == Some((x.len() + 3) as int),
    decreases x.len() + 3 - j,
{
    let s = tripled(c, x);
    assert(s[j - 1] == x[j - 4]);
    if j < x.len() + 3 {
        assert(s[j] == x[j - 3]);
        assert(!delim_run(s, j, c, 3));
        lemma_tripled_close(c, x, j + 1, bounded);
    } else {
        assert(s[j] == c && s[j + 1] == c && s[j + 2] == c);
        assert(delim_run(s, j, c, 3));
    }
}

/// Bold italics are marked alike with either delimiter: `___x___` and `***x***` both
/// become the bold and italic markers, `x`, and the markers closed in reverse order, for
/// any `x` that starts and ends with a non-space and holds no `*`, `_`, `~` or line feed.
pub proof fn lemma_bold_italic_either_delimiter(x: Seq<char>)
    requires
        strong_content(x),
    ensures
        spec_mark(tripled('_', x)) == seq!['\x01', '\x02'] + x + seq!['\x02', '\x01'],
        spec_mark(tripled('*', x)) == seq!['\x01', '\x02'] + x + seq!['\x02', '\x01'],
{
    let b = seq!['\x01', '\x02'] + x + seq!['\x02', '\x01'];
    assert forall|m: int| 0 <= m < b.len() implies #[trigger] b[m] != '*' && b[m] != '_' && b[m] != '~' && !emph_mark(b[m]) by {
        if 2 <= m < b.len() - 2 {
            assert(b[m] == x[m - 2]);
        }
    }
    assert(b.subrange(0, b.len() as int) =~= b);
    lemma_tripled_pass('_', x, true);
    lemma_tripled_pass('*', x, false);
    let u = tripled('_', x);
    assert forall|m: int| 0 <= m < u.len() implies #[trigger] u[m] != '*' by {
        if 3 <= m < u.len() - 3 {
            assert(u[m] == x[m - 3]);
        }
    }
    assert(u.subrange(0, u.len() as int) =~= u);
    lemma_delim_pass_plain(u, 0, '*', 3, false, seq!['\x01', '\x02'], seq!['\x02', '\x01']);
    lemma_delim_pass_plain(b, 0, '_', 3, true, seq!['\x01', '\x02'], seq!['\x02', '\x01']);
    lemma_delim_pass_plain(b, 0, '*', 2, false, seq!['\x01'], seq!['\x01']);
    lemma_delim_pass_plain(b, 0, '_', 2, true, seq!['\x01'], seq!['\x01']);
    lemma_delim_pass_plain(b, 0, '~', 2, false, seq!['\x03'], seq!['\x03']);
    lemma_emph_pass_plain(b, 0);
}

proof fn lemma_tripled_pass(c: char, x: Seq<char>, bounded: bool)
    requires
        strong_content(x),
        c == '*' || c == '_',
    ensures
        delim_pass(tripled(c, x), 0, c, 3, bounded, seq!['\x01', '\x02'], seq!['\x02', '\x01']) == seq!['\x01', '\x02'] + x
            + seq!['\x02', '\x01'],
{
    let s = tripled(c, x);
    let len = s.len() as int;
    assert(s[0] == c && s[1] == c && s[2] == c && s[3] == x[0]);
    assert(delim_run(s, 0, c, 3));
    lemma_tripled_close(c, x, 4, bounded);
    assert(delim_at(s, 0, c, 3, bounded) == Some(len - 3));
    lemma_delim_close(s, 4, c, 3, bounded);
    assert(s.subrange(3, len - 3) =~= x);
    assert(delim_pass(s, len, c, 3, bounded, seq!['\x01', '\x02'], seq!['\x02', '\x01']) == Seq::<char>::empty());
    assert(seq!['\x01', '\x02'] + s.subrange(3, len - 3) + seq!['\x02', '\x01'] + Seq::<char>::empty() =~= seq!['\x01', '\x02']
        + x + seq!['\x02', '\x01']);
}

/// `x` between two single delimiters `c`.
pub open spec fn single(c: char, x: Seq<char>) -> Seq<char> {
    seq![c] + x + seq![c]
}

proof fn lemma_find_mark_single(c: char, x: Seq<char>, k: int)
    requires
        strong_content(x),
        c == '*' || c == '_',
        1 <= k <= x.len() + 1,
    ensures
        find_mark_from(single(c, x), k) == x.len() + 1,
    decreases x.len() + 1 - k,
{
    let s = single(c, x);
    if k < x.len() + 1 {
        assert(s[k] == x[k - 1]);
        lemma_find_mark_single(c, x, k + 1);
    } else {
        assert(s[k] == c);
    }
}

/// Strike-through and italics are marked as such: `~~x~~` becomes the strike marker, `x`
/// and the strike marker, and `*x*` and `_x_` both become the italic marker, `x` and the
/// italic marker, for any `x` that starts and ends with a non-space and holds no `*`,
/// `_`, `~` or line feed.
pub proof fn lemma_strike_and_italics(x: Seq<char>)
    requires
        strong_content(x),
    ensures
        spec_mark(doubled('~', x)) == seq!['\x03'] + x + seq!['\x03'],
        spec_mark(single('*', x)) == seq!['\x02'] + x + seq!['\x02'],
        spec_mark(single('_', x)) == seq!['\x02'] + x + seq!['\x02'],
{
    // `~~x~~`
    let t = doubled('~', x);
    assert forall|m: int| 0 <= m < t.len() implies #[trigger] t[m] != '*' && t[m] != '_' by {
        if 2 <= m < t.len() - 2 {
            assert(t[m] == x[m - 2]);
        }
    }
    assert(t.subrange(0, t.len() as int) =~= t);
    lemma_delim_pass_plain(t, 0, '*', 3, false, seq!['\x01', '\x02'], seq!['\x02', '\x01']);
    lemma_delim_pass_plain(t, 0, '_', 3, true, seq!['\x01', '\x02'], seq!['\x02', '\x01']);
    lemma_delim_pass_plain(t, 0, '*', 2, false, seq!['\x01'], seq!['\x01']);
    lemma_delim_pass_plain(t, 0, '_', 2, true, seq!['\x01'], seq!['\x01']);
    lemma_doubled_pass('~', x, false, '\x03');
    let st = seq!['\x03'] + x + seq!['\x03'];
    assert forall|m: int| 0 <= m < st.len() implies !emph_mark(#[trigger] st[m]) by {
        if 0 < m < st.len() - 1 {
            assert(st[m] == x[m - 1]);
        }
    }
    assert(st.subrange(0, st.len() as int) =~= st);
    lemma_emph_pass_plain(st, 0);
    lemma_single_italic('*', x);
    lemma_single_italic('_', x);
}

proof fn lemma_single_italic(c: char, x: Seq<char>)
    requires
        strong_content(x),
        c == '*' || c == '_',
    ensures
        spec_mark(single(c, x)) == seq!['\x02'] + x + seq!['\x02'],
{
    let s = single(c, x);
    let len = s.len() as int;
    let o = if c == '*' { '_' } else { '*' };
    let bnd = c == '_';
    let obnd = o == '_';
    assert forall|m: int| 0 <= m < len implies #[trigger] s[m] != o && s[m] != '~' by {
        if 0 < m < len - 1 {
            assert(s[m] == x[m - 1]);
        }
    }
    assert(s.subrange(0, len) =~= s);
    assert forall|m: int| 0 <= m < len implies !delim_run(s, m, c, 2) by {
        if delim_run(s, m, c, 2) {
            if m == 0 {
                assert(s[1] == x[0]);
                assert(s[1] == c);
            } else {
                assert(s[m] == x[m - 1]);
                assert(s[m] == c);
            }
        }
    }
    assert forall|m: int| 0 <= m < len implies #[trigger] delim_at(s, m, c, 2, bnd) is None by {
        assert(!delim_run(s, m, c, 2));
    }
    assert forall|m: int| 0 <= m < len implies #[trigger] delim_at(s, m, c, 3, bnd) is None by {
        assert(!delim_run(s, m, c, 2));
        if delim_run(s, m, c, 3) {
            assert(s[m] == c && s[m + 1] == c);
        }
    }
    lemma_delim_pass_none(s, 0, c, 3, bnd, seq!['\x01', '\x02'], seq!['\x02', '\x01']);
    lemma_delim_pass_plain(s, 0, o, 3, obnd, seq!['\x01', '\x02'], seq!['\x02', '\x01']);
    lemma_delim_pass_none(s, 0, c, 2, bnd, seq!['\x01'], seq!['\x01']);
    lemma_delim_pass_plain(s, 0, o, 2, obnd, seq!['\x01'], seq!['\x01']);
    lemma_delim_pass_plain(s, 0, '~', 2, false, seq!['\x03'], seq!['\x03']);
    assert(spec_mark(s) == emph_pass(s, 0));
    lemma_find_mark_single(c, x, 1);
    assert(s[0] == c && s[1] == x[0] && s[len - 1] == c && s[len - 2] == x.last());
    assert(emph_at(s, 0) == Some(len - 1));
    assert(s.subrange(1, len - 1) =~= x);
    assert(emph_pass(s, len) == Seq::<char>::empty());
    assert(seq!['\x02'] + s.subrange(1, len - 1) + seq!['\x02'] + Seq::<char>::empty() =~= seq!['\x02'] + x + seq!['\x02']);
}

proof fn lemma_no_link_from(s: Seq<char>, k: int)
    requires
        forall|m: int| 0 <= m < s.len() ==> #[trigger] s[m] != '[',
    ensures
        first_link_from(s, k) is None,
    decreases s.len() - k,
{
    if k < s.len() {
        lemma_no_link_from(s, k + 1);
    }
}

/// The styled spans of one line of Markdown; see `spec_spans`.
pub fn spans(line: &Vec<char>, force_bold: bool) -> (r: Vec<Span>)
    ensures
        spans_view(r@) == spec_spans(line@, force_bold),
        (forall|k: int| 0 <= k < line@.len() ==> inert(#[trigger] line@[k])) ==> spans_view(r@) == plain_spans(
            line@,
            force_bold,
        ),
{
    let base = escape_base(line);
    let protected = protect(line, base);
    let linked = links(&protected);
    proof {
        if forall|k: int| 0 <= k < line@.len() ==> inert(#[trigger] line@[k]) {
            assert forall|k: int| 0 <= k < line@.len() implies #[trigger] line@[k] != '\\' && line@[k] != '`' by {
                assert(inert(line@[k]));
            }
            lemma_no_link_from(line@, 0);
            assert forall|k: int| 0 <= k < line@.len() implies #[trigger] line@[k] != '*' && line@[k] != '_'
                && line@[k] != '~' by {
                assert(inert(line@[k]));
            }
            lemma_mark_plain(line@);
        }
    }
    let marked = mark(&linked);
    split(&marked, base, force_bold)
}

} // verus!

verus! {

// ---------------------------------------------------------------------------------------
// Line structure
// ---------------------------------------------------------------------------------------
pub open spec fn is_blank(c: char) -> bool {
    c == ' ' || c == '\t'
}

/// Index of the first character at or after `k` that is not a space or tab.
pub open spec fn blank_end(s: Seq<char>, k: int) -> int
    decreases s.len() - k,
{
    if k >= s.len() {
        s.len() as int
    } else if is_blank(s[k]) {
        blank_end(s, k + 1)
    } else {
        k
    }
}

/// Index of the first character at or after `k` that differs from `c`.
pub open spec fn run_end(s: Seq<char>, k: int, c: char) -> int
    decreases s.len() - k,
{
    if k >= s.len() {
        s.len() as int
    } else if s[k] == c {
        run_end(s, k + 1, c)
    } else {
        k
    }
}

pub open spec fn is_digit(c: char) -> bool {
    '0' <= c && c <= '9'
}

/// Index of the first non-digit at or after `k`.
pub open spec fn digits_end(s: Seq<char>, k: int) -> int
    decreases s.len() - k,
{
    if k >= s.len() {
        s.len() as int
    } else if is_digit(s[k]) {
        digits_end(s, k + 1)
    } else {
        k
    }
}

proof fn lemma_scan_bounds(s: Seq<char>, k: int, c: char)
    requires
        0 <= k <= s.len(),
    ensures
        k <= blank_end(s, k) <= s.len(),
        k <= run_end(s, k, c) <= s.len(),
        k <= digits_end(s, k) <= s.len(),
    decreases s.len() - k,
{
    if k < s.len() {
        lemma_scan_bounds(s, k + 1, c);
    }
}

/// Heading text: up to three blanks, one to six `#`, at least one blank, then the text.
pub open spec fn heading_text(s: Seq<char>) -> Option<Seq<char>> {
    let a = blank_end(s, 0);
    let h = run_end(s, a, '#');
    let b = blank_end(s, h);
    if a <= 3 && 1 <= h - a <= 6 && b > h {
        Some(s.subrange(b, s.len() as int))
    } else {
        None
    }
}

/// A thematic break: three or more of one of `-`, `*`, `_`, with only blanks around.
pub open spec fn is_rule(s: Seq<char>) -> bool {
    let a = blank_end(s, 0);
    a < s.len() && (s[a] == '-' || s[a] == '*' || s[a] == '_') && run_end(s, a, s[a]) - a >= 3
        && blank_end(s, run_end(s, a, s[a])) == s.len()
}

/// A code fence: blanks, then three backticks.
pub open spec fn is_fence(s: Seq<char>) -> bool {
    let a = blank_end(s, 0);
    a + 3 <= s.len() && s[a] == '`' && s[a + 1] == '`' && s[a + 2] == '`'
}

/// Bullet item text: up to three blanks, one of `-`, `*`, `+`, at least one blank, the text.
pub open spec fn bullet_text(s: Seq<char>) -> Option<Seq<char>> {
    let a = blank_end(s, 0);
    if a <= 3 && a < s.len() && (s[a] == '-' || s[a] == '*' || s[a] == '+') && blank_end(s, a + 1)
        > a + 1 {
        Some(s.subrange(blank_end(s, a + 1), s.len() as int))
    } else {
        None
    }
}

/// Numbered item text: up to three blanks, one to nine digits, `.` or `)`, at least one
/// blank, then the text.
pub open spec fn ordered_text(s: Seq<char>) -> Option<Seq<char>> {
    let a = blank_end(s, 0);
    let d = digits_end(s, a);
    if a <= 3 && 1 <= d - a <= 9 && d < s.len() && (s[d] == '.' || s[d] == ')') && blank_end(
        s,
        d + 1,
    ) > d + 1 {
        Some(s.subrange(blank_end(s, d + 1), s.len() as int))
    } else {
        None
    }
}

/// Quoted text: up to three blanks, `>`, an optional blank, then the text.
pub open spec fn quote_text(s: Seq<char>) -> Option<Seq<char>> {
    let a = blank_end(s, 0);
    if a <= 3 && a < s.len() && s[a] == '>' {
        if a + 1 < s.len() && is_blank(s[a + 1]) {
            Some(s.subrange(a + 2, s.len() as int))
        } else {
            Some(s.subrange(a + 1, s.len() as int))
        }
    } else {
        None
    }
}

fn blank_end_at(s: &Vec<char>, k: usize) -> (r: usize)
    requires
        k <= s@.len(),
    ensures
        r == blank_end(s@, k as int),
        k <= r <= s@.len(),
{
    let mut j: usize = k;
    while j < s.len() && (s[j] == ' ' || s[j] == '\t')
        invariant
            k <= j <= s@.len(),
            blank_end(s@, j as int) == blank_end(s@, k as int),
        decreases s@.len() - j,
    {
        j = j + 1;
    }
    j
}

fn run_end_at(s: &Vec<char>, k: usize, c: char) -> (r: usize)
    requires
        k <= s@.len(),
    ensures
        r == run_end(s@, k as int, c),
        k <= r <= s@.len(),
{
    let mut j: usize = k;
    while j < s.len() && s[j] == c
        invariant
            k <= j <= s@.len(),
            run_end(s@, j as int, c) == run_end(s@, k as int, c),
        decreases s@.len() - j,
    {
        j = j + 1;
    }
    j
}

fn digits_end_at(s: &Vec<char>, k: usize) -> (r: usize)
    requires
        k <= s@.len(),
    ensures
        r == digits_end(s@, k as int),
        k <= r <= s@.len(),
{
    let mut j: usize = k;
    while j < s.len() && ('0' <= s[j] && s[j] <= '9')
        invariant
            k <= j <= s@.len(),
            digits_end(s@, j as int) == digits_end(s@, k as int),
        decreases s@.len() - j,
    {
        j = j + 1;
    }
    j
}

fn heading(s: &Vec<char>) -> (r: Option<Vec<char>>)
    ensures
        match r {
            Some(t) => heading_text(s@) == Some(t@),
            None => heading_text(s@) is None,
        },
{
    let a = blank_end_at(s, 0);
    let h = run_end_at(s, a, '#');
    let b = blank_end_at(s, h);
    if a <= 3 && 1 <= h - a && h - a <= 6 && b > h {
        Some(slice_vec(s, b, s.len()))
    } else {
        None
    }
}

fn rule(s: &Vec<char>) -> (r: bool)
    ensures
        r == is_rule(s@),
{
    let a = blank_end_at(s, 0);
    if a < s.len() && (s[a] == '-' || s[a] == '*' || s[a] == '_') {
        let e = run_end_at(s, a, s[a]);
        e - a >= 3 && blank_end_at(s, e) == s.len()
    } else {
        false
    }
}

fn fence(s: &Vec<char>) -> (r: bool)
    ensures
        r == is_fence(s@),
{
    let a = blank_end_at(s, 0);
    a < s.len() && s.len() - a >= 3 && s[a] == '`' && s[a + 1] == '`' && s[a + 2] == '`'
}

fn bullet(s: &Vec<char>) -> (r: Option<Vec<char>>)
    ensures
        match r {
            Some(t) => bullet_text(s@) == Some(t@),
            None => bullet_text(s@) is None,
        },
{
    let a = blank_end_at(s, 0);
    if a <= 3 && a < s.len() && (s[a] == '-' || s[a] == '*' || s[a] == '+') {
        let b = blank_end_at(s, a + 1);
        if b > a + 1 {
            return Some(slice_vec(s, b, s.len()));
        }
    }
    None
}

fn ordered(s: &Vec<char>) -> (r: Option<Vec<char>>)
    ensures
        match r {
            Some(t) => ordered_text(s@) == Some(t@),
            None => ordered_text(s@) is None,
        },
{
    let a = blank_end_at(s, 0);
    let d = digits_end_at(s, a);
    if a <= 3 && 1 <= d - a && d - a <= 9 && d < s.len() && (s[d] == '.' || s[d] == ')') {
        let b = blank_end_at(s, d + 1);
        if b > d + 1 {
            return Some(slice_vec(s, b, s.len()));
        }
    }
    None
}

fn quote(s: &Vec<char>) -> (r: Option<Vec<char>>)
    ensures
        match r {
            Some(t) => quote_text(s@) == Some(t@),
            None => quote_text(s@) is None,
        },
{
    let a = blank_end_at(s, 0);
    if a <= 3 && a < s.len() && s[a] == '>' {
        if a + 1 < s.len() && (s[a + 1] == ' ' || s[a + 1] == '\t') {
            Some(slice_vec(s, a + 2, s.len()))
        } else {
            Some(slice_vec(s, a + 1, s.len()))
        }
    } else {
        None
    }
}

} // verus!

verus! {

// ---------------------------------------------------------------------------------------
// Documents
// ---------------------------------------------------------------------------------------
/// `s[k..]` with its line endings made uniform: each `\r\n`, and each `\r` not
/// followed by `\n`, becomes `\n`.
pub open spec fn normalize_from(s: Seq<char>, k: int) -> Seq<char>
    decreases s.len() - k,
{
    if k < 0 || k >= s.len() {
        Seq::empty()
    } else if s[k] == '\r' && k + 1 < s.len() && s[k + 1] == '\n' {
        seq!['\n'] + normalize_from(s, k + 2)
    } else if s[k] == '\r' {
        seq!['\n'] + normalize_from(s, k + 1)
    } else {
        seq![s[k]] + normalize_from(s, k + 1)
    }
}

/// Line endings made uniform: `\r\n` and lone `\r` become `\n`.
pub open spec fn spec_normalize(s: Seq<char>) -> Seq<char> {
    normalize_from(s, 0)
}

/// The pieces of `s` between line feeds (one more piece than there are line feeds).
pub open spec fn split_lines(s: Seq<char>) -> Seq<Seq<char>>
    decreases s.len(),
{
    if s.len() == 0 {
        seq![Seq::empty()]
    } else {
        let p = split_lines(s.drop_last());
        if s.last() == '\n' {
            p.push(Seq::empty())
        } else {
            p.update(p.len() - 1, p.last().push(s.last()))
        }
    }
}

proof fn lemma_split_lines_nonempty(s: Seq<char>)
    ensures
        split_lines(s).len() >= 1,
    decreases s.len(),
{
    if s.len() > 0 {
        lemma_split_lines_nonempty(s.drop_last());
    }
}

/// Line replacing `\r\n` and lone `\r` by `\n`.
pub fn normalize(md: &Vec<char>) -> (r: Vec<char>)
    ensures
        r@ == spec_normalize(md@),
{
    let len = md.len();
    let mut out: Vec<char> = Vec::new();
    let mut k: usize = 0;
    while k < len
        invariant
            0 <= k <= len,
            len == md@.len(),
            out@ + normalize_from(md@, k as int) == spec_normalize(md@),
        decreases len - k,
    {
        let ghost before = out@;
        let c = md[k];
        if c == '\r' && k + 1 < len && md[k + 1] == '\n' {
            out.push('\n');
            proof {
                let rest = normalize_from(md@, k + 2);
                assert(before + (seq!['\n'] + rest) =~= out@ + rest);
            }
            k = k + 2;
        } else {
            out.push(if c == '\r' { '\n' } else { c });
            proof {
                let rest = normalize_from(md@, k + 1);
                assert(before + (seq![if c == '\r' { '\n' } else { c }] + rest) =~= out@ + rest);
            }
            k = k + 1;
        }
    }
    proof {
        assert(out@ + normalize_from(md@, k as int) =~= out@);
    }
    out
}

/// The pieces of `s` between line feeds; see `split_lines`.
pub fn lines_of(s: &Vec<char>) -> (r: Vec<Vec<char>>)
    ensures
        r@.len() == split_lines(s@).len(),
        forall|i: int| 0 <= i < r@.len() ==> #[trigger] r@[i]@ == split_lines(s@)[i],
{
    let mut r: Vec<Vec<char>> = Vec::new();
    let mut cur: Vec<char> = Vec::new();
    let mut k: usize = 0;
    proof {
        assert(s@.take(0) =~= Seq::<char>::empty());
    }
    while k < s.len()
        invariant
            0 <= k <= s@.len(),
            r@.len() + 1 == split_lines(s@.take(k as int)).len(),
            forall|i: int| 0 <= i < r@.len() ==> #[trigger] r@[i]@ == split_lines(s@.take(k as int))[i],
            cur@ == split_lines(s@.take(k as int)).last(),
        decreases s@.len() - k,
    {
        proof {
            assert(s@.take(k + 1).drop_last() =~= s@.take(k as int));
            lemma_split_lines_nonempty(s@.take(k as int));
        }
        if s[k] == '\n' {
            let done = cur;
            r.push(done);
            cur = Vec::new();
        } else {
            cur.push(s[k]);
        }
        k = k + 1;
    }
    proof {
        assert(s@.take(s@.len() as int) =~= s@);
    }
    r.push(cur);
    r
}

/// A classified line of a Markdown document.
pub struct Line {
    pub kind: &'static str,
    pub spans: Vec<Span>,
}

/// A line as (kind, spans).
pub type LineView = (Seq<char>, Seq<SpanView>);

impl View for Line {
    type V = LineView;

    open spec fn view(&self) -> LineView {
        (self.kind@, spans_view(self.spans@))
    }
}

pub open spec fn lines_view(v: Seq<Line>) -> Seq<LineView> {
    v.map_values(|l: Line| l@)
}

/// What one raw line contributes, given whether a code fence is open: fences toggle and
/// vanish, fenced lines are kept verbatim as body text, rules vanish, and other lines are
/// headings (bold body text), bullets, numbered items, quotes or body text.
pub open spec fn line_step(st: (Seq<LineView>, bool), raw: Seq<char>) -> (Seq<LineView>, bool) {
    let (out, in_fence) = st;
    if is_fence(raw) {
        (out, !in_fence)
    } else if in_fence {
        (out.push(("body"@, seq![(raw, false, false, false)])), in_fence)
    } else if is_rule(raw) {
        (out, in_fence)
    } else if let Some(t) = heading_text(raw) {
        (out.push(("body"@, spec_spans(t, true))), in_fence)
    } else if let Some(t) = bullet_text(raw) {
        (out.push(("bullet"@, spec_spans(t, false))), in_fence)
    } else if let Some(t) = ordered_text(raw) {
        (out.push(("ordered"@, spec_spans(t, false))), in_fence)
    } else if let Some(t) = quote_text(raw) {
        (out.push(("quote"@, spec_spans(t, false))), in_fence)
    } else {
        (out.push(("body"@, spec_spans(raw, false))), in_fence)
    }
}

pub open spec fn lines_fold(raws: Seq<Seq<char>>) -> (Seq<LineView>, bool)
    decreases raws.len(),
{
    if raws.len() == 0 {
        (Seq::empty(), false)
    } else {
        line_step(lines_fold(raws.drop_last()), raws.last())
    }
}

/// The classified lines of a Markdown document.
pub open spec fn spec_lines(md: Seq<char>) -> Seq<LineView> {
    lines_fold(split_lines(spec_normalize(md))).0
}

fn push_line(out: &mut Vec<Line>, kind: &'static str, spans: Vec<Span>)
    ensures
        lines_view(final(out)@) == lines_view(old(out)@).push((kind@, spans_view(spans@))),
{
    let ghost before = out@;
    out.push(Line { kind, spans });
    proof {
        assert(lines_view(out@) =~= lines_view(before).push((kind@, spans_view(spans@))));
    }
}

/// Classifies each line of a Markdown document and splits it into styled spans.
pub fn lines(md: &str) -> (r: Vec<Line>)
    ensures
        lines_view(r@) == spec_lines(md@),
{
    let text = chars_of(md);
    let normalized = normalize(&text);
    let raws = lines_of(&normalized);
    let ghost rs = split_lines(normalized@);
    let mut out: Vec<Line> = Vec::new();
    let mut in_fence = false;
    let mut i: usize = 0;
    proof {
        assert(lines_view(out@) =~= Seq::<LineView>::empty());
    }
    while i < raws.len()
        invariant
            0 <= i <= raws@.len(),
            raws@.len() == rs.len(),
            forall|k: int| 0 <= k < raws@.len() ==> #[trigger] raws@[k]@ == rs[k],
            (lines_view(out@), in_fence) == lines_fold(rs.take(i as int)),
        decreases raws@.len() - i,
    {
        proof {
            assert(rs.take(i + 1).drop_last() =~= rs.take(i as int));
        }
        let raw = &raws[i];
        if fence(raw) {
            in_fence = !in_fence;
        } else if in_fence {
            let span = Span { text: string_from(raw.as_slice()), bold: false, italic: false, strike: false };
            let v = vec![span];
            proof {
                assert(spans_view(v@) =~= seq![(raw@, false, false, false)]);
            }
            push_line(&mut out, "body", v);
        } else if rule(raw) {
        } else if let Some(t) = heading(raw) {
            push_line(&mut out, "body", spans(&t, true));
        } else if let Some(t) = bullet(raw) {
            push_line(&mut out, "bullet", spans(&t, false));
        } else if let Some(t) = ordered(raw) {
            push_line(&mut out, "ordered", spans(&t, false));
        } else if let Some(t) = quote(raw) {
            push_line(&mut out, "quote", spans(&t, false));
        } else {
            push_line(&mut out, "body", spans(raw, false));
        }
        i = i + 1;
    }
    proof {
        assert(rs.take(raws@.len() as int) =~= rs);
    }
    out
}

} // verus!

verus! {

/// The text of a sequence of spans, without styles.
pub open spec fn spans_text(v: Seq<SpanView>) -> Seq<char>
    decreases v.len(),
{
    if v.len() == 0 {
        Seq::empty()
    } else {
        spans_text(v.drop_last()) + v.last().0
    }
}

/// The plain text of each line, joined by single spaces.
pub open spec fn join_plain(raws: Seq<Seq<char>>) -> Seq<char>
    decreases raws.len(),
{
    if raws.len() == 0 {
        Seq::empty()
    } else if raws.len() == 1 {
        spans_text(spec_spans(raws[0], false))
    } else {
        join_plain(raws.drop_last()) + seq![' '] + spans_text(spec_spans(raws.last(), false))
    }
}

/// Markdown rendered as one line of plain text: every line's inline markup is resolved
/// without line classification, the lines are joined by spaces, and the result is trimmed.
pub open spec fn spec_inline(md: Seq<char>) -> Seq<char> {
    spec_trim(join_plain(split_lines(spec_normalize(md))))
}

fn plain_text(v: &Vec<Span>) -> (r: Vec<char>)
    ensures
        r@ == spans_text(spans_view(v@)),
{
    let mut out: Vec<char> = Vec::new();
    let mut i: usize = 0;
    while i < v.len()
        invariant
            0 <= i <= v@.len(),
            out@ == spans_text(spans_view(v@).take(i as int)),
        decreases v@.len() - i,
    {
        proof {
            assert(spans_view(v@).take(i + 1).drop_last() =~= spans_view(v@).take(i as int));
        }
        let t = chars_of(v[i].text.as_str());
        extend(&mut out, &t);
        i = i + 1;
    }
    proof {
        assert(spans_view(v@).take(v@.len() as int) =~= spans_view(v@));
    }
    out
}

/// Renders Markdown as a single trimmed line of plain text; see `spec_inline`.
pub fn inline(md: &str) -> (r: String)
    ensures
        r@ == spec_inline(md@),
{
    let text = chars_of(md);
    let normalized = normalize(&text);
    let raws = lines_of(&normalized);
    let ghost rs = split_lines(normalized@);
    let mut out: Vec<char> = Vec::new();
    let mut i: usize = 0;
    while i < raws.len()
        invariant
            0 <= i <= raws@.len(),
            raws@.len() == rs.len(),
            forall|k: int| 0 <= k < raws@.len() ==> #[trigger] raws@[k]@ == rs[k],
            out@ == join_plain(rs.take(i as int)),
        decreases raws@.len() - i,
    {
        proof {
            assert(rs.take(i + 1).drop_last() =~= rs.take(i as int));
            if i == 0 {
                assert(rs.take(1) =~= seq![rs[0]]);
            }
        }
        if i > 0 {
            out.push(' ');
        }
        let s = spans(&raws[i], false);
        let t = plain_text(&s);
        extend(&mut out, &t);
        i = i + 1;
    }
    proof {
        assert(rs.take(raws@.len() as int) =~= rs);
    }
    let trimmed = trim(&out);
    string_from(trimmed.as_slice())
}

} // verus!
