//! Character-sequence helpers shared by the parsers and formatters.
use vstd::prelude::*;

verus! {

/// The characters of `s`, in order.
pub fn chars_of(s: &str) -> (v: Vec<char>)
    ensures
        v@ == s@,
{
    let mut v: Vec<char> = Vec::new();
    for c in it: s.chars()
        invariant
            v@ == it.seq().take(it.index() as int),
            it.seq() == s@,
    {
        v.push(c);
    }
    v
}

/// Collects characters into a `String` (std's `FromIterator<char>`).
#[verifier::external_body]
pub(crate) fn string_from(v: &[char]) -> (s: String)
    ensures
        s@ == v@,
{
    v.iter().collect()
}

/// Unicode `White_Space`, the class that `char::is_whitespace`, `str::trim`
/// and the regular-expression class `\s` use.
pub open spec fn is_ws(c: char) -> bool {
    let n: u32 = c as u32;
    (0x09 <= n && n <= 0x0d) || n == 0x20 || n == 0x85 || n == 0xa0 || n == 0x1680 || (0x2000
        <= n && n <= 0x200a) || n == 0x2028 || n == 0x2029 || n == 0x202f || n == 0x205f || n
        == 0x3000
}

pub fn is_whitespace(c: char) -> (r: bool)
    ensures
        r == is_ws(c),
{
    let n: u32 = c as u32;
    (0x09 <= n && n <= 0x0d) || n == 0x20 || n == 0x85 || n == 0xa0 || n == 0x1680 || (0x2000
        <= n && n <= 0x200a) || n == 0x2028 || n == 0x2029 || n == 0x202f || n == 0x205f || n
        == 0x3000
}

} // verus!

verus! {

/// Index of the first non-whitespace character at or after `k` (the length if none).
pub open spec fn skip_ws_from(s: Seq<char>, k: int) -> int
    decreases s.len() - k,
{
    if k >= s.len() {
        s.len() as int
    } else if is_ws(s[k]) {
        skip_ws_from(s, k + 1)
    } else {
        k
    }
}

/// End of `s[..e]` once trailing whitespace is dropped.
pub open spec fn trim_end_at(s: Seq<char>, e: int) -> int
    decreases e,
{
    if e <= 0 {
        0
    } else if is_ws(s[e - 1]) {
        trim_end_at(s, e - 1)
    } else {
        e
    }
}

/// `str::trim`: leading and trailing `White_Space` removed.
pub open spec fn spec_trim(s: Seq<char>) -> Seq<char> {
    let a = skip_ws_from(s, 0);
    if a >= s.len() {
        Seq::empty()
    } else {
        s.subrange(a, trim_end_at(s, s.len() as int))
    }
}

pub proof fn lemma_skip_ws_bounds(s: Seq<char>, k: int)
    requires
        0 <= k <= s.len(),
    ensures
        k <= skip_ws_from(s, k) <= s.len(),
        skip_ws_from(s, k) < s.len() ==> !is_ws(s[skip_ws_from(s, k)]),
        forall|j: int| k <= j < skip_ws_from(s, k) ==> is_ws(#[trigger] s[j]),
    decreases s.len() - k,
{
    if k < s.len() && is_ws(s[k]) {
        lemma_skip_ws_bounds(s, k + 1);
    }
}

pub proof fn lemma_trim_end_bounds(s: Seq<char>, e: int, a: int)
    requires
        0 <= a < e <= s.len(),
        !is_ws(s[a]),
    ensures
        a < trim_end_at(s, e) <= e,
        !is_ws(s[trim_end_at(s, e) - 1]),
        forall|j: int| trim_end_at(s, e) <= j < e ==> is_ws(#[trigger] s[j]),
    decreases e,
{
    if is_ws(s[e - 1]) {
        lemma_trim_end_bounds(s, e - 1, a);
    }
}

/// Index of the first non-whitespace character at or after `k`.
pub fn skip_ws(s: &Vec<char>, k: usize) -> (r: usize)
    requires
        k <= s@.len(),
    ensures
        r == skip_ws_from(s@, k as int),
        k <= r <= s@.len(),
{
    let mut j: usize = k;
    while j < s.len() && is_whitespace(s[j])
        invariant
            k <= j <= s@.len(),
            skip_ws_from(s@, j as int) == skip_ws_from(s@, k as int),
        decreases s@.len() - j,
    {
        j = j + 1;
    }
    j
}

/// `str::trim` on a character vector.
pub fn trim(s: &Vec<char>) -> (r: Vec<char>)
    ensures
        r@ == spec_trim(s@),
{
    let a: usize = skip_ws(s, 0);
    if a >= s.len() {
        return Vec::new();
    }
    proof {
        lemma_skip_ws_bounds(s@, 0);
        lemma_trim_end_bounds(s@, s@.len() as int, a as int);
    }
    let mut e: usize = s.len();
    while is_whitespace(s[e - 1])
        invariant
            a < e <= s@.len(),
            trim_end_at(s@, e as int) == trim_end_at(s@, s@.len() as int),
            a < trim_end_at(s@, s@.len() as int),
            !is_ws(s@[a as int]),
        decreases e,
    {
        e = e - 1;
    }
    slice_vec(s, a, e)
}

/// `s[a..b]` as a new vector.
pub fn slice_vec(s: &Vec<char>, a: usize, b: usize) -> (r: Vec<char>)
    requires
        a <= b <= s@.len(),
    ensures
        r@ == s@.subrange(a as int, b as int),
{
    let mut r: Vec<char> = Vec::new();
    let mut i: usize = a;
    while i < b
        invariant
            a <= i <= b <= s@.len(),
            r@ == s@.subrange(a as int, i as int),
        decreases b - i,
    {
        r.push(s[i]);
        i = i + 1;
    }
    r
}

/// Appends all of `t` to `out`.
pub fn extend(out: &mut Vec<char>, t: &Vec<char>)
    ensures
        final(out)@ == old(out)@ + t@,
{
    let mut i: usize = 0;
    while i < t.len()
        invariant
            0 <= i <= t@.len(),
            out@ == old(out)@ + t@.subrange(0, i as int),
        decreases t@.len() - i,
    {
        out.push(t[i]);
        i = i + 1;
    }
}

} // verus!

verus! {

/// The extended grapheme clusters of a character sequence (Unicode Standard Annex #29).
pub uninterp spec fn grapheme_clusters(s: Seq<char>) -> Seq<Seq<char>>;

/// `UnicodeSegmentation::graphemes(s, true)`: the extended grapheme clusters of `s`, in
/// order. Each cluster is a non-empty slice of `s`, and the clusters together cover `s`.
/// Where the cluster boundaries fall is left to the crate's segmentation tables.
#[verifier::external_body]
pub(crate) fn graphemes(s: &str) -> (r: Vec<String>)
    ensures
        r@.len() == grapheme_clusters(s@).len(),
        forall|i: int| 0 <= i < r@.len() ==> #[trigger] r@[i]@ == grapheme_clusters(s@)[i],
        forall|i: int| 0 <= i < r@.len() ==> #[trigger] r@[i]@.len() > 0,
        r@.map_values(|g: String| g@).flatten() == s@,
{
    unicode_segmentation::UnicodeSegmentation::graphemes(s, true).map(String::from).collect()
}

/// The grapheme clusters of `s`, each as a character vector.
pub fn clusters(s: &Vec<char>) -> (r: Vec<Vec<char>>)
    ensures
        r@.len() == grapheme_clusters(s@).len(),
        forall|i: int| 0 <= i < r@.len() ==> #[trigger] r@[i]@ == grapheme_clusters(s@)[i],
        grapheme_clusters(s@).flatten() == s@,
{
    let text = string_from(s.as_slice());
    let gs = graphemes(text.as_str());
    let mut r: Vec<Vec<char>> = Vec::new();
    let mut i: usize = 0;
    while i < gs.len()
        invariant
            0 <= i <= gs@.len(),
            text@ == s@,
            gs@.len() == grapheme_clusters(s@).len(),
            forall|k: int| 0 <= k < gs@.len() ==> #[trigger] gs@[k]@ == grapheme_clusters(s@)[k],
            r@.len() == i,
            forall|k: int| 0 <= k < i ==> #[trigger] r@[k]@ == grapheme_clusters(s@)[k],
        decreases gs@.len() - i,
    {
        let g = chars_of(gs[i].as_str());
        r.push(g);
        i = i + 1;
    }
    proof {
        assert(gs@.map_values(|g: String| g@) =~= grapheme_clusters(s@));
    }
    r
}

} // verus!

verus! {

pub proof fn lemma_trim_len(s: Seq<char>)
    ensures
        spec_trim(s).len() <= s.len(),
{
    lemma_skip_ws_bounds(s, 0);
    let a = skip_ws_from(s, 0);
    if a < s.len() {
        lemma_trim_end_bounds(s, s.len() as int, a);
    }
}

/// Index of the first `c` at or after `k` (the length if none).
pub open spec fn find_from(s: Seq<char>, k: int, c: char) -> int
    decreases s.len() - k,
{
    if k >= s.len() {
        s.len() as int
    } else if s[k] == c {
        k
    } else {
        find_from(s, k + 1, c)
    }
}

pub proof fn lemma_find_from(s: Seq<char>, k: int, c: char)
    requires
        0 <= k <= s.len(),
    ensures
        k <= find_from(s, k, c) <= s.len(),
        find_from(s, k, c) < s.len() ==> s[find_from(s, k, c)] == c,
        forall|j: int| k <= j < find_from(s, k, c) ==> #[trigger] s[j] != c,
    decreases s.len() - k,
{
    if k < s.len() && s[k] != c {
        lemma_find_from(s, k + 1, c);
    }
}

/// Index of the first `c` at or after `k` (the length if none).
pub fn find_char(s: &Vec<char>, k: usize, c: char) -> (r: usize)
    requires
        k <= s@.len(),
    ensures
        r == find_from(s@, k as int, c),
        k <= r <= s@.len(),
{
    let mut j: usize = k;
    while j < s.len() && s[j] != c
        invariant
            k <= j <= s@.len(),
            find_from(s@, j as int, c) == find_from(s@, k as int, c),
        decreases s@.len() - j,
    {
        j = j + 1;
    }
    j
}

} // verus!

verus! {

/// Membership in the Unicode word class `\w` of the regular-expression engine
/// (alphabetic, marks, decimal numbers, connector punctuation and join controls).
pub uninterp spec fn unicode_word(c: char) -> bool;

/// `fancy_regex::Regex::is_match` of the class `\w` against the single character `c`:
/// whether `c` is a Unicode word character. The class tables are the crate's.
#[verifier::external_body]
pub(crate) fn is_word_char(c: char) -> (r: bool)
    ensures
        r == unicode_word(c),
{
    let mut buf = [0u8; 4];
    fancy_regex::Regex::new(r"\w").unwrap().is_match(c.encode_utf8(&mut buf)).unwrap()
}

} // verus!

verus! {

/// Every character is ASCII.
pub open spec fn all_ascii(s: Seq<char>) -> bool {
    forall|k: int| 0 <= k < s.len() ==> (#[trigger] s[k] as u32) < 128
}

/// `A`..`Z` lowered to `a`..`z`; every other character kept.
pub open spec fn ascii_lower(c: char) -> char {
    if 65 <= (c as int) <= 90 { ((c as int) + 32) as char } else { c }
}

/// `a`..`z` raised to `A`..`Z`; every other character kept.
pub open spec fn ascii_upper(c: char) -> char {
    if 97 <= (c as int) <= 122 { ((c as int) - 32) as char } else { c }
}

/// Unicode lowercase mapping of a string (`str::to_lowercase`).
pub uninterp spec fn lowercase(s: Seq<char>) -> Seq<char>;

/// `str::to_lowercase`: the Unicode lowercase mapping of `s`, character by character with
/// the context rules of the standard library. On ASCII text it lowers `A`..`Z` and keeps
/// everything else (so the empty text stays empty); beyond ASCII the mapping tables are
/// the library's.
#[verifier::external_body]
pub(crate) fn to_lowercase(s: &str) -> (r: String)
    ensures
        r@ == lowercase(s@),
        all_ascii(s@) ==> r@ == s@.map_values(|c: char| ascii_lower(c)),
{
    s.to_lowercase()
}

/// Unicode uppercase mapping of a string (`str::to_uppercase`).
pub uninterp spec fn uppercase(s: Seq<char>) -> Seq<char>;

/// `str::to_uppercase`: the Unicode uppercase mapping of `s`. On ASCII text it raises
/// `a`..`z` and keeps everything else; beyond ASCII the mapping tables are the library's.
#[verifier::external_body]
pub(crate) fn to_uppercase(s: &str) -> (r: String)
    ensures
        r@ == uppercase(s@),
        all_ascii(s@) ==> r@ == s@.map_values(|c: char| ascii_upper(c)),
{
    s.to_uppercase()
}

/// `needle` occurs in `hay` as a contiguous run (the empty run occurs everywhere).
pub open spec fn contains_seq(hay: Seq<char>, needle: Seq<char>) -> bool {
    exists|i: int|
        0 <= i && i + needle.len() <= hay.len() && #[trigger] hay.subrange(i, i + needle.len())
            == needle
}

/// A run between two others occurs in their concatenation.
pub proof fn lemma_contains_middle(a: Seq<char>, x: Seq<char>, b: Seq<char>)
    ensures
        contains_seq(a + x + b, x),
{
    assert((a + x + b).subrange(a.len() as int, (a.len() + x.len()) as int) =~= x);
}

/// A run of either part occurs in a concatenation.
pub proof fn lemma_contains_concat(a: Seq<char>, b: Seq<char>, x: Seq<char>)
    ensures
        contains_seq(a, x) ==> contains_seq(a + b, x),
        contains_seq(b, x) ==> contains_seq(a + b, x),
{
    if contains_seq(a, x) {
        let i = choose|i: int| 0 <= i && i + x.len() <= a.len() && #[trigger] a.subrange(i, i + x.len()) == x;
        assert((a + b).subrange(i, i + x.len()) =~= a.subrange(i, i + x.len()));
    }
    if contains_seq(b, x) {
        let i = choose|i: int| 0 <= i && i + x.len() <= b.len() && #[trigger] b.subrange(i, i + x.len()) == x;
        assert((a + b).subrange(a.len() + i, a.len() + i + x.len()) =~= b.subrange(i, i + x.len()));
    }
}

/// A run of a run occurs in the whole.
pub proof fn lemma_contains_trans(a: Seq<char>, b: Seq<char>, x: Seq<char>)
    requires
        contains_seq(a, b),
        contains_seq(b, x),
    ensures
        contains_seq(a, x),
{
    let i = choose|i: int| 0 <= i && i + b.len() <= a.len() && #[trigger] a.subrange(i, i + b.len()) == b;
    let j = choose|j: int| 0 <= j && j + x.len() <= b.len() && #[trigger] b.subrange(j, j + x.len()) == x;
    assert(a.subrange(i + j, i + j + x.len()) =~= b.subrange(j, j + x.len()));
}

fn occurs_at(hay: &Vec<char>, needle: &Vec<char>, i: usize) -> (r: bool)
    requires
        i + needle@.len() <= hay@.len(),
    ensures
        r == (hay@.subrange(i as int, i + needle@.len()) == needle@),
{
    let hl = hay.len();
    let mut k: usize = 0;
    while k < needle.len()
        invariant
            0 <= k <= needle@.len(),
            hl == hay@.len(),
            i + needle@.len() <= hay@.len(),
            forall|m: int| 0 <= m < k ==> hay@[i + m] == needle@[m],
        decreases needle@.len() - k,
    {
        if hay[i + k] != needle[k] {
            assert(hay@.subrange(i as int, i + needle@.len())[k as int] != needle@[k as int]);
            return false;
        }
        k = k + 1;
    }
    assert(hay@.subrange(i as int, i + needle@.len()) =~= needle@);
    true
}

/// Whether `needle` occurs in `hay` (`str::contains`).
pub fn contains(hay: &Vec<char>, needle: &Vec<char>) -> (r: bool)
    ensures
        r == contains_seq(hay@, needle@),
{
    if needle.len() > hay.len() {
        return false;
    }
    let last = hay.len() - needle.len();
    let mut i: usize = 0;
    loop
        invariant
            0 <= i <= last,
            last + needle@.len() == hay@.len(),
            forall|j: int|
                0 <= j < i ==> #[trigger] hay@.subrange(j, j + needle@.len()) != needle@,
        decreases last - i,
    {
        if occurs_at(hay, needle, i) {
            return true;
        }
        if i == last {
            return false;
        }
        i = i + 1;
    }
}

/// Decimal value of a run of ASCII digits.
pub open spec fn digits_value(d: Seq<char>) -> int
    decreases d.len(),
{
    if d.len() == 0 {
        0
    } else {
        digits_value(d.drop_last()) * 10 + (d.last() as u32 - '0' as u32)
    }
}

pub open spec fn all_digits(d: Seq<char>) -> bool {
    forall|i: int| 0 <= i < d.len() ==> '0' <= #[trigger] d[i] && d[i] <= '9'
}

/// `i64::from_str`: an optional `+` or `-`, then one or more ASCII digits, whose value
/// fits in an `i64`.
pub open spec fn parse_i64(s: Seq<char>) -> Option<i64> {
    let neg = s.len() > 0 && s[0] == '-';
    let start: int = if s.len() > 0 && (s[0] == '-' || s[0] == '+') { 1 } else { 0 };
    let d = s.subrange(start, s.len() as int);
    if d.len() == 0 || !all_digits(d) {
        None
    } else {
        let v = if neg { -digits_value(d) } else { digits_value(d) };
        if i64::MIN <= v <= i64::MAX {
            Some(v as i64)
        } else {
            None
        }
    }
}

proof fn lemma_digits_value_nonneg(d: Seq<char>)
    requires
        all_digits(d),
    ensures
        digits_value(d) >= 0,
    decreases d.len(),
{
    if d.len() > 0 {
        lemma_digits_value_nonneg(d.drop_last());
    }
}

/// Parses a decimal `i64`; see `parse_i64`.
pub fn parse_int(s: &Vec<char>) -> (r: Option<i64>)
    ensures
        r == parse_i64(s@),
{
    let neg = s.len() > 0 && s[0] == '-';
    let start: usize = if s.len() > 0 && (s[0] == '-' || s[0] == '+') { 1 } else { 0 };
    let ghost d = s@.subrange(start as int, s@.len() as int);
    if start >= s.len() {
        return None;
    }
    let mut v: u128 = 0;
    let mut k: usize = start;
    let limit: u128 = 0x8000_0000_0000_0000;
    while k < s.len()
        invariant
            start <= k <= s@.len(),
            limit == 0x8000_0000_0000_0000,
            start == (if s@.len() > 0 && (s@[0] == '-' || s@[0] == '+') { 1int } else { 0int }),
            d == s@.subrange(start as int, s@.len() as int),
            all_digits(s@.subrange(start as int, k as int)),
            v == digits_value(s@.subrange(start as int, k as int)),
            v <= limit,
        decreases s@.len() - k,
    {
        proof {
            assert(s@.subrange(start as int, k + 1).drop_last() =~= s@.subrange(start as int, k as int));
        }
        let c = s[k];
        if !('0' <= c && c <= '9') {
            proof {
                assert(d[k - start] == c);
                assert(!all_digits(d));
            }
            return None;
        }
        let code: u32 = c as u32;
        assert(48 <= code <= 57);
        let digit: u128 = (code - 48) as u128;
        if v > (limit - digit) / 10 {
            proof {
                let e = s@.subrange(start as int, k + 1);
                assert(all_digits(e));
                assert(digits_value(e) > limit);
                // the value only grows with more digits
                lemma_digits_grow(s@.subrange(start as int, s@.len() as int), k + 1 - start);
                assert(s@.subrange(start as int, s@.len() as int).subrange(0, k + 1 - start) =~= e);
            }
            return None;
        }
        v = v * 10 + digit;
        k = k + 1;
    }
    proof {
        assert(s@.subrange(start as int, k as int) =~= d);
    }
    if neg {
        if v == limit {
            Some(i64::MIN)
        } else {
            Some(-(v as i64))
        }
    } else if v == limit {
        None
    } else {
        Some(v as i64)
    }
}

proof fn lemma_digits_grow(d: Seq<char>, n: int)
    requires
        0 <= n <= d.len(),
        all_digits(d.subrange(0, n)),
    ensures
        all_digits(d) ==> digits_value(d) >= digits_value(d.subrange(0, n)),
    decreases d.len() - n,
{
    if n < d.len() && all_digits(d) {
        assert(d.subrange(0, n + 1).drop_last() =~= d.subrange(0, n));
        lemma_digits_value_nonneg(d.subrange(0, n));
        lemma_digits_grow(d, n + 1);
    } else if n == d.len() {
        assert(d.subrange(0, n) =~= d);
    }
}

} // verus!

verus! {

/// Whether two character vectors are equal.
pub fn same_chars(a: &Vec<char>, b: &Vec<char>) -> (r: bool)
    ensures
        r == (a@ == b@),
{
    if a.len() != b.len() {
        return false;
    }
    let mut j: usize = 0;
    while j < a.len()
        invariant
            0 <= j <= a@.len(),
            a@.len() == b@.len(),
            a@.subrange(0, j as int) == b@.subrange(0, j as int),
        decreases a@.len() - j,
    {
        if a[j] != b[j] {
            return false;
        }
        proof {
            assert(a@.subrange(0, j + 1) =~= a@.subrange(0, j as int).push(a@[j as int]));
            assert(b@.subrange(0, j + 1) =~= b@.subrange(0, j as int).push(b@[j as int]));
        }
        j = j + 1;
    }
    assert(a@ =~= a@.subrange(0, a@.len() as int));
    assert(b@ =~= b@.subrange(0, b@.len() as int));
    true
}

} // verus!

verus! {

pub open spec fn digit_char(d: int) -> char {
    ('0' as u32 + d) as char
}

/// Decimal digits of a natural number, most significant first.
pub open spec fn nat_digits(n: nat) -> Seq<char>
    decreases n,
{
    if n < 10 {
        seq![digit_char(n as int)]
    } else {
        nat_digits((n / 10) as nat).push(digit_char((n % 10) as int))
    }
}

/// Decimal rendering of an integer, as `Display` writes it.
pub open spec fn decimal(n: int) -> Seq<char> {
    if n < 0 {
        seq!['-'] + nat_digits((-n) as nat)
    } else {
        nat_digits(n as nat)
    }
}

proof fn lemma_nat_digits_len(n: nat)
    ensures
        nat_digits(n).len() >= 1,
    decreases n,
{
    if n >= 10 {
        lemma_nat_digits_len((n / 10) as nat);
    }
}

fn digits_u128(n: u128) -> (r: Vec<char>)
    ensures
        r@ == nat_digits(n as nat),
    decreases n,
{
    let d: u32 = (n % 10) as u32;
    let c = char_of_digit(d);
    if n < 10 {
        let mut r: Vec<char> = Vec::new();
        r.push(c);
        assert(r@ =~= seq![digit_char(n as int)]);
        r
    } else {
        let mut r = digits_u128(n / 10);
        r.push(c);
        r
    }
}

fn char_of_digit(d: u32) -> (c: char)
    requires
        d < 10,
    ensures
        c == digit_char(d as int),
{
    let table: [char; 10] = ['0', '1', '2', '3', '4', '5', '6', '7', '8', '9'];
    let c = table[d as usize];
    assert(table@[d as int] == digit_char(d as int)) by {
        assert(table@ =~= seq!['0', '1', '2', '3', '4', '5', '6', '7', '8', '9']);
    }
    c
}

/// Decimal rendering of a signed integer.
pub fn decimal_i64(n: i64) -> (r: Vec<char>)
    ensures
        r@ == decimal(n as int),
{
    if n < 0 {
        let m: u128 = (-(n as i128)) as u128;
        let mut r: Vec<char> = Vec::new();
        r.push('-');
        let d = digits_u128(m);
        extend(&mut r, &d);
        r
    } else {
        digits_u128(n as u128)
    }
}

/// Decimal rendering of an unsigned integer.
pub fn decimal_u64(n: u64) -> (r: Vec<char>)
    ensures
        r@ == decimal(n as int),
{
    digits_u128(n as u128)
}

/// `n` spaces.
pub open spec fn spaces(n: int) -> Seq<char> {
    Seq::new(if n > 0 { n as nat } else { 0 }, |i: int| ' ')
}

/// Right-aligned in a field of `w` characters, as `{:w}` writes a number.
pub open spec fn pad_left(s: Seq<char>, w: int) -> Seq<char> {
    spaces(w - s.len()) + s
}

/// Left-aligned in a field of `w` characters, as `{:w}` writes a string.
pub open spec fn pad_right(s: Seq<char>, w: int) -> Seq<char> {
    s + spaces(w - s.len())
}

/// Appends `n` spaces.
pub fn push_spaces(out: &mut Vec<char>, n: usize)
    ensures
        final(out)@ == old(out)@ + spaces(n as int),
{
    let mut i: usize = 0;
    while i < n
        invariant
            0 <= i <= n,
            out@ == old(out)@ + spaces(i as int),
        decreases n - i,
    {
        out.push(' ');
        proof {
            assert(spaces(i + 1) =~= spaces(i as int).push(' '));
        }
        i = i + 1;
    }
}

/// Appends `s` right-aligned in `w` characters.
pub fn push_padded_left(out: &mut Vec<char>, s: &Vec<char>, w: usize)
    ensures
        final(out)@ == old(out)@ + pad_left(s@, w as int),
{
    if s.len() < w {
        push_spaces(out, w - s.len());
    } else {
        assert(spaces(w - s@.len()) =~= Seq::<char>::empty());
    }
    extend(out, s);
}

/// Appends `s` left-aligned in `w` characters.
pub fn push_padded_right(out: &mut Vec<char>, s: &Vec<char>, w: usize)
    ensures
        final(out)@ == old(out)@ + pad_right(s@, w as int),
{
    let ghost start = out@;
    extend(out, s);
    if s.len() < w {
        push_spaces(out, w - s.len());
    } else {
        assert(spaces(w - s@.len()) =~= Seq::<char>::empty());
    }
    assert(out@ =~= start + pad_right(s@, w as int));
}

/// Appends the characters of `s`.
pub fn push_str(out: &mut Vec<char>, s: &str)
    ensures
        final(out)@ == old(out)@ + s@,
{
    let v = chars_of(s);
    extend(out, &v);
}

} // verus!
