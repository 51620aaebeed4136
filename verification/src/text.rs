//! Byte-level text primitives shared by the helpers and the aligners.
//!
//! Source text is handled as UTF-8 bytes, the unit in which the parser reports
//! positions. Every operation here either works on ASCII bytes (line feeds,
//! spaces, delimiters) or on whole UTF-8 encoded characters.
use vstd::prelude::*;

verus! {

/// Line feed.
pub const NEWLINE: u8 = 10;

/// Space.
pub const SPACE: u8 = 32;

/// `n` spaces.
pub open spec fn spaces(n: nat) -> Seq<u8> {
    Seq::new(n, |_i: int| SPACE)
}

/// The views of a sequence of byte vectors.
pub open spec fn vviews(v: Seq<Vec<u8>>) -> Seq<Seq<u8>> {
    Seq::new(v.len(), |i: int| v[i]@)
}

/// Position of the first line feed at or after `from`, or the length of `s`.
pub open spec fn next_newline(s: Seq<u8>, from: int) -> int
    decreases s.len() - from,
{
    if from >= s.len() {
        s.len() as int
    } else if s[from] == NEWLINE {
        from
    } else {
        next_newline(s, from + 1)
    }
}

/// `next_newline` lies between `from` and the end, and no line feed precedes it.
pub proof fn lemma_next_newline(s: Seq<u8>, from: int)
    requires
        0 <= from <= s.len(),
    ensures
        from <= next_newline(s, from) <= s.len(),
        next_newline(s, from) < s.len() ==> s[next_newline(s, from)] == NEWLINE,
        forall|k: int| from <= k < next_newline(s, from) ==> s[k] != NEWLINE,
    decreases s.len() - from,
{
    if from < s.len() && s[from] != NEWLINE {
        lemma_next_newline(s, from + 1);
    }
}

/// Whether `s` holds a line feed.
pub open spec fn has_newline(s: Seq<u8>) -> bool {
    exists|k: int| 0 <= k < s.len() && s[k] == NEWLINE
}

/// The pieces of `s[from..]` between line feeds, as `str::split('\n')` yields them.
pub open spec fn lines_from(s: Seq<u8>, from: int) -> Seq<Seq<u8>>
    decreases s.len() - from,
{
    if from > s.len() || from < 0 {
        seq![]
    } else {
        let j = next_newline(s, from);
        if j >= s.len() || j < from {
            seq![s.subrange(from, s.len() as int)]
        } else {
            seq![s.subrange(from, j)] + lines_from(s, j + 1)
        }
    }
}

/// The pieces of `s` between line feeds.
pub open spec fn split_lines(s: Seq<u8>) -> Seq<Seq<u8>> {
    lines_from(s, 0)
}

/// Index of the first line feed at or after `from`, or the length of `s`.
pub fn find_newline(s: &[u8], from: usize) -> (r: usize)
    requires
        from <= s@.len(),
    ensures
        r == next_newline(s@, from as int),
{
    let mut i: usize = from;
    while i < s.len()
        invariant
            from <= i <= s@.len(),
            next_newline(s@, from as int) == next_newline(s@, i as int),
        decreases s@.len() - i,
    {
        if s[i] == NEWLINE {
            return i;
        }
        i += 1;
    }
    i
}

/// Whether `s` holds a line feed.
pub fn contains_newline(s: &[u8]) -> (r: bool)
    ensures
        r == has_newline(s@),
{
    let j = find_newline(s, 0);
    proof {
        lemma_next_newline(s@, 0);
    }
    j < s.len()
}

/// Whether the two byte strings are equal.
pub fn bytes_equal(a: &[u8], b: &[u8]) -> (r: bool)
    ensures
        r == (a@ == b@),
{
    if a.len() != b.len() {
        return false;
    }
    let mut i: usize = 0;
    while i < a.len()
        invariant
            a@.len() == b@.len(),
            0 <= i <= a@.len(),
            forall|j: int| 0 <= j < i ==> a@[j] == b@[j],
        decreases a@.len() - i,
    {
        if a[i] != b[i] {
            return false;
        }
        i += 1;
    }
    assert(a@ =~= b@);
    true
}

/// Whether `src[start..end]` equals `lit`.
pub fn range_equals(src: &[u8], start: usize, end: usize, lit: &[u8]) -> (r: bool)
    requires
        start <= end <= src@.len(),
    ensures
        r == (src@.subrange(start as int, end as int) == lit@),
{
    if end - start != lit.len() {
        return false;
    }
    let mut i: usize = 0;
    while i < lit.len()
        invariant
            start <= end <= src@.len(),
            end - start == lit@.len(),
            0 <= i <= lit@.len(),
            forall|j: int| 0 <= j < i ==> src@[start + j] == lit@[j],
        decreases lit@.len() - i,
    {
        if src[start + i] != lit[i] {
            return false;
        }
        i += 1;
    }
    assert(src@.subrange(start as int, end as int) =~= lit@);
    true
}

/// Whether `s` begins with `prefix`.
pub fn starts_with(s: &[u8], prefix: &[u8]) -> (r: bool)
    ensures
        r == (prefix@.len() <= s@.len() && s@.subrange(0, prefix@.len() as int) == prefix@),
{
    if prefix.len() > s.len() {
        return false;
    }
    range_equals(s, 0, prefix.len(), prefix)
}

/// Appends `src[start..end]` to `out`.
pub fn push_range(out: &mut Vec<u8>, src: &[u8], start: usize, end: usize)
    requires
        start <= end <= src@.len(),
    ensures
        final(out)@ == old(out)@ + src@.subrange(start as int, end as int),
{
    let ghost init = out@;
    let mut i: usize = start;
    while i < end
        invariant
            start <= i <= end <= src@.len(),
            out@ == init + src@.subrange(start as int, i as int),
        decreases end - i,
    {
        out.push(src[i]);
        i += 1;
        assert(out@ =~= init + src@.subrange(start as int, i as int));
    }
}

/// Appends all of `src` to `out`.
pub fn push_all(out: &mut Vec<u8>, src: &[u8])
    ensures
        final(out)@ == old(out)@ + src@,
{
    push_range(out, src, 0, src.len());
    assert(src@.subrange(0, src@.len() as int) =~= src@);
}

/// Appends `n` spaces to `out`.
pub fn push_spaces(out: &mut Vec<u8>, n: usize)
    ensures
        final(out)@ == old(out)@ + spaces(n as nat),
{
    let ghost init = out@;
    let mut i: usize = 0;
    while i < n
        invariant
            0 <= i <= n,
            out@ == init + spaces(i as nat),
        decreases n - i,
    {
        out.push(SPACE);
        i += 1;
        assert(out@ =~= init + spaces(i as nat));
    }
}

/// A fresh vector holding `src[start..end]`.
pub fn copy_range(src: &[u8], start: usize, end: usize) -> (r: Vec<u8>)
    requires
        start <= end <= src@.len(),
    ensures
        r@ == src@.subrange(start as int, end as int),
{
    let mut r: Vec<u8> = Vec::new();
    push_range(&mut r, src, 0, 0);
    push_range(&mut r, src, start, end);
    assert(r@ =~= src@.subrange(start as int, end as int));
    r
}

/// Number of leading space bytes of `s`.
pub open spec fn lead_spaces(s: Seq<u8>) -> nat
    decreases s.len(),
{
    if s.len() > 0 && s[0] == SPACE {
        1 + lead_spaces(s.drop_first())
    } else {
        0
    }
}

/// `lead_spaces` never exceeds the length and all counted bytes are spaces.
pub proof fn lemma_lead_spaces(s: Seq<u8>)
    ensures
        lead_spaces(s) <= s.len(),
        forall|k: int| 0 <= k < lead_spaces(s) ==> s[k] == SPACE,
        lead_spaces(s) < s.len() ==> s[lead_spaces(s) as int] != SPACE,
    decreases s.len(),
{
    if s.len() > 0 && s[0] == SPACE {
        lemma_lead_spaces(s.drop_first());
        assert forall|k: int| 0 <= k < lead_spaces(s) implies s[k] == SPACE by {
            if k > 0 {
                assert(s[k] == s.drop_first()[k - 1]);
            }
        }
    }
}

/// A run of `i` spaces ended by a non-space (or the end) counts `i` leading spaces.
pub proof fn lemma_lead_spaces_prefix(s: Seq<u8>, i: int)
    requires
        0 <= i <= s.len(),
        forall|k: int| 0 <= k < i ==> s[k] == SPACE,
        i < s.len() ==> s[i] != SPACE,
    ensures
        lead_spaces(s) == i,
    decreases i,
{
    if i > 0 {
        let t = s.drop_first();
        assert forall|k: int| 0 <= k < i - 1 implies t[k] == SPACE by {
            assert(t[k] == s[k + 1]);
        }
        if i - 1 < t.len() {
            assert(t[i - 1] == s[i]);
        }
        lemma_lead_spaces_prefix(t, i - 1);
    }
}

// ---------------------------------------------------------------------------
// Unicode white space on UTF-8 bytes
// ---------------------------------------------------------------------------

/// ASCII bytes that encode a White_Space character: tab, line feed, vertical
/// tab, form feed, carriage return and space.
pub open spec fn is_ascii_ws(b: u8) -> bool {
    (9 <= b && b <= 13) || b == 32
}

/// Second bytes `b` for which `C2 b` encodes a White_Space character
/// (U+0085, U+00A0).
pub open spec fn is_ws2_tail(b: u8) -> bool {
    b == 0x85 || b == 0xA0
}

/// Whether the three bytes encode a White_Space character: U+1680,
/// U+2000..U+200A, U+2028, U+2029, U+202F, U+205F or U+3000.
pub open spec fn is_ws3(b0: u8, b1: u8, b2: u8) -> bool {
    ||| (b0 == 0xE1 && b1 == 0x9A && b2 == 0x80)
    ||| (b0 == 0xE2 && b1 == 0x80 && ((0x80 <= b2 && b2 <= 0x8A) || b2 == 0xA8 || b2 == 0xA9
        || b2 == 0xAF))
    ||| (b0 == 0xE2 && b1 == 0x81 && b2 == 0x9F)
    ||| (b0 == 0xE3 && b1 == 0x80 && b2 == 0x80)
}

/// Length in bytes of the White_Space character that starts at `i`, or 0 when
/// none starts there.
pub open spec fn ws_len_at(s: Seq<u8>, i: int) -> int {
    if 0 <= i < s.len() && is_ascii_ws(s[i]) {
        1
    } else if 0 <= i && i + 1 < s.len() && s[i] == 0xC2 && is_ws2_tail(s[i + 1]) {
        2
    } else if 0 <= i && i + 2 < s.len() && is_ws3(s[i], s[i + 1], s[i + 2]) {
        3
    } else {
        0
    }
}

/// Length in bytes of the White_Space character that ends just before `j`, or
/// 0 when none ends there.
pub open spec fn ws_len_before(s: Seq<u8>, j: int) -> int {
    if 1 <= j <= s.len() && is_ascii_ws(s[j - 1]) {
        1
    } else if 2 <= j <= s.len() && s[j - 2] == 0xC2 && is_ws2_tail(s[j - 1]) {
        2
    } else if 3 <= j <= s.len() && is_ws3(s[j - 3], s[j - 2], s[j - 1]) {
        3
    } else {
        0
    }
}

/// Start of `s[i..]` once its leading white space is removed.
pub open spec fn skip_ws(s: Seq<u8>, i: int) -> int
    decreases s.len() - i,
{
    if 0 <= i < s.len() && ws_len_at(s, i) > 0 {
        skip_ws(s, i + ws_len_at(s, i))
    } else {
        i
    }
}

/// End of `s[..j]` once its trailing white space, down to `lo`, is removed.
pub open spec fn skip_ws_back(s: Seq<u8>, lo: int, j: int) -> int
    decreases j,
{
    if lo < j && ws_len_before(s, j) > 0 && j - ws_len_before(s, j) >= lo {
        skip_ws_back(s, lo, j - ws_len_before(s, j))
    } else {
        j
    }
}

/// `s` without its leading white space (`str::trim_start`).
pub open spec fn trim_start(s: Seq<u8>) -> Seq<u8> {
    s.subrange(skip_ws(s, 0), s.len() as int)
}

/// `s` without its trailing white space (`str::trim_end`).
pub open spec fn trim_end(s: Seq<u8>) -> Seq<u8> {
    s.subrange(0, skip_ws_back(s, 0, s.len() as int))
}

/// `s` without leading and trailing white space (`str::trim`).
pub open spec fn trim(s: Seq<u8>) -> Seq<u8> {
    trim_end(trim_start(s))
}

/// `skip_ws` stays within bounds.
pub proof fn lemma_skip_ws(s: Seq<u8>, i: int)
    requires
        0 <= i <= s.len(),
    ensures
        i <= skip_ws(s, i) <= s.len(),
    decreases s.len() - i,
{
    if 0 <= i < s.len() && ws_len_at(s, i) > 0 {
        lemma_skip_ws(s, i + ws_len_at(s, i));
    }
}

/// `skip_ws_back` stays within bounds.
pub proof fn lemma_skip_ws_back(s: Seq<u8>, lo: int, j: int)
    requires
        0 <= lo <= j <= s.len(),
    ensures
        lo <= skip_ws_back(s, lo, j) <= j,
    decreases j,
{
    if lo < j && ws_len_before(s, j) > 0 && j - ws_len_before(s, j) >= lo {
        lemma_skip_ws_back(s, lo, j - ws_len_before(s, j));
    }
}

/// Length of the White_Space character starting at `i`, or 0.
pub fn ws_len_at_exec(s: &[u8], i: usize) -> (r: usize)
    requires
        i <= s@.len(),
    ensures
        r == ws_len_at(s@, i as int),
{
    let n = s.len();
    if i < n && ((9 <= s[i] && s[i] <= 13) || s[i] == 32) {
        1
    } else if i < n && n - i >= 2 && s[i] == 0xC2 && (s[i + 1] == 0x85 || s[i + 1] == 0xA0) {
        2
    } else if i < n && n - i >= 3 && is_ws3_exec(s[i], s[i + 1], s[i + 2]) {
        3
    } else {
        0
    }
}

/// Whether the three bytes encode a White_Space character.
pub fn is_ws3_exec(b0: u8, b1: u8, b2: u8) -> (r: bool)
    ensures
        r == is_ws3(b0, b1, b2),
{
    (b0 == 0xE1 && b1 == 0x9A && b2 == 0x80) || (b0 == 0xE2 && b1 == 0x80 && ((0x80 <= b2 && b2
        <= 0x8A) || b2 == 0xA8 || b2 == 0xA9 || b2 == 0xAF)) || (b0 == 0xE2 && b1 == 0x81 && b2
        == 0x9F) || (b0 == 0xE3 && b1 == 0x80 && b2 == 0x80)
}

/// Length of the White_Space character ending just before `j`, or 0.
pub fn ws_len_before_exec(s: &[u8], j: usize) -> (r: usize)
    requires
        j <= s@.len(),
    ensures
        r == ws_len_before(s@, j as int),
{
    if j >= 1 && ((9 <= s[j - 1] && s[j - 1] <= 13) || s[j - 1] == 32) {
        1
    } else if j >= 2 && s[j - 2] == 0xC2 && (s[j - 1] == 0x85 || s[j - 1] == 0xA0) {
        2
    } else if j >= 3 && is_ws3_exec(s[j - 3], s[j - 2], s[j - 1]) {
        3
    } else {
        0
    }
}

/// Index of the first byte of `s[i..]` that does not begin white space.
pub fn skip_ws_exec(s: &[u8], i: usize) -> (r: usize)
    requires
        i <= s@.len(),
    ensures
        r == skip_ws(s@, i as int),
        i <= r <= s@.len(),
{
    let mut k: usize = i;
    loop
        invariant
            i <= k <= s@.len(),
            skip_ws(s@, k as int) == skip_ws(s@, i as int),
        decreases s@.len() - k,
    {
        let w = ws_len_at_exec(s, k);
        if k >= s.len() || w == 0 {
            return k;
        }
        k = k + w;
    }
}

/// End of `s[lo..j]` once its trailing white space is removed.
pub fn skip_ws_back_exec(s: &[u8], lo: usize, j: usize) -> (r: usize)
    requires
        lo <= j <= s@.len(),
    ensures
        r == skip_ws_back(s@, lo as int, j as int),
        lo <= r <= j,
{
    let mut k: usize = j;
    loop
        invariant
            lo <= k <= j <= s@.len(),
            skip_ws_back(s@, lo as int, k as int) == skip_ws_back(s@, lo as int, j as int),
        decreases k,
    {
        let w = ws_len_before_exec(s, k);
        if k <= lo || w == 0 || k - w < lo {
            return k;
        }
        k = k - w;
    }
}

/// `s` without leading white space.
pub fn trim_start_bytes(s: &[u8]) -> (r: Vec<u8>)
    ensures
        r@ == trim_start(s@),
{
    let a = skip_ws_exec(s, 0);
    copy_range(s, a, s.len())
}

/// `s` without trailing white space.
pub fn trim_end_bytes(s: &[u8]) -> (r: Vec<u8>)
    ensures
        r@ == trim_end(s@),
{
    let b = skip_ws_back_exec(s, 0, s.len());
    copy_range(s, 0, b)
}

/// `s` without leading and trailing white space.
pub fn trim_bytes(s: &[u8]) -> (r: Vec<u8>)
    ensures
        r@ == trim(s@),
{
    let t = trim_start_bytes(s);
    trim_end_bytes(t.as_slice())
}

// ---------------------------------------------------------------------------
// Characters and ordering
// ---------------------------------------------------------------------------

/// Whether `b` starts a UTF-8 encoded character (is not a continuation byte).
pub open spec fn starts_char(b: u8) -> bool {
    b < 0x80 || b >= 0xC0
}

/// Number of characters of UTF-8 text `s` (`s.chars().count()`).
pub open spec fn char_count(s: Seq<u8>) -> nat
    decreases s.len(),
{
    if s.len() == 0 {
        0
    } else {
        char_count(s.drop_last()) + if starts_char(s.last()) {
            1nat
        } else {
            0nat
        }
    }
}

/// `char_count` never exceeds the number of bytes.
pub proof fn lemma_char_count_le(s: Seq<u8>)
    ensures
        char_count(s) <= s.len(),
    decreases s.len(),
{
    if s.len() > 0 {
        lemma_char_count_le(s.drop_last());
    }
}

/// Number of characters of UTF-8 text `s`.
pub fn count_chars(s: &[u8]) -> (r: usize)
    ensures
        r == char_count(s@),
{
    let mut n: usize = 0;
    let mut i: usize = 0;
    while i < s.len()
        invariant
            0 <= i <= s@.len(),
            n == char_count(s@.subrange(0, i as int)),
            n <= i,
        decreases s@.len() - i,
    {
        proof {
            let p = s@.subrange(0, i as int + 1);
            assert(p.drop_last() =~= s@.subrange(0, i as int));
        }
        if s[i] < 0x80 || s[i] >= 0xC0 {
            n = n + 1;
        }
        i += 1;
    }
    assert(s@.subrange(0, s@.len() as int) =~= s@);
    n
}

/// Byte-wise lexicographic order (the order of `str` and `String`).
pub open spec fn lex_le(a: Seq<u8>, b: Seq<u8>) -> bool
    decreases a.len(),
{
    if a.len() == 0 {
        true
    } else if b.len() == 0 {
        false
    } else if a[0] != b[0] {
        a[0] < b[0]
    } else {
        lex_le(a.drop_first(), b.drop_first())
    }
}

/// `lex_le` is total.
pub proof fn lemma_lex_total(a: Seq<u8>, b: Seq<u8>)
    ensures
        lex_le(a, b) || lex_le(b, a),
    decreases a.len(),
{
    if a.len() > 0 && b.len() > 0 && a[0] == b[0] {
        lemma_lex_total(a.drop_first(), b.drop_first());
    }
}

/// `lex_le` is antisymmetric.
pub proof fn lemma_lex_antisym(a: Seq<u8>, b: Seq<u8>)
    requires
        lex_le(a, b),
        lex_le(b, a),
    ensures
        a == b,
    decreases a.len(),
{
    if a.len() == 0 {
        assert(b.len() == 0);
        assert(a =~= b);
    } else {
        lemma_lex_antisym(a.drop_first(), b.drop_first());
        assert(a =~= seq![a[0]] + a.drop_first());
        assert(b =~= seq![b[0]] + b.drop_first());
    }
}

/// `lex_le` is transitive.
pub proof fn lemma_lex_trans(a: Seq<u8>, b: Seq<u8>, c: Seq<u8>)
    requires
        lex_le(a, b),
        lex_le(b, c),
    ensures
        lex_le(a, c),
    decreases a.len(),
{
    if a.len() > 0 && b.len() > 0 && c.len() > 0 && a[0] == b[0] && b[0] == c[0] {
        lemma_lex_trans(a.drop_first(), b.drop_first(), c.drop_first());
    }
}

/// Whether `a <= b` in byte-wise lexicographic order.
pub fn lex_le_exec(a: &[u8], b: &[u8]) -> (r: bool)
    ensures
        r == lex_le(a@, b@),
{
    let mut i: usize = 0;
    assert(a@.skip(0) =~= a@);
    assert(b@.skip(0) =~= b@);
    while i < a.len() && i < b.len() && a[i] == b[i]
        invariant
            0 <= i <= a@.len(),
            i <= b@.len(),
            lex_le(a@, b@) == lex_le(a@.skip(i as int), b@.skip(i as int)),
        decreases a@.len() - i,
    {
        proof {
            let sa = a@.skip(i as int);
            let sb = b@.skip(i as int);
            assert(sa.drop_first() =~= a@.skip(i as int + 1));
            assert(sb.drop_first() =~= b@.skip(i as int + 1));
        }
        i += 1;
    }
    if i == a.len() {
        true
    } else if i == b.len() {
        false
    } else {
        a[i] < b[i]
    }
}

/// Index of the last `b` in `s`, or -1 when there is none.
pub open spec fn last_index_of(s: Seq<u8>, b: u8) -> int
    decreases s.len(),
{
    if s.len() == 0 {
        -1
    } else if s.last() == b {
        s.len() - 1
    } else {
        last_index_of(s.drop_last(), b)
    }
}

/// `last_index_of` is -1 or an index holding `b`.
pub proof fn lemma_last_index_of(s: Seq<u8>, b: u8)
    ensures
        -1 <= last_index_of(s, b) < s.len(),
        last_index_of(s, b) >= 0 ==> s[last_index_of(s, b)] == b,
    decreases s.len(),
{
    if s.len() > 0 && s.last() != b {
        lemma_last_index_of(s.drop_last(), b);
    }
}

/// Position, relative to `start`, of the last `b` in `s[start..end]`.
pub fn rfind_byte(s: &[u8], start: usize, end: usize, b: u8) -> (r: Option<usize>)
    requires
        start <= end <= s@.len(),
    ensures
        r matches Some(k) ==> k == last_index_of(s@.subrange(start as int, end as int), b),
        r is None ==> last_index_of(s@.subrange(start as int, end as int), b) == -1,
{
    let mut j: usize = end;
    while j > start
        invariant
            start <= j <= end <= s@.len(),
            last_index_of(s@.subrange(start as int, end as int), b) == last_index_of(
                s@.subrange(start as int, j as int),
                b,
            ),
        decreases j,
    {
        let ghost sub = s@.subrange(start as int, j as int);
        assert(sub.last() == s@[j - 1]);
        if s[j - 1] == b {
            return Some(j - 1 - start);
        }
        assert(sub.drop_last() =~= s@.subrange(start as int, j - 1));
        j -= 1;
    }
    None
}

} // verus!
