//! Column arithmetic, block shifting, and syntax trees as plain values.
use vstd::prelude::*;
use vstd::slice::slice_subrange;
use vstd::string::*;

use crate::model::{SyntaxNode, SyntaxTree};
use crate::text::{
    bytes_equal,
    contains_newline, find_newline, has_newline, lead_spaces, lemma_lead_spaces,
    lemma_lead_spaces_prefix, lemma_next_newline, lines_from, next_newline, push_all, push_range, push_spaces, spaces, NEWLINE, SPACE,
};

verus! {

/// Byte offset at which the line holding `pos` begins: one past the last
/// line feed before `pos`, or 0.
pub open spec fn line_start(s: Seq<u8>, pos: int) -> int
    decreases pos,
{
    if pos <= 0 {
        0
    } else if s[pos - 1] == NEWLINE {
        pos
    } else {
        line_start(s, pos - 1)
    }
}

/// Column of `pos` within its own line.
pub open spec fn local_col_spec(s: Seq<u8>, pos: int) -> int {
    pos - line_start(s, pos)
}

/// Column of `pos` when `s` is a slice whose first line starts at column
/// `base_col` of the enclosing text.
pub open spec fn absolute_col(s: Seq<u8>, base_col: int, pos: int) -> int {
    if line_start(s, pos) == 0 {
        base_col + local_col_spec(s, pos)
    } else {
        local_col_spec(s, pos)
    }
}

/// `line_start` lies at or before `pos`, is 0 or follows a line feed, and no
/// line feed lies between it and `pos`.
pub proof fn lemma_line_start(s: Seq<u8>, pos: int)
    requires
        0 <= pos <= s.len(),
    ensures
        0 <= line_start(s, pos) <= pos,
        line_start(s, pos) > 0 ==> s[line_start(s, pos) - 1] == NEWLINE,
        forall|k: int| line_start(s, pos) <= k < pos ==> s[k] != NEWLINE,
    decreases pos,
{
    if pos > 0 && s[pos - 1] != NEWLINE {
        lemma_line_start(s, pos - 1);
    }
}

/// A column is never negative and never past `base + pos`.
pub proof fn lemma_absolute_col_bound(s: Seq<u8>, base: int, pos: int)
    requires
        0 <= pos <= s.len(),
        0 <= base,
    ensures
        0 <= absolute_col(s, base, pos) <= base + pos,
{
    lemma_line_start(s, pos);
}

/// Byte offset at which the line holding `byte_pos` begins.
pub fn line_start_byte(src: &[u8], byte_pos: usize) -> (r: usize)
    requires
        byte_pos <= src@.len(),
    ensures
        r == line_start(src@, byte_pos as int),
        r <= byte_pos,
{
    let mut i: usize = byte_pos;
    proof {
        lemma_line_start(src@, byte_pos as int);
    }
    while i > 0 && src[i - 1] != NEWLINE
        invariant
            0 <= i <= byte_pos <= src@.len(),
            line_start(src@, i as int) == line_start(src@, byte_pos as int),
        decreases i,
    {
        i -= 1;
    }
    i
}

/// Column of `byte_pos` within its own line.
pub fn local_col(src: &[u8], byte_pos: usize) -> (r: usize)
    requires
        byte_pos <= src@.len(),
    ensures
        r == local_col_spec(src@, byte_pos as int),
{
    byte_pos - line_start_byte(src, byte_pos)
}

/// Column of `byte_pos` when `src` is a slice whose first line starts at
/// column `base_col` of the enclosing text: positions on the first line are
/// offset by `base_col`, positions on later lines are not.
pub fn absolute_col_in_slice(src: &[u8], base_col: usize, byte_pos: usize) -> (r: usize)
    requires
        byte_pos <= src@.len(),
        line_start(src@, byte_pos as int) == 0 ==> base_col + byte_pos <= usize::MAX,
    ensures
        r == absolute_col(src@, base_col as int, byte_pos as int),
{
    if line_start_byte(src, byte_pos) == 0 {
        base_col + local_col(src, byte_pos)
    } else {
        local_col(src, byte_pos)
    }
}

// ---------------------------------------------------------------------------
// Shifting blocks of lines
// ---------------------------------------------------------------------------

/// Indentation `indent` moved by `delta`, never below 0.
pub open spec fn new_indent(indent: int, delta: int) -> int {
    if delta >= 0 {
        indent + delta
    } else if indent + delta >= 0 {
        indent + delta
    } else {
        0
    }
}

/// One line with its leading spaces moved by `delta`; an empty line stays empty.
pub open spec fn shift_line(line: Seq<u8>, delta: int) -> Seq<u8> {
    if line.len() == 0 {
        seq![]
    } else {
        spaces(new_indent(lead_spaces(line) as int, delta) as nat) + line.skip(
            lead_spaces(line) as int,
        )
    }
}

/// The lines of `s[from..]`, each shifted by `delta`, joined by line feeds.
pub open spec fn shift_lines_from(s: Seq<u8>, from: int, delta: int) -> Seq<u8>
    decreases s.len() - from,
{
    if from < 0 || from > s.len() {
        seq![]
    } else {
        let j = next_newline(s, from);
        if j >= s.len() || j < from {
            shift_line(s.subrange(from, s.len() as int), delta)
        } else {
            shift_line(s.subrange(from, j), delta) + seq![NEWLINE] + shift_lines_from(
                s,
                j + 1,
                delta,
            )
        }
    }
}

/// Text of a multi-line block moved horizontally by `delta`: the first line is
/// kept as it is, every later non-empty line has its leading spaces moved by
/// `delta` (never below 0). Text without a line feed, or a zero `delta`,
/// comes back unchanged.
pub open spec fn shift_multiline(text: Seq<u8>, delta: int) -> Seq<u8> {
    if !has_newline(text) || delta == 0 {
        text
    } else {
        let j = next_newline(text, 0);
        text.subrange(0, j) + seq![NEWLINE] + shift_lines_from(text, j + 1, delta)
    }
}

/// Text moved horizontally by `delta`, first line included. Empty text or a
/// zero `delta` comes back unchanged.
pub open spec fn shift_all_lines(text: Seq<u8>, delta: int) -> Seq<u8> {
    if delta == 0 || text.len() == 0 {
        text
    } else {
        shift_lines_from(text, 0, delta)
    }
}

/// Bound under which shifting `text` by `delta` stays within `usize`.
pub open spec fn shift_fits(text: Seq<u8>, delta: int) -> bool {
    &&& delta > isize::MIN
    &&& delta <= isize::MAX
    &&& (delta >= 0 ==> text.len() + delta <= usize::MAX)
}

/// Lines joined by line feeds.
pub open spec fn join_lines(ls: Seq<Seq<u8>>) -> Seq<u8>
    decreases ls.len(),
{
    if ls.len() == 0 {
        seq![]
    } else if ls.len() == 1 {
        ls[0]
    } else {
        ls[0] + seq![NEWLINE] + join_lines(ls.drop_first())
    }
}

/// Each line shifted by `delta`.
pub open spec fn shift_each(ls: Seq<Seq<u8>>, delta: int) -> Seq<Seq<u8>> {
    Seq::new(ls.len(), |i: int| shift_line(ls[i], delta))
}

/// Whether `s` holds no line feed.
pub open spec fn no_newline(s: Seq<u8>) -> bool {
    forall|k: int| 0 <= k < s.len() ==> s[k] != NEWLINE
}

/// The pieces between line feeds are at least one and hold no line feed.
proof fn lemma_lines_from_props(s: Seq<u8>, from: int)
    requires
        0 <= from <= s.len(),
    ensures
        lines_from(s, from).len() >= 1,
        forall|k: int|
            0 <= k < lines_from(s, from).len() ==> no_newline(#[trigger] lines_from(s, from)[k]),
    decreases s.len() - from,
{
    let j = next_newline(s, from);
    lemma_next_newline(s, from);
    if j < s.len() {
        lemma_lines_from_props(s, j + 1);
        let rest = lines_from(s, j + 1);
        assert forall|k: int| 0 <= k < lines_from(s, from).len() implies no_newline(
            #[trigger] lines_from(s, from)[k],
        ) by {
            if k > 0 {
                assert(lines_from(s, from)[k] == rest[k - 1]);
            }
        }
    }
}

/// Joining the pieces between line feeds gives the text back.
proof fn lemma_join_lines_from(s: Seq<u8>, from: int)
    requires
        0 <= from <= s.len(),
    ensures
        join_lines(lines_from(s, from)) == s.subrange(from, s.len() as int),
    decreases s.len() - from,
{
    let j = next_newline(s, from);
    lemma_next_newline(s, from);
    if j < s.len() {
        lemma_join_lines_from(s, j + 1);
        lemma_lines_from_props(s, j + 1);
        let ls = lines_from(s, from);
        assert(ls.drop_first() =~= lines_from(s, j + 1));
        assert(s.subrange(from, j) + seq![NEWLINE] + s.subrange(j + 1, s.len() as int)
            =~= s.subrange(from, s.len() as int));
    }
}

/// Shifting the lines from `from` on is joining the shifted pieces.
proof fn lemma_shift_lines_from_join(s: Seq<u8>, from: int, delta: int)
    requires
        0 <= from <= s.len(),
    ensures
        shift_lines_from(s, from, delta) == join_lines(shift_each(lines_from(s, from), delta)),
    decreases s.len() - from,
{
    let j = next_newline(s, from);
    lemma_next_newline(s, from);
    if j < s.len() {
        lemma_shift_lines_from_join(s, j + 1, delta);
        lemma_lines_from_props(s, j + 1);
        let x = shift_each(lines_from(s, from), delta);
        assert(x.drop_first() =~= shift_each(lines_from(s, j + 1), delta));
    } else {
        assert(shift_each(lines_from(s, from), delta) =~= seq![
            shift_line(s.subrange(from, s.len() as int), delta),
        ]);
    }
}

/// The first line feed at or after `from` in a text without one before `j`
/// and with one at `j` is at `j`.
proof fn lemma_next_newline_at(s: Seq<u8>, from: int, j: int)
    requires
        0 <= from <= j <= s.len(),
        forall|k: int| from <= k < j ==> s[k] != NEWLINE,
        j < s.len() ==> s[j] == NEWLINE,
    ensures
        next_newline(s, from) == j,
{
    lemma_next_newline(s, from);
}

/// The pieces of a text are unchanged by text placed before it.
proof fn lemma_lines_from_prefix(p: Seq<u8>, s: Seq<u8>, from: int)
    requires
        0 <= from <= s.len(),
    ensures
        lines_from(p + s, p.len() + from) == lines_from(s, from),
    decreases s.len() - from,
{
    let t = p + s;
    let j = next_newline(s, from);
    lemma_next_newline(s, from);
    lemma_next_newline_at(t, p.len() + from, p.len() + j);
    if j < s.len() {
        lemma_lines_from_prefix(p, s, j + 1);
        assert(t.subrange(p.len() + from, p.len() + j) =~= s.subrange(from, j));
    } else {
        assert(t.subrange(p.len() + from, t.len() as int) =~= s.subrange(from, s.len() as int));
    }
}

/// Splitting joined lines without line feeds gives them back.
proof fn lemma_lines_of_join(ls: Seq<Seq<u8>>)
    requires
        ls.len() >= 1,
        forall|k: int| 0 <= k < ls.len() ==> no_newline(#[trigger] ls[k]),
    ensures
        lines_from(join_lines(ls), 0) == ls,
    decreases ls.len(),
{
    let t = join_lines(ls);
    if ls.len() == 1 {
        assert(no_newline(ls[0]));
        lemma_next_newline_at(t, 0, t.len() as int);
        assert(t.subrange(0, t.len() as int) =~= t);
        assert(lines_from(t, 0) =~= ls);
    } else {
        let rest = ls.drop_first();
        assert forall|k: int| 0 <= k < rest.len() implies no_newline(#[trigger] rest[k]) by {
            assert(rest[k] == ls[k + 1]);
        }
        lemma_lines_of_join(rest);
        assert(no_newline(ls[0]));
        let p = ls[0] + seq![NEWLINE];
        assert(t =~= p + join_lines(rest));
        lemma_next_newline_at(t, 0, ls[0].len() as int);
        lemma_lines_from_prefix(p, join_lines(rest), 0);
        assert(t.subrange(0, ls[0].len() as int) =~= ls[0]);
        assert(lines_from(t, 0) =~= seq![ls[0]] + rest);
        assert(seq![ls[0]] + rest =~= ls);
    }
}

/// A shifted line holds a line feed only if the line does.
proof fn lemma_shift_line_no_newline(l: Seq<u8>, delta: int)
    requires
        no_newline(l),
    ensures
        no_newline(shift_line(l, delta)),
        delta >= 0 ==> shift_line(l, delta).len() >= l.len(),
{
    if l.len() > 0 {
        lemma_lead_spaces(l);
        let ind = lead_spaces(l) as int;
        let m = shift_line(l, delta);
        assert forall|k: int| 0 <= k < m.len() implies m[k] != NEWLINE by {
            let n = new_indent(ind, delta);
            if k >= n {
                assert(m[k] == l[ind + k - n]);
            }
        }
    }
}

/// Shifting a line right by `delta` and back left by `delta` gives it back.
proof fn lemma_shift_line_inverse(l: Seq<u8>, delta: int)
    requires
        delta >= 0,
    ensures
        shift_line(shift_line(l, delta), -delta) == l,
{
    if l.len() > 0 {
        lemma_lead_spaces(l);
        let ind = lead_spaces(l) as int;
        let rest = l.skip(ind);
        let m = shift_line(l, delta);
        assert(m =~= spaces((ind + delta) as nat) + rest);
        assert forall|k: int| 0 <= k < ind + delta implies m[k] == SPACE by {}
        if ind + delta < m.len() {
            assert(m[ind + delta] == l[ind]);
        }
        lemma_lead_spaces_prefix(m, ind + delta);
        assert(m.skip(ind + delta) =~= rest);
        assert(spaces(ind as nat) + rest =~= l);
    }
}

/// Moving a block's later lines right by `delta` and then back left by
/// `delta` gives the block back; empty lines stay empty either way.
///
/// (Moving left first does not always undo: indentation stops at 0.)
pub proof fn lemma_shift_multiline_inverse(text: Seq<u8>, delta: int)
    requires
        delta >= 0,
    ensures
        shift_multiline(shift_multiline(text, delta), -delta) == text,
{
    if has_newline(text) && delta != 0 {
        let j = next_newline(text, 0);
        lemma_next_newline(text, 0);
        let k0 = choose|k: int| 0 <= k < text.len() && text[k] == NEWLINE;
        assert(j < text.len());
        let ls = lines_from(text, j + 1);
        lemma_lines_from_props(text, j + 1);
        let sh = shift_each(ls, delta);
        lemma_shift_lines_from_join(text, j + 1, delta);
        let p = text.subrange(0, j) + seq![NEWLINE];
        let u = p + join_lines(sh);
        assert(u =~= shift_multiline(text, delta));
        assert(u[j] == NEWLINE);
        assert(has_newline(u));
        lemma_next_newline_at(u, 0, j);
        assert forall|k: int| 0 <= k < sh.len() implies no_newline(#[trigger] sh[k]) by {
            lemma_shift_line_no_newline(ls[k], delta);
        }
        lemma_lines_of_join(sh);
        lemma_lines_from_prefix(p, join_lines(sh), 0);
        lemma_shift_lines_from_join(u, j + 1, -delta);
        assert forall|k: int| 0 <= k < ls.len() implies #[trigger] shift_each(sh, -delta)[k]
            == ls[k] by {
            lemma_shift_line_inverse(ls[k], delta);
        }
        assert(shift_each(sh, -delta) =~= ls);
        lemma_join_lines_from(text, j + 1);
        assert(u.subrange(0, j) =~= text.subrange(0, j));
        assert(text.subrange(0, j) + seq![NEWLINE] + text.subrange(j + 1, text.len() as int)
            =~= text);
    }
}

/// Moving every line of a block right by `delta` and then back left by
/// `delta` gives the block back; empty lines stay empty either way.
pub proof fn lemma_shift_all_lines_inverse(text: Seq<u8>, delta: int)
    requires
        delta >= 0,
    ensures
        shift_all_lines(shift_all_lines(text, delta), -delta) == text,
{
    if delta != 0 && text.len() > 0 {
        let ls = lines_from(text, 0);
        lemma_lines_from_props(text, 0);
        let sh = shift_each(ls, delta);
        lemma_shift_lines_from_join(text, 0, delta);
        let u = join_lines(sh);
        assert forall|k: int| 0 <= k < sh.len() implies no_newline(#[trigger] sh[k]) by {
            lemma_shift_line_no_newline(ls[k], delta);
        }
        lemma_lines_of_join(sh);
        lemma_join_lines_from(text, 0);
        assert(text.subrange(0, text.len() as int) =~= text);
        lemma_join_len(ls, sh);
        lemma_shift_lines_from_join(u, 0, -delta);
        assert forall|k: int| 0 <= k < ls.len() implies #[trigger] shift_each(sh, -delta)[k]
            == ls[k] by {
            lemma_shift_line_inverse(ls[k], delta);
        }
        assert(shift_each(sh, -delta) =~= ls);
    }
}

/// Shifting a line right twice is shifting it right once by the sum.
proof fn lemma_shift_line_compose(l: Seq<u8>, a: int, b: int)
    requires
        a >= 0,
        b >= 0,
    ensures
        shift_line(shift_line(l, a), b) == shift_line(l, a + b),
{
    if l.len() > 0 {
        lemma_lead_spaces(l);
        let ind = lead_spaces(l) as int;
        let rest = l.skip(ind);
        let m = shift_line(l, a);
        assert(m =~= spaces((ind + a) as nat) + rest);
        assert forall|k: int| 0 <= k < ind + a implies m[k] == SPACE by {}
        if ind + a < m.len() {
            assert(m[ind + a] == l[ind]);
        }
        lemma_lead_spaces_prefix(m, ind + a);
        assert(m.skip(ind + a) =~= rest);
    }
}

/// Moving a block's later lines right by `a` and then by `b` is moving them
/// right once by `a + b`.
pub proof fn lemma_shift_multiline_compose(text: Seq<u8>, a: int, b: int)
    requires
        a >= 0,
        b >= 0,
    ensures
        shift_multiline(shift_multiline(text, a), b) == shift_multiline(text, a + b),
{
    if has_newline(text) && a != 0 && b != 0 {
        let j = next_newline(text, 0);
        lemma_next_newline(text, 0);
        let k0 = choose|k: int| 0 <= k < text.len() && text[k] == NEWLINE;
        assert(j < text.len());
        let ls = lines_from(text, j + 1);
        lemma_lines_from_props(text, j + 1);
        let sh = shift_each(ls, a);
        lemma_shift_lines_from_join(text, j + 1, a);
        lemma_shift_lines_from_join(text, j + 1, a + b);
        let p = text.subrange(0, j) + seq![NEWLINE];
        let u = p + join_lines(sh);
        assert(u =~= shift_multiline(text, a));
        assert(u[j] == NEWLINE);
        assert(has_newline(u));
        lemma_next_newline_at(u, 0, j);
        assert forall|k: int| 0 <= k < sh.len() implies no_newline(#[trigger] sh[k]) by {
            lemma_shift_line_no_newline(ls[k], a);
        }
        lemma_lines_of_join(sh);
        lemma_lines_from_prefix(p, join_lines(sh), 0);
        lemma_shift_lines_from_join(u, j + 1, b);
        assert forall|k: int| 0 <= k < ls.len() implies #[trigger] shift_each(sh, b)[k]
            == shift_each(ls, a + b)[k] by {
            lemma_shift_line_compose(ls[k], a, b);
        }
        assert(shift_each(sh, b) =~= shift_each(ls, a + b));
        assert(u.subrange(0, j) =~= text.subrange(0, j));
    }
}

/// Moving every line of a block right by `d` is `d` spaces before moving its
/// later lines, when the first line is not empty.
pub proof fn lemma_shift_all_lines_first(text: Seq<u8>, d: int)
    requires
        d >= 0,
        text.len() > 0,
        text[0] != NEWLINE,
    ensures
        shift_all_lines(text, d) == spaces(d as nat) + shift_multiline(text, d),
{
    if d == 0 {
        assert(spaces(0) + text =~= text);
    } else {
        let j = next_newline(text, 0);
        lemma_next_newline(text, 0);
        let l = text.subrange(0, if j < text.len() { j } else { text.len() as int });
        lemma_lead_spaces(l);
        let ind = lead_spaces(l) as int;
        assert(spaces((ind + d) as nat) + l.skip(ind) =~= spaces(d as nat) + l);
        if j < text.len() {
            assert(has_newline(text));
        } else {
            assert(!has_newline(text)) by {
                if has_newline(text) {
                    let k = choose|k: int| 0 <= k < text.len() && text[k] == NEWLINE;
                    assert(text[k] != NEWLINE);
                }
            }
            assert(l =~= text);
        }
    }
}

/// Shifting later lines keeps the first byte of a block.
pub proof fn lemma_shift_multiline_first(text: Seq<u8>, delta: int)
    requires
        text.len() > 0,
    ensures
        shift_multiline(text, delta).len() > 0,
        shift_multiline(text, delta)[0] == text[0],
{
    if has_newline(text) && delta != 0 {
        let j = next_newline(text, 0);
        lemma_next_newline(text, 0);
        if j == 0 {
            let k = choose|k: int| 0 <= k < text.len() && text[k] == NEWLINE;
            assert(text[0] == NEWLINE);
        }
    }
}

/// Lines at least as long as others join to a text at least as long.
proof fn lemma_join_len(a: Seq<Seq<u8>>, b: Seq<Seq<u8>>)
    requires
        a.len() == b.len(),
        forall|k: int| 0 <= k < a.len() ==> (#[trigger] b[k]).len() >= a[k].len(),
    ensures
        join_lines(b).len() >= join_lines(a).len(),
    decreases a.len(),
{
    if a.len() > 1 {
        assert forall|k: int| 0 <= k < a.len() - 1 implies (#[trigger] b.drop_first()[k]).len()
            >= a.drop_first()[k].len() by {
            assert(b.drop_first()[k] == b[k + 1]);
        }
        lemma_join_len(a.drop_first(), b.drop_first());
    }
}

/// Number of spaces at the start of `s[start..end]`.
fn count_spaces_in(s: &[u8], start: usize, end: usize) -> (r: usize)
    requires
        start <= end <= s@.len(),
    ensures
        r == lead_spaces(s@.subrange(start as int, end as int)),
        r <= end - start,
{
    let mut i: usize = start;
    while i < end && s[i] == SPACE
        invariant
            start <= i <= end <= s@.len(),
            forall|k: int| start <= k < i ==> s@[k] == SPACE,
        decreases end - i,
    {
        i += 1;
    }
    proof {
        let line = s@.subrange(start as int, end as int);
        assert forall|k: int| 0 <= k < i - start implies line[k] == SPACE by {
            assert(line[k] == s@[start + k]);
        }
        if i < end {
            assert(line[i - start] == s@[i as int]);
        }
        lemma_lead_spaces_prefix(line, i - start);
    }
    i - start
}

/// Appends the line `s[start..end]` shifted by `delta` to `out`.
fn push_shifted_line(out: &mut Vec<u8>, s: &[u8], start: usize, end: usize, delta: isize)
    requires
        start <= end <= s@.len(),
        shift_fits(s@, delta as int),
    ensures
        final(out)@ == old(out)@ + shift_line(s@.subrange(start as int, end as int), delta as int),
{
    if start == end {
        assert(old(out)@ + shift_line(s@.subrange(start as int, end as int), delta as int)
            =~= old(out)@);
        return ;
    }
    let indent = count_spaces_in(s, start, end);
    let n: usize = if delta >= 0 {
        indent + delta as usize
    } else {
        let d: usize = (-delta) as usize;
        if indent >= d {
            indent - d
        } else {
            0
        }
    };
    push_spaces(out, n);
    push_range(out, s, start + indent, end);
    proof {
        let line = s@.subrange(start as int, end as int);
        assert(line.skip(indent as int) =~= s@.subrange(start + indent, end as int));
        assert(n == new_indent(indent as int, delta as int));
    }
}

/// Appends `shift_lines_from(s, from, delta)` to `out`.
fn push_shifted_lines(out: &mut Vec<u8>, s: &[u8], from: usize, delta: isize)
    requires
        from <= s@.len(),
        shift_fits(s@, delta as int),
    ensures
        final(out)@ == old(out)@ + shift_lines_from(s@, from as int, delta as int),
{
    let ghost init = out@;
    let mut p: usize = from;
    let mut done = false;
    while !done
        invariant
            from <= p <= s@.len(),
            shift_fits(s@, delta as int),
            !done ==> out@ + shift_lines_from(s@, p as int, delta as int) == init
                + shift_lines_from(s@, from as int, delta as int),
            done ==> out@ == init + shift_lines_from(s@, from as int, delta as int),
        decreases s@.len() - p + if done {
            0int
        } else {
            1int
        },
    {
        let j = find_newline(s, p);
        proof {
            lemma_next_newline(s@, p as int);
        }
        let ghost before = out@;
        push_shifted_line(out, s, p, j, delta);
        if j >= s.len() {
            assert(shift_lines_from(s@, p as int, delta as int) == shift_line(
                s@.subrange(p as int, s@.len() as int),
                delta as int,
            ));
            assert(out@ =~= init + shift_lines_from(s@, from as int, delta as int));
            done = true;
        } else {
            out.push(NEWLINE);
            proof {
                assert(shift_lines_from(s@, p as int, delta as int) == shift_line(
                    s@.subrange(p as int, j as int),
                    delta as int,
                ) + seq![NEWLINE] + shift_lines_from(s@, j + 1, delta as int));
                assert(out@ + shift_lines_from(s@, j + 1, delta as int) =~= before
                    + shift_lines_from(s@, p as int, delta as int));
            }
            p = j + 1;
        }
    }
}

/// Moves every line after the first of `text` by `delta` columns.
///
/// The first line is kept as it is; every later non-empty line has its
/// leading spaces moved by `delta`, never below 0. Text without a line feed,
/// or a zero `delta`, comes back unchanged.
pub fn shift_multiline_block(text: &[u8], delta: isize) -> (r: Vec<u8>)
    requires
        shift_fits(text@, delta as int),
    ensures
        r@ == shift_multiline(text@, delta as int),
{
    let mut out: Vec<u8> = Vec::new();
    let multi = contains_newline(text);
    if !multi || delta == 0 {
        push_all(&mut out, text);
        assert(out@ =~= text@);
        return out;
    }
    assert(has_newline(text@));
    let n = text.len();
    let j = find_newline(text, 0);
    proof {
        lemma_next_newline(text@, 0);
    }
    assert(j < text@.len()) by {
        if j >= text@.len() {
            let k = choose|k: int| 0 <= k < text@.len() && text@[k] == NEWLINE;
            assert(text@[k] != NEWLINE);
        }
    }
    push_range(&mut out, text, 0, j);
    out.push(NEWLINE);
    push_shifted_lines(&mut out, text, j + 1, delta);
    assert(out@ =~= shift_multiline(text@, delta as int));
    out
}

/// Moves every line of `text`, the first included, by `delta` columns.
///
/// Empty lines stay empty; indentation never goes below 0. Empty text or a
/// zero `delta` comes back unchanged.
pub fn shift_block_all_lines(text: &[u8], delta: isize) -> (r: Vec<u8>)
    requires
        shift_fits(text@, delta as int),
    ensures
        r@ == shift_all_lines(text@, delta as int),
{
    let mut out: Vec<u8> = Vec::new();
    if delta == 0 || text.len() == 0 {
        push_all(&mut out, text);
        assert(out@ =~= text@);
        return out;
    }
    push_shifted_lines(&mut out, text, 0, delta);
    assert(out@ =~= shift_all_lines(text@, delta as int));
    out
}

// ---------------------------------------------------------------------------
// Syntax trees
// ---------------------------------------------------------------------------

/// The syntax tree that the Clojure grammar of `tree_sitter_clojure` gives
/// for `src` under `tree_sitter`, or `None` where the parser yields no tree.
pub uninterp spec fn clojure_parse(src: Seq<u8>) -> Option<SyntaxTree>;

/// A node of a `tree_sitter` syntax tree; opaque here, converted at once.
#[verifier::external_type_specification]
#[verifier::external_body]
pub struct ExTreeSitterNode<'tree>(tree_sitter::Node<'tree>);

/// Converts a `tree_sitter` node and its descendants into plain values.
#[verifier::external_body]
fn syntax_node_of(node: tree_sitter::Node) -> SyntaxNode {
    let mut cursor = node.walk();
    let children = node.children(&mut cursor).map(syntax_node_of).collect();
    SyntaxNode {
        kind: node.kind().as_bytes().to_vec(),
        is_named: node.is_named(),
        start_byte: node.start_byte(),
        end_byte: node.end_byte(),
        start_row: node.start_position().row,
        start_col: node.start_position().column,
        end_row: node.end_position().row,
        is_error: node.is_error(),
        is_missing: node.is_missing(),
        has_error: node.has_error(),
        children,
    }
}

/// Parses `source` with `tree_sitter::Parser::parse`, the language set to
/// `tree_sitter_clojure::LANGUAGE`.
///
/// Trusted: the result is claimed to be the value that `clojure_parse` names
/// for the same bytes, that is, that parsing depends on the bytes alone.
/// Nothing is claimed of the shape of the tree; the callers check the spans
/// they use.
#[verifier::external_body]
pub fn get_tree(source: &[u8]) -> (r: Option<SyntaxTree>)
    ensures
        r == clojure_parse(source@),
{
    let mut parser = tree_sitter::Parser::new();
    parser.set_language(&tree_sitter_clojure::LANGUAGE.into()).ok()?;
    let tree = parser.parse(source, None)?;
    Some(SyntaxTree { root: syntax_node_of(tree.root_node()) })
}

/// The root node of a parsed text.
pub fn get_root_node(tree: &SyntaxTree) -> (r: Option<&SyntaxNode>)
    ensures
        r matches Some(n) && *n == tree.root,
{
    Some(&tree.root)
}

/// The nodes a sequence of references points to.
pub open spec fn derefs(r: Seq<&SyntaxNode>) -> Seq<SyntaxNode> {
    Seq::new(r.len(), |i: int| *r[i])
}

/// The named nodes of `s`, in order.
pub open spec fn keep_named(s: Seq<SyntaxNode>) -> Seq<SyntaxNode>
    decreases s.len(),
{
    if s.len() == 0 {
        seq![]
    } else if s.last().is_named {
        keep_named(s.drop_last()).push(s.last())
    } else {
        keep_named(s.drop_last())
    }
}

/// Whether `n` is a named node that is neither a comment (`;;`) nor an
/// ignored form (`#_`).
pub open spec fn is_code_node(n: SyntaxNode) -> bool {
    &&& n.is_named
    &&& n.kind@ != "comment".spec_bytes()
    &&& n.kind@ != "dis_expr".spec_bytes()
}

/// The code nodes of `s`, in order.
pub open spec fn keep_code(s: Seq<SyntaxNode>) -> Seq<SyntaxNode>
    decreases s.len(),
{
    if s.len() == 0 {
        seq![]
    } else if is_code_node(s.last()) {
        keep_code(s.drop_last()).push(s.last())
    } else {
        keep_code(s.drop_last())
    }
}

/// What `keep_code` keeps: code nodes only, every code node of `s`, and no
/// more nodes than `s` has.
proof fn lemma_keep_code(s: Seq<SyntaxNode>)
    ensures
        keep_code(s).len() <= s.len(),
        forall|k: int| 0 <= k < keep_code(s).len() ==> is_code_node(#[trigger] keep_code(s)[k]),
        forall|k: int|
            0 <= k < s.len() && is_code_node(s[k]) ==> keep_code(s).contains(#[trigger] s[k]),
    decreases s.len(),
{
    if s.len() > 0 {
        let init = s.drop_last();
        let ki = keep_code(init);
        let ks = keep_code(s);
        lemma_keep_code(init);
        assert forall|k: int| 0 <= k < ks.len() implies is_code_node(#[trigger] ks[k]) by {
            if k < ki.len() {
                assert(ks[k] == ki[k]);
            }
        }
        assert forall|k: int| 0 <= k < s.len() && is_code_node(s[k]) implies ks.contains(
            #[trigger] s[k],
        ) by {
            if k < s.len() - 1 {
                assert(s[k] == init[k]);
                assert(ki.contains(init[k]));
                let j = choose|j: int| 0 <= j < ki.len() && ki[j] == init[k];
                assert(ks[j] == ki[j]);
            } else {
                assert(ks[ki.len() as int] == s.last());
            }
        }
    }
}

/// Comments (`;;`) and ignored forms (`#_`) are never among the elements the
/// aligners read: every node of `code_kids` is a named node that is neither,
/// and every such child of the node is among them.
pub proof fn lemma_code_kids(n: SyntaxNode)
    ensures
        forall|k: int| 0 <= k < code_kids(n).len() ==> is_code_node(#[trigger] code_kids(n)[k]),
        forall|k: int|
            0 <= k < n.children@.len() && is_code_node(n.children@[k]) ==> code_kids(n).contains(
                #[trigger] n.children@[k],
            ),
{
    lemma_keep_code(n.children@);
}

/// The named children of `n`.
pub open spec fn named_kids(n: SyntaxNode) -> Seq<SyntaxNode> {
    keep_named(n.children@)
}

/// The named children of `n` that are not comments or ignored forms.
pub open spec fn code_kids(n: SyntaxNode) -> Seq<SyntaxNode> {
    keep_code(n.children@)
}

/// The first named child of `n`.
pub open spec fn first_named(n: SyntaxNode) -> Option<SyntaxNode> {
    if named_kids(n).len() > 0 {
        Some(named_kids(n)[0])
    } else {
        None
    }
}

/// The text a node spans.
pub open spec fn text_of(n: SyntaxNode, src: Seq<u8>) -> Seq<u8> {
    src.subrange(n.start_byte as int, n.end_byte as int)
}

/// Whether the span of `n` lies within a text of `len` bytes.
pub open spec fn span_ok(n: SyntaxNode, len: nat) -> bool {
    n.start_byte <= n.end_byte <= len
}

/// Whether the node is a list, vector or map literal.
pub open spec fn is_traversable_spec(n: SyntaxNode) -> bool {
    ||| n.kind@ == "list_lit".spec_bytes()
    ||| n.kind@ == "vec_lit".spec_bytes()
    ||| n.kind@ == "map_lit".spec_bytes()
}

/// Whether the node is malformed, missing, or holds an error.
pub open spec fn has_missing_or_error_spec(n: SyntaxNode) -> bool {
    n.is_error || n.is_missing || n.has_error
}

/// Whether the node's kind is `lit`.
pub fn kind_is(node: &SyntaxNode, lit: &str) -> (r: bool)
    ensures
        r == (node.kind@ == lit.spec_bytes()),
{
    bytes_equal(node.kind.as_slice(), lit.as_bytes())
}

/// Whether the node is a list, vector or map literal.
pub fn is_traversable(node: &SyntaxNode) -> (r: bool)
    ensures
        r == is_traversable_spec(*node),
{
    kind_is(node, "list_lit") || kind_is(node, "vec_lit") || kind_is(node, "map_lit")
}

/// Whether the node is malformed, missing, or holds an error.
pub fn has_missing_or_error(node: &SyntaxNode) -> (r: bool)
    ensures
        r == has_missing_or_error_spec(*node),
{
    node.is_error || node.is_missing || node.has_error
}

/// The text the node spans.
pub fn node_text<'a>(node: &SyntaxNode, src: &'a [u8]) -> (r: &'a [u8])
    requires
        span_ok(*node, src@.len()),
    ensures
        r@ == text_of(*node, src@),
{
    slice_subrange(src, node.start_byte, node.end_byte)
}

/// The named children of `node`, in order.
pub fn named_children(node: &SyntaxNode) -> (r: Vec<&SyntaxNode>)
    ensures
        derefs(r@) == named_kids(*node),
{
    let mut r: Vec<&SyntaxNode> = Vec::new();
    let mut i: usize = 0;
    while i < node.children.len()
        invariant
            0 <= i <= node.children@.len(),
            derefs(r@) == keep_named(node.children@.subrange(0, i as int)),
        decreases node.children@.len() - i,
    {
        let ghost pre = node.children@.subrange(0, i as int);
        assert(node.children@.subrange(0, i + 1).drop_last() =~= pre);
        if node.children[i].is_named {
            r.push(&node.children[i]);
        }
        i += 1;
        assert(derefs(r@) =~= keep_named(node.children@.subrange(0, i as int)));
    }
    assert(node.children@.subrange(0, node.children@.len() as int) =~= node.children@);
    r
}

/// Whether the node is a comment (`;;`) or an ignored form (`#_`).
fn is_comment_or_ignored(node: &SyntaxNode) -> (r: bool)
    ensures
        r == (node.kind@ == "comment".spec_bytes() || node.kind@ == "dis_expr".spec_bytes()),
{
    kind_is(node, "comment") || kind_is(node, "dis_expr")
}

/// The named children of `node` without comments (`;;`) and ignored forms
/// (`#_`), in order.
pub fn non_comment_children(node: &SyntaxNode) -> (r: Vec<&SyntaxNode>)
    ensures
        derefs(r@) == code_kids(*node),
{
    let mut r: Vec<&SyntaxNode> = Vec::new();
    let mut i: usize = 0;
    while i < node.children.len()
        invariant
            0 <= i <= node.children@.len(),
            derefs(r@) == keep_code(node.children@.subrange(0, i as int)),
        decreases node.children@.len() - i,
    {
        let ghost pre = node.children@.subrange(0, i as int);
        assert(node.children@.subrange(0, i + 1).drop_last() =~= pre);
        if node.children[i].is_named && !is_comment_or_ignored(&node.children[i]) {
            r.push(&node.children[i]);
        }
        i += 1;
        assert(derefs(r@) =~= keep_code(node.children@.subrange(0, i as int)));
    }
    assert(node.children@.subrange(0, node.children@.len() as int) =~= node.children@);
    r
}

/// The first named child of `node` (`Node::named_child(0)`).
pub fn first_named_child(node: &SyntaxNode) -> (r: Option<&SyntaxNode>)
    ensures
        r matches Some(c) ==> first_named(*node) == Some(*c),
        r is None ==> first_named(*node) is None,
{
    let kids = named_children(node);
    if kids.len() == 0 {
        None
    } else {
        proof {
            assert(derefs(kids@)[0] == *kids@[0]);
        }
        Some(kids[0])
    }
}

/// Whether every code child of `n` spans text within `len` bytes.
pub open spec fn kids_spans_ok(n: SyntaxNode, len: nat) -> bool {
    forall|i: int| 0 <= i < code_kids(n).len() ==> span_ok(#[trigger] code_kids(n)[i], len)
}

} // verus!
