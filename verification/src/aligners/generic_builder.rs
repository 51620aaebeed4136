//! Laying out test/result pairs one per line: the tests at one column, the
//! results one column past the widest test that fits on one line. Shared by
//! `cond`-like, `condp` and binding forms.
use vstd::prelude::*;
use vstd::slice::slice_subrange;

use crate::aligners::map_like::{prepend, prev_int};
use crate::helpers::{
    absolute_col, absolute_col_in_slice, lemma_absolute_col_bound, lemma_line_start, line_start,
    line_start_byte, shift_multiline, shift_multiline_block,
};
use crate::model::{pair_views, Pair, PairView};
use crate::text::{
    contains_newline, copy_range, has_newline, last_index_of, lemma_last_index_of, push_all, push_range, push_spaces, rfind_byte, skip_ws, skip_ws_exec, spaces, trim_end,
    trim_end_bytes, trim_start, NEWLINE,
};

verus! {

/// Whether a pair takes part in aligning the results: it has a result and
/// its test fits on one line.
pub open spec fn is_aligned_pair(p: PairView) -> bool {
    p.rh.len() > 0 && !has_newline(p.lh)
}

/// The widest test among the aligned pairs, 0 when there is none.
pub open spec fn max_pair_width(pairs: Seq<PairView>) -> int
    decreases pairs.len(),
{
    if pairs.len() == 0 {
        0
    } else {
        let m = max_pair_width(pairs.drop_last());
        if is_aligned_pair(pairs.last()) && pairs.last().lh_width > m {
            pairs.last().lh_width
        } else {
            m
        }
    }
}

/// `max_pair_width` bounds the width of every aligned pair and stays below
/// any bound of all widths.
pub proof fn lemma_max_pair_width(pairs: Seq<PairView>, bound: int)
    requires
        0 <= bound,
        forall|k: int| 0 <= k < pairs.len() ==> (#[trigger] pairs[k]).lh_width <= bound,
    ensures
        0 <= max_pair_width(pairs) <= bound,
        forall|k: int|
            0 <= k < pairs.len() && is_aligned_pair(#[trigger] pairs[k]) ==> pairs[k].lh_width
                <= max_pair_width(pairs),
    decreases pairs.len(),
{
    if pairs.len() > 0 {
        let init = pairs.drop_last();
        assert forall|k: int| 0 <= k < init.len() implies (#[trigger] init[k]).lh_width
            <= bound by {
            assert(init[k] == pairs[k]);
        }
        lemma_max_pair_width(init, bound);
        assert forall|k: int|
            0 <= k < pairs.len() && is_aligned_pair(#[trigger] pairs[k]) implies pairs[k].lh_width
            <= max_pair_width(pairs) by {
            if k < init.len() {
                assert(init[k] == pairs[k]);
            }
        }
    }
}

/// The column just after the end of `t`, whose last line starts at column 0
/// when `t` has several lines.
pub open spec fn col_after(t: Seq<u8>) -> int {
    t.len() - (last_index_of(t, NEWLINE) + 1)
}

/// Column at which the test of `p` goes: where it stands for a pair kept
/// inline, `target` otherwise.
pub open spec fn test_col(src: Seq<u8>, p: PairView, inline: bool, target: int, base: int) -> int {
    if inline {
        absolute_col(src, base, p.lh_start)
    } else {
        target
    }
}

/// The test of `p` moved to its column, later lines included.
pub open spec fn placed_test(
    src: Seq<u8>,
    p: PairView,
    inline: bool,
    target: int,
    base: int,
) -> Seq<u8> {
    shift_multiline(p.lh, test_col(src, p, inline, target, base) - absolute_col(src, base, p.lh_start))
}

/// Spaces between the test of `p` and its result: up to one past the widest
/// test, or one after a test of several lines.
pub open spec fn result_gap(p: PairView, maxw: int) -> int {
    if has_newline(p.lh) {
        1
    } else {
        maxw - p.lh_width + 1
    }
}

/// Column at which the result of `p` goes.
pub open spec fn result_col(
    src: Seq<u8>,
    p: PairView,
    inline: bool,
    target: int,
    base: int,
    maxw: int,
) -> int {
    if has_newline(p.lh) {
        col_after(placed_test(src, p, inline, target, base)) + 1
    } else {
        test_col(src, p, inline, target, base) + maxw + 1
    }
}

/// Results of pairs laid out on their own lines go to one column: one past
/// the widest one-line test, counted from `target`; at least one space
/// separates each such test from its result.
pub proof fn lemma_results_share_a_column(src: Seq<u8>, pairs: Seq<PairView>, target: int, base: int)
    requires
        forall|k: int| 0 <= k < pairs.len() ==> 0 <= (#[trigger] pairs[k]).lh_width <= src.len(),
    ensures
        forall|k: int|
            0 <= k < pairs.len() && is_aligned_pair(#[trigger] pairs[k]) ==> {
                &&& result_col(src, pairs[k], false, target, base, max_pair_width(pairs)) == target
                    + max_pair_width(pairs) + 1
                &&& result_gap(pairs[k], max_pair_width(pairs)) >= 1
            },
{
    lemma_max_pair_width(pairs, src.len() as int);
}

/// Column at which the result of `p` starts in `src` (after its leading white
/// space).
pub open spec fn old_result_col(src: Seq<u8>, p: PairView, base: int) -> int {
    absolute_col(src, base, p.rh_start + skip_ws(p.rh, 0))
}

/// The text written for one pair: for a pair kept inline the text before its
/// test; otherwise the text before the test's line and `target` spaces, or,
/// when the test does not start its line, the text before it without
/// trailing white space, a line break and `target` spaces; then
/// the test moved to its column and, when there is a result, the gap and the
/// result moved from its old column to the aligned one.
pub open spec fn pair_piece(
    src: Seq<u8>,
    p: PairView,
    inline: bool,
    last: int,
    target: int,
    base: int,
    maxw: int,
) -> Seq<u8> {
    let ls = line_start(src, p.lh_start);
    let head = if inline {
        src.subrange(last, p.lh_start)
    } else if skip_ws(src, ls) == p.lh_start {
        src.subrange(last, ls) + spaces(target as nat)
    } else {
        trim_end(src.subrange(last, p.lh_start)) + seq![NEWLINE] + spaces(target as nat)
    };
    let test = placed_test(src, p, inline, target, base);
    if p.rh.len() == 0 {
        head + test
    } else {
        head + test + spaces(result_gap(p, maxw) as nat) + shift_multiline(
            trim_start(p.rh),
            result_col(src, p, inline, target, base, maxw) - old_result_col(src, p, base),
        )
    }
}

/// Whether the pairs are left as they are at pair `p`: its test lies before
/// the end of the previous pair, shares a line with it or with the previous
/// test, or its result would
/// not fit `isize` (see `result_fits`).
pub open spec fn pair_bails(
    src: Seq<u8>,
    p: PairView,
    inline: bool,
    last: int,
    prev: int,
    target: int,
    base: int,
    maxw: int,
) -> bool {
    let ls = line_start(src, p.lh_start);
    ||| p.lh_start < last
    ||| ls < last
    ||| ls == prev
    ||| (p.rh.len() > 0 && !result_fits(src, p, inline, target, base, maxw))
}

/// Whether the result of `p` and its column stay within `isize`.
pub open spec fn result_fits(
    src: Seq<u8>,
    p: PairView,
    inline: bool,
    target: int,
    base: int,
    maxw: int,
) -> bool {
    p.rh.len() <= isize::MAX && result_col(src, p, inline, target, base, maxw) <= isize::MAX
}

/// The text from pair `i` on, `last` being the end of the previous pair and
/// `prev` the start of the previous test's line (-1 before the first pair);
/// only the first pair may be kept inline. `None` when the pairs are left as
/// they are.
pub open spec fn pairs_rest(
    src: Seq<u8>,
    pairs: Seq<PairView>,
    target: int,
    base: int,
    maxw: int,
    inline_first: bool,
    i: int,
    last: int,
    prev: int,
) -> Option<Seq<u8>>
    decreases pairs.len() - i,
{
    if i < 0 || i >= pairs.len() {
        Some(src.subrange(last, src.len() as int))
    } else {
        let inline = inline_first && i == 0;
        if pair_bails(src, pairs[i], inline, last, prev, target, base, maxw) {
            None
        } else {
            prepend(
                pair_piece(src, pairs[i], inline, last, target, base, maxw),
                pairs_rest(
                    src,
                    pairs,
                    target,
                    base,
                    maxw,
                    inline_first,
                    i + 1,
                    pairs[i].rh_end,
                    line_start(src, pairs[i].lh_start),
                ),
            )
        }
    }
}

/// `src`, placed at column `base`, with its pairs laid out: tests one per
/// line at column `target` (the first one where it stands when
/// `inline_first`), results one column past the widest one-line test. The
/// text comes back as it is when there are no pairs or when one bails (see
/// `pair_bails`).
pub open spec fn build_pairs_at(
    src: Seq<u8>,
    pairs: Seq<PairView>,
    base: int,
    target: int,
    inline_first: bool,
) -> Seq<u8> {
    if pairs.len() == 0 {
        src
    } else {
        match pairs_rest(src, pairs, target, base, max_pair_width(pairs), inline_first, 0, 0, -1) {
            Some(o) => o,
            None => src,
        }
    }
}

/// `src`, placed at column `base`, with its clauses laid out: tests one per
/// line at column `base + 2`, results aligned (see `build_pairs_at`).
pub open spec fn build_pairs(src: Seq<u8>, pairs: Seq<PairView>, base: int) -> Seq<u8> {
    build_pairs_at(src, pairs, base, base + 2, false)
}

/// Positions read from pair `p` lie within `src`; texts and widths stay
/// within the machine.
pub open spec fn pair_ok(src: Seq<u8>, p: PairView) -> bool {
    &&& 0 <= p.lh_start <= src.len()
    &&& 0 <= p.rh_start
    &&& p.rh_start + skip_ws(p.rh, 0) <= src.len()
    &&& 0 <= p.rh_end <= src.len()
    &&& p.lh.len() <= isize::MAX
    &&& 0 <= p.lh_width <= src.len()
}

/// The inputs on which laying out the pairs reads only positions within the
/// text and columns within `isize`.
pub open spec fn pairs_ok(src: Seq<u8>, pairs: Seq<PairView>, base: int, target: int) -> bool {
    &&& base + src.len() + 2 <= isize::MAX
    &&& 0 <= target <= isize::MAX
    &&& forall|k: int| 0 <= k < pairs.len() ==> pair_ok(src, #[trigger] pairs[k])
}

/// The widest test among the aligned pairs.
fn max_pair_width_exec(pairs: &[Pair]) -> (r: usize)
    requires
        forall|k: int| 0 <= k < pairs@.len() ==> (#[trigger] pairs@[k]).lh_width <= usize::MAX,
    ensures
        r == max_pair_width(pair_views(pairs@)),
{
    let ghost pv = pair_views(pairs@);
    let mut m: usize = 0;
    let mut i: usize = 0;
    while i < pairs.len()
        invariant
            0 <= i <= pairs@.len(),
            pv == pair_views(pairs@),
            m == max_pair_width(pv.subrange(0, i as int)),
        decreases pairs@.len() - i,
    {
        assert(pv.subrange(0, i + 1).drop_last() =~= pv.subrange(0, i as int));
        assert(pv[i as int] == pairs@[i as int]@);
        let aligned = pairs[i].rh_string.len() > 0 && !contains_newline(
            pairs[i].lh_string.as_slice(),
        );
        if aligned && pairs[i].lh_width > m {
            m = pairs[i].lh_width;
        }
        i += 1;
    }
    assert(pv.subrange(0, pv.len() as int) =~= pv);
    m
}

/// The column just after the end of `t` (see `col_after`).
fn col_after_exec(t: &Vec<u8>) -> (r: usize)
    ensures
        r == col_after(t@),
{
    proof {
        lemma_last_index_of(t@, NEWLINE);
    }
    assert(t@.subrange(0, t@.len() as int) =~= t@);
    match rfind_byte(t.as_slice(), 0, t.len(), NEWLINE) {
        Some(k) => t.len() - (k + 1),
        None => t.len(),
    }
}

/// The text written for one pair (see `pair_piece`), or `None` when its result
/// does not fit `isize` (see `result_fits`).
fn pair_piece_exec(
    src: &[u8],
    pair: &Pair,
    inline: bool,
    last: usize,
    target: usize,
    base_col: usize,
    max_w: usize,
) -> (r: Option<Vec<u8>>)
    requires
        base_col + src@.len() + 2 <= isize::MAX,
        target <= isize::MAX,
        max_w <= src@.len(),
        pair_ok(src@, pair@),
        is_aligned_pair(pair@) ==> pair.lh_width <= max_w,
        last <= line_start(src@, pair.lh_start_byte as int),
        last <= pair.lh_start_byte,
    ensures
        r is None <==> (pair@.rh.len() > 0 && !result_fits(
            src@,
            pair@,
            inline,
            target as int,
            base_col as int,
            max_w as int,
        )),
        r matches Some(v) ==> v@ == pair_piece(
            src@,
            pair@,
            inline,
            last as int,
            target as int,
            base_col as int,
            max_w as int,
        ),
{
    let ghost p = pair@;
    let ghost base = base_col as int;
    let lh_start = pair.lh_start_byte;
    proof {
        lemma_line_start(src@, lh_start as int);
        lemma_absolute_col_bound(src@, base, lh_start as int);
    }
    let ls = line_start_byte(src, lh_start);
    let mut out: Vec<u8> = Vec::new();
    if inline {
        push_range(&mut out, src, last, lh_start);
    } else if skip_ws_exec(src, ls) == lh_start {
        push_range(&mut out, src, last, ls);
        push_spaces(&mut out, target);
    } else {
        let before = trim_end_bytes(slice_subrange(src, last, lh_start));
        push_all(&mut out, before.as_slice());
        out.push(NEWLINE);
        push_spaces(&mut out, target);
    }
    let ghost head = out@;
    let old_lh_col = absolute_col_in_slice(src, base_col, lh_start);
    let key_col = if inline {
        old_lh_col
    } else {
        target
    };
    let d1: isize = key_col as isize - old_lh_col as isize;
    let test = shift_multiline_block(pair.lh_string.as_slice(), d1);
    assert(test@ == placed_test(src@, p, inline, target as int, base));
    if pair.rh_string.len() == 0 {
        push_all(&mut out, test.as_slice());
        return Some(out);
    }
    if pair.rh_string.len() > isize::MAX as usize {
        return None;
    }
    let multi = contains_newline(pair.lh_string.as_slice());
    let new_col: usize = if multi {
        let c = col_after_exec(&test);
        if c >= isize::MAX as usize {
            return None;
        }
        c + 1
    } else {
        let c = key_col + max_w + 1;
        if c > isize::MAX as usize {
            return None;
        }
        c
    };
    assert(new_col == result_col(src@, p, inline, target as int, base, max_w as int));
    let gap: usize = if multi {
        1
    } else {
        max_w - pair.lh_width + 1
    };
    push_all(&mut out, test.as_slice());
    push_spaces(&mut out, gap);
    let rh = pair.rh_string.as_slice();
    let skip = skip_ws_exec(rh, 0);
    let rhs = copy_range(rh, skip, rh.len());
    proof {
        lemma_absolute_col_bound(src@, base, pair.rh_start_byte + skip);
    }
    let old_col = absolute_col_in_slice(src, base_col, pair.rh_start_byte + skip);
    let d2: isize = new_col as isize - old_col as isize;
    let shifted = shift_multiline_block(rhs.as_slice(), d2);
    push_all(&mut out, shifted.as_slice());
    assert(out@ =~= pair_piece(src@, p, inline, last as int, target as int, base, max_w as int));
    Some(out)
}

/// Lays out the pairs of `src`, placed at column `base_col` (see
/// `build_pairs_at`).
#[verifier::rlimit(80)]
#[verifier::spinoff_prover]
pub fn build_aligned_pairs(
    src: &[u8],
    pairs: &[Pair],
    base_col: usize,
    target: usize,
    inline_first: bool,
) -> (r: Vec<u8>)
    requires
        pairs_ok(src@, pair_views(pairs@), base_col as int, target as int),
    ensures
        r@ == build_pairs_at(
            src@,
            pair_views(pairs@),
            base_col as int,
            target as int,
            inline_first,
        ),
{
    let ghost pv = pair_views(pairs@);
    let ghost base = base_col as int;
    assert(src@.subrange(0, src@.len() as int) =~= src@);
    if pairs.len() == 0 {
        return copy_range(src, 0, src.len());
    }
    assert forall|k: int| 0 <= k < pv.len() implies (#[trigger] pv[k]).lh_width <= src@.len() by {
        assert(pair_ok(src@, pv[k]));
    }
    assert forall|k: int| 0 <= k < pairs@.len() implies (#[trigger] pairs@[k]).lh_width
        <= usize::MAX by {}
    let max_w = max_pair_width_exec(pairs);
    proof {
        lemma_max_pair_width(pv, src@.len() as int);
    }
    let ghost maxw = max_w as int;
    let ghost whole = pairs_rest(src@, pv, target as int, base, maxw, inline_first, 0, 0, -1);
    let mut out: Vec<u8> = Vec::new();
    let mut last: usize = 0;
    let mut prev: Option<usize> = None;
    let mut i: usize = 0;
    assert(prepend(out@, whole) == whole);
    while i < pairs.len()
        invariant
            0 <= i <= pairs@.len(),
            pv == pair_views(pairs@),
            base == base_col as int,
            maxw == max_w as int,
            max_w == max_pair_width(pv),
            max_w <= src@.len(),
            pairs_ok(src@, pv, base, target as int),
            forall|k: int|
                0 <= k < pv.len() && is_aligned_pair(#[trigger] pv[k]) ==> pv[k].lh_width <= max_w,
            last <= src@.len(),
            whole == pairs_rest(src@, pv, target as int, base, maxw, inline_first, 0, 0, -1),
            whole == prepend(
                out@,
                pairs_rest(
                    src@,
                    pv,
                    target as int,
                    base,
                    maxw,
                    inline_first,
                    i as int,
                    last as int,
                    prev_int(prev),
                ),
            ),
            build_pairs_at(src@, pv, base, target as int, inline_first) == match whole {
                Some(o) => o,
                None => src@,
            },
        decreases pairs@.len() - i,
    {
        let pair = &pairs[i];
        assert(pv[i as int] == pair@);
        assert(pair_ok(src@, pair@));
        let inline = inline_first && i == 0;
        let ls = line_start_byte(src, pair.lh_start_byte);
        if pair.lh_start_byte < last || ls < last {
            return copy_range(src, 0, src.len());
        }
        match prev {
            Some(p) => {
                if p == ls {
                    return copy_range(src, 0, src.len());
                }
            },
            None => {},
        }
        let piece = match pair_piece_exec(src, pair, inline, last, target, base_col, max_w) {
            None => return copy_range(src, 0, src.len()),
            Some(v) => v,
        };
        assert(!pair_bails(src@, pv[i as int], inline, last as int, prev_int(prev), target as int, base, maxw));
        let ghost before = out@;
        push_all(&mut out, piece.as_slice());
        proof {
            let rest = pairs_rest(
                src@,
                pv,
                target as int,
                base,
                maxw,
                inline_first,
                i + 1,
                pair.rh_end_byte as int,
                ls as int,
            );
            match rest {
                Some(x) => {
                    assert(before + (piece@ + x) =~= out@ + x);
                },
                None => {},
            }
        }
        last = pair.rh_end_byte;
        prev = Some(ls);
        i += 1;
    }
    let ghost before = out@;
    push_range(&mut out, src, last, src.len());
    out
}

/// Lays out the clauses of `src`, placed at column `base_col`: tests one per
/// line at column `base_col + 2`, results one column past the widest one-line
/// test (see `build_pairs`).
pub fn build_aligned_string(src: &[u8], pairs: &[Pair], base_col: usize) -> (r: Vec<u8>)
    requires
        pairs_ok(src@, pair_views(pairs@), base_col as int, base_col + 2),
    ensures
        r@ == build_pairs(src@, pair_views(pairs@), base_col as int),
{
    build_aligned_pairs(src, pairs, base_col, base_col + 2, false)
}

} // verus!
