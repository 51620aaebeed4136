//! Maps: keys aligned one per line, values aligned in one column.
use vstd::prelude::*;

use vstd::string::*;

use crate::helpers::{
    absolute_col, absolute_col_in_slice, code_kids, derefs, kids_spans_ok, kind_is, line_start,
    line_start_byte, node_text, non_comment_children, shift_fits, shift_multiline,
    shift_multiline_block, span_ok, text_of,
};
use crate::alignable::Alignable;
use crate::model::{
    lemma_pair_views_push, pair_view_of, pair_views, AlignKind, Extracted, ExtractedView, Pair,
    PairView, SyntaxNode,
};
use crate::text::{
    bytes_equal, copy_range, last_index_of, lemma_skip_ws, push_all, push_range, push_spaces, rfind_byte,
    skip_ws, skip_ws_exec, spaces, trim, trim_bytes, trim_start, NEWLINE,
};

verus! {

/// `{`
pub const OPEN_BRACE: u8 = 123;

/// The aligner for map literals.
pub struct MapLikeAligner;

/// The largest `lh_width` of the pairs, 0 when there are none.
pub open spec fn max_lh_width(pairs: Seq<PairView>) -> int
    decreases pairs.len(),
{
    if pairs.len() == 0 {
        0
    } else {
        let m = max_lh_width(pairs.drop_last());
        if pairs.last().lh_width > m {
            pairs.last().lh_width
        } else {
            m
        }
    }
}

/// `max_lh_width` bounds every width and is one of them (or 0).
pub proof fn lemma_max_lh_width(pairs: Seq<PairView>)
    ensures
        0 <= max_lh_width(pairs),
        forall|i: int| 0 <= i < pairs.len() ==> pairs[i].lh_width <= max_lh_width(pairs),
    decreases pairs.len(),
{
    if pairs.len() > 0 {
        lemma_max_lh_width(pairs.drop_last());
        assert forall|i: int| 0 <= i < pairs.len() implies pairs[i].lh_width <= max_lh_width(
            pairs,
        ) by {
            if i < pairs.len() - 1 {
                assert(pairs[i] == pairs.drop_last()[i]);
            }
        }
    }
}

/// `max_lh_width` stays below any bound that every width stays below.
pub proof fn lemma_max_lh_width_bound(pairs: Seq<PairView>, bound: int)
    requires
        0 <= bound,
        forall|i: int| 0 <= i < pairs.len() ==> pairs[i].lh_width <= bound,
    ensures
        max_lh_width(pairs) <= bound,
    decreases pairs.len(),
{
    if pairs.len() > 0 {
        assert forall|i: int| 0 <= i < pairs.len() - 1 implies pairs.drop_last()[i].lh_width
            <= bound by {
            assert(pairs.drop_last()[i] == pairs[i]);
        }
        lemma_max_lh_width_bound(pairs.drop_last(), bound);
    }
}

/// What the map keeps of the text before its first key: everything up to and
/// including the last `{`, or a lone `{` when there is none.
pub open spec fn map_opening(prefix: Seq<u8>) -> Seq<u8> {
    let k = last_index_of(prefix, OPEN_BRACE);
    if k >= 0 {
        prefix.subrange(0, k + 1)
    } else {
        seq![OPEN_BRACE]
    }
}

/// Spaces between a key and its value: the value column is one past the
/// widest key.
pub open spec fn map_gap(p: PairView, maxw: int) -> int {
    maxw - p.lh_width + 1
}

/// Column at which the value of `p` starts in `src` (after its leading white
/// space).
pub open spec fn map_old_rhs_col(src: Seq<u8>, p: PairView, base: int) -> int {
    absolute_col(src, base, p.rh_start + skip_ws(p.rh, 0))
}

/// Column at which the value of `p` starts once aligned.
pub open spec fn map_new_rhs_col(p: PairView, base: int, maxw: int) -> int {
    base + 1 + p.lh_width + map_gap(p, maxw)
}

/// In an aligned map every value is moved to one column: one past the widest
/// key, counted from the column after the opening brace; so at least one
/// space separates each key from its value.
pub proof fn lemma_values_share_a_column(pairs: Seq<PairView>, base: int)
    ensures
        forall|k: int|
            0 <= k < pairs.len() ==> map_new_rhs_col(#[trigger] pairs[k], base, max_lh_width(pairs))
                == base + max_lh_width(pairs) + 2,
        forall|k: int| 0 <= k < pairs.len() ==> map_gap(#[trigger] pairs[k], max_lh_width(pairs)) >= 1,
{
    lemma_max_lh_width(pairs);
}

/// The text written for one pair: the opening (first pair) or a line break and
/// `base + 1` spaces, the trimmed key, the gap, and the value moved from its
/// old column to the aligned one.
pub open spec fn map_piece(
    src: Seq<u8>,
    p: PairView,
    first: bool,
    last: int,
    base: int,
    maxw: int,
) -> Seq<u8> {
    let head = if first {
        map_opening(src.subrange(last, p.lh_start))
    } else {
        seq![NEWLINE] + spaces((base + 1) as nat)
    };
    head + trim(p.lh) + spaces(map_gap(p, maxw) as nat) + shift_multiline(
        trim_start(p.rh),
        map_new_rhs_col(p, base, maxw) - map_old_rhs_col(src, p, base),
    )
}

/// Whether the map is left as it is at pair `p`: the key lies before the end
/// of the previous pair, or on the line of the previous key.
pub open spec fn map_bails(src: Seq<u8>, p: PairView, last: int, prev: int) -> bool {
    let ls = line_start(src, p.lh_start);
    p.lh_start < last || ls < last || ls == prev
}

/// The text from pair `i` on, `last` being the end of the previous pair and
/// `prev` the start of the previous key's line (-1 before the first pair);
/// `None` when the map is left as it is.
pub open spec fn map_rest(
    src: Seq<u8>,
    pairs: Seq<PairView>,
    base: int,
    maxw: int,
    i: int,
    last: int,
    prev: int,
) -> Option<Seq<u8>>
    decreases pairs.len() - i,
{
    if i < 0 || i >= pairs.len() {
        Some(src.subrange(last, src.len() as int))
    } else if map_bails(src, pairs[i], last, prev) {
        None
    } else {
        match map_rest(
            src,
            pairs,
            base,
            maxw,
            i + 1,
            pairs[i].rh_end,
            line_start(src, pairs[i].lh_start),
        ) {
            Some(r) => Some(map_piece(src, pairs[i], i == 0, last, base, maxw) + r),
            None => None,
        }
    }
}

/// Positions and columns of pair `p` stay within the text and the machine.
pub open spec fn map_piece_safe(src: Seq<u8>, p: PairView, base: int, maxw: int) -> bool {
    &&& p.rh_start + skip_ws(p.rh, 0) <= src.len()
    &&& map_new_rhs_col(p, base, maxw) <= isize::MAX
    &&& map_old_rhs_col(src, p, base) <= isize::MAX
    &&& p.rh.len() <= isize::MAX
}

/// Every position read from pair `i` on lies within the text.
pub open spec fn map_safe(
    src: Seq<u8>,
    pairs: Seq<PairView>,
    base: int,
    maxw: int,
    i: int,
    last: int,
    prev: int,
) -> bool
    decreases pairs.len() - i,
{
    if i < 0 || i >= pairs.len() {
        0 <= last <= src.len()
    } else {
        &&& pairs[i].lh_start <= src.len()
        &&& !map_bails(src, pairs[i], last, prev) ==> {
            &&& map_piece_safe(src, pairs[i], base, maxw)
            &&& map_safe(
                src,
                pairs,
                base,
                maxw,
                i + 1,
                pairs[i].rh_end,
                line_start(src, pairs[i].lh_start),
            )
        }
    }
}

/// Pairs whose positions lie within `src`, whose right-hand text spans its
/// positions, and whose widths stay within the text, with columns bounded by
/// `base + len + 2`, are safe to build from.
pub proof fn lemma_map_safe(
    src: Seq<u8>,
    pairs: Seq<PairView>,
    base: int,
    maxw: int,
    i: int,
    last: int,
    prev: int,
)
    requires
        0 <= i <= pairs.len(),
        0 <= last <= src.len(),
        0 <= base,
        base + src.len() + 2 <= isize::MAX,
        0 <= maxw <= src.len(),
        forall|k: int|
            0 <= k < pairs.len() ==> {
                &&& 0 <= (#[trigger] pairs[k]).lh_start <= src.len()
                &&& 0 <= pairs[k].rh_start <= pairs[k].rh_end <= src.len()
                &&& pairs[k].rh.len() == pairs[k].rh_end - pairs[k].rh_start
                &&& 0 <= pairs[k].lh_width <= maxw
            },
    ensures
        map_safe(src, pairs, base, maxw, i, last, prev),
    decreases pairs.len() - i,
{
    if i < pairs.len() {
        let p = pairs[i];
        crate::text::lemma_skip_ws(p.rh, 0);
        crate::helpers::lemma_absolute_col_bound(src, base, p.rh_start + skip_ws(p.rh, 0));
        crate::helpers::lemma_line_start(src, p.lh_start);
        lemma_map_safe(src, pairs, base, maxw, i + 1, p.rh_end, line_start(src, p.lh_start));
    }
}

/// The map `src` with its pairs aligned: keys one per line at column
/// `base + 1`, values at one past the widest key. The text comes back as it
/// is when there are no pairs, when a key does not follow the previous pair,
/// or when two keys share a line.
pub open spec fn build_map(src: Seq<u8>, pairs: Seq<PairView>, base: int) -> Seq<u8> {
    if pairs.len() == 0 {
        src
    } else {
        match map_rest(src, pairs, base, max_lh_width(pairs), 0, 0, -1) {
            Some(o) => o,
            None => src,
        }
    }
}

/// The inputs on which building the map reads only positions within the text
/// and columns within `isize`.
pub open spec fn build_map_ok(src: Seq<u8>, pairs: Seq<PairView>, base: int) -> bool {
    pairs.len() > 0 ==> {
        &&& base + 1 <= usize::MAX
        &&& map_safe(src, pairs, base, max_lh_width(pairs), 0, 0, -1)
    }
}

/// `Some(out + r)` for `Some(r)`, `None` for `None`.
pub open spec fn prepend(out: Seq<u8>, r: Option<Seq<u8>>) -> Option<Seq<u8>> {
    match r {
        Some(x) => Some(out + x),
        None => None,
    }
}

/// The start of the previous key's line, -1 for none.
pub open spec fn prev_int(o: Option<usize>) -> int {
    match o {
        Some(v) => v as int,
        None => -1,
    }
}

/// The largest `lh_width` of the pairs.
fn max_width(pairs: &[Pair]) -> (r: usize)
    ensures
        r == max_lh_width(pair_views(pairs@)),
{
    let mut m: usize = 0;
    let mut i: usize = 0;
    while i < pairs.len()
        invariant
            0 <= i <= pairs@.len(),
            m == max_lh_width(pair_views(pairs@).subrange(0, i as int)),
        decreases pairs@.len() - i,
    {
        assert(pair_views(pairs@).subrange(0, i + 1).drop_last() =~= pair_views(pairs@).subrange(0, i as int));
        if pairs[i].lh_width > m {
            m = pairs[i].lh_width;
        }
        i += 1;
    }
    assert(pair_views(pairs@).subrange(0, pairs@.len() as int) =~= pair_views(pairs@));
    m
}

/// Appends the text written for one pair to `out`.
fn push_map_piece(
    out: &mut Vec<u8>,
    src: &[u8],
    pair: &Pair,
    first: bool,
    last: usize,
    base_col: usize,
    max_w: usize,
)
    requires
        last <= pair.lh_start_byte <= src@.len(),
        base_col + 1 <= usize::MAX,
        pair.lh_width <= max_w,
        map_piece_safe(src@, pair@, base_col as int, max_w as int),
    ensures
        final(out)@ == old(out)@ + map_piece(
            src@,
            pair@,
            first,
            last as int,
            base_col as int,
            max_w as int,
        ),
{
    let ghost init = out@;
    let n = src.len();
    let target = base_col + 1;
    if first {
        match rfind_byte(src, last, pair.lh_start_byte, OPEN_BRACE) {
            Some(k) => {
                proof {
                    crate::text::lemma_last_index_of(
                        src@.subrange(last as int, pair.lh_start_byte as int),
                        OPEN_BRACE,
                    );
                }
                push_range(out, src, last, last + k + 1);
                assert(src@.subrange(last as int, last + k + 1) =~= src@.subrange(
                    last as int,
                    pair.lh_start_byte as int,
                ).subrange(0, k + 1));
            },
            None => {
                out.push(OPEN_BRACE);
            },
        }
    } else {
        out.push(NEWLINE);
        push_spaces(out, target);
    }
    let ghost with_head = out@;
    let key = trim_bytes(pair.lh_string.as_slice());
    push_all(out, key.as_slice());
    let gap = (max_w - pair.lh_width) + 1;
    push_spaces(out, gap);
    let skip = skip_ws_exec(pair.rh_string.as_slice(), 0);
    let rhs = copy_range(pair.rh_string.as_slice(), skip, pair.rh_string.len());
    let old_col = absolute_col_in_slice(src, base_col, pair.rh_start_byte + skip);
    let new_col = target + pair.lh_width + gap;
    let delta: isize = new_col as isize - old_col as isize;
    let shifted = shift_multiline_block(rhs.as_slice(), delta);
    push_all(out, shifted.as_slice());
    proof {
        let head = if first {
            map_opening(src@.subrange(last as int, pair.lh_start_byte as int))
        } else {
            seq![NEWLINE] + spaces((base_col + 1) as nat)
        };
        assert(with_head =~= init + head);
        assert(out@ =~= init + map_piece(
            src@,
            pair@,
            first,
            last as int,
            base_col as int,
            max_w as int,
        ));
    }
}

/// Aligns the pairs of the map `src`.
///
/// Keys go one per line at column `base_col + 1`, the first one after the
/// text up to the map's `{`; values go at one column past the widest key,
/// with their later lines moved along. The text comes back unchanged when
/// there are no pairs, when a key does not lie after the previous pair, or
/// when two keys share a line.
pub fn build_aligned_map_string(src: &[u8], pairs: &[Pair], base_col: usize) -> (r: Vec<u8>)
    requires
        build_map_ok(src@, pair_views(pairs@), base_col as int),
    ensures
        r@ == build_map(src@, pair_views(pairs@), base_col as int),
{
    assert(src@.subrange(0, src@.len() as int) =~= src@);
    if pairs.len() == 0 {
        return copy_range(src, 0, src.len());
    }
    let max_w = max_width(pairs);
    proof {
        lemma_max_lh_width(pair_views(pairs@));
    }
    let ghost maxw = max_w as int;
    let ghost base = base_col as int;
    let mut out: Vec<u8> = Vec::new();
    let mut last: usize = 0;
    let mut prev: Option<usize> = None;
    let mut i: usize = 0;
    assert(out@ + seq![] =~= out@);
    while i < pairs.len()
        invariant
            0 <= i <= pairs@.len(),
            pairs@.len() > 0,
            base_col + 1 <= usize::MAX,
            max_w == max_lh_width(pair_views(pairs@)),
            base == base_col as int,
            maxw == max_w as int,
            forall|k: int| 0 <= k < pairs@.len() ==> pair_views(pairs@)[k].lh_width <= max_w,
            map_safe(src@, pair_views(pairs@), base, maxw, i as int, last as int, prev_int(prev)),
            map_rest(src@, pair_views(pairs@), base, maxw, 0, 0, -1) == prepend(
                out@,
                map_rest(src@, pair_views(pairs@), base, maxw, i as int, last as int, prev_int(prev)),
            ),
        decreases pairs@.len() - i,
    {
        let pair = &pairs[i];
        let ls = line_start_byte(src, pair.lh_start_byte);
        if pair.lh_start_byte < last || ls < last {
            return copy_range(src, 0, src.len());
        }
        match prev {
            Some(p) => {
                if p == ls {
                    return copy_range(src, 0, src.len());
                }
            },
            None => {},
        }
        assert(!map_bails(src@, pair_views(pairs@)[i as int], last as int, prev_int(prev)));
        assert(map_piece_safe(src@, pair@, base, maxw));
        let ghost before = out@;
        push_map_piece(&mut out, src, pair, i == 0, last, base_col, max_w);
        proof {
            let rest = map_rest(
                src@,
                pair_views(pairs@),
                base,
                maxw,
                i + 1,
                pair.rh_end_byte as int,
                ls as int,
            );
            match rest {
                Some(x) => {
                    assert(before + (map_piece(
                        src@,
                        pair@,
                        i == 0,
                        last as int,
                        base,
                        maxw,
                    ) + x) =~= out@ + x);
                },
                None => {},
            }
        }
        last = pair.rh_end_byte;
        prev = Some(ls);
        i += 1;
    }
    let ghost before = out@;
    push_range(&mut out, src, last, src.len());
    out
}

// ---------------------------------------------------------------------------
// Reading the pairs of a map
// ---------------------------------------------------------------------------

/// Keys that mark a destructuring map, which is left as it is.
pub open spec fn is_destructuring_key(t: Seq<u8>) -> bool {
    ||| t == ":keys".spec_bytes()
    ||| t == ":strs".spec_bytes()
    ||| t == ":syms".spec_bytes()
    ||| t == ":as".spec_bytes()
    ||| t == ":or".spec_bytes()
}

/// The `k`-th key of a sequence of alternating keys and values.
pub open spec fn key_at(kids: Seq<SyntaxNode>, k: int) -> SyntaxNode {
    kids[2 * k]
}

/// The `k`-th value of a sequence of alternating keys and values.
pub open spec fn value_at(kids: Seq<SyntaxNode>, k: int) -> SyntaxNode {
    kids[2 * k + 1]
}

/// Whether the map node `nd` of `src` yields pairs: it is a map literal with
/// an even, non-zero number of elements, no key marks destructuring, and no
/// two consecutive keys share a line.
pub open spec fn map_extract_ok(nd: SyntaxNode, src: Seq<u8>) -> bool {
    let kids = code_kids(nd);
    &&& nd.kind@ == "map_lit".spec_bytes()
    &&& kids.len() > 0
    &&& kids.len() % 2 == 0
    &&& forall|k: int|
        0 <= k < kids.len() / 2 ==> !is_destructuring_key(text_of(#[trigger] key_at(kids, k), src))
    &&& forall|k: int|
        1 <= k < kids.len() / 2 ==> line_start(src, #[trigger] key_at(kids, k).start_byte as int)
            != line_start(src, key_at(kids, k - 1).start_byte as int)
}

/// The pair read from key `lhs` and value `rhs`, the keys starting at column
/// `col`.
pub open spec fn map_pair(lhs: SyntaxNode, rhs: SyntaxNode, src: Seq<u8>, col: int) -> PairView {
    pair_view_of(
        text_of(lhs, src),
        text_of(rhs, src),
        lhs.start_byte as int,
        lhs.end_byte as int,
        col,
        rhs.start_byte as int,
        rhs.end_byte as int,
    )
}

/// The pairs read from the first `n` key/value pairs of `kids`.
pub open spec fn map_pairs_upto(kids: Seq<SyntaxNode>, src: Seq<u8>, col: int, n: int) -> Seq<
    PairView,
> {
    Seq::new(n as nat, |k: int| map_pair(key_at(kids, k), value_at(kids, k), src, col))
}

/// The pairs of a map: each key with the value after it, all recording the
/// column of the first key.
pub open spec fn map_pairs(nd: SyntaxNode, src: Seq<u8>) -> Seq<PairView> {
    let kids = code_kids(nd);
    map_pairs_upto(kids, src, kids[0].start_col as int, (kids.len() / 2) as int)
}

/// Whether a key is one that marks destructuring.
fn is_destructuring_key_exec(t: &[u8]) -> (r: bool)
    ensures
        r == is_destructuring_key(t@),
{
    bytes_equal(t, ":keys".as_bytes()) || bytes_equal(t, ":strs".as_bytes()) || bytes_equal(
        t,
        ":syms".as_bytes(),
    ) || bytes_equal(t, ":as".as_bytes()) || bytes_equal(t, ":or".as_bytes())
}

/// Reads the key/value pairs of a map literal.
///
/// Returns `None` unless `nd` is a map literal with an even, non-zero number
/// of elements (comments and ignored forms aside), none of its keys is
/// `:keys`, `:strs`, `:syms`, `:as` or `:or`, and no two consecutive keys
/// share a line. Every pair records its texts and positions; `lh_start_col`
/// is the column of the first key.
pub fn extract_map_pairs(nd: &SyntaxNode, src: &[u8]) -> (r: Option<Vec<Pair>>)
    requires
        kids_spans_ok(*nd, src@.len()),
    ensures
        r is Some <==> map_extract_ok(*nd, src@),
        r matches Some(v) ==> pair_views(v@) == map_pairs(*nd, src@),
{
    if !kind_is(nd, "map_lit") {
        return None;
    }
    let children = non_comment_children(nd);
    let ghost kids = code_kids(*nd);
    assert(derefs(children@) == kids);
    if children.len() == 0 || children.len() % 2 != 0 {
        return None;
    }
    let npairs = children.len() / 2;
    let col = children[0].start_col;
    assert(*children@[0] == kids[0]);
    let mut pairs: Vec<Pair> = Vec::new();
    let mut prev: usize = 0;
    let mut k: usize = 0;
    while k < npairs
        invariant
            derefs(children@) == kids,
            kids == code_kids(*nd),
            kids_spans_ok(*nd, src@.len()),
            kids.len() == 2 * npairs,
            0 <= k <= npairs,
            col == kids[0].start_col,
            pair_views(pairs@) == map_pairs_upto(kids, src@, col as int, k as int),
            forall|j: int|
                0 <= j < k ==> !is_destructuring_key(text_of(#[trigger] key_at(kids, j), src@)),
            forall|j: int|
                1 <= j < k ==> line_start(src@, #[trigger] key_at(kids, j).start_byte as int)
                    != line_start(src@, key_at(kids, j - 1).start_byte as int),
            k > 0 ==> prev == line_start(src@, key_at(kids, k - 1).start_byte as int),
        decreases npairs - k,
    {
        let lhs = children[2 * k];
        let rhs = children[2 * k + 1];
        assert(*lhs == key_at(kids, k as int));
        assert(*rhs == value_at(kids, k as int));
        assert(span_ok(kids[2 * k as int], src@.len()));
        assert(span_ok(kids[2 * k as int + 1], src@.len()));
        let key = node_text(lhs, src);
        if is_destructuring_key_exec(key) {
            return None;
        }
        let ls = line_start_byte(src, lhs.start_byte);
        if k > 0 && prev == ls {
            return None;
        }
        prev = ls;
        let lh = copy_range(src, lhs.start_byte, lhs.end_byte);
        let rh = copy_range(src, rhs.start_byte, rhs.end_byte);
        let width = lh.len();
        let ghost old_pairs = pairs@;
        let p = Pair {
            lh_string: lh,
            rh_string: rh,
            lh_start_byte: lhs.start_byte,
            lh_end_byte: lhs.end_byte,
            lh_start_col: col,
            lh_width: width,
            rh_start_byte: rhs.start_byte,
            rh_end_byte: rhs.end_byte,
        };
        proof {
            lemma_pair_views_push(old_pairs, p);
        }
        pairs.push(p);
        proof {
            let d = map_pair(kids[2 * k as int], kids[2 * k + 1], src@, col as int);
            assert(pairs@.last()@ == d);
            assert(pair_views(pairs@) =~= map_pairs_upto(kids, src@, col as int, k + 1));
        }
        k += 1;
    }
    assert(map_pairs_upto(kids, src@, col as int, npairs as int) =~= map_pairs(*nd, src@));
    Some(pairs)
}

impl Alignable for MapLikeAligner {
    open spec fn kind_spec(&self) -> AlignKind {
        AlignKind::MapLike
    }

    open spec fn matches_spec(&self, node: SyntaxNode, src: Seq<u8>) -> bool {
        node.kind@ == "map_lit".spec_bytes()
    }

    open spec fn extract_ok(&self, node: SyntaxNode, src: Seq<u8>) -> bool {
        kids_spans_ok(node, src.len())
    }

    open spec fn extract_spec(&self, node: SyntaxNode, src: Seq<u8>) -> Option<ExtractedView> {
        if map_extract_ok(node, src) {
            Some(ExtractedView::Pairs(map_pairs(node, src)))
        } else {
            None
        }
    }

    open spec fn build_ok(&self, src: Seq<u8>, e: ExtractedView, base: int) -> bool {
        match e {
            ExtractedView::Pairs(ps) => build_map_ok(src, ps, base),
            _ => true,
        }
    }

    open spec fn build_spec(&self, src: Seq<u8>, e: ExtractedView, base: int) -> Seq<u8> {
        match e {
            ExtractedView::Pairs(ps) => build_map(src, ps, base),
            _ => src,
        }
    }

    fn kind(&self) -> (r: AlignKind) {
        AlignKind::MapLike
    }

    /// Whether the node is a map literal.
    fn matches(&self, node: &SyntaxNode, _src: &[u8]) -> (r: bool) {
        kind_is(node, "map_lit")
    }

    fn extract(&self, node: &SyntaxNode, src: &[u8]) -> (r: Option<Extracted>) {
        match extract_map_pairs(node, src) {
            Some(pairs) => Some(Extracted::Pairs(pairs)),
            None => None,
        }
    }

    fn build(&self, src: &[u8], extracted: Extracted, base_col: usize) -> (r: Vec<u8>) {
        match extracted {
            Extracted::Pairs(pairs) => build_aligned_map_string(src, pairs.as_slice(), base_col),
            _ => {
                let r = copy_range(src, 0, src.len());
                assert(src@.subrange(0, src@.len() as int) =~= src@);
                r
            },
        }
    }
}

} // verus!
