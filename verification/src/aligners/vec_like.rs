//! Vectors: the elements after the first line one per line, one column in.
use vstd::prelude::*;
use vstd::string::*;

use crate::aligners::map_like::{prepend, prev_int};
use crate::helpers::{
    absolute_col, absolute_col_in_slice, code_kids, derefs, kids_spans_ok, kind_is, line_start,
    line_start_byte, non_comment_children, shift_multiline, shift_multiline_block, span_ok,
    text_of,
};
use crate::alignable::Alignable;
use crate::model::{
    lemma_row_views_push, row_views, AlignKind, Extracted, ExtractedView, Row, RowView, SyntaxNode,
};
use crate::text::{copy_range, push_all, push_range, push_spaces, spaces, NEWLINE};

verus! {

/// The aligner for vector literals.
pub struct VecLikeAligner;

/// Index of the first of `items[from..]` that starts on a row after `row`, or
/// the number of items when none does.
pub open spec fn first_later(items: Seq<SyntaxNode>, row: int, from: int) -> int
    decreases items.len() - from,
{
    if from < 0 || from >= items.len() {
        items.len() as int
    } else if items[from].start_row > row {
        from
    } else {
        first_later(items, row, from + 1)
    }
}

/// `first_later` is the first index past `from` whose item starts below `row`.
pub proof fn lemma_first_later(items: Seq<SyntaxNode>, row: int, from: int)
    requires
        0 <= from <= items.len(),
    ensures
        from <= first_later(items, row, from) <= items.len(),
        first_later(items, row, from) < items.len() ==> items[first_later(
            items,
            row,
            from,
        )].start_row > row,
        forall|j: int| from <= j < first_later(items, row, from) ==> items[j].start_row <= row,
    decreases items.len() - from,
{
    if from < items.len() && items[from].start_row <= row {
        lemma_first_later(items, row, from + 1);
    }
}

/// Whether the vector node `nd` yields rows: it is a multi-line vector
/// literal with an element that starts below the row of its first element.
pub open spec fn vec_extract_ok(nd: SyntaxNode) -> bool {
    let items = code_kids(nd);
    &&& nd.kind@ == "vec_lit".spec_bytes()
    &&& items.len() > 0
    &&& nd.start_row != nd.end_row
    &&& first_later(items, items[0].start_row as int, 0) < items.len()
}

/// The row read from node `n` of `src`.
pub open spec fn row_of(n: SyntaxNode, src: Seq<u8>) -> RowView {
    RowView { text: text_of(n, src), start: n.start_byte as int, end: n.end_byte as int }
}

/// The rows read from `items[from..]`.
pub open spec fn node_rows(items: Seq<SyntaxNode>, from: int, src: Seq<u8>) -> Seq<RowView> {
    Seq::new((items.len() - from) as nat, |k: int| row_of(items[from + k], src))
}

/// Whether `rows` are the rows read from `items[from..]`.
pub open spec fn rows_from(rows: Seq<Row>, items: Seq<SyntaxNode>, from: int, src: Seq<u8>) -> bool {
    row_views(rows) == node_rows(items, from, src)
}

/// Reads the rows of `items[from..]`.
pub fn rows_of(items: &Vec<&SyntaxNode>, from: usize, src: &[u8]) -> (r: Vec<Row>)
    requires
        from <= items@.len(),
        forall|k: int| 0 <= k < items@.len() ==> span_ok(*#[trigger] items@[k], src@.len()),
    ensures
        rows_from(r@, derefs(items@), from as int, src@),
{
    let mut rows: Vec<Row> = Vec::new();
    let mut k: usize = from;
    while k < items.len()
        invariant
            from <= k <= items@.len(),
            forall|j: int| 0 <= j < items@.len() ==> span_ok(*#[trigger] items@[j], src@.len()),
            row_views(rows@) == node_rows(derefs(items@), from as int, src@).subrange(
                0,
                k - from,
            ),
        decreases items@.len() - k,
    {
        let n = items[k];
        assert(span_ok(*items@[k as int], src@.len()));
        let text = copy_range(src, n.start_byte, n.end_byte);
        let row = Row { text, start_byte: n.start_byte, end_byte: n.end_byte };
        proof {
            lemma_row_views_push(rows@, row);
        }
        rows.push(row);
        proof {
            assert(derefs(items@)[k as int] == *n);
            assert(row_views(rows@) =~= node_rows(derefs(items@), from as int, src@).subrange(
                0,
                k + 1 - from,
            ));
        }
        k += 1;
    }
    assert(node_rows(derefs(items@), from as int, src@).subrange(0, items@.len() - from)
        =~= node_rows(derefs(items@), from as int, src@));
    rows
}

/// Reads the layout of a vector literal: the byte where its second row
/// begins and the elements from there on.
///
/// Returns `None` unless `nd` is a multi-line vector literal with an element
/// (comments and ignored forms aside) that starts on a later row than the
/// first element. The anchor is the start of the first such element; the
/// rows are it and every element after it.
pub fn extract_vector_layout(nd: &SyntaxNode, src: &[u8]) -> (r: Option<(usize, Vec<Row>)>)
    requires
        kids_spans_ok(*nd, src@.len()),
    ensures
        r is Some <==> vec_extract_ok(*nd),
        r matches Some((anchor, rows)) ==> {
            let items = code_kids(*nd);
            let b = first_later(items, items[0].start_row as int, 0);
            &&& anchor == items[b].start_byte
            &&& rows_from(rows@, items, b, src@)
        },
{
    if !kind_is(nd, "vec_lit") {
        return None;
    }
    let items = non_comment_children(nd);
    let ghost kids = code_kids(*nd);
    if items.len() == 0 || nd.start_row == nd.end_row {
        return None;
    }
    let first_row = items[0].start_row;
    assert(*items@[0] == kids[0]);
    let mut b: usize = 0;
    proof {
        crate::aligners::vec_like::lemma_first_later(kids, first_row as int, 0);
    }
    while b < items.len() && items[b].start_row <= first_row
        invariant
            derefs(items@) == kids,
            0 <= b <= items@.len(),
            first_later(kids, first_row as int, 0) == first_later(kids, first_row as int, b as int),
        decreases items@.len() - b,
    {
        assert(*items@[b as int] == kids[b as int]);
        b += 1;
    }
    if b == items.len() {
        return None;
    }
    assert(*items@[b as int] == kids[b as int]);
    let anchor = items[b].start_byte;
    proof {
        assert forall|k: int| 0 <= k < items@.len() implies span_ok(
            *#[trigger] items@[k],
            src@.len(),
        ) by {
            assert(*items@[k] == kids[k]);
        }
    }
    let rows = rows_of(&items, b, src);
    Some((anchor, rows))
}

// ---------------------------------------------------------------------------
// Rebuilding a vector
// ---------------------------------------------------------------------------

/// Whether the vector is left as it is at row `r`: the row does not lie after
/// the previous one, or shares its line.
pub open spec fn rows_bail(src: Seq<u8>, r: RowView, last: int, prev: int) -> bool {
    let ls = line_start(src, r.start);
    r.start < last || ls < last || ls == prev
}

/// The text written for one row of a vector: for the first row, the text
/// before its line; otherwise a line break; then `base + 1` spaces and the row
/// moved from its old column to that one.
pub open spec fn vec_piece(src: Seq<u8>, r: RowView, first: bool, last: int, base: int) -> Seq<u8> {
    let ls = line_start(src, r.start);
    let target = base + 1;
    let adjusted = shift_multiline(r.text, target - absolute_col(src, base, r.start));
    if first {
        src.subrange(last, ls) + spaces(target as nat) + adjusted
    } else {
        seq![NEWLINE] + spaces(target as nat) + adjusted
    }
}

/// The text from row `i` on; `None` when the vector is left as it is.
pub open spec fn vec_rest(
    src: Seq<u8>,
    rows: Seq<RowView>,
    base: int,
    i: int,
    last: int,
    prev: int,
) -> Option<Seq<u8>>
    decreases rows.len() - i,
{
    if i < 0 || i >= rows.len() {
        Some(src.subrange(last, src.len() as int))
    } else if rows_bail(src, rows[i], last, prev) {
        None
    } else {
        prepend(
            vec_piece(src, rows[i], i == 0, last, base),
            vec_rest(
                src,
                rows,
                base,
                i + 1,
                rows[i].end,
                line_start(src, rows[i].start),
            ),
        )
    }
}

/// Columns and lengths met while moving row `r` stay within `isize`.
pub open spec fn row_cols_safe(src: Seq<u8>, r: RowView, base: int, target: int) -> bool {
    &&& target <= isize::MAX
    &&& absolute_col(src, base, r.start) <= isize::MAX
    &&& r.text.len() <= isize::MAX
}

/// Every position read from row `i` on lies within the text, and every column
/// within `isize`, when the rows are hung at column `target`.
pub open spec fn rows_safe(
    src: Seq<u8>,
    rows: Seq<RowView>,
    base: int,
    target: int,
    i: int,
    last: int,
    prev: int,
) -> bool
    decreases rows.len() - i,
{
    if i < 0 || i >= rows.len() {
        0 <= last <= src.len()
    } else {
        &&& rows[i].start <= src.len()
        &&& !rows_bail(src, rows[i], last, prev) ==> {
            &&& row_cols_safe(src, rows[i], base, target)
            &&& rows_safe(
                src,
                rows,
                base,
                target,
                i + 1,
                rows[i].end,
                line_start(src, rows[i].start),
            )
        }
    }
}

/// Rows whose positions and texts lie within `src` are safe to move to a
/// column `target` within `isize` when columns are bounded by `base + len`.
pub proof fn lemma_rows_safe(
    src: Seq<u8>,
    rows: Seq<RowView>,
    base: int,
    target: int,
    i: int,
    last: int,
    prev: int,
)
    requires
        0 <= i <= rows.len(),
        0 <= last <= src.len(),
        0 <= base,
        base + src.len() + 2 <= isize::MAX,
        target <= isize::MAX,
        forall|k: int|
            0 <= k < rows.len() ==> {
                &&& 0 <= (#[trigger] rows[k]).start <= src.len()
                &&& 0 <= rows[k].end <= src.len()
                &&& rows[k].text.len() <= src.len()
            },
    ensures
        rows_safe(src, rows, base, target, i, last, prev),
    decreases rows.len() - i,
{
    if i < rows.len() {
        crate::helpers::lemma_absolute_col_bound(src, base, rows[i].start);
        lemma_rows_safe(
            src,
            rows,
            base,
            target,
            i + 1,
            rows[i].end,
            line_start(src, rows[i].start),
        );
    }
}

/// The rows read from nodes within the text lie within the text.
pub proof fn lemma_node_rows_within(items: Seq<SyntaxNode>, from: int, src: Seq<u8>)
    requires
        0 <= from <= items.len(),
        forall|k: int| 0 <= k < items.len() ==> span_ok(#[trigger] items[k], src.len()),
    ensures
        forall|k: int|
            0 <= k < node_rows(items, from, src).len() ==> {
                &&& 0 <= (#[trigger] node_rows(items, from, src)[k]).start <= src.len()
                &&& 0 <= node_rows(items, from, src)[k].end <= src.len()
                &&& node_rows(items, from, src)[k].text.len() <= src.len()
            },
{
    assert forall|k: int| 0 <= k < node_rows(items, from, src).len() implies {
        &&& 0 <= (#[trigger] node_rows(items, from, src)[k]).start <= src.len()
        &&& 0 <= node_rows(items, from, src)[k].end <= src.len()
        &&& node_rows(items, from, src)[k].text.len() <= src.len()
    } by {
        assert(span_ok(items[from + k], src.len()));
    }
}

/// The vector `src` with its rows one per line at column `base + 1`. The text
/// comes back as it is when there are no rows, when a row does not lie after
/// the previous one, or when two rows share a line.
pub open spec fn build_vec(src: Seq<u8>, rows: Seq<RowView>, base: int) -> Seq<u8> {
    if rows.len() == 0 {
        src
    } else {
        match vec_rest(src, rows, base, 0, 0, -1) {
            Some(o) => o,
            None => src,
        }
    }
}

/// Appends the text written for one row of a vector.
fn push_vec_piece(out: &mut Vec<u8>, src: &[u8], row: &Row, first: bool, last: usize, base_col: usize)
    requires
        last <= row.start_byte <= src@.len(),
        last <= line_start(src@, row.start_byte as int),
        row_cols_safe(src@, row@, base_col as int, base_col + 1),
    ensures
        final(out)@ == old(out)@ + vec_piece(src@, row@, first, last as int, base_col as int),
{
    let ghost init = out@;
    let target = base_col + 1;
    let ls = line_start_byte(src, row.start_byte);
    let old_col = absolute_col_in_slice(src, base_col, row.start_byte);
    let delta: isize = target as isize - old_col as isize;
    let adjusted = shift_multiline_block(row.text.as_slice(), delta);
    if first {
        push_range(out, src, last, ls);
    } else {
        out.push(NEWLINE);
    }
    push_spaces(out, target);
    push_all(out, adjusted.as_slice());
    assert(out@ =~= init + vec_piece(src@, row@, first, last as int, base_col as int));
}

/// Lays out the rows of the vector `src` one per line at column
/// `base_col + 1`.
///
/// The text before the first row's line is kept; each row is moved from its
/// old column to the new one, later lines included. The text comes back
/// unchanged when there are no rows, when a row does not lie after the
/// previous one, or when two rows share a line. The anchor is not used.
pub fn build_aligned_vector_string(
    src: &[u8],
    _anchor_byte: usize,
    steps: &[Row],
    base_col: usize,
) -> (r: Vec<u8>)
    requires
        steps@.len() > 0 ==> rows_safe(src@, row_views(steps@), base_col as int, base_col + 1, 0, 0, -1),
    ensures
        r@ == build_vec(src@, row_views(steps@), base_col as int),
{
    assert(src@.subrange(0, src@.len() as int) =~= src@);
    if steps.len() == 0 {
        return copy_range(src, 0, src.len());
    }
    let ghost base = base_col as int;
    let mut out: Vec<u8> = Vec::new();
    let mut last: usize = 0;
    let mut prev: Option<usize> = None;
    let mut i: usize = 0;
    assert(out@ + seq![] =~= out@);
    while i < steps.len()
        invariant
            0 <= i <= steps@.len(),
            steps@.len() > 0,
            base == base_col as int,
            rows_safe(src@, row_views(steps@), base, base + 1, i as int, last as int, prev_int(prev)),
            vec_rest(src@, row_views(steps@), base, 0, 0, -1) == prepend(
                out@,
                vec_rest(src@, row_views(steps@), base, i as int, last as int, prev_int(prev)),
            ),
        decreases steps@.len() - i,
    {
        let step = &steps[i];
        let ls = line_start_byte(src, step.start_byte);
        if step.start_byte < last || ls < last {
            return copy_range(src, 0, src.len());
        }
        match prev {
            Some(p) => {
                if p == ls {
                    return copy_range(src, 0, src.len());
                }
            },
            None => {},
        }
        assert(!rows_bail(src@, row_views(steps@)[i as int], last as int, prev_int(prev)));
        let ghost before = out@;
        push_vec_piece(&mut out, src, step, i == 0, last, base_col);
        proof {
            let rest = vec_rest(src@, row_views(steps@), base, i + 1, step.end_byte as int, ls as int);
            match rest {
                Some(x) => {
                    assert(before + (vec_piece(src@, step@, i == 0, last as int, base) + x)
                        =~= out@ + x);
                },
                None => {},
            }
        }
        last = step.end_byte;
        prev = Some(ls);
        i += 1;
    }
    push_range(&mut out, src, last, src.len());
    out
}

impl Alignable for VecLikeAligner {
    open spec fn kind_spec(&self) -> AlignKind {
        AlignKind::VecLike
    }

    open spec fn matches_spec(&self, node: SyntaxNode, src: Seq<u8>) -> bool {
        node.kind@ == "vec_lit".spec_bytes()
    }

    open spec fn extract_ok(&self, node: SyntaxNode, src: Seq<u8>) -> bool {
        kids_spans_ok(node, src.len())
    }

    open spec fn extract_spec(&self, node: SyntaxNode, src: Seq<u8>) -> Option<ExtractedView> {
        if vec_extract_ok(node) {
            let items = code_kids(node);
            let b = first_later(items, items[0].start_row as int, 0);
            Some(ExtractedView::Rows { anchor: items[b].start_byte as int, rows: node_rows(items, b, src) })
        } else {
            None
        }
    }

    open spec fn build_ok(&self, src: Seq<u8>, e: ExtractedView, base: int) -> bool {
        match e {
            ExtractedView::Rows { anchor, rows } => rows.len() > 0 ==> rows_safe(src, rows, base, base + 1, 0, 0, -1),
            _ => true,
        }
    }

    open spec fn build_spec(&self, src: Seq<u8>, e: ExtractedView, base: int) -> Seq<u8> {
        match e {
            ExtractedView::Rows { anchor, rows } => build_vec(src, rows, base),
            _ => src,
        }
    }

    fn kind(&self) -> (r: AlignKind) {
        AlignKind::VecLike
    }

    /// Whether the node is a vector literal.
    fn matches(&self, node: &SyntaxNode, _src: &[u8]) -> (r: bool) {
        kind_is(node, "vec_lit")
    }

    fn extract(&self, node: &SyntaxNode, src: &[u8]) -> (r: Option<Extracted>) {
        match extract_vector_layout(node, src) {
            Some((anchor_byte, rows)) => Some(Extracted::Rows { anchor_byte, rows }),
            None => None,
        }
    }

    fn build(&self, src: &[u8], extracted: Extracted, base_col: usize) -> (r: Vec<u8>) {
        match extracted {
            Extracted::Rows { anchor_byte, rows } => build_aligned_vector_string(
                src,
                anchor_byte,
                rows.as_slice(),
                base_col,
            ),
            _ => {
                let r = copy_range(src, 0, src.len());
                assert(src@.subrange(0, src@.len() as int) =~= src@);
                r
            },
        }
    }
}


} // verus!
