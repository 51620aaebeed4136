//! Binding forms (`let`, `loop`, `binding`, ...): bindings aligned inside
//! their vector, body forms one per line two columns in.
use vstd::prelude::*;
use vstd::string::*;
use vstd::slice::slice_subrange;

use crate::alignable::Alignable;
use crate::aligners::cond_like::{cond_pairs_from, two_pair};
use crate::aligners::generic_builder::{build_aligned_pairs, build_pairs_at, pairs_ok};
use crate::aligners::vec_like::{node_rows, rows_of};
use crate::helpers::{
    absolute_col, absolute_col_in_slice, code_kids, derefs, kids_spans_ok, kind_is,
    lemma_absolute_col_bound, lemma_line_start, line_start, line_start_byte, node_text,
    non_comment_children, shift_multiline, shift_multiline_block, span_ok, text_of,
};
use crate::model::{
    pair_views, row_views, AlignKind, Extracted, ExtractedView, Pair, PairView, Row,
    RowView, SyntaxNode,
};
use crate::text::{
    bytes_equal, copy_range, push_all, push_range, push_spaces, skip_ws, skip_ws_exec, spaces,
    NEWLINE, SPACE,
};

verus! {

/// The aligner for binding forms.
pub struct LetLikeAligner;

/// Heads of binding forms: `let`, `when-let`, `if-let`, `binding`, `loop`,
/// `with-open` and `with-redefs`.
pub open spec fn is_let_head(t: Seq<u8>) -> bool {
    ||| t == "let".spec_bytes()
    ||| t == "when-let".spec_bytes()
    ||| t == "if-let".spec_bytes()
    ||| t == "binding".spec_bytes()
    ||| t == "loop".spec_bytes()
    ||| t == "with-open".spec_bytes()
    ||| t == "with-redefs".spec_bytes()
}

/// Whether a head is one of a binding form.
fn is_let_head_exec(t: &[u8]) -> (r: bool)
    ensures
        r == is_let_head(t@),
{
    bytes_equal(t, "let".as_bytes()) || bytes_equal(t, "when-let".as_bytes()) || bytes_equal(
        t,
        "if-let".as_bytes(),
    ) || bytes_equal(t, "binding".as_bytes()) || bytes_equal(t, "loop".as_bytes())
        || bytes_equal(t, "with-open".as_bytes()) || bytes_equal(t, "with-redefs".as_bytes())
}

/// Whether the node is a list whose first element is the head of a binding
/// form.
pub open spec fn is_let_form(nd: SyntaxNode, src: Seq<u8>) -> bool {
    let kids = code_kids(nd);
    nd.kind@ == "list_lit".spec_bytes() && kids.len() > 0 && is_let_head(text_of(kids[0], src))
}

/// Whether the binding form `nd` is read: it spans several lines, its second
/// element is a vector with an even number of elements, and those lie within
/// the vector's span.
pub open spec fn let_extract_ok(nd: SyntaxNode, src: Seq<u8>) -> bool {
    let kids = code_kids(nd);
    &&& is_let_form(nd, src)
    &&& nd.start_row != nd.end_row
    &&& kids.len() >= 2
    &&& kids[1].kind@ == "vec_lit".spec_bytes()
    &&& code_kids(kids[1]).len() % 2 == 0
    &&& kids_spans_ok(kids[1], kids[1].end_byte as nat)
}

/// Every multi-line list headed by `let`, `when-let`, `if-let`, `binding`,
/// `loop`, `with-open` or `with-redefs`, whose second element is a vector of
/// an even number of elements lying within it, is read as a binding form.
pub proof fn lemma_binding_forms_read(nd: SyntaxNode, src: Seq<u8>)
    requires
        nd.kind@ == "list_lit".spec_bytes(),
        nd.start_row != nd.end_row,
        code_kids(nd).len() >= 2,
        ({
            let h = text_of(code_kids(nd)[0], src);
            ||| h == "let".spec_bytes()
            ||| h == "when-let".spec_bytes()
            ||| h == "if-let".spec_bytes()
            ||| h == "binding".spec_bytes()
            ||| h == "loop".spec_bytes()
            ||| h == "with-open".spec_bytes()
            ||| h == "with-redefs".spec_bytes()
        }),
        code_kids(nd)[1].kind@ == "vec_lit".spec_bytes(),
        code_kids(code_kids(nd)[1]).len() % 2 == 0,
        kids_spans_ok(code_kids(nd)[1], code_kids(nd)[1].end_byte as nat),
    ensures
        let_extract_ok(nd, src),
{
}

/// The bindings of the vector elements `bk`, two by two.
pub open spec fn let_pairs(bk: Seq<SyntaxNode>, src: Seq<u8>) -> Seq<PairView> {
    cond_pairs_from(bk, src, 0, 0, false)->0
}

/// What is read out of a binding form: its bindings, the span of its
/// binding vector, and its body forms.
pub open spec fn let_layout(nd: SyntaxNode, src: Seq<u8>) -> ExtractedView {
    let kids = code_kids(nd);
    ExtractedView::Bindings {
        pairs: let_pairs(code_kids(kids[1]), src),
        start: kids[1].start_byte as int,
        end: kids[1].end_byte as int,
        body: node_rows(kids, 2, src),
    }
}

/// The text written for body form `r`: when it starts its own line after
/// `last`, the text before that line, `target` spaces and the form moved to
/// `target`; otherwise the text up to its end as it is.
pub open spec fn body_piece(src: Seq<u8>, r: RowView, last: int, target: int, base: int) -> Seq<u8> {
    let ls = line_start(src, r.start);
    if last <= ls && skip_ws(src, ls) == r.start {
        src.subrange(last, ls) + spaces(target as nat) + shift_multiline(
            r.text,
            target - absolute_col(src, base, r.start),
        )
    } else {
        src.subrange(last, r.end)
    }
}

/// The text from body form `i` on, `last` being the end of the previous
/// form; the rest comes as it is from a form that does not follow `last`.
pub open spec fn body_rest(
    src: Seq<u8>,
    rows: Seq<RowView>,
    target: int,
    base: int,
    i: int,
    last: int,
) -> Seq<u8>
    decreases rows.len() - i,
{
    if i < 0 || i >= rows.len() || rows[i].start < last {
        src.subrange(last, src.len() as int)
    } else {
        body_piece(src, rows[i], last, target, base) + body_rest(
            src,
            rows,
            target,
            base,
            i + 1,
            rows[i].end,
        )
    }
}

/// A binding form `src`, placed at column `base`, laid out: the text up to
/// the end of the binding vector with its bindings aligned (the first where
/// it stands, the others one column right of the vector's `[`, values one
/// column past the widest one-line binding name), then the body forms that
/// start their own line moved to column `base + 2`.
pub open spec fn build_let(
    src: Seq<u8>,
    pairs: Seq<PairView>,
    start: int,
    end: int,
    body: Seq<RowView>,
    base: int,
) -> Seq<u8> {
    build_pairs_at(src.subrange(0, end), pairs, base, absolute_col(src, base, start) + 1, true)
        + body_rest(src, body, base + 2, base, 0, end)
}

/// Whether body form `r` is not empty and starts its own line, below the
/// position `last`.
pub open spec fn starts_own_line_after(src: Seq<u8>, r: RowView, last: int) -> bool {
    let ls = line_start(src, r.start);
    &&& last < ls
    &&& skip_ws(src, ls) == r.start
    &&& r.text.len() > 0
}

/// Whether `t` has, from position `q`, a line that begins with `n` spaces and
/// then the byte `b`.
pub open spec fn line_begins_at(t: Seq<u8>, q: int, n: int, b: u8) -> bool {
    &&& 1 <= q
    &&& q + n < t.len()
    &&& t[q - 1] == NEWLINE
    &&& forall|m: int| q <= m < q + n ==> t[m] == SPACE
    &&& t[q + n] == b
}

/// Whether a line of `t` begins with `n` spaces and then the byte `b`.
pub open spec fn has_line_beginning(t: Seq<u8>, n: int, b: u8) -> bool {
    exists|q: int| #[trigger] line_begins_at(t, q, n, b)
}

/// Each body form of `rows[i..]` that starts its own line below the previous
/// one begins a line of the output at column `base + 2`.
proof fn lemma_body_rest_two_columns_in(
    src: Seq<u8>,
    rows: Seq<RowView>,
    base: int,
    i: int,
    last: int,
)
    requires
        0 <= i <= rows.len(),
        0 <= last,
        base >= 0,
        forall|k: int| 0 <= k < rows.len() ==> row_ok(src, #[trigger] rows[k]),
        i < rows.len() ==> starts_own_line_after(src, rows[i], last),
        forall|k: int|
            i < k < rows.len() ==> starts_own_line_after(src, #[trigger] rows[k], rows[k - 1].end),
    ensures
        forall|k: int|
            #![trigger rows[k]]
            i <= k < rows.len() ==> has_line_beginning(
                body_rest(src, rows, base + 2, base, i, last),
                base + 2,
                rows[k].text[0],
            ),
    decreases rows.len() - i,
{
    if i < rows.len() {
        let r = rows[i];
        assert(row_ok(src, r));
        let ls = line_start(src, r.start);
        crate::helpers::lemma_line_start(src, r.start);
        crate::text::lemma_skip_ws(src, ls);
        if i + 1 < rows.len() {
            assert(starts_own_line_after(src, rows[i + 1], rows[i].end));
        }
        lemma_body_rest_two_columns_in(src, rows, base, i + 1, r.end);
        let shifted = shift_multiline(r.text, base + 2 - absolute_col(src, base, r.start));
        crate::helpers::lemma_shift_multiline_first(
            r.text,
            base + 2 - absolute_col(src, base, r.start),
        );
        let piece = src.subrange(last, ls) + spaces((base + 2) as nat) + shifted;
        assert(body_piece(src, r, last, base + 2, base) == piece);
        let rest = body_rest(src, rows, base + 2, base, i + 1, r.end);
        let out = body_rest(src, rows, base + 2, base, i, last);
        assert(out == piece + rest);
        let q0 = ls - last;
        assert(line_begins_at(out, q0, base + 2, r.text[0])) by {
            assert(out[q0 - 1] == src[ls - 1]);
            assert forall|m: int| q0 <= m < q0 + base + 2 implies out[m] == SPACE by {
                assert(out[m] == piece[m]);
            }
            assert(out[q0 + base + 2] == shifted[0]);
        }
        assert forall|k: int| #![trigger rows[k]] i <= k < rows.len() implies has_line_beginning(
            body_rest(src, rows, base + 2, base, i, last),
            base + 2,
            rows[k].text[0],
        ) by {
            if k == i {
                assert(line_begins_at(out, q0, base + 2, rows[k].text[0]));
            } else {
                assert(has_line_beginning(rest, base + 2, rows[k].text[0]));
                let q1 = choose|q: int| #[trigger] line_begins_at(rest, q, base + 2, rows[k].text[0]);
                let q = piece.len() + q1;
                assert(out[q - 1] == rest[q1 - 1]);
                assert forall|m: int| q <= m < q + base + 2 implies out[m] == SPACE by {
                    assert(out[m] == rest[m - piece.len()]);
                    assert(rest[m - piece.len()] == SPACE);
                }
                assert(out[q + base + 2] == rest[q1 + base + 2]);
                assert(line_begins_at(out, q, base + 2, rows[k].text[0]));
            }
        }
    }
}

/// In a laid-out binding form, every body form that starts its own line
/// below the binding vector (each below the one before) begins a line at
/// column `base + 2`: two columns right of the form's opening parenthesis.
pub proof fn lemma_body_forms_two_columns_in(
    src: Seq<u8>,
    pairs: Seq<PairView>,
    start: int,
    end: int,
    body: Seq<RowView>,
    base: int,
)
    requires
        0 <= end <= src.len(),
        base >= 0,
        forall|k: int| 0 <= k < body.len() ==> row_ok(src, #[trigger] body[k]),
        body.len() > 0 ==> starts_own_line_after(src, body[0], end),
        forall|k: int|
            0 < k < body.len() ==> starts_own_line_after(src, #[trigger] body[k], body[k - 1].end),
    ensures
        forall|k: int|
            #![trigger body[k]]
            0 <= k < body.len() ==> has_line_beginning(
                build_let(src, pairs, start, end, body, base),
                base + 2,
                body[k].text[0],
            ),
{
    lemma_body_rest_two_columns_in(src, body, base, 0, end);
    let a = build_pairs_at(
        src.subrange(0, end),
        pairs,
        base,
        absolute_col(src, base, start) + 1,
        true,
    );
    let rest = body_rest(src, body, base + 2, base, 0, end);
    let out = build_let(src, pairs, start, end, body, base);
    assert(out == a + rest);
    assert forall|k: int| #![trigger body[k]] 0 <= k < body.len() implies has_line_beginning(
        build_let(src, pairs, start, end, body, base),
        base + 2,
        body[k].text[0],
    ) by {
        assert(has_line_beginning(rest, base + 2, body[k].text[0]));
        let q1 = choose|q: int| #[trigger] line_begins_at(rest, q, base + 2, body[k].text[0]);
        let q = a.len() + q1;
        assert(out[q - 1] == rest[q1 - 1]);
        assert forall|m: int| q <= m < q + base + 2 implies out[m] == SPACE by {
            assert(out[m] == rest[m - a.len()]);
            assert(rest[m - a.len()] == SPACE);
        }
        assert(out[q + base + 2] == rest[q1 + base + 2]);
        assert(line_begins_at(out, q, base + 2, body[k].text[0]));
    }
}

/// Positions of body form `r` lie within `src`.
pub open spec fn row_ok(src: Seq<u8>, r: RowView) -> bool {
    0 <= r.start <= r.end <= src.len() && r.text.len() <= src.len()
}

/// The inputs on which laying out a binding form reads only positions within
/// the text and columns within `isize`.
pub open spec fn build_let_ok(
    src: Seq<u8>,
    pairs: Seq<PairView>,
    start: int,
    end: int,
    body: Seq<RowView>,
    base: int,
) -> bool {
    &&& 0 <= start <= end <= src.len()
    &&& base + src.len() + 2 <= isize::MAX
    &&& pairs_ok(src.subrange(0, end), pairs, base, absolute_col(src, base, start) + 1)
    &&& forall|k: int| 0 <= k < body.len() ==> row_ok(src, #[trigger] body[k])
}

/// Reads the element pairs of `children`, two by two (see `let_pairs`).
fn read_pairs(children: &Vec<&SyntaxNode>, src: &[u8]) -> (r: Vec<Pair>)
    requires
        children@.len() % 2 == 0,
        forall|k: int| 0 <= k < children@.len() ==> span_ok(*#[trigger] children@[k], src@.len()),
    ensures
        cond_pairs_from(derefs(children@), src@, 0, 0, false) == Some(pair_views(r@)),
{
    let ghost kids = derefs(children@);
    let ghost mut done: Seq<PairView> = seq![];
    let mut pairs: Vec<Pair> = Vec::new();
    let mut i: usize = 0;
    while i + 1 < children.len()
        invariant
            kids == derefs(children@),
            children@.len() % 2 == 0,
            i % 2 == 0,
            i <= children@.len(),
            forall|k: int| 0 <= k < children@.len() ==> span_ok(*#[trigger] children@[k], src@.len()),
            pair_views(pairs@) == done,
            cond_pairs_from(kids, src@, 0, 0, false) == match cond_pairs_from(
                kids,
                src@,
                i as int,
                0,
                false,
            ) {
                Some(rest) => Some(done + rest),
                None => None::<Seq<PairView>>,
            },
        decreases children@.len() - i,
    {
        let lhs = children[i];
        let rhs = children[i + 1];
        assert(kids[i as int] == *lhs);
        assert(kids[i + 1] == *rhs);
        assert(span_ok(*children@[i as int], src@.len()));
        assert(span_ok(*children@[i + 1], src@.len()));
        let lh = copy_range(src, lhs.start_byte, lhs.end_byte);
        let rh = copy_range(src, rhs.start_byte, rhs.end_byte);
        let width = lh.len();
        pairs.push(
            Pair {
                lh_string: lh,
                rh_string: rh,
                lh_start_byte: lhs.start_byte,
                lh_end_byte: lhs.end_byte,
                lh_start_col: 0,
                lh_width: width,
                rh_start_byte: rhs.start_byte,
                rh_end_byte: rhs.end_byte,
            },
        );
        proof {
            let d = two_pair(kids[i as int], kids[i + 1], src@, 0);
            assert(pairs@.last()@ == d);
            let old_done = done;
            done = done.push(d);
            assert(pair_views(pairs@) =~= done);
            match cond_pairs_from(kids, src@, i + 2, 0, false) {
                Some(rest) => {
                    assert(old_done + (seq![d] + rest) =~= done + rest);
                },
                None => {},
            }
        }
        i += 2;
    }
    assert(i == children@.len());
    assert(done + seq![] =~= done);
    pairs
}

/// Reads a binding form (see `let_layout`), or `None` when it is not read
/// (see `let_extract_ok`).
pub fn extract_let_layout(nd: &SyntaxNode, src: &[u8]) -> (r: Option<Extracted>)
    requires
        kids_spans_ok(*nd, src@.len()),
    ensures
        r is Some <==> let_extract_ok(*nd, src@),
        r matches Some(e) ==> e@ == let_layout(*nd, src@),
        r is Some ==> cond_pairs_from(code_kids(code_kids(*nd)[1]), src@, 0, 0, false) is Some,
{
    if !kind_is(nd, "list_lit") || nd.start_row == nd.end_row {
        return None;
    }
    let children = non_comment_children(nd);
    let ghost kids = code_kids(*nd);
    if children.len() < 2 {
        return None;
    }
    assert(*children@[0] == kids[0]);
    assert(*children@[1] == kids[1]);
    assert(span_ok(kids[0], src@.len()));
    assert(span_ok(kids[1], src@.len()));
    if !is_let_head_exec(node_text(children[0], src)) {
        return None;
    }
    let v = children[1];
    if !kind_is(v, "vec_lit") {
        return None;
    }
    let bindings = non_comment_children(v);
    let ghost bk = code_kids(*v);
    if bindings.len() % 2 != 0 {
        return None;
    }
    let end = v.end_byte;
    assert(kids[1] == *v);
    let mut k: usize = 0;
    while k < bindings.len()
        invariant
            derefs(bindings@) == bk,
            kids == code_kids(*nd),
            kids.len() >= 2,
            end == kids[1].end_byte,
            bk == code_kids(kids[1]),
            0 <= k <= bindings@.len(),
            forall|j: int| 0 <= j < k ==> span_ok(#[trigger] bk[j], end as nat),
        decreases bindings@.len() - k,
    {
        assert(*bindings@[k as int] == bk[k as int]);
        if !(bindings[k].start_byte <= bindings[k].end_byte && bindings[k].end_byte <= end) {
            assert(!span_ok(bk[k as int], end as nat));
            return None;
        }
        k += 1;
    }
    assert(kids_spans_ok(*v, end as nat));
    assert forall|j: int| 0 <= j < bindings@.len() implies span_ok(
        *#[trigger] bindings@[j],
        src@.len(),
    ) by {
        assert(*bindings@[j] == bk[j]);
        assert(span_ok(bk[j], end as nat));
    }
    let pairs = read_pairs(&bindings, src);
    assert forall|j: int| 0 <= j < children@.len() implies span_ok(
        *#[trigger] children@[j],
        src@.len(),
    ) by {
        assert(*children@[j] == kids[j]);
    }
    let body = rows_of(&children, 2, src);
    let e = Extracted::Bindings { pairs, vector_start: v.start_byte, vector_end: end, body };
    assert(e@ == let_layout(*nd, src@));
    Some(e)
}

/// Appends the body forms of a binding form from `body[i..]` (see `body_rest`).
fn push_body_rest(out: &mut Vec<u8>, src: &[u8], body: &[Row], base_col: usize, last: usize)
    requires
        base_col + src@.len() + 2 <= isize::MAX,
        last <= src@.len(),
        forall|k: int| 0 <= k < body@.len() ==> row_ok(src@, #[trigger] row_views(body@)[k]),
    ensures
        final(out)@ == old(out)@ + body_rest(
            src@,
            row_views(body@),
            base_col + 2,
            base_col as int,
            0,
            last as int,
        ),
{
    let ghost rows = row_views(body@);
    let ghost base = base_col as int;
    let ghost init = out@;
    let ghost whole = body_rest(src@, rows, base + 2, base, 0, last as int);
    let target = base_col + 2;
    let mut i: usize = 0;
    let mut last: usize = last;
    let mut done = false;
    while i < body.len() && !done
        invariant
            rows == row_views(body@),
            base == base_col as int,
            target == base_col + 2,
            base_col + src@.len() + 2 <= isize::MAX,
            forall|k: int| 0 <= k < body@.len() ==> row_ok(src@, #[trigger] row_views(body@)[k]),
            0 <= i <= body@.len(),
            last <= src@.len(),
            done ==> init + whole == out@,
            !done ==> init + whole == out@ + body_rest(src@, rows, base + 2, base, i as int, last as int),
        decreases body@.len() - i + (if done {
            0int
        } else {
            1int
        }),
    {
        let r = &body[i];
        assert(rows[i as int] == r@);
        assert(row_ok(src@, r@));
        if r.start_byte < last {
            let ghost before = out@;
            push_range(out, src, last, src.len());
            assert(before + src@.subrange(last as int, src@.len() as int) == out@);
            done = true;
        } else {
            proof {
                lemma_line_start(src@, r.start_byte as int);
                lemma_absolute_col_bound(src@, base, r.start_byte as int);
            }
            let ghost before = out@;
            let ls = line_start_byte(src, r.start_byte);
            if last <= ls && skip_ws_exec(src, ls) == r.start_byte {
                push_range(out, src, last, ls);
                push_spaces(out, target);
                let old_col = absolute_col_in_slice(src, base_col, r.start_byte);
                let d: isize = target as isize - old_col as isize;
                let moved = shift_multiline_block(r.text.as_slice(), d);
                push_all(out, moved.as_slice());
            } else {
                push_range(out, src, last, r.end_byte);
            }
            assert(out@ =~= before + body_piece(src@, rows[i as int], last as int, base + 2, base));
            assert(before + body_rest(src@, rows, base + 2, base, i as int, last as int) =~= out@
                + body_rest(src@, rows, base + 2, base, i + 1, r.end_byte as int));
            last = r.end_byte;
            i += 1;
        }
    }
    if !done {
        let ghost before = out@;
        push_range(out, src, last, src.len());
        assert(body_rest(src@, rows, base + 2, base, i as int, last as int) == src@.subrange(
            last as int,
            src@.len() as int,
        ));
    }
}

/// Lays out a binding form `src`, placed at column `base_col` (see
/// `build_let`).
pub fn build_aligned_let_string(
    src: &[u8],
    pairs: &[Pair],
    vector_start: usize,
    vector_end: usize,
    body: &[Row],
    base_col: usize,
) -> (r: Vec<u8>)
    requires
        build_let_ok(
            src@,
            pair_views(pairs@),
            vector_start as int,
            vector_end as int,
            row_views(body@),
            base_col as int,
        ),
    ensures
        r@ == build_let(
            src@,
            pair_views(pairs@),
            vector_start as int,
            vector_end as int,
            row_views(body@),
            base_col as int,
        ),
{
    proof {
        lemma_absolute_col_bound(src@, base_col as int, vector_start as int);
    }
    let head = slice_subrange(src, 0, vector_end);
    let target = absolute_col_in_slice(src, base_col, vector_start) + 1;
    let mut out = build_aligned_pairs(head, pairs, base_col, target, true);
    push_body_rest(&mut out, src, body, base_col, vector_end);
    out
}

impl Alignable for LetLikeAligner {
    open spec fn kind_spec(&self) -> AlignKind {
        AlignKind::LetLike
    }

    open spec fn matches_spec(&self, node: SyntaxNode, src: Seq<u8>) -> bool {
        is_let_form(node, src)
    }

    open spec fn extract_ok(&self, node: SyntaxNode, src: Seq<u8>) -> bool {
        kids_spans_ok(node, src.len())
    }

    open spec fn extract_spec(&self, node: SyntaxNode, src: Seq<u8>) -> Option<ExtractedView> {
        if let_extract_ok(node, src) {
            Some(let_layout(node, src))
        } else {
            None
        }
    }

    open spec fn build_ok(&self, src: Seq<u8>, e: ExtractedView, base: int) -> bool {
        match e {
            ExtractedView::Bindings { pairs, start, end, body } => build_let_ok(
                src,
                pairs,
                start,
                end,
                body,
                base,
            ),
            _ => true,
        }
    }

    open spec fn build_spec(&self, src: Seq<u8>, e: ExtractedView, base: int) -> Seq<u8> {
        match e {
            ExtractedView::Bindings { pairs, start, end, body } => build_let(
                src,
                pairs,
                start,
                end,
                body,
                base,
            ),
            _ => src,
        }
    }

    fn kind(&self) -> (r: AlignKind) {
        AlignKind::LetLike
    }

    /// Whether the node is a list whose first element reads `let`,
    /// `when-let`, `if-let`, `binding`, `loop`, `with-open` or `with-redefs`.
    fn matches(&self, node: &SyntaxNode, src: &[u8]) -> (r: bool) {
        if !kind_is(node, "list_lit") {
            return false;
        }
        let children = non_comment_children(node);
        if children.len() == 0 {
            return false;
        }
        assert(*children@[0] == code_kids(*node)[0]);
        assert(span_ok(code_kids(*node)[0], src@.len()));
        is_let_head_exec(node_text(children[0], src))
    }

    fn extract(&self, node: &SyntaxNode, src: &[u8]) -> (r: Option<Extracted>) {
        extract_let_layout(node, src)
    }

    fn build(&self, src: &[u8], extracted: Extracted, base_col: usize) -> (r: Vec<u8>) {
        match extracted {
            Extracted::Bindings { pairs, vector_start, vector_end, body } => build_aligned_let_string(
                src,
                pairs.as_slice(),
                vector_start,
                vector_end,
                body.as_slice(),
                base_col,
            ),
            _ => {
                let r = copy_range(src, 0, src.len());
                assert(src@.subrange(0, src@.len() as int) =~= src@);
                r
            },
        }
    }
}

} // verus!
