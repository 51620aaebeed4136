//! Threading macros (`->`, `->>`, `some->`, `some->>`, `as->`) and `if`,
//! `when`, `when-not`, `if-not`, `while`: the steps or branches one per line
//! in one column.
use vstd::prelude::*;
use vstd::string::*;

use crate::aligners::map_like::{prepend, prev_int};
use crate::aligners::ns_like::{CLOSE_PAREN, OPEN_PAREN};
use crate::aligners::vec_like::{
    first_later, lemma_first_later, row_cols_safe, rows_bail, rows_from, rows_of, rows_safe,
};
use crate::helpers::{
    absolute_col, absolute_col_in_slice, clojure_parse, code_kids, derefs, first_named,
    first_named_child, get_tree, kids_spans_ok, kind_is, line_start, line_start_byte, node_text,
    non_comment_children, shift_multiline, shift_multiline_block, span_ok, text_of,
};
use crate::alignable::Alignable;
use crate::aligners::vec_like::node_rows;
use crate::model::{
    row_views, AlignKind, Extracted, ExtractedView, Row, RowView, SyntaxNode, SyntaxTree,
};
use crate::text::{
    bytes_equal, copy_range, push_all, push_range, push_spaces, skip_ws_back_exec, skip_ws_exec,
    spaces, starts_with, trim, trim_bytes, trim_end, trim_start, NEWLINE, SPACE,
};

verus! {

/// The aligner for threading macros and `if`-like forms.
pub struct ThreadLikeAligner;

/// Heads of the threading macros whose steps follow the threaded value.
pub open spec fn is_thread_head(t: Seq<u8>) -> bool {
    ||| t == "->".spec_bytes()
    ||| t == "->>".spec_bytes()
    ||| t == "some->".spec_bytes()
    ||| t == "some->>".spec_bytes()
}

/// Heads of the forms whose branches follow a test.
pub open spec fn is_branch_head(t: Seq<u8>) -> bool {
    ||| t == "if".spec_bytes()
    ||| t == "when".spec_bytes()
    ||| t == "when-not".spec_bytes()
    ||| t == "if-not".spec_bytes()
    ||| t == "while".spec_bytes()
}

/// Every head the thread-like aligner takes.
pub open spec fn is_thread_like_head(t: Seq<u8>) -> bool {
    is_thread_head(t) || is_branch_head(t) || t == "as->".spec_bytes()
}

/// The anchor and the index of the first row of a thread-like form, or
/// `None` when the form is not laid out.
///
/// After `->`, `->>`, `some->`, `some->>` the rows start at the third element
/// and hang from the second; after `if`, `when`, `when-not`, `if-not`,
/// `while` they start at the third element and hang two bytes into the form;
/// after `as->` they start at the first element below the head's row.
pub open spec fn thread_layout(nd: SyntaxNode, src: Seq<u8>) -> Option<(int, int)> {
    let kids = code_kids(nd);
    if nd.kind@ != "list_lit".spec_bytes() || kids.len() == 0 || nd.start_row == nd.end_row {
        None
    } else {
        let head = text_of(kids[0], src);
        if is_thread_head(head) {
            if kids.len() < 3 {
                None
            } else {
                Some((kids[1].start_byte as int, 2int))
            }
        } else if is_branch_head(head) {
            if kids.len() < 3 {
                None
            } else {
                Some((nd.start_byte + 2, 2int))
            }
        } else if head == "as->".spec_bytes() {
            let b = first_later(kids, kids[0].start_row as int, 0);
            if kids.len() < 2 || b >= kids.len() {
                None
            } else {
                Some((kids[b].start_byte as int, b))
            }
        } else {
            None
        }
    }
}

/// A threading or `if`-like form on one line yields no layout, so it is
/// left as it is.
pub proof fn lemma_one_line_thread_form(nd: SyntaxNode, src: Seq<u8>)
    requires
        nd.start_row == nd.end_row,
    ensures
        thread_layout(nd, src) is None,
{
}

/// Whether the node is a list whose first element reads a branch head.
pub open spec fn branch_form(nd: SyntaxNode, src: Seq<u8>) -> bool {
    let kids = code_kids(nd);
    nd.kind@ == "list_lit".spec_bytes() && kids.len() > 0 && is_branch_head(text_of(kids[0], src))
}

/// Whether a head is `->`, `->>`, `some->` or `some->>`.
fn is_thread_head_exec(t: &[u8]) -> (r: bool)
    ensures
        r == is_thread_head(t@),
{
    bytes_equal(t, "->".as_bytes()) || bytes_equal(t, "->>".as_bytes()) || bytes_equal(
        t,
        "some->".as_bytes(),
    ) || bytes_equal(t, "some->>".as_bytes())
}

/// Whether a head is `if`, `when`, `when-not`, `if-not` or `while`.
fn is_branch_head_exec(t: &[u8]) -> (r: bool)
    ensures
        r == is_branch_head(t@),
{
    bytes_equal(t, "if".as_bytes()) || bytes_equal(t, "when".as_bytes()) || bytes_equal(
        t,
        "when-not".as_bytes(),
    ) || bytes_equal(t, "if-not".as_bytes()) || bytes_equal(t, "while".as_bytes())
}

/// Reads the layout of a threading macro or `if`-like form: the byte the rows
/// hang from and the rows.
///
/// Returns `None` unless `nd` is a multi-line list headed by one of the heads
/// of `thread_layout` with enough elements (see there for the anchor and the
/// first row). The rows are the elements from the first row on.
pub fn extract_thread_layout(nd: &SyntaxNode, src: &[u8]) -> (r: Option<(usize, Vec<Row>)>)
    requires
        kids_spans_ok(*nd, src@.len()),
        branch_form(*nd, src@) ==> nd.start_byte + 2 <= usize::MAX,
    ensures
        r is Some <==> thread_layout(*nd, src@) is Some,
        r matches Some((anchor, rows)) ==> {
            let (a, b) = thread_layout(*nd, src@)->0;
            &&& anchor == a
            &&& rows_from(rows@, code_kids(*nd), b, src@)
        },
{
    if !kind_is(nd, "list_lit") {
        return None;
    }
    let children = non_comment_children(nd);
    let ghost kids = code_kids(*nd);
    if children.len() == 0 {
        return None;
    }
    assert(*children@[0] == kids[0]);
    assert(span_ok(kids[0], src@.len()));
    let head = node_text(children[0], src);
    if nd.start_row == nd.end_row {
        return None;
    }
    proof {
        assert forall|k: int| 0 <= k < children@.len() implies span_ok(
            *#[trigger] children@[k],
            src@.len(),
        ) by {
            assert(*children@[k] == kids[k]);
        }
    }
    if is_thread_head_exec(head) {
        if children.len() < 3 {
            return None;
        }
        assert(*children@[1] == kids[1]);
        let anchor = children[1].start_byte;
        let rows = rows_of(&children, 2, src);
        Some((anchor, rows))
    } else if is_branch_head_exec(head) {
        if children.len() < 3 {
            return None;
        }
        let anchor = nd.start_byte + 2;
        let rows = rows_of(&children, 2, src);
        Some((anchor, rows))
    } else if bytes_equal(head, "as->".as_bytes()) {
        if children.len() < 2 {
            return None;
        }
        let header_row = children[0].start_row;
        let mut b: usize = 0;
        proof {
            lemma_first_later(kids, header_row as int, 0);
        }
        while b < children.len() && children[b].start_row <= header_row
            invariant
                derefs(children@) == kids,
                0 <= b <= children@.len(),
                first_later(kids, header_row as int, 0) == first_later(
                    kids,
                    header_row as int,
                    b as int,
                ),
            decreases children@.len() - b,
        {
            assert(*children@[b as int] == kids[b as int]);
            b += 1;
        }
        if b == children.len() {
            return None;
        }
        assert(*children@[b as int] == kids[b as int]);
        let anchor = children[b].start_byte;
        let rows = rows_of(&children, b, src);
        Some((anchor, rows))
    } else {
        None
    }
}

// ---------------------------------------------------------------------------
// The header of `as->`
// ---------------------------------------------------------------------------

/// The header of an `as->` form, rebuilt on one line: `(as-> value name`,
/// from the first form of the syntax tree `tree` of `src`; `None` when that
/// is not an `as->` form with a value and a name.
pub open spec fn as_header_of(tree: SyntaxTree, src: Seq<u8>) -> Option<Seq<u8>> {
    match first_named(tree.root) {
        None => None,
        Some(form) => {
            let kids = code_kids(form);
            if kids.len() < 3 || text_of(kids[0], src) != "as->".spec_bytes() {
                None
            } else {
                Some(
                    seq![OPEN_PAREN] + text_of(kids[0], src) + seq![SPACE] + trim(
                        text_of(kids[1], src),
                    ) + seq![SPACE] + trim(text_of(kids[2], src)),
                )
            }
        },
    }
}

/// The header of the `as->` form that parsing `src` yields first (see
/// `as_header_of`).
pub open spec fn as_header(src: Seq<u8>) -> Option<Seq<u8>> {
    match clojure_parse(src) {
        None => None,
        Some(tree) => as_header_of(tree, src),
    }
}

/// Whether the elements of the first form of `tree` lie within `len` bytes.
pub open spec fn as_header_tree_ok(tree: SyntaxTree, len: nat) -> bool {
    match first_named(tree.root) {
        None => true,
        Some(form) => kids_spans_ok(form, len),
    }
}

/// Whether the first form that parsing `src` yields has its elements within
/// `src`.
pub open spec fn as_header_ok(src: Seq<u8>) -> bool {
    match clojure_parse(src) {
        None => true,
        Some(tree) => as_header_tree_ok(tree, src.len()),
    }
}

/// Rebuilds the header of an `as->` form on one line, `(as-> value name`,
/// from the syntax tree of `src` (see `as_header_of`).
pub fn as_thread_header_of(tree: &SyntaxTree, src: &[u8]) -> (r: Option<Vec<u8>>)
    requires
        as_header_tree_ok(*tree, src@.len()),
    ensures
        r matches Some(h) ==> as_header_of(*tree, src@) == Some(h@),
        r is None ==> as_header_of(*tree, src@) is None,
{
    let form = match first_named_child(&tree.root) {
        Some(f) => f,
        None => return None,
    };
    let children = non_comment_children(form);
    let ghost kids = code_kids(*form);
    if children.len() < 3 {
        return None;
    }
    assert(*children@[0] == kids[0]);
    assert(*children@[1] == kids[1]);
    assert(*children@[2] == kids[2]);
    assert(span_ok(kids[0], src@.len()));
    assert(span_ok(kids[1], src@.len()));
    assert(span_ok(kids[2], src@.len()));
    let head = node_text(children[0], src);
    if !bytes_equal(head, "as->".as_bytes()) {
        return None;
    }
    let mut out: Vec<u8> = Vec::new();
    out.push(OPEN_PAREN);
    push_all(&mut out, head);
    out.push(SPACE);
    let v = trim_bytes(node_text(children[1], src));
    push_all(&mut out, v.as_slice());
    out.push(SPACE);
    let n = trim_bytes(node_text(children[2], src));
    push_all(&mut out, n.as_slice());
    assert(Some(out@) =~= as_header_of(*tree, src@));
    Some(out)
}

/// Rebuilds the header of an `as->` form on one line: `(as-> value name`
/// (see `as_header`).
fn normalized_as_thread_header(src: &[u8]) -> (r: Option<Vec<u8>>)
    requires
        as_header_ok(src@),
    ensures
        r matches Some(h) ==> as_header(src@) == Some(h@),
        r is None ==> as_header(src@) is None,
{
    match get_tree(src) {
        Some(tree) => as_thread_header_of(&tree, src),
        None => None,
    }
}

// ---------------------------------------------------------------------------
// Rebuilding the form
// ---------------------------------------------------------------------------

/// Whether `src`, once leading white space is skipped, starts with `(as->`.
pub open spec fn is_as_thread(src: Seq<u8>) -> bool {
    let t = trim_start(src);
    "(as->".spec_bytes().len() <= t.len() && t.subrange(0, "(as->".spec_bytes().len() as int)
        == "(as->".spec_bytes()
}

/// Column the rows of a thread-like form go to: `base + 2` for `as->`, the
/// column of the anchor otherwise.
pub open spec fn thread_target(src: Seq<u8>, anchor: int, base: int) -> int {
    if is_as_thread(src) {
        base + 2
    } else {
        absolute_col(src, base, anchor)
    }
}

/// What comes before the first row: for `as->` the rebuilt header, otherwise
/// (or when there is none) the text before the first row without its
/// trailing white space.
pub open spec fn thread_first_head(src: Seq<u8>, r: RowView, last: int) -> Seq<u8> {
    let before = trim_end(src.subrange(last, r.start));
    if is_as_thread(src) {
        match as_header(src) {
            Some(h) => h,
            None => before,
        }
    } else {
        before
    }
}

/// The text written for one row: the head and a line break (first row) or
/// the text before the row's line, `target` spaces, and the row moved from its
/// old column to `target`.
pub open spec fn thread_piece(
    src: Seq<u8>,
    r: RowView,
    first: bool,
    last: int,
    base: int,
    target: int,
) -> Seq<u8> {
    let adjusted = shift_multiline(r.text, target - absolute_col(src, base, r.start));
    if first {
        thread_first_head(src, r, last) + seq![NEWLINE] + spaces(target as nat) + adjusted
    } else {
        src.subrange(last, line_start(src, r.start)) + spaces(target as nat) + adjusted
    }
}

/// The text from row `i` on; `None` when the form is left as it is.
pub open spec fn thread_rest(
    src: Seq<u8>,
    rows: Seq<RowView>,
    base: int,
    target: int,
    i: int,
    last: int,
    prev: int,
) -> Option<Seq<u8>>
    decreases rows.len() - i,
{
    if i < 0 || i >= rows.len() {
        Some(src.subrange(last, src.len() as int))
    } else if rows_bail(src, rows[i], last, prev) {
        None
    } else {
        prepend(
            thread_piece(src, rows[i], i == 0, last, base, target),
            thread_rest(
                src,
                rows,
                base,
                target,
                i + 1,
                rows[i].end,
                line_start(src, rows[i].start),
            ),
        )
    }
}

/// The thread-like form `src` with its rows one per line at
/// `thread_target`. The text comes back as it is when there are no rows, when
/// a row does not lie after the previous one, or when two rows share a line.
pub open spec fn build_thread(src: Seq<u8>, anchor: int, rows: Seq<RowView>, base: int) -> Seq<u8> {
    if rows.len() == 0 {
        src
    } else {
        match thread_rest(src, rows, base, thread_target(src, anchor, base), 0, 0, -1) {
            Some(o) => o,
            None => src,
        }
    }
}

/// The inputs on which laying out a thread-like form reads only positions
/// within the text and columns within `isize`.
pub open spec fn build_thread_ok(src: Seq<u8>, anchor: int, rows: Seq<RowView>, base: int) -> bool {
    rows.len() > 0 ==> {
        &&& is_as_thread(src) ==> base + 2 <= isize::MAX
        &&& !is_as_thread(src) ==> anchor <= src.len() && absolute_col(src, base, anchor)
            <= isize::MAX
        &&& rows_safe(src, rows, base, thread_target(src, anchor, base), 0, 0, -1)
        &&& (is_as_thread(src) && !rows_bail(src, rows[0], 0, -1)) ==> as_header_ok(src)
    }
}

/// Whether `src` starts with `(as->` once leading white space is skipped.
fn is_as_thread_exec(src: &[u8]) -> (r: bool)
    ensures
        r == is_as_thread(src@),
{
    let t = crate::text::trim_start_bytes(src);
    starts_with(t.as_slice(), "(as->".as_bytes())
}

/// Appends what comes before the first row.
fn push_thread_first_head(out: &mut Vec<u8>, src: &[u8], row: &Row, last: usize, is_as: bool)
    requires
        last <= row.start_byte <= src@.len(),
        is_as == is_as_thread(src@),
        is_as ==> as_header_ok(src@),
    ensures
        final(out)@ == old(out)@ + thread_first_head(src@, row@, last as int),
{
    let ghost init = out@;
    if is_as {
        match normalized_as_thread_header(src) {
            Some(h) => {
                push_all(out, h.as_slice());
                return ;
            },
            None => {},
        }
    }
    let b = skip_ws_back_exec(src, last, row.start_byte);
    proof {
        crate::text::lemma_skip_ws_back(src@, last as int, row.start_byte as int);
        lemma_skip_ws_back_shift(src@, last as int, row.start_byte as int);
    }
    push_range(out, src, last, b);
}

/// Skipping white space back over `s[lo..j]` is skipping it over the slice.
pub proof fn lemma_skip_ws_back_shift(s: Seq<u8>, lo: int, j: int)
    requires
        0 <= lo <= j <= s.len(),
    ensures
        s.subrange(lo, crate::text::skip_ws_back(s, lo, j)) == trim_end(s.subrange(lo, j)),
    decreases j,
{
    let t = s.subrange(lo, j);
    crate::text::lemma_skip_ws_back(s, lo, j);
    crate::text::lemma_skip_ws_back(t, 0, j - lo);
    lemma_skip_ws_back_sub(s, lo, j, j);
}

/// `skip_ws_back` over `s` from `k` down to `lo` is `lo` plus the same over the
/// slice `s[lo..j]` from `k - lo`.
proof fn lemma_skip_ws_back_sub(s: Seq<u8>, lo: int, j: int, k: int)
    requires
        0 <= lo <= k <= j <= s.len(),
    ensures
        crate::text::skip_ws_back(s, lo, k) == lo + crate::text::skip_ws_back(
            s.subrange(lo, j),
            0,
            k - lo,
        ),
    decreases k,
{
    let t = s.subrange(lo, j);
    let w = crate::text::ws_len_before(s, k);
    let wt = crate::text::ws_len_before(t, k - lo);
    if lo < k {
        if k - lo >= 1 {
            assert(t[k - lo - 1] == s[k - 1]);
        }
        if k - lo >= 2 {
            assert(t[k - lo - 2] == s[k - 2]);
        }
        if k - lo >= 3 {
            assert(t[k - lo - 3] == s[k - 3]);
        }
        if w > 0 && k - w >= lo {
            assert(wt == w);
            lemma_skip_ws_back_sub(s, lo, j, k - w);
        } else if wt > 0 && k - lo - wt >= 0 {
            assert(w == wt);
        }
    }
}

/// Lays out the rows of a threading macro or `if`-like form one per line.
///
/// The rows go to column `base_col + 2` for `as->` (recognised by the text
/// starting with `(as->`), to the column of `anchor_byte` otherwise. Before
/// the first row comes the `as->` header rebuilt on one line, or else the text
/// before the first row without trailing white space, then a line break; each
/// later row keeps the text before its line. Rows are moved from their old
/// column to the new one, later lines included. The text comes back
/// unchanged when there are no rows, when a row does not lie after the
/// previous one, or when two rows share a line.
pub fn build_aligned_thread_string(
    src: &[u8],
    anchor_byte: usize,
    steps: &[Row],
    base_col: usize,
) -> (r: Vec<u8>)
    requires
        build_thread_ok(src@, anchor_byte as int, row_views(steps@), base_col as int),
    ensures
        r@ == build_thread(src@, anchor_byte as int, row_views(steps@), base_col as int),
{
    assert(src@.subrange(0, src@.len() as int) =~= src@);
    if steps.len() == 0 {
        return copy_range(src, 0, src.len());
    }
    let is_as = is_as_thread_exec(src);
    let target: usize = if is_as {
        base_col + 2
    } else {
        absolute_col_in_slice(src, base_col, anchor_byte)
    };
    let ghost base = base_col as int;
    let mut out: Vec<u8> = Vec::new();
    let mut last: usize = 0;
    let mut prev: Option<usize> = None;
    let mut i: usize = 0;
    assert(out@ + seq![] =~= out@);
    while i < steps.len()
        invariant
            0 <= i <= steps@.len(),
            steps@.len() > 0,
            base == base_col as int,
            is_as == is_as_thread(src@),
            target == thread_target(src@, anchor_byte as int, base),
            build_thread_ok(src@, anchor_byte as int, row_views(steps@), base),
            rows_safe(src@, row_views(steps@), base, target as int, i as int, last as int, prev_int(prev)),
            i == 0 ==> last == 0 && prev is None,
            thread_rest(src@, row_views(steps@), base, target as int, 0, 0, -1) == prepend(
                out@,
                thread_rest(src@, row_views(steps@), base, target as int, i as int, last as int, prev_int(prev)),
            ),
        decreases steps@.len() - i,
    {
        let step = &steps[i];
        let ls = line_start_byte(src, step.start_byte);
        if step.start_byte < last || ls < last {
            return copy_range(src, 0, src.len());
        }
        match prev {
            Some(p) => {
                if p == ls {
                    return copy_range(src, 0, src.len());
                }
            },
            None => {},
        }
        assert(!rows_bail(src@, row_views(steps@)[i as int], last as int, prev_int(prev)));
        assert(row_cols_safe(src@, step@, base, target as int));
        let ghost before = out@;
        let old_col = absolute_col_in_slice(src, base_col, step.start_byte);
        let delta: isize = target as isize - old_col as isize;
        let adjusted = shift_multiline_block(step.text.as_slice(), delta);
        if i == 0 {
            push_thread_first_head(&mut out, src, step, last, is_as);
            out.push(NEWLINE);
        } else {
            push_range(&mut out, src, last, ls);
        }
        push_spaces(&mut out, target);
        push_all(&mut out, adjusted.as_slice());
        proof {
            assert(out@ =~= before + thread_piece(
                src@,
                step@,
                i == 0,
                last as int,
                base,
                target as int,
            ));
            let rest = thread_rest(
                src@,
                row_views(steps@),
                base,
                target as int,
                i + 1,
                step.end_byte as int,
                ls as int,
            );
            match rest {
                Some(x) => {
                    assert(before + (thread_piece(
                        src@,
                        step@,
                        i == 0,
                        last as int,
                        base,
                        target as int,
                    ) + x) =~= out@ + x);
                },
                None => {},
            }
        }
        last = step.end_byte;
        prev = Some(ls);
        i += 1;
    }
    push_range(&mut out, src, last, src.len());
    out
}

impl Alignable for ThreadLikeAligner {
    open spec fn kind_spec(&self) -> AlignKind {
        AlignKind::ThreadLike
    }

    open spec fn matches_spec(&self, node: SyntaxNode, src: Seq<u8>) -> bool {
        let kids = code_kids(node);
        node.kind@ == "list_lit".spec_bytes() && kids.len() > 0 && is_thread_like_head(
            text_of(kids[0], src),
        )
    }

    open spec fn extract_ok(&self, node: SyntaxNode, src: Seq<u8>) -> bool {
        &&& kids_spans_ok(node, src.len())
        &&& branch_form(node, src) ==> node.start_byte + 2 <= usize::MAX
    }

    open spec fn extract_spec(&self, node: SyntaxNode, src: Seq<u8>) -> Option<ExtractedView> {
        match thread_layout(node, src) {
            None => None,
            Some((a, b)) => Some(
                ExtractedView::Rows { anchor: a, rows: node_rows(code_kids(node), b, src) },
            ),
        }
    }

    open spec fn build_ok(&self, src: Seq<u8>, e: ExtractedView, base: int) -> bool {
        match e {
            ExtractedView::Rows { anchor, rows } => build_thread_ok(src, anchor, rows, base),
            _ => true,
        }
    }

    open spec fn build_spec(&self, src: Seq<u8>, e: ExtractedView, base: int) -> Seq<u8> {
        match e {
            ExtractedView::Rows { anchor, rows } => build_thread(src, anchor, rows, base),
            _ => src,
        }
    }

    fn kind(&self) -> (r: AlignKind) {
        AlignKind::ThreadLike
    }

    /// Whether the node is a list whose first element reads `->`, `->>`,
    /// `as->`, `some->`, `some->>`, `if`, `when`, `when-not`, `while` or
    /// `if-not`.
    fn matches(&self, node: &SyntaxNode, src: &[u8]) -> (r: bool) {
        if !kind_is(node, "list_lit") {
            return false;
        }
        let children = non_comment_children(node);
        if children.len() == 0 {
            return false;
        }
        assert(*children@[0] == code_kids(*node)[0]);
        assert(span_ok(code_kids(*node)[0], src@.len()));
        let head = node_text(children[0], src);
        is_thread_head_exec(head) || is_branch_head_exec(head) || bytes_equal(
            head,
            "as->".as_bytes(),
        )
    }

    fn extract(&self, node: &SyntaxNode, src: &[u8]) -> (r: Option<Extracted>) {
        match extract_thread_layout(node, src) {
            Some((anchor_byte, rows)) => Some(Extracted::Rows { anchor_byte, rows }),
            None => None,
        }
    }

    fn build(&self, src: &[u8], extracted: Extracted, base_col: usize) -> (r: Vec<u8>) {
        match extracted {
            Extracted::Rows { anchor_byte, rows } => build_aligned_thread_string(
                src,
                anchor_byte,
                rows.as_slice(),
                base_col,
            ),
            _ => {
        let r = copy_range(src, 0, src.len());
        assert(src@.subrange(0, src@.len() as int) =~= src@);
        r
            },
        }
    }
}


} // verus!
