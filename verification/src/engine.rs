//! The engine: choosing an aligner for a form, formatting forms bottom-up,
//! and formatting whole files and collections of strings.
use vstd::prelude::*;
use vstd::string::*;

use crate::aligners::cond_like::{
    cond_first_clause, cond_head_text, cond_lacks_operand, cond_pairs, cond_pairs_from,
    cond_spans_ok, extract_cond_like_pairs, is_cond_head, lemma_cond_pairs_ok,
    lemma_one_line_cond_form, CondLikeAligner,
};
use crate::aligners::condp_like::{
    condp_pairs, extract_condp_pairs, lemma_condp_pairs_ok, CondPLikeAligner,
};
use crate::aligners::generic_builder::{build_aligned_string, build_pairs, pairs_ok};
use crate::aligners::let_like::{
    build_aligned_let_string, build_let, extract_let_layout, is_let_form, let_extract_ok,
    let_layout, row_ok, LetLikeAligner,
};
use crate::aligners::map_like::{
    build_aligned_map_string, build_map, extract_map_pairs, lemma_map_safe,
    lemma_max_lh_width, lemma_max_lh_width_bound, map_extract_ok, map_pairs, max_lh_width,
    MapLikeAligner,
};
use crate::aligners::ns_like::{
    build_aligned_ns_string, build_ns, extract_ns_layout, lemma_ns_safe, list_head_is,
    ns_extract_ok, ns_rows, ns_spans_ok, NsLikeAligner,
};
use crate::aligners::thread_like::{
    as_header_ok, build_aligned_thread_string, build_thread, extract_thread_layout, is_as_thread,
    is_thread_like_head, lemma_one_line_thread_form, thread_layout, thread_target,
    ThreadLikeAligner,
};
use crate::aligners::vec_like::{
    build_aligned_vector_string, build_vec, extract_vector_layout, first_later,
    lemma_first_later, lemma_node_rows_within, lemma_rows_safe, node_rows, vec_extract_ok,
    VecLikeAligner,
};
use crate::helpers::{
    absolute_col, absolute_col_in_slice, clojure_parse, code_kids, derefs, first_named,
    first_named_child, get_root_node, get_tree, has_missing_or_error, has_missing_or_error_spec,
    is_traversable, is_traversable_spec, kids_spans_ok, lemma_absolute_col_bound, named_children,
    named_kids, non_comment_children, span_ok, text_of,
};
use crate::alignable::Alignable;
use crate::model::{
    pair_views, row_views, AlignKind, Extracted, ExtractedView, RowView, SyntaxNode,
    SyntaxTree,
};
use crate::text::{copy_range, push_all, push_range};
use vstd::slice::slice_subrange;

verus! {

/// Why the engine could not format a text.
#[derive(PartialEq, Eq, Clone, Copy, Debug, Structural)]
pub enum IndentError {
    /// The parser gave no tree for a text that must be parsed.
    ParseFailed,
    /// The text is malformed: its tree holds error or missing nodes, or a
    /// form is unbalanced.
    Malformed,
    /// A `cond->`, `cond->>` or `case` form has nothing after its head.
    MissingOperand,
    /// The parser's tree has spans that do not fit the text it was parsed
    /// from (outside it, out of order, or not shorter than it).
    UnexpectedTree,
    /// A column or length would not fit `isize`.
    TooLarge,
}

/// The result of a formatting step, as mathematical values.
pub open spec fn result_view(r: Result<Vec<u8>, IndentError>) -> Result<Seq<u8>, IndentError> {
    match r {
        Ok(v) => Ok(v@),
        Err(e) => Err(e),
    }
}

// ---------------------------------------------------------------------------
// Choosing an aligner
// ---------------------------------------------------------------------------

/// The aligner for a form, tried in order: `ns` forms, binding forms, maps,
/// vectors, `cond`-like forms, `condp`, then threading macros and `if`-like
/// forms.
pub open spec fn find_aligner_spec(node: SyntaxNode, src: Seq<u8>) -> Option<AlignKind> {
    let kids = code_kids(node);
    let is_list = node.kind@ == "list_lit".spec_bytes() && kids.len() > 0;
    if list_head_is(node, src, "ns".spec_bytes()) {
        Some(AlignKind::NsLike)
    } else if is_let_form(node, src) {
        Some(AlignKind::LetLike)
    } else if node.kind@ == "map_lit".spec_bytes() {
        Some(AlignKind::MapLike)
    } else if node.kind@ == "vec_lit".spec_bytes() {
        Some(AlignKind::VecLike)
    } else if is_list && is_cond_head(text_of(kids[0], src)) {
        Some(AlignKind::CondLike)
    } else if list_head_is(node, src, "condp".spec_bytes()) {
        Some(AlignKind::CondPLike)
    } else if is_list && is_thread_like_head(text_of(kids[0], src)) {
        Some(AlignKind::ThreadLike)
    } else {
        None
    }
}

/// Chooses the aligner for a form (see `find_aligner_spec`).
pub fn find_aligner(node: &SyntaxNode, src: &[u8]) -> (r: Option<AlignKind>)
    requires
        kids_spans_ok(*node, src@.len()),
    ensures
        r == find_aligner_spec(*node, src@),
{
    if (NsLikeAligner).matches(node, src) {
        Some(AlignKind::NsLike)
    } else if (LetLikeAligner).matches(node, src) {
        Some(AlignKind::LetLike)
    } else if (MapLikeAligner).matches(node, src) {
        Some(AlignKind::MapLike)
    } else if (VecLikeAligner).matches(node, src) {
        Some(AlignKind::VecLike)
    } else if (CondLikeAligner).matches(node, src) {
        Some(AlignKind::CondLike)
    } else if (CondPLikeAligner).matches(node, src) {
        Some(AlignKind::CondPLike)
    } else if (ThreadLikeAligner).matches(node, src) {
        Some(AlignKind::ThreadLike)
    } else {
        None
    }
}

// ---------------------------------------------------------------------------
// Aligning one form
// ---------------------------------------------------------------------------

/// Whether `form`, its elements, their own elements, and the first child of
/// its first element span text within `len` bytes.
pub open spec fn form_spans_ok(form: SyntaxNode, len: nat) -> bool {
    span_ok(form, len) && ns_spans_ok(form, len) && cond_spans_ok(form, len)
}

/// Whether columns of a text of `len` bytes placed at column `base` fit
/// `isize` with room to spare.
pub open spec fn cols_fit(len: int, base: int) -> bool {
    base + len + 2 <= isize::MAX
}

/// Whether every row text fits `isize`.
pub open spec fn row_texts_fit(rows: Seq<RowView>) -> bool {
    forall|k: int| 0 <= k < rows.len() ==> (#[trigger] rows[k]).text.len() <= isize::MAX
}

/// The rows of a vector literal.
pub open spec fn vec_rows(form: SyntaxNode, src: Seq<u8>) -> Seq<RowView> {
    let items = code_kids(form);
    node_rows(items, first_later(items, items[0].start_row as int, 0), src)
}

/// `form` (a form of `src` placed at column `base`) laid out by its aligner.
///
/// Forms without an aligner, and forms their aligner does not read, come
/// back as they are. `cond`-like and `condp` forms have their clauses laid
/// out (a `cond->`, `cond->>` or `case` form with nothing after its head is an
/// error). Columns that would not fit `isize` are an error, as are
/// rebuilt `ns` clauses that would not, and an anchor outside the text.
pub open spec fn align_form(form: SyntaxNode, src: Seq<u8>, base: int) -> Result<
    Seq<u8>,
    IndentError,
> {
    match find_aligner_spec(form, src) {
        None => Ok(src),
        Some(kind) => if !cols_fit(src.len() as int, base) {
            Err(IndentError::TooLarge)
        } else {
            match kind {
                AlignKind::NsLike => if !ns_extract_ok(form, src) {
                    Ok(src)
                } else if !row_texts_fit(ns_rows(code_kids(form), src)) {
                    Err(IndentError::TooLarge)
                } else {
                    Ok(build_ns(src, ns_rows(code_kids(form), src), base))
                },
                AlignKind::MapLike => if !map_extract_ok(form, src) {
                    Ok(src)
                } else {
                    Ok(build_map(src, map_pairs(form, src), base))
                },
                AlignKind::VecLike => if !vec_extract_ok(form) {
                    Ok(src)
                } else {
                    Ok(build_vec(src, vec_rows(form, src), base))
                },
                AlignKind::CondLike => if cond_lacks_operand(form, src) {
                    Err(IndentError::MissingOperand)
                } else {
                    match cond_pairs(form, src) {
                        None => Ok(src),
                        Some(ps) => Ok(build_pairs(src, ps, base)),
                    }
                },
                AlignKind::CondPLike => match condp_pairs(form, src) {
                    None => Ok(src),
                    Some(ps) => Ok(build_pairs(src, ps, base)),
                },
                AlignKind::ThreadLike => match thread_layout(form, src) {
                    None => Ok(src),
                    Some((a, b)) => {
                        let rows = node_rows(code_kids(form), b, src);
                        if !is_as_thread(src) && a > src.len() {
                            Err(IndentError::UnexpectedTree)
                        } else if is_as_thread(src) && !as_header_ok(src) {
                            Err(IndentError::UnexpectedTree)
                        } else {
                            Ok(build_thread(src, a, rows, base))
                        }
                    },
                },
                AlignKind::LetLike => if !let_extract_ok(form, src) {
                    Ok(src)
                } else {
                    match let_layout(form, src) {
                        ExtractedView::Bindings { pairs, start, end, body } => Ok(
                            build_let(src, pairs, start, end, body, base),
                        ),
                        _ => Ok(src),
                    }
                },
            }
        },
    }
}

/// Whether every node span lies within `len` bytes.
fn spans_within(v: &Vec<&SyntaxNode>, len: usize) -> (r: bool)
    ensures
        r == (forall|k: int| 0 <= k < v@.len() ==> span_ok(*#[trigger] v@[k], len as nat)),
{
    let mut i: usize = 0;
    while i < v.len()
        invariant
            0 <= i <= v@.len(),
            forall|k: int| 0 <= k < i ==> span_ok(*#[trigger] v@[k], len as nat),
        decreases v@.len() - i,
    {
        if !(v[i].start_byte <= v[i].end_byte && v[i].end_byte <= len) {
            assert(!span_ok(*v@[i as int], len as nat));
            return false;
        }
        i += 1;
    }
    true
}

/// Whether the elements of `form` (see `form_spans_ok`) span text within
/// `len` bytes.
fn check_form_spans(form: &SyntaxNode, len: usize) -> (r: bool)
    ensures
        r == form_spans_ok(*form, len as nat),
{
    let kids = non_comment_children(form);
    let ghost ks = code_kids(*form);
    if !spans_within(&kids, len) {
        proof {
            let k = choose|k: int| 0 <= k < kids@.len() && !span_ok(*kids@[k], len as nat);
            assert(derefs(kids@)[k] == *kids@[k]);
            assert(!kids_spans_ok(*form, len as nat));
        }
        return false;
    }
    assert(kids_spans_ok(*form, len as nat)) by {
        assert forall|k: int| 0 <= k < ks.len() implies span_ok(#[trigger] ks[k], len as nat) by {
            assert(derefs(kids@)[k] == *kids@[k]);
        }
    }
    let mut i: usize = 0;
    while i < kids.len()
        invariant
            derefs(kids@) == ks,
            ks == code_kids(*form),
            0 <= i <= kids@.len(),
            forall|k: int| 0 <= k < i ==> kids_spans_ok(#[trigger] ks[k], len as nat),
        decreases kids@.len() - i,
    {
        let grand = non_comment_children(kids[i]);
        assert(*kids@[i as int] == ks[i as int]);
        if !spans_within(&grand, len) {
            proof {
                let k = choose|k: int| 0 <= k < grand@.len() && !span_ok(*grand@[k], len as nat);
                assert(derefs(grand@)[k] == *grand@[k]);
                assert(!kids_spans_ok(ks[i as int], len as nat));
            }
            return false;
        }
        proof {
            assert forall|k: int| 0 <= k < code_kids(ks[i as int]).len() implies span_ok(
                #[trigger] code_kids(ks[i as int])[k],
                len as nat,
            ) by {
                assert(derefs(grand@)[k] == *grand@[k]);
            }
        }
        i += 1;
    }
    if kids.len() > 0 && kids[0].children.len() > 0 {
        assert(*kids@[0] == ks[0]);
        let c = &kids[0].children[0];
        if !(c.start_byte <= c.end_byte && c.end_byte <= len) {
            return false;
        }
    }
    form.start_byte <= form.end_byte && form.end_byte <= len
}

/// Whether every row text fits `isize`.
fn check_row_texts(rows: &Vec<crate::model::Row>) -> (r: bool)
    ensures
        r == row_texts_fit(row_views(rows@)),
{
    let mut i: usize = 0;
    while i < rows.len()
        invariant
            0 <= i <= rows@.len(),
            forall|k: int| 0 <= k < i ==> (#[trigger] row_views(rows@)[k]).text.len() <= isize::MAX,
        decreases rows@.len() - i,
    {
        if rows[i].text.len() > isize::MAX as usize {
            assert(row_views(rows@)[i as int].text.len() > isize::MAX);
            return false;
        }
        i += 1;
    }
    true
}

/// Whether the first form parsed from `src` has its elements within `src`.
fn check_as_header(src: &[u8]) -> (r: bool)
    ensures
        r == as_header_ok(src@),
{
    match get_tree(src) {
        None => true,
        Some(tree) => match first_named_child(&tree.root) {
            None => true,
            Some(form) => {
                let kids = non_comment_children(form);
                let ok = spans_within(&kids, src.len());
                proof {
                    if ok {
                        assert forall|k: int| 0 <= k < code_kids(*form).len() implies span_ok(
                            #[trigger] code_kids(*form)[k],
                            src@.len(),
                        ) by {
                            assert(derefs(kids@)[k] == *kids@[k]);
                        }
                    } else {
                        let k = choose|k: int|
                            0 <= k < kids@.len() && !span_ok(*kids@[k], src@.len());
                        assert(derefs(kids@)[k] == *kids@[k]);
                    }
                }
                ok
            },
        },
    }
}

/// Lays out `form`, a form of `src` placed at column `base_col`, with its
/// aligner (see `align_form`).
pub fn align_with(form: &SyntaxNode, src: &[u8], base_col: usize) -> (r: Result<
    Vec<u8>,
    IndentError,
>)
    requires
        form_spans_ok(*form, src@.len()),
    ensures
        result_view(r) == align_form(*form, src@, base_col as int),
{
    let n = src.len();
    assert(src@.subrange(0, src@.len() as int) =~= src@);
    let kind = match find_aligner(form, src) {
        None => return Ok(copy_range(src, 0, n)),
        Some(k) => k,
    };
    if !(base_col <= isize::MAX as usize - 2 && n <= isize::MAX as usize - 2 - base_col) {
        return Err(IndentError::TooLarge);
    }
    match kind {
        AlignKind::NsLike => match extract_ns_layout(form, src) {
            None => Ok(copy_range(src, 0, n)),
            Some((anchor, rows)) => {
                if !check_row_texts(&rows) {
                    return Err(IndentError::TooLarge);
                }
                proof {
                    let rs = row_views(rows@);
                    assert forall|k: int| 0 <= k < rs.len() implies {
                        &&& 0 <= (#[trigger] rs[k]).start <= src@.len()
                        &&& 0 <= rs[k].end <= src@.len()
                        &&& rs[k].text.len() <= isize::MAX
                    } by {
                        let kids = code_kids(*form);
                        assert(span_ok(kids[k + 2], src@.len()));
                    }
                    lemma_ns_safe(src@, rs, 0, 0, -1);
                }
                Ok(build_aligned_ns_string(src, anchor, rows.as_slice(), base_col))
            },
        },
        AlignKind::MapLike => match extract_map_pairs(form, src) {
            None => Ok(copy_range(src, 0, n)),
            Some(pairs) => {
                proof {
                    let ps = pair_views(pairs@);
                    let kids = code_kids(*form);
                    assert forall|k: int| 0 <= k < ps.len() implies {
                        &&& 0 <= (#[trigger] ps[k]).lh_start <= src@.len()
                        &&& 0 <= ps[k].rh_start <= ps[k].rh_end <= src@.len()
                        &&& ps[k].rh.len() == ps[k].rh_end - ps[k].rh_start
                        &&& 0 <= ps[k].lh_width <= src@.len()
                    } by {
                        assert(span_ok(kids[2 * k], src@.len()));
                        assert(span_ok(kids[2 * k + 1], src@.len()));
                    }
                    lemma_max_lh_width_bound(ps, src@.len() as int);
                    assert(0 <= max_lh_width(ps)) by {
                        lemma_max_lh_width(ps);
                    }
                    assert forall|k: int| 0 <= k < ps.len() implies (#[trigger] ps[k]).lh_width
                        <= max_lh_width(ps) by {
                        lemma_max_lh_width(ps);
                    }
                    lemma_map_safe(src@, ps, base_col as int, max_lh_width(ps), 0, 0, -1);
                }
                Ok(build_aligned_map_string(src, pairs.as_slice(), base_col))
            },
        },
        AlignKind::VecLike => match extract_vector_layout(form, src) {
            None => Ok(copy_range(src, 0, n)),
            Some((anchor, rows)) => {
                proof {
                    let items = code_kids(*form);
                    let b = first_later(items, items[0].start_row as int, 0);
                    lemma_first_later(items, items[0].start_row as int, 0);
                    lemma_node_rows_within(items, b, src@);
                    lemma_rows_safe(
                        src@,
                        row_views(rows@),
                        base_col as int,
                        base_col + 1,
                        0,
                        0,
                        -1,
                    );
                }
                Ok(build_aligned_vector_string(src, anchor, rows.as_slice(), base_col))
            },
        },
        AlignKind::CondLike => {
            let lacks = lacks_operand(form, src);
            if lacks {
                return Err(IndentError::MissingOperand);
            }
            match extract_cond_like_pairs(form, src) {
                None => Ok(copy_range(src, 0, n)),
                Some(pairs) => {
                    proof {
                        let kids = code_kids(*form);
                        let s = cond_first_clause(*form, src@);
                        assert(src@.subrange(0, src@.len() as int) =~= src@);
                        lemma_cond_pairs_ok(
                            kids,
                            src@,
                            src@.len() as int,
                            s,
                            kids[s].start_col as int,
                            cond_head_text(*form, src@) == "case".spec_bytes(),
                        );
                    }
                    Ok(build_aligned_string(src, pairs.as_slice(), base_col))
                },
            }
        },
        AlignKind::CondPLike => match extract_condp_pairs(form, src) {
            None => Ok(copy_range(src, 0, n)),
            Some(pairs) => {
                proof {
                    lemma_condp_pairs_ok(code_kids(*form), src@, 3);
                }
                Ok(build_aligned_string(src, pairs.as_slice(), base_col))
            },
        },
        AlignKind::ThreadLike => {
            match extract_thread_layout(form, src) {
                None => Ok(copy_range(src, 0, n)),
                Some((anchor, rows)) => {
                    let is_as = is_as_thread_exec(src);
                    if !is_as && anchor > n {
                        return Err(IndentError::UnexpectedTree);
                    }
                    if is_as && !check_as_header(src) {
                        return Err(IndentError::UnexpectedTree);
                    }
                    proof {
                        let (a, b) = thread_layout(*form, src@)->0;
                        let items = code_kids(*form);
                        lemma_first_later(items, items[0].start_row as int, 0);
                        assert(0 <= b <= items.len());
                        lemma_node_rows_within(items, b, src@);
                        if !is_as {
                            lemma_absolute_col_bound(src@, base_col as int, a);
                        }
                        lemma_rows_safe(
                            src@,
                            row_views(rows@),
                            base_col as int,
                            thread_target(src@, a, base_col as int),
                            0,
                            0,
                            -1,
                        );
                    }
                    Ok(build_aligned_thread_string(src, anchor, rows.as_slice(), base_col))
                },
            }
        },
        AlignKind::LetLike => match extract_let_layout(form, src) {
            Some(Extracted::Bindings { pairs, vector_start, vector_end, body }) => {
                proof {
                    let kids = code_kids(*form);
                    let bk = code_kids(kids[1]);
                    assert(span_ok(kids[1], src@.len()));
                    lemma_absolute_col_bound(src@, base_col as int, vector_start as int);
                    lemma_cond_pairs_ok(bk, src@, vector_end as int, 0, 0, false);
                    let ps = pair_views(pairs@);
                    assert(ps == cond_pairs_from(bk, src@, 0, 0, false)->0);
                    let t = absolute_col(src@, base_col as int, vector_start as int) + 1;
                    assert(pairs_ok(src@.subrange(0, vector_end as int), ps, base_col as int, t));
                    assert(row_views(body@) == node_rows(kids, 2, src@));
                    assert forall|k: int| 0 <= k < body@.len() implies row_ok(
                        src@,
                        #[trigger] row_views(body@)[k],
                    ) by {
                        assert(2 + k < kids.len());
                        assert(span_ok(kids[k + 2], src@.len()));
                    }
                }
                Ok(
                    build_aligned_let_string(
                        src,
                        pairs.as_slice(),
                        vector_start,
                        vector_end,
                        body.as_slice(),
                        base_col,
                    ),
                )
            },
            _ => Ok(copy_range(src, 0, n)),
        },
    }
}

/// Whether `src` starts with `(as->` once leading white space is skipped.
fn is_as_thread_exec(src: &[u8]) -> (r: bool)
    ensures
        r == is_as_thread(src@),
{
    let t = crate::text::trim_start_bytes(src);
    crate::text::starts_with(t.as_slice(), "(as->".as_bytes())
}

/// Whether a `cond->`, `cond->>` or `case` form has nothing after its head.
fn lacks_operand(form: &SyntaxNode, src: &[u8]) -> (r: bool)
    requires
        cond_spans_ok(*form, src@.len()),
    ensures
        r == cond_lacks_operand(*form, src@),
{
    if !crate::helpers::kind_is(form, "list_lit") || form.start_row == form.end_row {
        return false;
    }
    let kids = non_comment_children(form);
    if kids.len() == 0 {
        return false;
    }
    assert(*kids@[0] == code_kids(*form)[0]);
    if kids[0].children.len() == 0 {
        return false;
    }
    let head = crate::helpers::node_text(&kids[0].children[0], src);
    let two = crate::text::bytes_equal(head, "cond->".as_bytes()) || crate::text::bytes_equal(
        head,
        "cond->>".as_bytes(),
    ) || crate::text::bytes_equal(head, "case".as_bytes());
    two && kids.len() < 2
}

} // verus!

verus! {

// ---------------------------------------------------------------------------
// Formatting forms bottom-up
// ---------------------------------------------------------------------------

/// One pass over `src`, placed at column `base`, given its syntax tree: the
/// first form laid out by its aligner (see `align_form`); a text without a
/// form comes back as it is.
pub open spec fn once_tree_spec(src: Seq<u8>, base: int, tree: SyntaxTree) -> Result<
    Seq<u8>,
    IndentError,
> {
    match first_named(tree.root) {
        None => Ok(src),
        Some(form) => if !form_spans_ok(form, src.len()) {
            Err(IndentError::UnexpectedTree)
        } else {
            align_form(form, src, base)
        },
    }
}

/// One pass over `src`, placed at column `base` (see `once_tree_spec`). A
/// text the parser gives no tree for is an error.
pub open spec fn indent_once_spec(src: Seq<u8>, base: int) -> Result<Seq<u8>, IndentError> {
    match clojure_parse(src) {
        None => Err(IndentError::ParseFailed),
        Some(tree) => once_tree_spec(src, base, tree),
    }
}

/// `src`, placed at column `base`, formatted bottom-up given its syntax
/// tree: the list, vector and map elements of its first form are formatted
/// first, each at its own column, then the form itself is laid out once.
///
/// A text without a form comes back as it is; a tree that holds an error or
/// a missing node is `Malformed`.
pub open spec fn format_tree_spec(src: Seq<u8>, base: int, tree: SyntaxTree) -> Result<
    Seq<u8>,
    IndentError,
>
    decreases src.len(), 1int, 0int,
{
    if !cols_fit(src.len() as int, base) {
        Err(IndentError::TooLarge)
    } else if has_missing_or_error_spec(tree.root) {
        Err(IndentError::Malformed)
    } else {
        match first_named(tree.root) {
            None => Ok(src),
            Some(form) => match stitch_children(src, base, named_kids(form), 0, 0) {
                Err(e) => Err(e),
                Ok(current) => indent_once_spec(current, base),
            },
        }
    }
}

/// `src`, placed at column `base`, formatted bottom-up (see
/// `format_tree_spec`). A text the parser gives no tree for comes back as it
/// is.
pub open spec fn format_spec(src: Seq<u8>, base: int) -> Result<Seq<u8>, IndentError>
    decreases src.len(), 2int, 0int,
{
    if !cols_fit(src.len() as int, base) {
        Err(IndentError::TooLarge)
    } else {
        match clojure_parse(src) {
            None => Ok(src),
            Some(tree) => format_tree_spec(src, base, tree),
        }
    }
}

/// The text of `src` from byte `last` on, with each list, vector or map among
/// `kids[i..]` replaced by its bottom-up formatting (see `format_spec`) at the
/// column where it starts.
pub open spec fn stitch_children(
    src: Seq<u8>,
    base: int,
    kids: Seq<SyntaxNode>,
    i: int,
    last: int,
) -> Result<Seq<u8>, IndentError>
    decreases src.len(), 0int, kids.len() - i,
{
    if i < 0 || i >= kids.len() {
        Ok(src.subrange(last, src.len() as int))
    } else {
        let c = kids[i];
        if !is_traversable_spec(c) {
            stitch_children(src, base, kids, i + 1, last)
        } else if !(last <= c.start_byte <= c.end_byte <= src.len() && c.end_byte - c.start_byte
            < src.len()) {
            Err(IndentError::UnexpectedTree)
        } else {
            match format_spec(text_of(c, src), absolute_col(src, base, c.start_byte as int)) {
                Err(e) => Err(e),
                Ok(new_child) => match stitch_children(src, base, kids, i + 1, c.end_byte as int) {
                    Err(e) => Err(e),
                    Ok(rest) => Ok(src.subrange(last, c.start_byte as int) + new_child + rest),
                },
            }
        }
    }
}

/// Lays out the first form of `source`, placed at column `base_col`, once,
/// given the syntax tree of `source` (see `once_tree_spec`).
pub fn indent_tree_once(source: &[u8], base_col: usize, tree: &SyntaxTree) -> (r: Result<
    Vec<u8>,
    IndentError,
>)
    ensures
        result_view(r) == once_tree_spec(source@, base_col as int, *tree),
{
    assert(source@.subrange(0, source@.len() as int) =~= source@);
    let root = match get_root_node(tree) {
        None => return Ok(copy_range(source, 0, source.len())),
        Some(n) => n,
    };
    let form = match first_named_child(root) {
        None => return Ok(copy_range(source, 0, source.len())),
        Some(f) => f,
    };
    if !check_form_spans(form, source.len()) {
        return Err(IndentError::UnexpectedTree);
    }
    align_with(form, source, base_col)
}

/// Lays out the first form of `source`, placed at column `base_col`, once,
/// without formatting its elements first (see `indent_once_spec`).
pub fn indent_current_form_once(source: &[u8], base_col: usize) -> (r: Result<
    Vec<u8>,
    IndentError,
>)
    ensures
        result_view(r) == indent_once_spec(source@, base_col as int),
{
    match get_tree(source) {
        None => Err(IndentError::ParseFailed),
        Some(tree) => indent_tree_once(source, base_col, &tree),
    }
}

/// Formats `src`, placed at column `base_col`, bottom-up (see `format_spec`).
pub fn format_form_recursive(src: &[u8], base_col: usize) -> (r: Result<Vec<u8>, IndentError>)
    ensures
        result_view(r) == format_spec(src@, base_col as int),
    decreases src@.len(), 2int,
{
    assert(src@.subrange(0, src@.len() as int) =~= src@);
    if !(base_col <= isize::MAX as usize - 2 && src.len() <= isize::MAX as usize - 2 - base_col) {
        return Err(IndentError::TooLarge);
    }
    match get_tree(src) {
        None => Ok(copy_range(src, 0, src.len())),
        Some(tree) => format_tree(src, base_col, &tree),
    }
}

/// Formats `src`, placed at column `base_col`, bottom-up given its syntax
/// tree (see `format_tree_spec`).
pub fn format_tree(src: &[u8], base_col: usize, tree: &SyntaxTree) -> (r: Result<
    Vec<u8>,
    IndentError,
>)
    ensures
        result_view(r) == format_tree_spec(src@, base_col as int, *tree),
    decreases src@.len(), 1int,
{
    let ghost base = base_col as int;
    assert(src@.subrange(0, src@.len() as int) =~= src@);
    if !(base_col <= isize::MAX as usize - 2 && src.len() <= isize::MAX as usize - 2 - base_col) {
        return Err(IndentError::TooLarge);
    }
    if has_missing_or_error(&tree.root) {
        return Err(IndentError::Malformed);
    }
    let form = match first_named_child(&tree.root) {
        None => return Ok(copy_range(src, 0, src.len())),
        Some(f) => f,
    };
    let kids = named_children(form);
    let ghost ks = named_kids(*form);
    let ghost whole = stitch_children(src@, base, ks, 0, 0);
    let mut current: Vec<u8> = Vec::new();
    let mut last: usize = 0;
    let mut i: usize = 0;
    assert(current@ + src@.subrange(0, src@.len() as int) =~= src@);
    assert(format_tree_spec(src@, base, *tree) == match whole {
        Err(e) => Err(e),
        Ok(cur) => indent_once_spec(cur, base),
    });
    while i < kids.len()
        invariant
            format_tree_spec(src@, base, *tree) == match whole {
                Err(e) => Err(e),
                Ok(cur) => indent_once_spec(cur, base),
            },
            derefs(kids@) == ks,
            whole == stitch_children(src@, base, ks, 0, 0),
            base == base_col as int,
            0 <= i <= kids@.len(),
            last <= src@.len(),
            cols_fit(src@.len() as int, base),
            match stitch_children(src@, base, ks, i as int, last as int) {
                Ok(rest) => whole == Ok::<Seq<u8>, IndentError>(current@ + rest),
                Err(e) => whole == Err::<Seq<u8>, IndentError>(e),
            },
        decreases kids@.len() - i,
    {
        let child = kids[i];
        assert(*kids@[i as int] == ks[i as int]);
        if is_traversable(child) {
            let start = child.start_byte;
            let end = child.end_byte;
            if !(last <= start && start <= end && end <= src.len() && end - start < src.len()) {
                return Err(IndentError::UnexpectedTree);
            }
            proof {
                lemma_absolute_col_bound(src@, base, start as int);
                crate::helpers::lemma_line_start(src@, start as int);
            }
            let child_base = absolute_col_in_slice(src, base_col, start);
            let old_child = slice_subrange(src, start, end);
            let new_child = match format_form_recursive(old_child, child_base) {
                Err(e) => return Err(e),
                Ok(c) => c,
            };
            let ghost before = current@;
            push_range(&mut current, src, last, start);
            push_all(&mut current, new_child.as_slice());
            proof {
                match stitch_children(src@, base, ks, i + 1, end as int) {
                    Ok(rest) => {
                        assert(before + (src@.subrange(last as int, start as int) + new_child@
                            + rest) =~= current@ + rest);
                    },
                    Err(e) => {},
                }
            }
            last = end;
        }
        i += 1;
    }
    let ghost before = current@;
    push_range(&mut current, src, last, src.len());
    assert(current@ =~= before + src@.subrange(last as int, src@.len() as int));
    indent_current_form_once(current.as_slice(), base_col)
}

/// Formats `src`, placed at column `base_col`, bottom-up (see `format_spec`).
pub fn indent_bottom_up(src: &[u8], base_col: usize) -> (r: Result<Vec<u8>, IndentError>)
    ensures
        result_view(r) == format_spec(src@, base_col as int),
{
    format_form_recursive(src, base_col)
}

} // verus!

verus! {

// ---------------------------------------------------------------------------
// Whole files, strings and collections of strings
// ---------------------------------------------------------------------------

/// Whether one of `forms` is malformed, missing, or holds an error.
pub open spec fn any_malformed(forms: Seq<SyntaxNode>) -> bool {
    exists|k: int| 0 <= k < forms.len() && has_missing_or_error_spec(#[trigger] forms[k])
}

/// The text of `src` from byte `last` on, with each of `forms[i..]` replaced
/// by its bottom-up formatting at column 0.
pub open spec fn stitch_top(src: Seq<u8>, forms: Seq<SyntaxNode>, i: int, last: int) -> Result<
    Seq<u8>,
    IndentError,
>
    decreases forms.len() - i,
{
    if i < 0 || i >= forms.len() {
        Ok(src.subrange(last, src.len() as int))
    } else {
        let f = forms[i];
        if !(last <= f.start_byte <= f.end_byte <= src.len()) {
            Err(IndentError::UnexpectedTree)
        } else {
            match format_spec(text_of(f, src), 0) {
                Err(e) => Err(e),
                Ok(new_form) => match stitch_top(src, forms, i + 1, f.end_byte as int) {
                    Err(e) => Err(e),
                    Ok(rest) => Ok(src.subrange(last, f.start_byte as int) + new_form + rest),
                },
            }
        }
    }
}

/// A whole file, given its syntax tree: each top-level form formatted
/// bottom-up at column 0, the text between them kept as it is. A file with a
/// malformed top-level form is an error.
pub open spec fn whole_tree_spec(src: Seq<u8>, tree: SyntaxTree) -> Result<Seq<u8>, IndentError> {
    if any_malformed(named_kids(tree.root)) {
        Err(IndentError::Malformed)
    } else {
        stitch_top(src, named_kids(tree.root), 0, 0)
    }
}

/// A whole file (see `whole_tree_spec`). A file the parser gives no tree for
/// is an error.
pub open spec fn whole_file_spec(src: Seq<u8>) -> Result<Seq<u8>, IndentError> {
    match clojure_parse(src) {
        None => Err(IndentError::ParseFailed),
        Some(tree) => whole_tree_spec(src, tree),
    }
}

/// Whether one of the nodes is malformed, missing, or holds an error.
fn check_any_malformed(v: &Vec<&SyntaxNode>) -> (r: bool)
    ensures
        r == any_malformed(derefs(v@)),
{
    let mut i: usize = 0;
    while i < v.len()
        invariant
            0 <= i <= v@.len(),
            forall|k: int| 0 <= k < i ==> !has_missing_or_error_spec(#[trigger] derefs(v@)[k]),
        decreases v@.len() - i,
    {
        if has_missing_or_error(v[i]) {
            assert(has_missing_or_error_spec(derefs(v@)[i as int]));
            return true;
        }
        i += 1;
    }
    false
}

/// Formats a whole file (see `whole_file_spec`).
pub fn indent_whole_file_parallel(src: &[u8]) -> (r: Result<Vec<u8>, IndentError>)
    ensures
        result_view(r) == whole_file_spec(src@),
{
    match get_tree(src) {
        None => Err(IndentError::ParseFailed),
        Some(tree) => indent_whole_tree(src, &tree),
    }
}

/// Formats a whole file given its syntax tree (see `whole_tree_spec`).
pub fn indent_whole_tree(src: &[u8], tree: &SyntaxTree) -> (r: Result<Vec<u8>, IndentError>)
    ensures
        result_view(r) == whole_tree_spec(src@, *tree),
{
    let root = &tree.root;
    let forms = named_children(root);
    let ghost fs = named_kids(*root);
    if check_any_malformed(&forms) {
        return Err(IndentError::Malformed);
    }
    let ghost whole = stitch_top(src@, fs, 0, 0);
    let mut out: Vec<u8> = Vec::new();
    let mut last: usize = 0;
    let mut i: usize = 0;
    assert(out@ + src@.subrange(0, src@.len() as int) =~= src@.subrange(0, src@.len() as int));
    while i < forms.len()
        invariant
            derefs(forms@) == fs,
            whole_tree_spec(src@, *tree) == whole,
            whole == stitch_top(src@, fs, 0, 0),
            0 <= i <= forms@.len(),
            last <= src@.len(),
            match stitch_top(src@, fs, i as int, last as int) {
                Ok(rest) => whole == Ok::<Seq<u8>, IndentError>(out@ + rest),
                Err(e) => whole == Err::<Seq<u8>, IndentError>(e),
            },
        decreases forms@.len() - i,
    {
        let form = forms[i];
        assert(*forms@[i as int] == fs[i as int]);
        let start = form.start_byte;
        let end = form.end_byte;
        if !(last <= start && start <= end && end <= src.len()) {
            return Err(IndentError::UnexpectedTree);
        }
        let slice = slice_subrange(src, start, end);
        let formatted = match indent_bottom_up(slice, 0) {
            Err(e) => return Err(e),
            Ok(t) => t,
        };
        let ghost before = out@;
        push_range(&mut out, src, last, start);
        push_all(&mut out, formatted.as_slice());
        proof {
            match stitch_top(src@, fs, i + 1, end as int) {
                Ok(rest) => {
                    assert(before + (src@.subrange(last as int, start as int) + formatted@ + rest)
                        =~= out@ + rest);
                },
                Err(e) => {},
            }
        }
        last = end;
        i += 1;
    }
    let ghost before = out@;
    push_range(&mut out, src, last, src.len());
    assert(out@ =~= before + src@.subrange(last as int, src@.len() as int));
    Ok(out)
}

/// Formats `src`, placed at column `base_col`, bottom-up (see `format_spec`).
pub fn indent_clojure_string(src: &[u8], base_col: usize) -> (r: Result<Vec<u8>, IndentError>)
    ensures
        result_view(r) == format_spec(src@, base_col as int),
{
    indent_bottom_up(src, base_col)
}

/// The texts of a collection formatted one by one, each at its own column,
/// or the first error in order.
pub open spec fn collection_spec(cols: Seq<(Seq<u8>, int)>) -> Result<Seq<Seq<u8>>, IndentError>
    decreases cols.len(),
{
    if cols.len() == 0 {
        Ok(seq![])
    } else {
        match collection_spec(cols.drop_last()) {
            Err(e) => Err(e),
            Ok(done) => match format_spec(cols.last().0, cols.last().1) {
                Err(e) => Err(e),
                Ok(t) => Ok(done.push(t)),
            },
        }
    }
}

/// The pairs of a collection as mathematical values.
pub open spec fn cols_view(cols: Seq<(Vec<u8>, usize)>) -> Seq<(Seq<u8>, int)> {
    Seq::new(cols.len(), |i: int| (cols[i].0@, cols[i].1 as int))
}

/// The texts of a result as mathematical values.
pub open spec fn texts_view(r: Result<Vec<Vec<u8>>, IndentError>) -> Result<
    Seq<Seq<u8>>,
    IndentError,
> {
    match r {
        Ok(v) => Ok(Seq::new(v@.len(), |i: int| v@[i]@)),
        Err(e) => Err(e),
    }
}

/// Formats each text of `cols` at its column (see `collection_spec`).
pub fn indent_clojure_string_collection(cols: &[(Vec<u8>, usize)]) -> (r: Result<
    Vec<Vec<u8>>,
    IndentError,
>)
    ensures
        texts_view(r) == collection_spec(cols_view(cols@)),
{
    let ghost cv = cols_view(cols@);
    let mut out: Vec<Vec<u8>> = Vec::new();
    let mut i: usize = 0;
    assert(cv.subrange(0, 0).len() == 0);
    assert(Seq::new(out@.len(), |k: int| out@[k]@) =~= seq![]);
    while i < cols.len()
        invariant
            cv == cols_view(cols@),
            0 <= i <= cols@.len(),
            out@.len() == i,
            collection_spec(cv.subrange(0, i as int)) == Ok::<Seq<Seq<u8>>, IndentError>(
                Seq::new(out@.len(), |k: int| out@[k]@),
            ),
        decreases cols@.len() - i,
    {
        let ghost done = Seq::new(out@.len(), |k: int| out@[k]@);
        assert(cv.subrange(0, i + 1).drop_last() =~= cv.subrange(0, i as int));
        let (text, base_col) = (&cols[i].0, cols[i].1);
        match indent_bottom_up(text.as_slice(), base_col) {
            Err(e) => {
                proof {
                    lemma_collection_err(cv, i as int + 1, e);
                }
                return Err(e);
            },
            Ok(t) => {
                out.push(t);
                assert(Seq::new(out@.len(), |k: int| out@[k]@) =~= done.push(out@[i as int]@));
            },
        }
        i += 1;
    }
    assert(cv.subrange(0, cv.len() as int) =~= cv);
    Ok(out)
}

/// Once a prefix of a collection fails, the whole collection fails with the
/// same error.
proof fn lemma_collection_err(cols: Seq<(Seq<u8>, int)>, n: int, e: IndentError)
    requires
        0 <= n <= cols.len(),
        collection_spec(cols.subrange(0, n)) == Err::<Seq<Seq<u8>>, IndentError>(e),
    ensures
        collection_spec(cols) == Err::<Seq<Seq<u8>>, IndentError>(e),
    decreases cols.len() - n,
{
    if n < cols.len() {
        assert(cols.subrange(0, n + 1).drop_last() =~= cols.subrange(0, n));
        lemma_collection_err(cols, n + 1, e);
    } else {
        assert(cols.subrange(0, n) =~= cols);
    }
}

} // verus!

verus! {

/// Formatting a collection succeeds exactly when every text of it formats,
/// and then gives, at each position, the formatting of the text there at its
/// own column.
pub proof fn lemma_collection_pointwise(cols: Seq<(Seq<u8>, int)>)
    ensures
        (forall|i: int| 0 <= i < cols.len() ==> (#[trigger] format_spec(cols[i].0, cols[i].1)) is Ok)
            <==> collection_spec(cols) is Ok,
        collection_spec(cols) is Ok ==> {
            &&& collection_spec(cols)->Ok_0.len() == cols.len()
            &&& forall|i: int|
                0 <= i < cols.len() ==> format_spec(cols[i].0, cols[i].1) == Ok::<
                    Seq<u8>,
                    IndentError,
                >(#[trigger] collection_spec(cols)->Ok_0[i])
        },
    decreases cols.len(),
{
    if cols.len() > 0 {
        let init = cols.drop_last();
        let n = cols.len() - 1;
        lemma_collection_pointwise(init);
        assert forall|i: int| 0 <= i < init.len() implies #[trigger] init[i] == cols[i] by {}
        if collection_spec(cols) is Ok {
            let done = collection_spec(init)->Ok_0;
            assert forall|i: int| 0 <= i < cols.len() implies format_spec(cols[i].0, cols[i].1)
                == Ok::<Seq<u8>, IndentError>(#[trigger] collection_spec(cols)->Ok_0[i]) by {
                if i < init.len() {
                    assert(init[i] == cols[i]);
                }
            }
            assert forall|i: int| 0 <= i < cols.len() implies (#[trigger] format_spec(
                cols[i].0,
                cols[i].1,
            )) is Ok by {
                assert(format_spec(cols[i].0, cols[i].1) == Ok::<Seq<u8>, IndentError>(
                    collection_spec(cols)->Ok_0[i],
                ));
            }
        } else {
            let k = if collection_spec(init) is Ok {
                n
            } else {
                let k = choose|k: int|
                    0 <= k < init.len() && !(#[trigger] format_spec(init[k].0, init[k].1) is Ok);
                assert(init[k] == cols[k]);
                k
            };
            assert(0 <= k < cols.len() && !(format_spec(cols[k].0, cols[k].1) is Ok));
        }
    }
}

} // verus!

verus! {

/// A file holding one well-formed top-level form is the text before the form,
/// the form formatted bottom-up at column 0, and the text after it (or the
/// error formatting the form gives); so a file that is one form from its
/// first byte to its last is formatted exactly as that form is bottom-up.
pub proof fn lemma_whole_file_single_form(src: Seq<u8>, tree: SyntaxTree)
    requires
        named_kids(tree.root).len() == 1,
        named_kids(tree.root)[0].start_byte <= named_kids(tree.root)[0].end_byte <= src.len(),
        !has_missing_or_error_spec(named_kids(tree.root)[0]),
    ensures
        ({
            let f = named_kids(tree.root)[0];
            match format_spec(src.subrange(f.start_byte as int, f.end_byte as int), 0) {
                Ok(t) => whole_tree_spec(src, tree) == Ok::<Seq<u8>, IndentError>(
                    src.subrange(0, f.start_byte as int) + t + src.subrange(
                        f.end_byte as int,
                        src.len() as int,
                    ),
                ),
                Err(e) => whole_tree_spec(src, tree) == Err::<Seq<u8>, IndentError>(e),
            }
        }),
        named_kids(tree.root)[0].start_byte == 0 && named_kids(tree.root)[0].end_byte == src.len()
            ==> whole_tree_spec(src, tree) == format_spec(src, 0),
{
    let fs = named_kids(tree.root);
    let f = fs[0];
    assert(!any_malformed(fs));
    assert(stitch_top(src, fs, 1, f.end_byte as int) == Ok::<Seq<u8>, IndentError>(
        src.subrange(f.end_byte as int, src.len() as int),
    ));
    if f.start_byte == 0 && f.end_byte == src.len() {
        assert(text_of(f, src) =~= src);
        assert(src.subrange(src.len() as int, src.len() as int) =~= Seq::<u8>::empty());
        match format_spec(src, 0) {
            Ok(t) => {
                assert(src.subrange(0, 0) + t + Seq::<u8>::empty() =~= t);
            },
            Err(e) => {},
        }
    }
}

/// A file without top-level forms comes back as it is.
pub proof fn lemma_whole_file_without_forms(src: Seq<u8>, tree: SyntaxTree)
    requires
        named_kids(tree.root).len() == 0,
    ensures
        whole_tree_spec(src, tree) == Ok::<Seq<u8>, IndentError>(src),
{
    assert(src.subrange(0, src.len() as int) =~= src);
}

/// A form that lies on one line is left as it is by every aligner but the
/// map one (which still rebuilds a map of one pair), provided its columns
/// fit `isize`.
pub proof fn lemma_one_line_forms_kept(form: SyntaxNode, src: Seq<u8>, base: int)
    requires
        form.start_row == form.end_row,
        find_aligner_spec(form, src) != Some(AlignKind::MapLike),
        cols_fit(src.len() as int, base),
    ensures
        align_form(form, src, base) == Ok::<Seq<u8>, IndentError>(src),
{
    match find_aligner_spec(form, src) {
        None => {},
        Some(kind) => match kind {
            AlignKind::NsLike => assert(!ns_extract_ok(form, src)),
            AlignKind::LetLike => assert(!let_extract_ok(form, src)),
            AlignKind::MapLike => {},
            AlignKind::VecLike => assert(!vec_extract_ok(form)),
            AlignKind::CondLike => lemma_one_line_cond_form(form, src),
            AlignKind::CondPLike => assert(condp_pairs(form, src) is None),
            AlignKind::ThreadLike => lemma_one_line_thread_form(form, src),
        },
    }
}

} // verus!

