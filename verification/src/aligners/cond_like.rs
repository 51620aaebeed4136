//! `cond`, `cond->`, `cond->>` and `case`: test/result clauses read as pairs.
use vstd::prelude::*;
use vstd::string::*;

use crate::helpers::{
    code_kids, derefs, kids_spans_ok, kind_is, node_text, non_comment_children, span_ok, text_of,
};
use crate::alignable::Alignable;
use crate::aligners::generic_builder::{build_aligned_string, build_pairs, pair_ok, pairs_ok};
use crate::model::{
    pair_view_of, pair_views, AlignKind, Extracted, ExtractedView, Pair, PairView, SyntaxNode,
};
use crate::text::{bytes_equal, copy_range, lemma_skip_ws};

verus! {

/// The aligner for `cond`, `cond->`, `cond->>` and `case` forms.
pub struct CondLikeAligner;

/// Heads the cond-like aligner takes.
pub open spec fn is_cond_head(t: Seq<u8>) -> bool {
    ||| t == "cond".spec_bytes()
    ||| t == "cond->".spec_bytes()
    ||| t == "cond->>".spec_bytes()
    ||| t == "case".spec_bytes()
}

/// Heads whose clauses start after a second element (the threaded value or
/// the tested expression).
pub open spec fn is_two_operand_head(t: Seq<u8>) -> bool {
    ||| t == "cond->".spec_bytes()
    ||| t == "cond->>".spec_bytes()
    ||| t == "case".spec_bytes()
}

/// The text of the first child of the form's first element.
pub open spec fn cond_head_text(nd: SyntaxNode, src: Seq<u8>) -> Seq<u8> {
    text_of(code_kids(nd)[0].children@[0], src)
}

/// Whether the form gets as far as choosing its clauses: a multi-line list
/// whose first element has a child.
pub open spec fn cond_reaches_clauses(nd: SyntaxNode) -> bool {
    let kids = code_kids(nd);
    &&& nd.kind@ == "list_lit".spec_bytes()
    &&& nd.start_row != nd.end_row
    &&& kids.len() > 0
    &&& kids[0].children@.len() > 0
}

/// Whether reading the clauses would slice past the elements: a
/// `cond->`, `cond->>` or `case` form with nothing after its head.
pub open spec fn cond_lacks_operand(nd: SyntaxNode, src: Seq<u8>) -> bool {
    &&& cond_reaches_clauses(nd)
    &&& is_two_operand_head(cond_head_text(nd, src))
    &&& code_kids(nd).len() < 2
}

/// Index of the first clause element.
pub open spec fn cond_first_clause(nd: SyntaxNode, src: Seq<u8>) -> int {
    if is_two_operand_head(cond_head_text(nd, src)) {
        2
    } else {
        1
    }
}

/// A pair with an empty right-hand side, read from `n` alone.
pub open spec fn lone_pair(n: SyntaxNode, src: Seq<u8>, col: int) -> PairView {
    pair_view_of(
        text_of(n, src),
        seq![],
        n.start_byte as int,
        n.end_byte as int,
        col,
        n.end_byte as int,
        n.end_byte as int,
    )
}

/// A pair read from `lhs` and `rhs`.
pub open spec fn two_pair(lhs: SyntaxNode, rhs: SyntaxNode, src: Seq<u8>, col: int) -> PairView {
    pair_view_of(
        text_of(lhs, src),
        text_of(rhs, src),
        lhs.start_byte as int,
        lhs.end_byte as int,
        col,
        rhs.start_byte as int,
        rhs.end_byte as int,
    )
}

/// The pairs of `cl[i..]` taken two by two; a lone last element gives a pair
/// with an empty right-hand side for `case`, and `None` otherwise.
pub open spec fn cond_pairs_from(
    cl: Seq<SyntaxNode>,
    src: Seq<u8>,
    i: int,
    col: int,
    is_case: bool,
) -> Option<Seq<PairView>>
    decreases cl.len() - i,
{
    if i < 0 || i >= cl.len() {
        Some(seq![])
    } else if i + 1 < cl.len() {
        match cond_pairs_from(cl, src, i + 2, col, is_case) {
            Some(rest) => Some(seq![two_pair(cl[i], cl[i + 1], src, col)] + rest),
            None => None,
        }
    } else if is_case {
        Some(seq![lone_pair(cl[i], src, col)])
    } else {
        None
    }
}

/// Pairs read from elements that lie within the first `n` bytes of `src` are
/// safe to lay out in those bytes.
pub proof fn lemma_cond_pairs_ok(
    cl: Seq<SyntaxNode>,
    src: Seq<u8>,
    n: int,
    i: int,
    col: int,
    is_case: bool,
)
    requires
        0 <= i,
        0 <= n <= src.len() <= isize::MAX,
        forall|k: int| 0 <= k < cl.len() ==> span_ok(#[trigger] cl[k], n as nat),
    ensures
        cond_pairs_from(cl, src, i, col, is_case) matches Some(ps) ==> forall|k: int|
            0 <= k < ps.len() ==> pair_ok(src.subrange(0, n), #[trigger] ps[k]),
    decreases cl.len() - i,
{
    let pre = src.subrange(0, n);
    if i < cl.len() {
        assert(span_ok(cl[i], n as nat));
        if i + 1 < cl.len() {
            assert(span_ok(cl[i + 1], n as nat));
            lemma_cond_pairs_ok(cl, src, n, i + 2, col, is_case);
            let p = two_pair(cl[i], cl[i + 1], src, col);
            lemma_skip_ws(p.rh, 0);
            assert(pair_ok(pre, p));
            match cond_pairs_from(cl, src, i + 2, col, is_case) {
                Some(rest) => {
                    let ps = seq![p] + rest;
                    assert forall|k: int| 0 <= k < ps.len() implies pair_ok(pre, #[trigger] ps[k]) by {
                        if k > 0 {
                            assert(ps[k] == rest[k - 1]);
                        }
                    }
                },
                None => {},
            }
        } else {
            assert(pair_ok(pre, lone_pair(cl[i], src, col)));
        }
    }
}

/// The pairs of a cond-like form: `None` unless it is a multi-line list with
/// a first element that has a child and at least one clause, and (unless it
/// is `case`) an even number of clause elements. Clauses start after the
/// head, or after the second element for `cond->`, `cond->>` and `case`; all
/// pairs record the column of the first clause.
pub open spec fn cond_pairs(nd: SyntaxNode, src: Seq<u8>) -> Option<Seq<PairView>> {
    let kids = code_kids(nd);
    if !cond_reaches_clauses(nd) {
        None
    } else {
        let s = cond_first_clause(nd, src);
        if s >= kids.len() {
            None
        } else {
            cond_pairs_from(
                kids,
                src,
                s,
                kids[s].start_col as int,
                cond_head_text(nd, src) == "case".spec_bytes(),
            )
        }
    }
}

/// A `cond`-like form on one line yields no pairs, so it is left as it is.
pub proof fn lemma_one_line_cond_form(nd: SyntaxNode, src: Seq<u8>)
    requires
        nd.start_row == nd.end_row,
    ensures
        cond_pairs(nd, src) is None,
        !cond_lacks_operand(nd, src),
{
}

/// Whether the first element of `nd` and its first child span text within
/// `len` bytes, as do all elements.
pub open spec fn cond_spans_ok(nd: SyntaxNode, len: nat) -> bool {
    &&& kids_spans_ok(nd, len)
    &&& (code_kids(nd).len() > 0 && code_kids(nd)[0].children@.len() > 0) ==> span_ok(
        code_kids(nd)[0].children@[0],
        len,
    )
}

/// Whether a head is `cond->`, `cond->>` or `case`.
fn is_two_operand_head_exec(t: &[u8]) -> (r: bool)
    ensures
        r == is_two_operand_head(t@),
{
    bytes_equal(t, "cond->".as_bytes()) || bytes_equal(t, "cond->>".as_bytes()) || bytes_equal(
        t,
        "case".as_bytes(),
    )
}

/// Reads the test/result pairs of a `cond`, `cond->`, `cond->>` or `case`
/// form (see `cond_pairs`).
pub fn extract_cond_like_pairs(nd: &SyntaxNode, src: &[u8]) -> (r: Option<Vec<Pair>>)
    requires
        cond_spans_ok(*nd, src@.len()),
        !cond_lacks_operand(*nd, src@),
    ensures
        r is Some <==> cond_pairs(*nd, src@) is Some,
        r matches Some(v) ==> pair_views(v@) == (cond_pairs(*nd, src@)->0),
{
    if !kind_is(nd, "list_lit") {
        return None;
    }
    if nd.start_row == nd.end_row {
        return None;
    }
    let children = non_comment_children(nd);
    let ghost kids = code_kids(*nd);
    if children.len() == 0 {
        return None;
    }
    let head = children[0];
    assert(*children@[0] == kids[0]);
    if head.children.len() == 0 {
        return None;
    }
    let head_text = node_text(&head.children[0], src);
    let is_case = bytes_equal(head_text, "case".as_bytes());
    let s: usize = if is_two_operand_head_exec(head_text) {
        2
    } else {
        1
    };
    if s >= children.len() {
        return None;
    }
    assert(*children@[s as int] == kids[s as int]);
    let col = children[s].start_col;
    let ghost col_i = col as int;
    let ghost all = cond_pairs_from(kids, src@, s as int, col_i, is_case);
    assert(head.children@[0] == kids[0].children@[0]);
    assert(head_text@ == cond_head_text(*nd, src@));
    assert(s as int == cond_first_clause(*nd, src@));
    assert(cond_pairs(*nd, src@) == all);
    let ghost mut done: Seq<PairView> = seq![];
    let mut pairs: Vec<Pair> = Vec::new();
    let mut i: usize = s;
    while i < children.len()
        invariant
            derefs(children@) == kids,
            kids == code_kids(*nd),
            kids_spans_ok(*nd, src@.len()),
            s <= i,
            i <= children@.len() + 1,
            all == cond_pairs_from(kids, src@, s as int, col_i, is_case),
            cond_pairs(*nd, src@) == all,
            col_i == col as int,
            pair_views(pairs@) == done,
            all == match cond_pairs_from(kids, src@, i as int, col_i, is_case) {
                Some(rest) => Some(done + rest),
                None => None,
            },
        decreases children@.len() + 1 - i,
    {
        let lhs = children[i];
        assert(*children@[i as int] == kids[i as int]);
        assert(span_ok(kids[i as int], src@.len()));
        if i + 1 < children.len() {
            let rhs = children[i + 1];
            assert(*children@[i + 1] == kids[i + 1]);
            assert(span_ok(kids[i + 1], src@.len()));
            let lh = copy_range(src, lhs.start_byte, lhs.end_byte);
            let rh = copy_range(src, rhs.start_byte, rhs.end_byte);
            let width = lh.len();
            pairs.push(
                Pair {
                    lh_string: lh,
                    rh_string: rh,
                    lh_start_byte: lhs.start_byte,
                    lh_end_byte: lhs.end_byte,
                    lh_start_col: col,
                    lh_width: width,
                    rh_start_byte: rhs.start_byte,
                    rh_end_byte: rhs.end_byte,
                },
            );
            proof {
                let d = two_pair(kids[i as int], kids[i + 1], src@, col_i);
                assert(pairs@.last()@ == d);
                let ghost old_done = done;
                done = done.push(d);
                assert(pair_views(pairs@) =~= done);
                match cond_pairs_from(kids, src@, i + 2, col_i, is_case) {
                    Some(rest) => {
                        assert(old_done + (seq![d] + rest) =~= done + rest);
                    },
                    None => {},
                }
            }
            i += 2;
        } else if is_case {
            let lh = copy_range(src, lhs.start_byte, lhs.end_byte);
            let width = lh.len();
            pairs.push(
                Pair {
                    lh_string: lh,
                    rh_string: Vec::new(),
                    lh_start_byte: lhs.start_byte,
                    lh_end_byte: lhs.end_byte,
                    lh_start_col: col,
                    lh_width: width,
                    rh_start_byte: lhs.end_byte,
                    rh_end_byte: lhs.end_byte,
                },
            );
            proof {
                let d = lone_pair(kids[i as int], src@, col_i);
                assert(pairs@.last().rh_string@ =~= d.rh);
                assert(pairs@.last()@ == d);
                let ghost old_done = done;
                done = done.push(d);
                assert(pair_views(pairs@) =~= done);
                assert(old_done + seq![d] =~= done + seq![]);
                assert(cond_pairs_from(kids, src@, i + 1, col_i, is_case) == Some(
                    Seq::<PairView>::empty(),
                ));
            }
            i += 1;
        } else {
            assert(cond_pairs_from(kids, src@, i as int, col_i, is_case) is None);
            return None;
        }
    }
    proof {
        assert(cond_pairs_from(kids, src@, i as int, col_i, is_case) == Some(
            Seq::<PairView>::empty(),
        ));
        assert(done + Seq::<PairView>::empty() =~= done);
    }
    Some(pairs)
}

impl Alignable for CondLikeAligner {
    open spec fn kind_spec(&self) -> AlignKind {
        AlignKind::CondLike
    }

    open spec fn matches_spec(&self, node: SyntaxNode, src: Seq<u8>) -> bool {
        let kids = code_kids(node);
        node.kind@ == "list_lit".spec_bytes() && kids.len() > 0 && is_cond_head(
            text_of(kids[0], src),
        )
    }

    open spec fn extract_ok(&self, node: SyntaxNode, src: Seq<u8>) -> bool {
        cond_spans_ok(node, src.len()) && !cond_lacks_operand(node, src)
    }

    open spec fn extract_spec(&self, node: SyntaxNode, src: Seq<u8>) -> Option<ExtractedView> {
        match cond_pairs(node, src) {
            Some(ps) => Some(ExtractedView::Pairs(ps)),
            None => None,
        }
    }

    open spec fn build_ok(&self, src: Seq<u8>, e: ExtractedView, base: int) -> bool {
        match e {
            ExtractedView::Pairs(ps) => pairs_ok(src, ps, base, base + 2),
            _ => true,
        }
    }

    open spec fn build_spec(&self, src: Seq<u8>, e: ExtractedView, base: int) -> Seq<u8> {
        match e {
            ExtractedView::Pairs(ps) => build_pairs(src, ps, base),
            _ => src,
        }
    }

    fn kind(&self) -> (r: AlignKind) {
        AlignKind::CondLike
    }

    /// Whether the node is a list whose first element reads `cond`, `cond->`,
    /// `cond->>` or `case`.
    fn matches(&self, node: &SyntaxNode, src: &[u8]) -> (r: bool) {
        if !kind_is(node, "list_lit") {
            return false;
        }
        let children = non_comment_children(node);
        if children.len() == 0 {
            return false;
        }
        assert(*children@[0] == code_kids(*node)[0]);
        assert(span_ok(code_kids(*node)[0], src@.len()));
        let head = node_text(children[0], src);
        bytes_equal(head, "cond".as_bytes()) || is_two_operand_head_exec(head)
    }

    fn extract(&self, node: &SyntaxNode, src: &[u8]) -> (r: Option<Extracted>) {
        match extract_cond_like_pairs(node, src) {
            Some(pairs) => Some(Extracted::Pairs(pairs)),
            None => None,
        }
    }

    fn build(&self, src: &[u8], extracted: Extracted, base_col: usize) -> (r: Vec<u8>) {
        match extracted {
            Extracted::Pairs(pairs) => build_aligned_string(src, pairs.as_slice(), base_col),
            _ => {
                let r = copy_range(src, 0, src.len());
                assert(src@.subrange(0, src@.len() as int) =~= src@);
                r
            },
        }
    }
}


} // verus!
