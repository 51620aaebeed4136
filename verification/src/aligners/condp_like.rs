//! `condp`: test/result clauses (with `:>>` clauses and a default) read as
//! pairs.
use vstd::prelude::*;
use vstd::string::*;

use crate::aligners::cond_like::{lone_pair, two_pair};
use crate::aligners::ns_like::{list_head_equals, list_head_is};
use crate::helpers::{
    code_kids, derefs, kids_spans_ok, kind_is, node_text, non_comment_children, span_ok, text_of,
};
use crate::alignable::Alignable;
use crate::aligners::generic_builder::{build_aligned_string, build_pairs, pair_ok, pairs_ok};
use crate::model::{
    pair_view_of, pair_views, AlignKind, Extracted, ExtractedView, Pair, PairView, SyntaxNode,
};
use crate::text::{bytes_equal, copy_range, lemma_skip_ws, push_all, skip_ws};

verus! {

/// The aligner for `condp` forms.
pub struct CondPLikeAligner;

/// A `:>>` clause: the test, and `:>> ` followed by the result function.
pub open spec fn arrow_pair(
    test: SyntaxNode,
    arrow: SyntaxNode,
    f: SyntaxNode,
    src: Seq<u8>,
) -> PairView {
    pair_view_of(
        text_of(test, src),
        ":>> ".spec_bytes() + text_of(f, src),
        test.start_byte as int,
        test.end_byte as int,
        test.start_col as int,
        arrow.start_byte as int,
        f.end_byte as int,
    )
}

/// The pairs of the clauses `cl[i..]`: a lone last element is the default
/// (empty right-hand side); a test followed by `:>>` and a third element is a
/// `:>>` clause; otherwise a test and its result. Each pair records the column
/// of its own test.
pub open spec fn condp_pairs_from(cl: Seq<SyntaxNode>, src: Seq<u8>, i: int) -> Seq<PairView>
    decreases cl.len() - i,
{
    if i < 0 || i >= cl.len() {
        seq![]
    } else if cl.len() - i == 1 {
        seq![lone_pair(cl[i], src, cl[i].start_col as int)]
    } else if i + 2 < cl.len() && text_of(cl[i + 1], src) == ":>>".spec_bytes() {
        seq![arrow_pair(cl[i], cl[i + 1], cl[i + 2], src)] + condp_pairs_from(cl, src, i + 3)
    } else {
        seq![two_pair(cl[i], cl[i + 1], src, cl[i].start_col as int)] + condp_pairs_from(
            cl,
            src,
            i + 2,
        )
    }
}

/// Pairs read from elements that lie within `src` are safe to lay out.
pub proof fn lemma_condp_pairs_ok(cl: Seq<SyntaxNode>, src: Seq<u8>, i: int)
    requires
        0 <= i,
        src.len() <= isize::MAX,
        forall|k: int| 0 <= k < cl.len() ==> span_ok(#[trigger] cl[k], src.len()),
    ensures
        forall|k: int|
            0 <= k < condp_pairs_from(cl, src, i).len() ==> pair_ok(
                src,
                #[trigger] condp_pairs_from(cl, src, i)[k],
            ),
    decreases cl.len() - i,
{
    if i < cl.len() {
        let ps = condp_pairs_from(cl, src, i);
        assert(span_ok(cl[i], src.len()));
        if cl.len() - i == 1 {
            assert(pair_ok(src, lone_pair(cl[i], src, cl[i].start_col as int)));
        } else if i + 2 < cl.len() && text_of(cl[i + 1], src) == ":>>".spec_bytes() {
            assert(span_ok(cl[i + 1], src.len()));
            assert(span_ok(cl[i + 2], src.len()));
            lemma_condp_pairs_ok(cl, src, i + 3);
            let p = arrow_pair(cl[i], cl[i + 1], cl[i + 2], src);
            reveal_strlit(":>> ");
            assert(is_ascii(":>> "));
            is_ascii_spec_bytes(":>> ");
            assert(":>> ".spec_bytes()[0] == 58);
            assert(p.rh[0] == 58);
            assert(skip_ws(p.rh, 0) == 0);
            assert(pair_ok(src, p));
            let rest = condp_pairs_from(cl, src, i + 3);
            assert forall|k: int| 0 <= k < ps.len() implies pair_ok(src, #[trigger] ps[k]) by {
                if k > 0 {
                    assert(ps[k] == rest[k - 1]);
                }
            }
        } else {
            assert(span_ok(cl[i + 1], src.len()));
            lemma_condp_pairs_ok(cl, src, i + 2);
            let p = two_pair(cl[i], cl[i + 1], src, cl[i].start_col as int);
            lemma_skip_ws(p.rh, 0);
            assert(pair_ok(src, p));
            let rest = condp_pairs_from(cl, src, i + 2);
            assert forall|k: int| 0 <= k < ps.len() implies pair_ok(src, #[trigger] ps[k]) by {
                if k > 0 {
                    assert(ps[k] == rest[k - 1]);
                }
            }
        }
    }
}

/// The pairs of a `condp` form: `None` unless it is a multi-line list of at
/// least four elements whose first reads `condp`; the clauses follow the
/// predicate and the expression.
pub open spec fn condp_pairs(nd: SyntaxNode, src: Seq<u8>) -> Option<Seq<PairView>> {
    let kids = code_kids(nd);
    if nd.kind@ != "list_lit".spec_bytes() || kids.len() < 4 || nd.start_row == nd.end_row
        || text_of(kids[0], src) != "condp".spec_bytes() {
        None
    } else {
        Some(condp_pairs_from(kids, src, 3))
    }
}

/// Reads the clauses of a `condp` form as pairs (see `condp_pairs`).
pub fn extract_condp_pairs(form: &SyntaxNode, src: &[u8]) -> (r: Option<Vec<Pair>>)
    requires
        kids_spans_ok(*form, src@.len()),
    ensures
        r is Some <==> condp_pairs(*form, src@) is Some,
        r matches Some(v) ==> pair_views(v@) == (condp_pairs(*form, src@)->0),
{
    if !kind_is(form, "list_lit") {
        return None;
    }
    let children = non_comment_children(form);
    let ghost kids = code_kids(*form);
    if children.len() < 4 {
        return None;
    }
    if form.start_row == form.end_row {
        return None;
    }
    assert(*children@[0] == kids[0]);
    assert(span_ok(kids[0], src@.len()));
    if !bytes_equal(node_text(children[0], src), "condp".as_bytes()) {
        return None;
    }
    let ghost all = condp_pairs_from(kids, src@, 3);
    let ghost mut done: Seq<PairView> = seq![];
    let mut pairs: Vec<Pair> = Vec::new();
    let mut i: usize = 3;
    while i < children.len()
        invariant
            derefs(children@) == kids,
            kids == code_kids(*form),
            kids_spans_ok(*form, src@.len()),
            3 <= i <= children@.len(),
            all == condp_pairs_from(kids, src@, 3),
            pair_views(pairs@) == done,
            all == done + condp_pairs_from(kids, src@, i as int),
        decreases children@.len() - i,
    {
        let lhs = children[i];
        assert(*children@[i as int] == kids[i as int]);
        assert(span_ok(kids[i as int], src@.len()));
        let lh = copy_range(src, lhs.start_byte, lhs.end_byte);
        let width = lh.len();
        let ghost old_done = done;
        let ghost d: PairView;
        let ghost next: int;
        if children.len() - i == 1 {
            pairs.push(
                Pair {
                    lh_string: lh,
                    rh_string: Vec::new(),
                    lh_start_byte: lhs.start_byte,
                    lh_end_byte: lhs.end_byte,
                    lh_start_col: lhs.start_col,
                    lh_width: width,
                    rh_start_byte: lhs.end_byte,
                    rh_end_byte: lhs.end_byte,
                },
            );
            proof {
                d = lone_pair(kids[i as int], src@, kids[i as int].start_col as int);
                assert(pairs@.last().rh_string@ =~= d.rh);
                next = children@.len() as int;
            }
            i = children.len();
        } else {
            let mid = children[i + 1];
            assert(*children@[i + 1] == kids[i + 1]);
            assert(span_ok(kids[i + 1], src@.len()));
            let is_arrow = i + 2 < children.len() && bytes_equal(
                node_text(mid, src),
                ":>>".as_bytes(),
            );
            if is_arrow {
                let rhs = children[i + 2];
                assert(*children@[i + 2] == kids[i + 2]);
                assert(span_ok(kids[i + 2], src@.len()));
                let mut rh: Vec<u8> = Vec::new();
                push_all(&mut rh, ":>> ".as_bytes());
                push_all(&mut rh, node_text(rhs, src));
                pairs.push(
                    Pair {
                        lh_string: lh,
                        rh_string: rh,
                        lh_start_byte: lhs.start_byte,
                        lh_end_byte: lhs.end_byte,
                        lh_start_col: lhs.start_col,
                        lh_width: width,
                        rh_start_byte: mid.start_byte,
                        rh_end_byte: rhs.end_byte,
                    },
                );
                proof {
                    d = arrow_pair(kids[i as int], kids[i + 1], kids[i + 2], src@);
                    assert(pairs@.last().rh_string@ =~= d.rh);
                    next = i + 3;
                }
                i += 3;
            } else {
                let rh = copy_range(src, mid.start_byte, mid.end_byte);
                pairs.push(
                    Pair {
                        lh_string: lh,
                        rh_string: rh,
                        lh_start_byte: lhs.start_byte,
                        lh_end_byte: lhs.end_byte,
                        lh_start_col: lhs.start_col,
                        lh_width: width,
                        rh_start_byte: mid.start_byte,
                        rh_end_byte: mid.end_byte,
                    },
                );
                proof {
                    d = two_pair(kids[i as int], kids[i + 1], src@, kids[i as int].start_col as int);
                    next = i + 2;
                }
                i += 2;
            }
        }
        proof {
            assert(pairs@.last()@ == d);
            done = done.push(d);
            assert(pair_views(pairs@) =~= done);
            assert(next == i as int);
            assert(all =~= done + condp_pairs_from(kids, src@, i as int));
        }
    }
    proof {
        assert(condp_pairs_from(kids, src@, i as int) =~= Seq::<PairView>::empty());
        assert(done + Seq::<PairView>::empty() =~= done);
    }
    Some(pairs)
}

impl Alignable for CondPLikeAligner {
    open spec fn kind_spec(&self) -> AlignKind {
        AlignKind::CondPLike
    }

    open spec fn matches_spec(&self, node: SyntaxNode, src: Seq<u8>) -> bool {
        list_head_is(node, src, "condp".spec_bytes())
    }

    open spec fn extract_ok(&self, node: SyntaxNode, src: Seq<u8>) -> bool {
        kids_spans_ok(node, src.len())
    }

    open spec fn extract_spec(&self, node: SyntaxNode, src: Seq<u8>) -> Option<ExtractedView> {
        match condp_pairs(node, src) {
            Some(ps) => Some(ExtractedView::Pairs(ps)),
            None => None,
        }
    }

    open spec fn build_ok(&self, src: Seq<u8>, e: ExtractedView, base: int) -> bool {
        match e {
            ExtractedView::Pairs(ps) => pairs_ok(src, ps, base, base + 2),
            _ => true,
        }
    }

    open spec fn build_spec(&self, src: Seq<u8>, e: ExtractedView, base: int) -> Seq<u8> {
        match e {
            ExtractedView::Pairs(ps) => build_pairs(src, ps, base),
            _ => src,
        }
    }

    fn kind(&self) -> (r: AlignKind) {
        AlignKind::CondPLike
    }

    /// Whether the node is a list whose first element reads `condp`.
    fn matches(&self, node: &SyntaxNode, src: &[u8]) -> (r: bool) {
        list_head_equals(node, src, "condp")
    }

    fn extract(&self, node: &SyntaxNode, src: &[u8]) -> (r: Option<Extracted>) {
        match extract_condp_pairs(node, src) {
            Some(pairs) => Some(Extracted::Pairs(pairs)),
            None => None,
        }
    }

    fn build(&self, src: &[u8], extracted: Extracted, base_col: usize) -> (r: Vec<u8>) {
        match extracted {
            Extracted::Pairs(pairs) => build_aligned_string(src, pairs.as_slice(), base_col),
            _ => {
                let r = copy_range(src, 0, src.len());
                assert(src@.subrange(0, src@.len() as int) =~= src@);
                r
            },
        }
    }
}


} // verus!
