//! What every aligner offers: its kind, which forms it lays out, what it
//! reads out of a form, and how it rebuilds the form from that.
use vstd::prelude::*;

use crate::helpers::kids_spans_ok;
use crate::model::{AlignKind, Extracted, ExtractedView, SyntaxNode};

verus! {

/// What an aligner read, as mathematical values.
pub open spec fn extracted_view(e: Option<Extracted>) -> Option<ExtractedView> {
    match e {
        Some(x) => Some(x@),
        None => None,
    }
}

/// An aligner: a way of laying out one kind of form.
pub trait Alignable {
    /// The kind of forms the aligner lays out.
    spec fn kind_spec(&self) -> AlignKind;

    /// Whether the aligner lays out `node`, a form of `src`.
    spec fn matches_spec(&self, node: SyntaxNode, src: Seq<u8>) -> bool;

    /// Whether `extract` may read `node`: the spans it reads lie within `src`
    /// and the form is one the aligner can read.
    spec fn extract_ok(&self, node: SyntaxNode, src: Seq<u8>) -> bool;

    /// What the aligner reads out of `node`, or `None` when it leaves the form
    /// as it is.
    spec fn extract_spec(&self, node: SyntaxNode, src: Seq<u8>) -> Option<ExtractedView>;

    /// Whether `build` may lay out `e` for `src` at column `base`: every
    /// position it reads lies within `src` and every column fits.
    spec fn build_ok(&self, src: Seq<u8>, e: ExtractedView, base: int) -> bool;

    /// `src`, placed at column `base`, laid out from what was read out of it.
    spec fn build_spec(&self, src: Seq<u8>, e: ExtractedView, base: int) -> Seq<u8>;

    /// The kind of forms the aligner lays out.
    fn kind(&self) -> (r: AlignKind)
        ensures
            r == self.kind_spec(),
    ;

    /// Whether the aligner lays out `node`, a form of `src`.
    fn matches(&self, node: &SyntaxNode, src: &[u8]) -> (r: bool)
        requires
            kids_spans_ok(*node, src@.len()),
        ensures
            r == self.matches_spec(*node, src@),
    ;

    /// Reads what the aligner needs out of `node`.
    fn extract(&self, node: &SyntaxNode, src: &[u8]) -> (r: Option<Extracted>)
        requires
            self.extract_ok(*node, src@),
        ensures
            extracted_view(r) == self.extract_spec(*node, src@),
    ;

    /// Lays out `src`, placed at column `base_col`, from what was read out of it.
    fn build(&self, src: &[u8], extracted: Extracted, base_col: usize) -> (r: Vec<u8>)
        requires
            self.build_ok(src@, extracted@, base_col as int),
        ensures
            r@ == self.build_spec(src@, extracted@, base_col as int),
    ;
}

} // verus!
