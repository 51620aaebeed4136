//! The data the aligners read and produce: syntax nodes, key/value pairs,
//! rows and the kinds of alignment.
use vstd::prelude::*;

verus! {

/// A node of a Clojure syntax tree, as plain values.
///
/// Positions are byte offsets into the parsed text; rows and columns count
/// from 0, columns in bytes. `children` holds every child, named or not, in
/// source order.
#[derive(Debug)]
pub struct SyntaxNode {
    pub kind: Vec<u8>,
    pub is_named: bool,
    pub start_byte: usize,
    pub end_byte: usize,
    pub start_row: usize,
    pub start_col: usize,
    pub end_row: usize,
    pub is_error: bool,
    pub is_missing: bool,
    pub has_error: bool,
    pub children: Vec<SyntaxNode>,
}

/// A parsed text: the root node of its syntax tree.
#[derive(Debug)]
pub struct SyntaxTree {
    pub root: SyntaxNode,
}

/// A left-hand/right-hand pair of a binding, map or clause form, with the
/// positions it was read from.
#[derive(Debug, Clone)]
pub struct Pair {
    pub lh_string: Vec<u8>,
    pub rh_string: Vec<u8>,
    pub lh_start_byte: usize,
    pub lh_end_byte: usize,
    pub lh_start_col: usize,
    pub lh_width: usize,
    pub rh_start_byte: usize,
    pub rh_end_byte: usize,
}

/// One element of a form laid out one element per line, with its position.
#[derive(Debug, Clone)]
pub struct Row {
    pub text: Vec<u8>,
    pub start_byte: usize,
    pub end_byte: usize,
}

/// The kinds of forms the engine aligns.
#[derive(PartialEq, Eq, Clone, Copy, Debug, Structural)]
pub enum AlignKind {
    LetLike,
    MapLike,
    NsLike,
    VecLike,
    CondLike,
    CondPLike,
    ThreadLike,
}

/// What an aligner reads out of a form: pairs, or rows hung from an anchor.
#[derive(Debug, Clone)]
pub enum Extracted {
    Pairs(Vec<Pair>),
    Rows { anchor_byte: usize, rows: Vec<Row> },
    /// The bindings of a binding form, the span of its binding vector, and
    /// its body forms.
    Bindings { pairs: Vec<Pair>, vector_start: usize, vector_end: usize, body: Vec<Row> },
}

/// What an aligner reads out of a form, as mathematical values.
pub enum ExtractedView {
    Pairs(Seq<PairView>),
    Rows { anchor: int, rows: Seq<RowView> },
    Bindings { pairs: Seq<PairView>, start: int, end: int, body: Seq<RowView> },
}

impl View for Extracted {
    type V = ExtractedView;

    open spec fn view(&self) -> ExtractedView {
        match self {
            Extracted::Pairs(p) => ExtractedView::Pairs(pair_views(p@)),
            Extracted::Rows { anchor_byte, rows } => ExtractedView::Rows {
                anchor: *anchor_byte as int,
                rows: row_views(rows@),
            },
            Extracted::Bindings { pairs, vector_start, vector_end, body } => ExtractedView::Bindings {
                pairs: pair_views(pairs@),
                start: *vector_start as int,
                end: *vector_end as int,
                body: row_views(body@),
            },
        }
    }
}

/// What a pair holds, as mathematical values.
pub struct PairView {
    pub lh: Seq<u8>,
    pub rh: Seq<u8>,
    pub lh_start: int,
    pub lh_end: int,
    pub lh_col: int,
    pub lh_width: int,
    pub rh_start: int,
    pub rh_end: int,
}

impl View for Pair {
    type V = PairView;

    open spec fn view(&self) -> PairView {
        PairView {
            lh: self.lh_string@,
            rh: self.rh_string@,
            lh_start: self.lh_start_byte as int,
            lh_end: self.lh_end_byte as int,
            lh_col: self.lh_start_col as int,
            lh_width: self.lh_width as int,
            rh_start: self.rh_start_byte as int,
            rh_end: self.rh_end_byte as int,
        }
    }
}

/// What a row holds, as mathematical values.
pub struct RowView {
    pub text: Seq<u8>,
    pub start: int,
    pub end: int,
}

impl View for Row {
    type V = RowView;

    open spec fn view(&self) -> RowView {
        RowView { text: self.text@, start: self.start_byte as int, end: self.end_byte as int }
    }
}

/// The views of a sequence of pairs.
pub open spec fn pair_views(s: Seq<Pair>) -> Seq<PairView> {
    Seq::new(s.len(), |i: int| s[i]@)
}

/// The views of a sequence of rows.
pub open spec fn row_views(s: Seq<Row>) -> Seq<RowView> {
    Seq::new(s.len(), |i: int| s[i]@)
}

/// Views of a sequence extended by one pair.
pub proof fn lemma_pair_views_push(s: Seq<Pair>, p: Pair)
    ensures
        pair_views(s.push(p)) == pair_views(s).push(p@),
{
    assert(pair_views(s.push(p)) =~= pair_views(s).push(p@));
}

/// Views of a sequence extended by one row.
pub proof fn lemma_row_views_push(s: Seq<Row>, r: Row)
    ensures
        row_views(s.push(r)) == row_views(s).push(r@),
{
    assert(row_views(s.push(r)) =~= row_views(s).push(r@));
}

/// The pair read from left-hand text `lh` and right-hand text `rh`, its width
/// being the length of `lh`.
pub open spec fn pair_view_of(
    lh: Seq<u8>,
    rh: Seq<u8>,
    lh_start: int,
    lh_end: int,
    col: int,
    rh_start: int,
    rh_end: int,
) -> PairView {
    PairView { lh, rh, lh_start, lh_end, lh_col: col, lh_width: lh.len() as int, rh_start, rh_end }
}

/// Name of an alignment kind, as `Display` prints it.
pub open spec fn align_kind_name(k: AlignKind) -> &'static str {
    match k {
        AlignKind::LetLike => "LetLike",
        AlignKind::MapLike => "MapLike",
        AlignKind::CondLike => "CondLike",
        AlignKind::CondPLike => "CondPLike",
        AlignKind::VecLike => "VecLike",
        AlignKind::NsLike => "NsLike",
        AlignKind::ThreadLike => "ThreadLike",
    }
}

impl AlignKind {
    /// The name of the kind (`LetLike`, `MapLike`, ...).
    pub fn name(&self) -> (r: &'static str)
        ensures
            r == align_kind_name(*self),
    {
        match self {
            AlignKind::LetLike => "LetLike",
            AlignKind::MapLike => "MapLike",
            AlignKind::CondLike => "CondLike",
            AlignKind::CondPLike => "CondPLike",
            AlignKind::VecLike => "VecLike",
            AlignKind::NsLike => "NsLike",
            AlignKind::ThreadLike => "ThreadLike",
        }
    }
}

} // verus!
