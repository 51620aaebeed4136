//! `ns` forms: clauses one per line, two columns in, with the entries of
//! `:require`, `:import` and `:use` ordered from shorter to longer.
use vstd::prelude::*;
use vstd::string::*;

use crate::aligners::map_like::{prepend, prev_int};
use crate::aligners::vec_like::rows_bail;
use crate::helpers::{
    code_kids, derefs, kids_spans_ok, kind_is, line_start, line_start_byte,
    node_text, non_comment_children, shift_multiline, shift_multiline_block, span_ok, text_of,
};
use crate::alignable::Alignable;
use crate::model::{
    lemma_row_views_push, row_views, AlignKind, Extracted, ExtractedView, Row, RowView, SyntaxNode,
};
use crate::text::{
    bytes_equal, char_count, copy_range, count_chars, find_newline, lemma_next_newline, lex_le,
    lex_le_exec, lemma_lex_antisym, lemma_lex_total, lemma_lex_trans, lines_from, push_all,
    push_range, push_spaces, spaces, split_lines, trim,
    trim_bytes, vviews, NEWLINE, SPACE,
};

verus! {

/// `(`
pub const OPEN_PAREN: u8 = 40;

/// `)`
pub const CLOSE_PAREN: u8 = 41;

/// The aligner for `ns` forms.
pub struct NsLikeAligner;

// ---------------------------------------------------------------------------
// Entries
// ---------------------------------------------------------------------------

/// The trimmed, non-empty lines among `ls`, in order.
pub open spec fn trimmed_lines(ls: Seq<Seq<u8>>) -> Seq<Seq<u8>>
    decreases ls.len(),
{
    if ls.len() == 0 {
        seq![]
    } else if trim(ls.last()).len() > 0 {
        trimmed_lines(ls.drop_last()).push(trim(ls.last()))
    } else {
        trimmed_lines(ls.drop_last())
    }
}

/// The items joined by single spaces.
pub open spec fn join_space(items: Seq<Seq<u8>>) -> Seq<u8>
    decreases items.len(),
{
    if items.len() == 0 {
        seq![]
    } else if items.len() == 1 {
        items[0]
    } else {
        join_space(items.drop_last()) + seq![SPACE] + items.last()
    }
}

/// An entry on one line: its lines trimmed, empty ones dropped, the rest
/// joined by single spaces.
pub open spec fn compact_entry(text: Seq<u8>) -> Seq<u8> {
    join_space(trimmed_lines(split_lines(text)))
}

/// Joining non-empty items yields nothing only when there are none.
proof fn lemma_join_space_empty(items: Seq<Seq<u8>>)
    requires
        forall|k: int| 0 <= k < items.len() ==> #[trigger] items[k].len() > 0,
    ensures
        (join_space(items).len() == 0) == (items.len() == 0),
    decreases items.len(),
{
    if items.len() > 1 {
        lemma_join_space_empty(items.drop_last());
    }
}

/// Every line kept by `trimmed_lines` is non-empty.
proof fn lemma_trimmed_lines_nonempty(ls: Seq<Seq<u8>>)
    ensures
        forall|k: int|
            0 <= k < trimmed_lines(ls).len() ==> #[trigger] trimmed_lines(ls)[k].len() > 0,
    decreases ls.len(),
{
    if ls.len() > 0 {
        lemma_trimmed_lines_nonempty(ls.drop_last());
        let r = trimmed_lines(ls.drop_last());
        assert forall|k: int| 0 <= k < trimmed_lines(ls).len() implies #[trigger] trimmed_lines(
            ls,
        )[k].len() > 0 by {
            if k < r.len() {
                assert(trimmed_lines(ls)[k] == r[k]);
            }
        }
    }
}

/// Puts an entry on one line: every line trimmed, empty lines dropped, the
/// rest joined by single spaces.
pub fn compact_ns_entry_text(text: &[u8]) -> (r: Vec<u8>)
    ensures
        r@ == compact_entry(text@),
{
    let mut out: Vec<u8> = Vec::new();
    let ghost mut done: Seq<Seq<u8>> = seq![];
    let mut p: usize = 0;
    let mut finished = false;
    assert(lines_from(text@, 0) =~= done + lines_from(text@, 0));
    while !finished
        invariant
            0 <= p <= text@.len(),
            !finished ==> split_lines(text@) == done + lines_from(text@, p as int),
            finished ==> split_lines(text@) == done,
            out@ == join_space(trimmed_lines(done)),
        decreases text@.len() - p + if finished {
            0int
        } else {
            1int
        },
    {
        let j = find_newline(text, p);
        proof {
            lemma_next_newline(text@, p as int);
            lemma_trimmed_lines_nonempty(done);
            lemma_join_space_empty(trimmed_lines(done));
        }
        let line = copy_range(text, p, j);
        let t = trim_bytes(line.as_slice());
        let ghost prev_done = done;
        if t.len() > 0 {
            if out.len() > 0 {
                out.push(SPACE);
            }
            push_all(&mut out, t.as_slice());
        }
        proof {
            done = done.push(line@);
            assert(done.drop_last() =~= prev_done);
            if t@.len() > 0 {
                let items = trimmed_lines(done);
                assert(items.drop_last() =~= trimmed_lines(prev_done));
                if trimmed_lines(prev_done).len() == 0 {
                    assert(out@ =~= join_space(items));
                } else {
                    assert(out@ =~= join_space(items));
                }
            }
        }
        if j >= text.len() {
            proof {
                assert(lines_from(text@, p as int) =~= seq![line@]);
                assert(split_lines(text@) =~= done);
            }
            finished = true;
        } else {
            proof {
                assert(lines_from(text@, p as int) =~= seq![line@] + lines_from(text@, j + 1));
                assert(split_lines(text@) =~= done + lines_from(text@, j + 1));
            }
            p = j + 1;
        }
    }
    out
}

// ---------------------------------------------------------------------------
// Ordering entries
// ---------------------------------------------------------------------------

/// Whether entry `a` goes before or with entry `b`: fewer characters first,
/// then byte-wise order.
pub open spec fn entry_le(a: Seq<u8>, b: Seq<u8>) -> bool {
    ||| char_count(a) < char_count(b)
    ||| (char_count(a) == char_count(b) && lex_le(a, b))
}

/// `x` placed before the first entry of `t` that it goes before or with.
pub open spec fn insert_entry(x: Seq<u8>, t: Seq<Seq<u8>>) -> Seq<Seq<u8>>
    decreases t.len(),
{
    if t.len() == 0 {
        seq![x]
    } else if entry_le(x, t[0]) {
        seq![x] + t
    } else {
        seq![t[0]] + insert_entry(x, t.drop_first())
    }
}

/// The entries ordered by `entry_le`.
pub open spec fn sort_entries(s: Seq<Seq<u8>>) -> Seq<Seq<u8>>
    decreases s.len(),
{
    if s.len() == 0 {
        seq![]
    } else {
        insert_entry(s.last(), sort_entries(s.drop_last()))
    }
}

/// Whether the entries are ordered by `entry_le`.
pub open spec fn entries_sorted(s: Seq<Seq<u8>>) -> bool {
    forall|i: int, j: int| 0 <= i < j < s.len() ==> entry_le(#[trigger] s[i], #[trigger] s[j])
}

/// Whether `y` goes before or with every entry of `s`.
pub open spec fn below_all(y: Seq<u8>, s: Seq<Seq<u8>>) -> bool {
    forall|m: int| 0 <= m < s.len() ==> entry_le(y, #[trigger] s[m])
}

/// Of two entries, one goes before or with the other.
pub proof fn lemma_entry_le_total(a: Seq<u8>, b: Seq<u8>)
    ensures
        entry_le(a, b) || entry_le(b, a),
{
    lemma_lex_total(a, b);
}

/// Entries that go before or with each other are equal.
pub proof fn lemma_entry_le_antisym(a: Seq<u8>, b: Seq<u8>)
    requires
        entry_le(a, b),
        entry_le(b, a),
    ensures
        a == b,
{
    lemma_lex_antisym(a, b);
}

/// Going before or with is transitive.
pub proof fn lemma_entry_le_trans(a: Seq<u8>, b: Seq<u8>, c: Seq<u8>)
    requires
        entry_le(a, b),
        entry_le(b, c),
    ensures
        entry_le(a, c),
{
    if char_count(a) == char_count(b) && char_count(b) == char_count(c) {
        lemma_lex_trans(a, b, c);
    }
}

/// Inserting into ordered entries keeps them ordered and adds exactly the
/// inserted entry.
proof fn lemma_insert_entry(x: Seq<u8>, t: Seq<Seq<u8>>)
    requires
        entries_sorted(t),
    ensures
        entries_sorted(insert_entry(x, t)),
        forall|y: Seq<u8>|
            entry_le(y, x) && below_all(y, t) ==> #[trigger] below_all(y, insert_entry(x, t)),
    decreases t.len(),
{
    let r = insert_entry(x, t);
    if t.len() == 0 {
        assert(r.drop_first() =~= t);
    } else if entry_le(x, t[0]) {
        assert(r.drop_first() =~= t);
        assert forall|i: int, j: int| 0 <= i < j < r.len() implies entry_le(
            #[trigger] r[i],
            #[trigger] r[j],
        ) by {
            if i == 0 {
                if j > 1 {
                    assert(entry_le(t[0], t[j - 1]));
                    lemma_entry_le_trans(x, t[0], t[j - 1]);
                }
            } else {
                assert(entry_le(t[i - 1], t[j - 1]));
            }
        }
        assert forall|y: Seq<u8>| entry_le(y, x) && below_all(y, t) implies #[trigger] below_all(
            y,
            r,
        ) by {
            assert forall|m: int| 0 <= m < r.len() implies entry_le(y, #[trigger] r[m]) by {
                if m > 0 {
                    assert(entry_le(y, t[m - 1]));
                }
            }
        }
    } else {
        let tail = t.drop_first();
        let r2 = insert_entry(x, tail);
        assert forall|i: int, j: int| 0 <= i < j < tail.len() implies entry_le(
            #[trigger] tail[i],
            #[trigger] tail[j],
        ) by {
            assert(entry_le(t[i + 1], t[j + 1]));
        }
        lemma_insert_entry(x, tail);
        lemma_entry_le_total(x, t[0]);
        assert forall|m: int| 0 <= m < tail.len() implies entry_le(t[0], #[trigger] tail[m]) by {
            assert(entry_le(t[0], t[m + 1]));
        }
        assert(below_all(t[0], r2));
        assert(r.drop_first() =~= r2);
        assert(t =~= seq![t[0]] + tail);
        assert(t.drop_first() =~= tail);
        assert forall|i: int, j: int| 0 <= i < j < r.len() implies entry_le(
            #[trigger] r[i],
            #[trigger] r[j],
        ) by {
            if i == 0 {
                assert(entry_le(t[0], r2[j - 1]));
            } else {
                assert(entry_le(r2[i - 1], r2[j - 1]));
            }
        }
        assert forall|y: Seq<u8>| entry_le(y, x) && below_all(y, t) implies #[trigger] below_all(
            y,
            r,
        ) by {
            assert(entry_le(y, t[0]));
            assert forall|m: int| 0 <= m < tail.len() implies entry_le(y, #[trigger] tail[m]) by {
                assert(entry_le(y, t[m + 1]));
            }
            assert(below_all(y, tail));
            assert(below_all(y, r2));
            assert forall|m: int| 0 <= m < r.len() implies entry_le(y, #[trigger] r[m]) by {
                if m > 0 {
                    assert(entry_le(y, r2[m - 1]));
                }
            }
        }
    }
}

/// Inserting an entry adds exactly that entry.
proof fn lemma_insert_entry_multiset(x: Seq<u8>, t: Seq<Seq<u8>>)
    ensures
        insert_entry(x, t).to_multiset() =~= t.to_multiset().insert(x),
{
    let r = insert_entry(x, t);
    lemma_insert_pos(x, t, 0);
    let p = insert_pos(x, t, 0);
    assert(t.subrange(0, 0) =~= Seq::<Seq<u8>>::empty());
    assert(t.subrange(0, t.len() as int) =~= t);
    assert(r =~= t.subrange(0, p) + seq![x] + t.subrange(p, t.len() as int));
    assert(r.remove(p) =~= t);
    assert(r[p] == x);
    r.to_multiset_ensures();
    assert(r.contains(x));
}

/// Sorting the entries of an `ns` clause orders them from fewer characters
/// to more, ties byte-wise, and keeps every entry, as many times as it
/// occurs.
pub proof fn lemma_sort_entries(s: Seq<Seq<u8>>)
    ensures
        entries_sorted(sort_entries(s)),
        sort_entries(s).to_multiset() =~= s.to_multiset(),
    decreases s.len(),
{
    if s.len() > 0 {
        let init = s.drop_last();
        lemma_sort_entries(init);
        lemma_insert_entry(s.last(), sort_entries(init));
        lemma_insert_entry_multiset(s.last(), sort_entries(init));
        assert(s =~= init.push(s.last()));
        init.to_multiset_ensures();
        assert(init.push(s.last()).to_multiset() =~= init.to_multiset().insert(s.last()));
    } else {
        assert(sort_entries(s) =~= s);
    }
}

/// Index of the first entry of `t[from..]` that `x` goes before or with.
pub open spec fn insert_pos(x: Seq<u8>, t: Seq<Seq<u8>>, from: int) -> int
    decreases t.len() - from,
{
    if from < 0 || from >= t.len() {
        t.len() as int
    } else if entry_le(x, t[from]) {
        from
    } else {
        insert_pos(x, t, from + 1)
    }
}

/// Inserting at `insert_pos` is `insert_entry`.
proof fn lemma_insert_pos(x: Seq<u8>, t: Seq<Seq<u8>>, from: int)
    requires
        0 <= from <= t.len(),
    ensures
        from <= insert_pos(x, t, from) <= t.len(),
        t.subrange(0, insert_pos(x, t, from)) + seq![x] + t.subrange(
            insert_pos(x, t, from),
            t.len() as int,
        ) == t.subrange(0, from) + insert_entry(x, t.subrange(from, t.len() as int)),
    decreases t.len() - from,
{
    let rest = t.subrange(from, t.len() as int);
    if from == t.len() {
        assert(rest =~= seq![]);
        assert(t.subrange(0, from) + seq![x] + t.subrange(from, t.len() as int) =~= t.subrange(
            0,
            from,
        ) + insert_entry(x, rest));
    } else {
        assert(rest[0] == t[from]);
        if entry_le(x, t[from]) {
            assert(t.subrange(0, from) + seq![x] + t.subrange(from, t.len() as int) =~= t.subrange(
                0,
                from,
            ) + insert_entry(x, rest));
        } else {
            lemma_insert_pos(x, t, from + 1);
            assert(rest.drop_first() =~= t.subrange(from + 1, t.len() as int));
            assert(t.subrange(0, from + 1) =~= t.subrange(0, from) + seq![t[from]]);
            assert(t.subrange(0, from) + insert_entry(x, rest) =~= t.subrange(0, from + 1)
                + insert_entry(x, t.subrange(from + 1, t.len() as int)));
        }
    }
}

/// Whether entry `a` goes before or with entry `b`.
fn entry_le_exec(a: &[u8], b: &[u8]) -> (r: bool)
    ensures
        r == entry_le(a@, b@),
{
    let ca = count_chars(a);
    let cb = count_chars(b);
    ca < cb || (ca == cb && lex_le_exec(a, b))
}

/// Orders the entries from fewer characters to more, ties byte-wise.
pub fn sort_ns_entries(items: Vec<Vec<u8>>) -> (r: Vec<Vec<u8>>)
    ensures
        vviews(r@) == sort_entries(vviews(items@)),
{
    let mut sorted: Vec<Vec<u8>> = Vec::new();
    let mut i: usize = 0;
    let ghost all = vviews(items@);
    while i < items.len()
        invariant
            0 <= i <= items@.len(),
            all == vviews(items@),
            vviews(sorted@) == sort_entries(all.subrange(0, i as int)),
        decreases items@.len() - i,
    {
        let x = &items[i];
        let ghost t = vviews(sorted@);
        let mut j: usize = 0;
        proof {
            lemma_insert_pos(x@, t, 0);
        }
        while j < sorted.len() && !entry_le_exec(x.as_slice(), sorted[j].as_slice())
            invariant
                0 <= j <= sorted@.len(),
                t == vviews(sorted@),
                insert_pos(x@, t, 0) == insert_pos(x@, t, j as int),
            decreases sorted@.len() - j,
        {
            j += 1;
        }
        proof {
            assert(all.subrange(0, i + 1).drop_last() =~= all.subrange(0, i as int));
            assert(all.subrange(0, i + 1).last() == x@);
            assert(t.subrange(0, 0) =~= seq![]);
            assert(t.subrange(0, t.len() as int) =~= t);
        }
        sorted.insert(j, copy_vec(x));
        proof {
            assert(vviews(sorted@) =~= t.subrange(0, j as int) + seq![x@] + t.subrange(
                j as int,
                t.len() as int,
            ));
        }
        i += 1;
    }
    assert(all.subrange(0, items@.len() as int) =~= all);
    sorted
}

/// A copy of `v`.
fn copy_vec(v: &Vec<u8>) -> (r: Vec<u8>)
    ensures
        r@ == v@,
{
    copy_range(v.as_slice(), 0, v.len())
}

// ---------------------------------------------------------------------------
// Clauses
// ---------------------------------------------------------------------------

/// The entries of a clause after its head, each put on one line.
pub open spec fn ns_entries(clause: SyntaxNode, src: Seq<u8>) -> Seq<Seq<u8>> {
    let kids = code_kids(clause);
    Seq::new((kids.len() - 1) as nat, |k: int| compact_entry(text_of(kids[k + 1], src)))
}

/// Every item on a line of its own, one column in.
pub open spec fn items_block(items: Seq<Seq<u8>>) -> Seq<u8>
    decreases items.len(),
{
    if items.len() == 0 {
        seq![]
    } else {
        items_block(items.drop_last()) + seq![NEWLINE, SPACE] + items.last()
    }
}

/// A clause rebuilt with its entries ordered: `(head`, then every entry on a
/// line of its own one column in, then `)`.
pub open spec fn rebuilt_clause(clause: SyntaxNode, src: Seq<u8>) -> Seq<u8> {
    let kids = code_kids(clause);
    if kids.len() == 0 {
        text_of(clause, src)
    } else if kids.len() == 1 {
        seq![OPEN_PAREN] + text_of(kids[0], src) + seq![CLOSE_PAREN]
    } else {
        seq![OPEN_PAREN] + text_of(kids[0], src) + items_block(
            sort_entries(ns_entries(clause, src)),
        ) + seq![CLOSE_PAREN]
    }
}

/// Heads of the clauses whose entries are ordered.
pub open spec fn is_ordered_clause_head(t: Seq<u8>) -> bool {
    ||| t == ":require".spec_bytes()
    ||| t == ":import".spec_bytes()
    ||| t == ":use".spec_bytes()
}

/// The text of a clause of an `ns` form: `:require`, `:import` and `:use`
/// lists are rebuilt with ordered entries, anything else is kept as it is.
pub open spec fn normalized_clause(clause: SyntaxNode, src: Seq<u8>) -> Seq<u8> {
    let kids = code_kids(clause);
    if clause.kind@ != "list_lit".spec_bytes() || kids.len() == 0 {
        text_of(clause, src)
    } else if is_ordered_clause_head(text_of(kids[0], src)) {
        rebuilt_clause(clause, src)
    } else {
        text_of(clause, src)
    }
}

/// Only `:require`, `:import` and `:use` clauses are rebuilt; every other
/// clause of an `ns` form (`:refer-clojure`, `:gen-class`, a docstring, ...)
/// keeps its source text exactly.
pub proof fn lemma_only_require_import_use_rebuilt(clause: SyntaxNode, src: Seq<u8>)
    ensures
        ({
            let kids = code_kids(clause);
            &&& clause.kind@ == "list_lit".spec_bytes()
            &&& kids.len() > 0
            &&& {
                let h = text_of(kids[0], src);
                h == ":require".spec_bytes() || h == ":import".spec_bytes() || h
                    == ":use".spec_bytes()
            }
        }) ==> normalized_clause(clause, src) == rebuilt_clause(clause, src),
        !({
            let kids = code_kids(clause);
            &&& clause.kind@ == "list_lit".spec_bytes()
            &&& kids.len() > 0
            &&& {
                let h = text_of(kids[0], src);
                h == ":require".spec_bytes() || h == ":import".spec_bytes() || h
                    == ":use".spec_bytes()
            }
        }) ==> normalized_clause(clause, src) == text_of(clause, src),
{
}

/// Whether a clause head is `:require`, `:import` or `:use`.
fn is_ordered_clause_head_exec(t: &[u8]) -> (r: bool)
    ensures
        r == is_ordered_clause_head(t@),
{
    bytes_equal(t, ":require".as_bytes()) || bytes_equal(t, ":import".as_bytes()) || bytes_equal(
        t,
        ":use".as_bytes(),
    )
}

/// Rebuilds a clause with its entries ordered from fewer characters to more
/// (ties byte-wise), each on a line of its own one column in.
pub fn rebuild_sorted_ns_clause(clause: &SyntaxNode, src: &[u8]) -> (r: Vec<u8>)
    requires
        span_ok(*clause, src@.len()),
        kids_spans_ok(*clause, src@.len()),
    ensures
        r@ == rebuilt_clause(*clause, src@),
{
    let children = non_comment_children(clause);
    let ghost kids = code_kids(*clause);
    if children.len() == 0 {
        return copy_range(src, clause.start_byte, clause.end_byte);
    }
    assert(*children@[0] == kids[0]);
    assert(span_ok(kids[0], src@.len()));
    let head = node_text(children[0], src);
    let mut out: Vec<u8> = Vec::new();
    out.push(OPEN_PAREN);
    push_all(&mut out, head);
    if children.len() == 1 {
        out.push(CLOSE_PAREN);
        assert(out@ =~= rebuilt_clause(*clause, src@));
        return out;
    }
    let mut items: Vec<Vec<u8>> = Vec::new();
    let mut k: usize = 1;
    while k < children.len()
        invariant
            derefs(children@) == kids,
            kids == code_kids(*clause),
            kids_spans_ok(*clause, src@.len()),
            1 <= k <= children@.len(),
            items@.len() == k - 1,
            forall|j: int|
                0 <= j < items@.len() ==> (#[trigger] items@[j])@ == compact_entry(
                    text_of(kids[j + 1], src@),
                ),
        decreases children@.len() - k,
    {
        assert(*children@[k as int] == kids[k as int]);
        assert(span_ok(kids[k as int], src@.len()));
        let t = node_text(children[k], src);
        items.push(compact_ns_entry_text(t));
        k += 1;
    }
    assert(vviews(items@) =~= ns_entries(*clause, src@));
    let sorted = sort_ns_entries(items);
    let ghost block = sort_entries(ns_entries(*clause, src@));
    let ghost start = out@;
    let mut i: usize = 0;
    while i < sorted.len()
        invariant
            0 <= i <= sorted@.len(),
            vviews(sorted@) == block,
            out@ == start + items_block(block.subrange(0, i as int)),
        decreases sorted@.len() - i,
    {
        out.push(NEWLINE);
        out.push(SPACE);
        push_all(&mut out, sorted[i].as_slice());
        proof {
            assert(block.subrange(0, i + 1).drop_last() =~= block.subrange(0, i as int));
            assert(block.subrange(0, i + 1).last() == sorted@[i as int]@);
        }
        i += 1;
    }
    out.push(CLOSE_PAREN);
    assert(block.subrange(0, block.len() as int) =~= block);
    assert(out@ =~= rebuilt_clause(*clause, src@));
    out
}

/// The text of a clause of an `ns` form: `:require`, `:import` and `:use`
/// lists come back rebuilt with ordered entries, anything else as it is.
pub fn normalized_ns_clause_text(clause: &SyntaxNode, src: &[u8]) -> (r: Vec<u8>)
    requires
        span_ok(*clause, src@.len()),
        kids_spans_ok(*clause, src@.len()),
    ensures
        r@ == normalized_clause(*clause, src@),
{
    if !kind_is(clause, "list_lit") {
        return copy_range(src, clause.start_byte, clause.end_byte);
    }
    let children = non_comment_children(clause);
    let ghost kids = code_kids(*clause);
    if children.len() == 0 {
        return copy_range(src, clause.start_byte, clause.end_byte);
    }
    assert(*children@[0] == kids[0]);
    assert(span_ok(kids[0], src@.len()));
    let head = node_text(children[0], src);
    if is_ordered_clause_head_exec(head) {
        rebuild_sorted_ns_clause(clause, src)
    } else {
        copy_range(src, clause.start_byte, clause.end_byte)
    }
}

// ---------------------------------------------------------------------------
// The form
// ---------------------------------------------------------------------------

/// Whether the children of `nd` and their own children span text within
/// `len` bytes.
pub open spec fn ns_spans_ok(nd: SyntaxNode, len: nat) -> bool {
    &&& kids_spans_ok(nd, len)
    &&& forall|i: int| 0 <= i < code_kids(nd).len() ==> kids_spans_ok(#[trigger] code_kids(nd)[i], len)
}

/// Whether the node is a multi-line `ns` form with at least one clause.
pub open spec fn ns_extract_ok(nd: SyntaxNode, src: Seq<u8>) -> bool {
    let kids = code_kids(nd);
    &&& nd.kind@ == "list_lit".spec_bytes()
    &&& kids.len() > 0
    &&& text_of(kids[0], src) == "ns".spec_bytes()
    &&& nd.start_row != nd.end_row
    &&& kids.len() >= 3
}

/// Whether the node's first element reads `head`.
pub open spec fn list_head_is(nd: SyntaxNode, src: Seq<u8>, head: Seq<u8>) -> bool {
    let kids = code_kids(nd);
    &&& nd.kind@ == "list_lit".spec_bytes()
    &&& kids.len() > 0
    &&& text_of(kids[0], src) == head
}

/// The rows of an `ns` form: every clause after the namespace name, with the
/// text `normalized_clause` gives it.
pub open spec fn ns_rows(kids: Seq<SyntaxNode>, src: Seq<u8>) -> Seq<RowView> {
    Seq::new(
        (kids.len() - 2) as nat,
        |k: int|
            RowView {
                text: normalized_clause(kids[k + 2], src),
                start: kids[k + 2].start_byte as int,
                end: kids[k + 2].end_byte as int,
            },
    )
}

/// Reads the clauses of an `ns` form.
///
/// Returns `None` unless `nd` is a multi-line list whose first element reads
/// `ns` and that has a clause after the namespace name. The anchor is the
/// start of the first clause; each row holds a clause, `:require`, `:import`
/// and `:use` lists rebuilt with ordered entries.
pub fn extract_ns_layout(nd: &SyntaxNode, src: &[u8]) -> (r: Option<(usize, Vec<Row>)>)
    requires
        ns_spans_ok(*nd, src@.len()),
    ensures
        r is Some <==> ns_extract_ok(*nd, src@),
        r matches Some((anchor, rows)) ==> {
            &&& anchor == code_kids(*nd)[2].start_byte
            &&& row_views(rows@) == ns_rows(code_kids(*nd), src@)
        },
{
    if !kind_is(nd, "list_lit") {
        return None;
    }
    let children = non_comment_children(nd);
    let ghost kids = code_kids(*nd);
    if children.len() == 0 {
        return None;
    }
    assert(*children@[0] == kids[0]);
    assert(span_ok(kids[0], src@.len()));
    let head = node_text(children[0], src);
    if !bytes_equal(head, "ns".as_bytes()) {
        return None;
    }
    if nd.start_row == nd.end_row {
        return None;
    }
    if children.len() < 3 {
        return None;
    }
    assert(*children@[2] == kids[2]);
    let anchor = children[2].start_byte;
    let mut rows: Vec<Row> = Vec::new();
    let mut k: usize = 2;
    while k < children.len()
        invariant
            derefs(children@) == kids,
            kids == code_kids(*nd),
            ns_spans_ok(*nd, src@.len()),
            2 <= k <= children@.len(),
            row_views(rows@) == ns_rows(kids, src@).subrange(0, k - 2),
        decreases children@.len() - k,
    {
        let clause = children[k];
        assert(*children@[k as int] == kids[k as int]);
        assert(span_ok(kids[k as int], src@.len()));
        assert(kids_spans_ok(kids[k as int], src@.len()));
        let text = normalized_ns_clause_text(clause, src);
        let row = Row { text, start_byte: clause.start_byte, end_byte: clause.end_byte };
        proof {
            lemma_row_views_push(rows@, row);
        }
        rows.push(row);
        assert(row_views(rows@) =~= ns_rows(kids, src@).subrange(0, k + 1 - 2));
        k += 1;
    }
    assert(ns_rows(kids, src@).subrange(0, kids.len() - 2) =~= ns_rows(kids, src@));
    Some((anchor, rows))
}

/// The text written for one clause: the text before its line, `base + 2`
/// spaces, and the clause with its later lines moved `base + 2` columns in.
pub open spec fn ns_piece(src: Seq<u8>, r: RowView, last: int, base: int) -> Seq<u8> {
    let ls = line_start(src, r.start);
    src.subrange(last, ls) + spaces((base + 2) as nat) + shift_multiline(r.text, base + 2)
}

/// The text from clause `i` on; `None` when the form is left as it is.
pub open spec fn ns_rest(
    src: Seq<u8>,
    rows: Seq<RowView>,
    base: int,
    i: int,
    last: int,
    prev: int,
) -> Option<Seq<u8>>
    decreases rows.len() - i,
{
    if i < 0 || i >= rows.len() {
        Some(src.subrange(last, src.len() as int))
    } else if rows_bail(src, rows[i], last, prev) {
        None
    } else {
        prepend(
            ns_piece(src, rows[i], last, base),
            ns_rest(
                src,
                rows,
                base,
                i + 1,
                rows[i].end,
                line_start(src, rows[i].start),
            ),
        )
    }
}

/// Every position read from clause `i` on lies within the text.
pub open spec fn ns_safe(src: Seq<u8>, rows: Seq<RowView>, i: int, last: int, prev: int) -> bool
    decreases rows.len() - i,
{
    if i < 0 || i >= rows.len() {
        0 <= last <= src.len()
    } else {
        &&& rows[i].start <= src.len()
        &&& !rows_bail(src, rows[i], last, prev) ==> {
            &&& rows[i].text.len() <= isize::MAX
            &&& ns_safe(
                src,
                rows,
                i + 1,
                rows[i].end,
                line_start(src, rows[i].start),
            )
        }
    }
}

/// Rows whose positions lie within `src` and whose texts fit `isize` are safe
/// to lay out.
pub proof fn lemma_ns_safe(src: Seq<u8>, rows: Seq<RowView>, i: int, last: int, prev: int)
    requires
        0 <= i <= rows.len(),
        0 <= last <= src.len(),
        forall|k: int|
            0 <= k < rows.len() ==> {
                &&& 0 <= (#[trigger] rows[k]).start <= src.len()
                &&& 0 <= rows[k].end <= src.len()
                &&& rows[k].text.len() <= isize::MAX
            },
    ensures
        ns_safe(src, rows, i, last, prev),
    decreases rows.len() - i,
{
    if i < rows.len() {
        lemma_ns_safe(src, rows, i + 1, rows[i].end, line_start(src, rows[i].start));
    }
}

/// The `ns` form `src` with its clauses one per line at column `base + 2`.
/// The text comes back as it is when there are no clauses, when a clause does
/// not lie after the previous one, or when two clauses share a line.
pub open spec fn build_ns(src: Seq<u8>, rows: Seq<RowView>, base: int) -> Seq<u8> {
    if rows.len() == 0 {
        src
    } else {
        match ns_rest(src, rows, base, 0, 0, -1) {
            Some(o) => o,
            None => src,
        }
    }
}

/// Lays out the clauses of the `ns` form `src` one per line at column
/// `base_col + 2`.
///
/// The text before each clause's line is kept; the clause text (as read by
/// `extract_ns_layout`) has its later lines moved `base_col + 2` columns in.
/// The text comes back unchanged when there are no clauses, when a clause
/// does not lie after the previous one, or when two clauses share a line. The
/// anchor is not used.
pub fn build_aligned_ns_string(
    src: &[u8],
    _anchor_byte: usize,
    rows: &[Row],
    base_col: usize,
) -> (r: Vec<u8>)
    requires
        rows@.len() > 0 ==> base_col + 2 <= isize::MAX && ns_safe(src@, row_views(rows@), 0, 0, -1),
    ensures
        r@ == build_ns(src@, row_views(rows@), base_col as int),
{
    assert(src@.subrange(0, src@.len() as int) =~= src@);
    if rows.len() == 0 {
        return copy_range(src, 0, src.len());
    }
    let ghost base = base_col as int;
    let target = base_col + 2;
    let mut out: Vec<u8> = Vec::new();
    let mut last: usize = 0;
    let mut prev: Option<usize> = None;
    let mut i: usize = 0;
    assert(out@ + seq![] =~= out@);
    while i < rows.len()
        invariant
            0 <= i <= rows@.len(),
            rows@.len() > 0,
            base == base_col as int,
            target == base_col + 2,
            target <= isize::MAX,
            ns_safe(src@, row_views(rows@), i as int, last as int, prev_int(prev)),
            ns_rest(src@, row_views(rows@), base, 0, 0, -1) == prepend(
                out@,
                ns_rest(src@, row_views(rows@), base, i as int, last as int, prev_int(prev)),
            ),
        decreases rows@.len() - i,
    {
        let row = &rows[i];
        let ls = line_start_byte(src, row.start_byte);
        if row.start_byte < last || ls < last {
            return copy_range(src, 0, src.len());
        }
        match prev {
            Some(p) => {
                if p == ls {
                    return copy_range(src, 0, src.len());
                }
            },
            None => {},
        }
        assert(!rows_bail(src@, row_views(rows@)[i as int], last as int, prev_int(prev)));
        let ghost before = out@;
        push_range(&mut out, src, last, ls);
        push_spaces(&mut out, target);
        let adjusted = shift_multiline_block(row.text.as_slice(), target as isize);
        push_all(&mut out, adjusted.as_slice());
        proof {
            assert(out@ =~= before + ns_piece(src@, row@, last as int, base));
            let rest = ns_rest(src@, row_views(rows@), base, i + 1, row.end_byte as int, ls as int);
            match rest {
                Some(x) => {
                    assert(before + (ns_piece(src@, row@, last as int, base) + x) =~= out@ + x);
                },
                None => {},
            }
        }
        last = row.end_byte;
        prev = Some(ls);
        i += 1;
    }
    push_range(&mut out, src, last, src.len());
    out
}

impl Alignable for NsLikeAligner {
    open spec fn kind_spec(&self) -> AlignKind {
        AlignKind::NsLike
    }

    open spec fn matches_spec(&self, node: SyntaxNode, src: Seq<u8>) -> bool {
        list_head_is(node, src, "ns".spec_bytes())
    }

    open spec fn extract_ok(&self, node: SyntaxNode, src: Seq<u8>) -> bool {
        ns_spans_ok(node, src.len())
    }

    open spec fn extract_spec(&self, node: SyntaxNode, src: Seq<u8>) -> Option<ExtractedView> {
        if ns_extract_ok(node, src) {
            Some(ExtractedView::Rows {
                anchor: code_kids(node)[2].start_byte as int,
                rows: ns_rows(code_kids(node), src),
            })
        } else {
            None
        }
    }

    open spec fn build_ok(&self, src: Seq<u8>, e: ExtractedView, base: int) -> bool {
        match e {
            ExtractedView::Rows { anchor, rows } => rows.len() > 0 ==> base + 2 <= isize::MAX
                && ns_safe(src, rows, 0, 0, -1),
            _ => true,
        }
    }

    open spec fn build_spec(&self, src: Seq<u8>, e: ExtractedView, base: int) -> Seq<u8> {
        match e {
            ExtractedView::Rows { anchor, rows } => build_ns(src, rows, base),
            _ => src,
        }
    }

    fn kind(&self) -> (r: AlignKind) {
        AlignKind::NsLike
    }

    /// Whether the node is a list whose first element reads `ns`.
    fn matches(&self, node: &SyntaxNode, src: &[u8]) -> (r: bool) {
        list_head_equals(node, src, "ns")
    }

    fn extract(&self, node: &SyntaxNode, src: &[u8]) -> (r: Option<Extracted>) {
        match extract_ns_layout(node, src) {
            Some((anchor_byte, rows)) => Some(Extracted::Rows { anchor_byte, rows }),
            None => None,
        }
    }

    fn build(&self, src: &[u8], extracted: Extracted, base_col: usize) -> (r: Vec<u8>) {
        match extracted {
            Extracted::Rows { anchor_byte, rows } => build_aligned_ns_string(
                src,
                anchor_byte,
                rows.as_slice(),
                base_col,
            ),
            _ => {
                let r = copy_range(src, 0, src.len());
                assert(src@.subrange(0, src@.len() as int) =~= src@);
                r
            },
        }
    }
}


/// Whether `node` is a list whose first element reads `head`.
pub fn list_head_equals(node: &SyntaxNode, src: &[u8], head: &str) -> (r: bool)
    requires
        kids_spans_ok(*node, src@.len()),
    ensures
        r == list_head_is(*node, src@, head.spec_bytes()),
{
    if !kind_is(node, "list_lit") {
        return false;
    }
    let children = non_comment_children(node);
    if children.len() == 0 {
        return false;
    }
    assert(*children@[0] == code_kids(*node)[0]);
    assert(span_ok(code_kids(*node)[0], src@.len()));
    bytes_equal(node_text(children[0], src), head.as_bytes())
}

} // verus!
