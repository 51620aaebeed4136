use cljvindent::alignable::Alignable;
use cljvindent::aligners::cond_like::CondLikeAligner;
use cljvindent::aligners::let_like::LetLikeAligner;
use cljvindent::aligners::condp_like::CondPLikeAligner;
use cljvindent::aligners::map_like::MapLikeAligner;
use cljvindent::aligners::ns_like::NsLikeAligner;
use cljvindent::aligners::thread_like::ThreadLikeAligner;
use cljvindent::aligners::vec_like::VecLikeAligner;
use cljvindent::helpers::{first_named_child, get_tree};
use cljvindent::model::{AlignKind, Extracted};

fn layout<A: Alignable>(aligner: &A, src: &[u8], base_col: usize) -> Option<String> {
    let tree = get_tree(src).unwrap();
    let form = first_named_child(&tree.root).unwrap();
    if !aligner.matches(form, src) {
        return None;
    }
    let extracted = aligner.extract(form, src)?;
    Some(String::from_utf8(aligner.build(src, extracted, base_col)).unwrap())
}

#[test]
fn kinds_and_names() {
    assert_eq!(MapLikeAligner.kind(), AlignKind::MapLike);
    assert_eq!(VecLikeAligner.kind(), AlignKind::VecLike);
    assert_eq!(NsLikeAligner.kind(), AlignKind::NsLike);
    assert_eq!(ThreadLikeAligner.kind(), AlignKind::ThreadLike);
    assert_eq!(CondLikeAligner.kind(), AlignKind::CondLike);
    assert_eq!(CondPLikeAligner.kind(), AlignKind::CondPLike);
    assert_eq!(LetLikeAligner.kind(), AlignKind::LetLike);
    assert_eq!(AlignKind::MapLike.name(), "MapLike");
    assert_eq!(AlignKind::LetLike.name(), "LetLike");
    assert_eq!(AlignKind::ThreadLike.name(), "ThreadLike");
}

#[test]
fn map_aligner_reads_and_rebuilds() {
    let out = layout(&MapLikeAligner, b"{:a 1\n      :bbb 2}", 2).unwrap();
    assert_eq!(out, "{:a   1\n   :bbb 2}");
    assert_eq!(layout(&MapLikeAligner, b"[1\n 2]", 0), None);
}

#[test]
fn vector_aligner_reads_and_rebuilds() {
    let out = layout(&VecLikeAligner, b"[:a\n      :b\n:c]", 0).unwrap();
    assert_eq!(out, "[:a\n :b\n :c]");
}

#[test]
fn thread_aligner_puts_steps_under_the_first_argument() {
    let out = layout(&ThreadLikeAligner, b"(-> x (f 1)\n  (g 2))", 0).unwrap();
    assert_eq!(out, "(-> x\n    (f 1)\n    (g 2))");
}

#[test]
fn ns_aligner_sorts_require_entries() {
    let src = b"(ns a.b\n (:require [ccc.d :as c]\n   [a :as a]))";
    let out = layout(&NsLikeAligner, src, 0).unwrap();
    assert_eq!(out, "(ns a.b\n  (:require\n   [a :as a]\n   [ccc.d :as c]))");
}

#[test]
fn cond_aligners_read_and_lay_out_pairs() {
    let src: &[u8] = b"(cond\n  a   1\n  bb 2)";
    let tree = get_tree(src).unwrap();
    let form = first_named_child(&tree.root).unwrap();
    match CondLikeAligner.extract(form, src) {
        Some(Extracted::Pairs(pairs)) => {
            assert_eq!(pairs.len(), 2);
            assert_eq!(pairs[0].lh_string, b"a".to_vec());
            assert_eq!(pairs[1].rh_string, b"2".to_vec());
        }
        _ => panic!("expected pairs"),
    }
    assert_eq!(layout(&CondLikeAligner, src, 0).unwrap(), "(cond\n  a  1\n  bb 2)");
    let condp: &[u8] = b"(condp = x\n  1 :one\n  2 :two\n  :other)";
    let tree = get_tree(condp).unwrap();
    let form = first_named_child(&tree.root).unwrap();
    assert!(CondPLikeAligner.matches(form, condp));
    match CondPLikeAligner.extract(form, condp) {
        Some(Extracted::Pairs(pairs)) => assert_eq!(pairs.len(), 3),
        _ => panic!("expected pairs"),
    }
}

#[test]
fn let_aligner_aligns_bindings_and_moves_the_body() {
    let out = layout(&LetLikeAligner, b"(loop [i 0\n   acc []]\n (recur (inc i) acc))", 2).unwrap();
    assert_eq!(out, "(loop [i   0\n         acc []]\n    (recur (inc i) acc))");
    assert_eq!(layout(&LetLikeAligner, b"(let [a 1 b]\n a)", 0), None);
}
