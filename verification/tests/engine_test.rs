use cljvindent::aligners::map_like::extract_map_pairs;
use cljvindent::helpers::{first_named_child, get_tree};
use cljvindent::engine::{
    format_tree, indent_bottom_up, indent_clojure_string, indent_clojure_string_collection,
    indent_current_form_once, indent_tree_once, indent_whole_file_parallel, indent_whole_tree,
    IndentError,
};

fn text(r: Result<Vec<u8>, IndentError>) -> String {
    String::from_utf8(r.unwrap()).unwrap()
}

#[test]
fn map_keys_and_values_aligned_at_column_zero() {
    let out = text(indent_clojure_string(b"{:a 1\n    :bbb 2}", 0));
    assert_eq!(out, "{:a   1\n :bbb 2}");
}

#[test]
fn map_later_keys_follow_the_base_column() {
    let out = text(indent_clojure_string(b"{:a 1\n:bbb 2}", 4));
    assert_eq!(out, "{:a   1\n     :bbb 2}");
}

#[test]
fn string_and_bottom_up_agree() {
    let src = b"[{:x 1\n:yy 2}\n    {:zzz 3\n :w 4}]";
    assert_eq!(indent_clojure_string(src, 3), indent_bottom_up(src, 3));
    assert_eq!(
        text(indent_bottom_up(src, 0)),
        "[{:x  1\n  :yy 2}\n {:zzz 3\n  :w   4}]"
    );
}

#[test]
fn text_without_a_form_comes_back_as_it_is() {
    assert_eq!(text(indent_clojure_string(b"   ", 3)), "   ");
    assert_eq!(text(indent_clojure_string(b";; only a comment", 0)), ";; only a comment");
    assert_eq!(text(indent_clojure_string(b"", 0)), "");
}

#[test]
fn single_line_forms_are_kept() {
    assert_eq!(text(indent_clojure_string(b"{:a 1 :bbb 2}", 0)), "{:a 1 :bbb 2}");
    assert_eq!(text(indent_clojure_string(b"[1   2 3]", 0)), "[1   2 3]");
}

#[test]
fn malformed_form_is_an_error() {
    assert_eq!(indent_clojure_string(b"(foo [1 2", 0), Err(IndentError::Malformed));
    assert_eq!(indent_bottom_up(b"{:a 1\n :b ]", 0), Err(IndentError::Malformed));
}

#[test]
fn case_without_operand_is_an_error() {
    assert_eq!(indent_clojure_string(b"(case\n)", 0), Err(IndentError::MissingOperand));
    assert_eq!(indent_clojure_string(b"(cond->\n)", 0), Err(IndentError::MissingOperand));
}

#[test]
fn columns_beyond_isize_are_an_error() {
    assert_eq!(indent_clojure_string(b"{:a 1}", usize::MAX), Err(IndentError::TooLarge));
}

#[test]
fn once_lays_out_the_first_form_only() {
    let out = text(indent_current_form_once(b"{:a 1\n    :bbb 2}\n{:c 1\n  :dd 2}", 0));
    assert_eq!(out, "{:a   1\n :bbb 2}\n{:c 1\n  :dd 2}");
    assert_eq!(text(indent_current_form_once(b"  ", 0)), "  ");
}

#[test]
fn whole_file_formats_each_top_form_and_keeps_the_rest() {
    let src = b"{:a 1\n    :bbb 2}\n;; note\n\n[1\n     2]\n";
    let out = text(indent_whole_file_parallel(src));
    assert_eq!(out, "{:a   1\n :bbb 2}\n;; note\n\n[1\n 2]\n");
}

#[test]
fn whole_file_with_a_malformed_form_is_an_error() {
    assert_eq!(indent_whole_file_parallel(b"(a)\n(b"), Err(IndentError::Malformed));
}

#[test]
fn whole_file_without_forms_is_kept() {
    assert_eq!(text(indent_whole_file_parallel(b"\n;; x\n")), "\n;; x\n");
}

#[test]
fn collection_is_formatted_item_by_item() {
    let cols: Vec<(Vec<u8>, usize)> = vec![
        (b"{:a 1\n:bbb 2}".to_vec(), 0),
        (b"[1\n  2]".to_vec(), 2),
        (b"x".to_vec(), 7),
    ];
    let out = indent_clojure_string_collection(&cols).unwrap();
    assert_eq!(out.len(), 3);
    for (i, (src, col)) in cols.iter().enumerate() {
        assert_eq!(Ok(out[i].clone()), indent_clojure_string(src, *col));
    }
    assert_eq!(String::from_utf8(out[0].clone()).unwrap(), "{:a   1\n :bbb 2}");
    assert_eq!(String::from_utf8(out[1].clone()).unwrap(), "[1\n   2]");
    assert_eq!(String::from_utf8(out[2].clone()).unwrap(), "x");
}

#[test]
fn collection_stops_at_the_first_error() {
    let cols: Vec<(Vec<u8>, usize)> = vec![
        (b"[1\n  2]".to_vec(), 0),
        (b"(case\n)".to_vec(), 0),
        (b"(x".to_vec(), 0),
    ];
    assert_eq!(indent_clojure_string_collection(&cols), Err(IndentError::MissingOperand));
    let empty: Vec<(Vec<u8>, usize)> = Vec::new();
    assert_eq!(indent_clojure_string_collection(&empty), Ok(Vec::new()));
}

#[test]
fn cond_clauses_are_aligned() {
    let src = b"(cond\n  a   1\n      bb 2)";
    assert_eq!(text(indent_clojure_string(src, 0)), "(cond\n  a  1\n  bb 2)");
    let src = b"(case x\n:a 1\n  :bbb\n  2\n  :default)";
    assert_eq!(text(indent_clojure_string(src, 4)), "(case x\n      :a   1\n      :bbb 2\n      :default)");
}

#[test]
fn binding_forms_are_aligned() {
    let src = b"(let [a 1\n  bbb 2]\n      (f a bbb))";
    assert_eq!(text(indent_clojure_string(src, 0)), "(let [a   1\n      bbb 2]\n  (f a bbb))");
}

#[test]
fn comments_are_not_read_as_map_elements() {
    let src: &[u8] = b"{:a 1 ;; note\n :bbb 2}";
    let tree = get_tree(src).unwrap();
    let form = first_named_child(&tree.root).unwrap();
    let pairs = extract_map_pairs(form, src).unwrap();
    assert_eq!(pairs.len(), 2);
    assert_eq!(pairs[0].lh_string, b":a".to_vec());
    assert_eq!(pairs[1].lh_string, b":bbb".to_vec());
    assert_eq!(pairs[1].rh_string, b"2".to_vec());
}

#[test]
fn tree_taking_steps_agree_with_parsing_ones() {
    let src: &[u8] = b"{:a {:x 1\n        :yy 2}\n    :bbb 3}";
    let tree = get_tree(src).unwrap();
    assert_eq!(format_tree(src, 0, &tree), indent_bottom_up(src, 0));
    assert_eq!(
        text(format_tree(src, 0, &tree)),
        "{:a   {:x  1\n       :yy 2}\n :bbb 3}"
    );
    assert_eq!(indent_tree_once(src, 0, &tree), indent_current_form_once(src, 0));
    assert_eq!(indent_whole_tree(src, &tree), indent_whole_file_parallel(src));
}
