use cljvindent::engine::{find_aligner, indent_bottom_up};
use cljvindent::helpers::{first_named_child, get_root_node, get_tree};
use cljvindent::model::AlignKind;

fn formatted(input: &str) -> String {
    String::from_utf8(indent_bottom_up(input.as_bytes(), 0).unwrap()).unwrap()
}

fn aligner_of(input: &str) -> Option<AlignKind> {
    let tree = get_tree(input.as_bytes()).unwrap();
    let root = get_root_node(&tree).unwrap();
    let form = first_named_child(root).unwrap();
    find_aligner(form, input.as_bytes())
}

#[test]
fn vec_like_alignment_simple_vector() {
    let input = r#"
[:fooo
:faaaa
        :fiiii
:fooo
            :fuuuuu]
"#;
    let expected = r#"
[:fooo
 :faaaa
 :fiiii
 :fooo
 :fuuuuu]
"#;
    assert_eq!(formatted(input).trim(), expected.trim());
}

#[test]
fn vec_like_alignment_simple_vector_ignore_same_lines_elements() {
    let input = r#"
[:fooo :faaaa
        :fiiii
:fooo
            :fuuuuu]
"#;
    let expected = r#"
[:fooo :faaaa
 :fiiii
 :fooo
 :fuuuuu]
"#;
    assert_eq!(formatted(input).trim(), expected.trim());
}

#[test]
fn vec_like_alignment_simple_vector_of_maps() {
    let input = r#"
[{:id 1
  :name "Alice"
  :active? true}
 {:id 2
  :name "Bob"
  :active? false}
 {:id 3
  :name "Eve"
  :active? true}]
"#;
    let expected = r#"
[{:id      1
  :name    "Alice"
  :active? true}
 {:id      2
  :name    "Bob"
  :active? false}
 {:id      3
  :name    "Eve"
  :active? true}]
"#;
    assert_eq!(formatted(input).trim(), expected.trim());
}

#[test]
fn vec_like_alignment_simple_vector_ignore_oneliner() {
    let input = r#"
[:fooo :faaaa :fiiii :fooo :fuuuuu]
"#;
    let expected = r#"
[:fooo :faaaa :fiiii :fooo :fuuuuu]
"#;
    assert_eq!(formatted(input).trim(), expected.trim());
}

#[test]
fn vec_like_matches_correctly() {
    let inp = r#"
[:foo :faa :fiii :fhhhhhh]
"#;
    assert_eq!(aligner_of(inp), Some(AlignKind::VecLike));
}
