use cljvindent::engine::{find_aligner, indent_bottom_up};
use cljvindent::helpers::{first_named_child, get_root_node, get_tree};
use cljvindent::model::AlignKind;

fn formatted(input: &str) -> String {
    String::from_utf8(indent_bottom_up(input.as_bytes(), 0).unwrap()).unwrap()
}

fn aligner_of(input: &str) -> Option<AlignKind> {
    let tree = get_tree(input.as_bytes()).unwrap();
    let root = get_root_node(&tree).unwrap();
    let form = first_named_child(root).unwrap();
    find_aligner(form, input.as_bytes())
}

#[test]
fn ns_like_alignment_simple_ns() {
    let input = r#"
(ns dummy.fooo
(:require [foo1.foo2 :as f]
    [fooooooooo1.fooooo2.fooo3 :as fff]
           [fi.fi :as fi]
        [faaaaaaaa.foooooo.fiiiiiii.dummy :as fid ])
        (:import
         [foo1.foo2 :as f]
    (fooooooooo1.fooooo2.fooo3 :as fff)
           (fi.fi :as fi)
        [faaaaaaaa.foooooo.fiiiiiii.dummy :as fid ])
(:use [clojure.string :only [trim lower-case split]]
                        [clojure.contrib.shell-out]
   [clojure.pprint]
        [clojure.test]))
"#;
    let expected = r#"
(ns dummy.fooo
  (:require
   [fi.fi :as fi]
   [foo1.foo2 :as f]
   [fooooooooo1.fooooo2.fooo3 :as fff]
   [faaaaaaaa.foooooo.fiiiiiii.dummy :as fid ])
  (:import
   (fi.fi :as fi)
   [foo1.foo2 :as f]
   (fooooooooo1.fooooo2.fooo3 :as fff)
   [faaaaaaaa.foooooo.fiiiiiii.dummy :as fid ])
  (:use
   [clojure.test]
   [clojure.pprint]
   [clojure.contrib.shell-out]
   [clojure.string :only [trim lower-case split]]))
"#;
    assert_eq!(formatted(input), expected);
}

#[test]
fn ns_like_alignment_simple_ns_ignore_new_lines() {
    let input = r#"
(ns dummy.fooo
(:require [foo1.foo2 :as f]
    [fooooooooo1.fooooo2.fooo3 :as fff]
           [fi.fi
            :as fi]
        [faaaaaaaa.foooooo.fiiiiiii.dummy :as fid ])
        (:import
         [foo1.foo2 :as f]
    (fooooooooo1.fooooo2.fooo3 :as fff)
           (fi.fi :as fi)
        [faaaaaaaa.foooooo.fiiiiiii.dummy
:as fid
:refer [fooo
        haaa
        hooo]]))
"#;
    let expected = r#"
(ns dummy.fooo
  (:require
   [fi.fi :as fi]
   [foo1.foo2 :as f]
   [fooooooooo1.fooooo2.fooo3 :as fff]
   [faaaaaaaa.foooooo.fiiiiiii.dummy :as fid ])
  (:import
   (fi.fi :as fi)
   [foo1.foo2 :as f]
   (fooooooooo1.fooooo2.fooo3 :as fff)
   [faaaaaaaa.foooooo.fiiiiiii.dummy :as fid :refer [fooo haaa hooo]]))
"#;
    assert_eq!(formatted(input), expected);
}

#[test]
fn ns_like_matches_correctly() {
    let inp = r#"
(ns dummy.fooo
(:require [foo1.foo2 :as f]
    [fooooooooo1.fooooo2.fooo3 :as fff]
           [fi.fi :as fi]
        [faaaaaaaa.foooooo.fiiiiiii.dummy :as fid ])
        (:import
         [foo1.foo2 :as f]
    (fooooooooo1.fooooo2.fooo3 :as fff)
           (fi.fi :as fi)
        [faaaaaaaa.foooooo.fiiiiiii.dummy :as fid ])
(:use [clojure.string :only [trim lower-case split]]
                        [clojure.contrib.shell-out]
   [clojure.pprint]
        [clojure.test]))
"#;
    assert_eq!(aligner_of(inp), Some(AlignKind::NsLike));
}
