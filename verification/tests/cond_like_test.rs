use cljvindent::engine::find_aligner;
use cljvindent::helpers::{first_named_child, get_root_node, get_tree};
use cljvindent::model::AlignKind;

fn aligner_of(input: &str) -> Option<AlignKind> {
    let tree = get_tree(input.as_bytes()).unwrap();
    let root = get_root_node(&tree).unwrap();
    let form = first_named_child(root).unwrap();
    find_aligner(form, input.as_bytes())
}

#[test]
fn cond_like_matches_correctly() {
    let inp_cond = r#"
(cond
  (= status :new)        :fresh
  (= status :processing) {:fooo            "aoeuaoeeuaoeuoeauaoeu"
                          :fii             "foeuoeu"
                          :fooo/faaaaaaaaa 4}
  (= status :failed)     :failed
  :else                  :unknown)
"#;
    assert_eq!(aligner_of(inp_cond), Some(AlignKind::CondLike));
    let inp_cond_thread_first = r#"
(cond->> {:id 42
         :tags [:a :b]
         :active? true
         :premium? true}
  (:active? profile)                          (assoc :status :active)

  (:premium? profile)
  (assoc :tier :gold)

  (seq (:tags profile))
  (update :tags conj :seen))
"#;
    assert_eq!(aligner_of(inp_cond_thread_first), Some(AlignKind::CondLike));
    let inp_cond_thread_last = r#"
(cond->> {:id 42
         :tags [:a :b]
         :active? true
         :premium? true}
  (:active? profile)                          (assoc :status :active)

  (:premium? profile)
  (assoc :tier :gold)

  (seq (:tags profile))
  (update :tags conj :seen))
"#;
    assert_eq!(aligner_of(inp_cond_thread_last), Some(AlignKind::CondLike));
    let inp_case = r#"
(case       foo
:status                 200
:error  400
201)
"#;
    assert_eq!(aligner_of(inp_case), Some(AlignKind::CondLike));
}

#[test]
fn condp_like_matches_correctly() {
    let inp = r#"
(condp = action
  :read             :allowed

  :write
  :>> (fn [_]
        (let [result {:ok true
                      :action :write}]
          (if admin?
            (assoc result :role :admin)
            result)))

  :delete
(let [m {:ok false
           :action :delete}]
    (if-not protected?
            (assoc m :allowed true)
      (assoc m :reason :protected)))

  :unknown)
"#;
    assert_eq!(aligner_of(inp), Some(AlignKind::CondPLike));
}
