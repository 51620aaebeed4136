use cljvindent::engine::{find_aligner, indent_bottom_up};
use cljvindent::helpers::{first_named_child, get_root_node, get_tree};
use cljvindent::model::AlignKind;

fn formatted(input: &str) -> String {
    String::from_utf8(indent_bottom_up(input.as_bytes(), 0).unwrap()).unwrap()
}

fn aligner_of(input: &str) -> Option<AlignKind> {
    let tree = get_tree(input.as_bytes()).unwrap();
    let root = get_root_node(&tree).unwrap();
    let form = first_named_child(root).unwrap();
    find_aligner(form, input.as_bytes())
}

#[test]
fn thread_like_alignment_simple_thread_first() {
    let input = r#"
(->> [1 2 3 4 5] (filter odd?)
     (map inc)
     (reduce +))
"#;
    let expected = r#"
(->> [1 2 3 4 5]
     (filter odd?)
     (map inc)
     (reduce +))
"#;
    assert_eq!(formatted(input).trim(), expected.trim());
}

#[test]
fn thread_like_alignment_simple_thread_last() {
    let input = r#"
(->> [1 2 3 4 5] (filter odd?)
            (map inc)
     (reduce +))
"#;
    let expected = r#"
(->> [1 2 3 4 5]
     (filter odd?)
     (map inc)
     (reduce +))
"#;
    assert_eq!(formatted(input).trim(), expected.trim());
}

#[test]
fn thread_like_alignment_simple_thread_as() {
    let input = r#"
(as-> {:a 1 :b 2}           $
                    (assoc $ :c 3)
(update $ :a inc)
  (select-keys $   [:a :c]))
"#;
    let expected = r#"
(as-> {:a 1 :b 2} $
  (assoc $ :c 3)
  (update $ :a inc)
  (select-keys $   [:a :c]))
"#;
    assert_eq!(formatted(input).trim(), expected.trim());
}

#[test]
fn thread_like_alignment_simple_thread_some() {
    let input = r#"
(some-> {:user {:name "  Alice "
                    :foo [1 2 3 4]}}
        :user
                    :name
                    clojure.string/trim
        clojure.string/lower-case
        (foo))
"#;
    let expected = r#"
(some-> {:user {:name "  Alice "
                :foo  [1 2 3 4]}}
        :user
        :name
        clojure.string/trim
        clojure.string/lower-case
        (foo))
"#;
    assert_eq!(formatted(input).trim(), expected.trim());
}

#[test]
fn thread_like_alignment_simple_thread_with_rest() {
    let input = r#"
(as-> {:count 0
       :enabled? true
                        :blocked? false
       :done?                           false
       :items [1 2 3]}
$
  (when (:enabled? $)
    (assoc $ :seen true))

  (if (:seen $)
                            (update $ :count inc)
    $)

  (if-not (:blocked? $)
                (assoc $ :status :allowed)
    (assoc $ :status :blocked))

  (when-not (:done? $)
    (assoc $ :pending true))

  (let [state (atom $)]
    (while (< (:count @state) 3)
        (swap! state update :count inc))
    @state))
"#;
    let expected = r#"
(as-> {:count    0
       :enabled? true
       :blocked? false
       :done?    false
       :items    [1 2 3]} $
  $
  (when (:enabled? $)
    (assoc $ :seen true))

  (if (:seen $)
    (update $ :count inc)
    $)

  (if-not (:blocked? $)
    (assoc $ :status :allowed)
    (assoc $ :status :blocked))

  (when-not (:done? $)
    (assoc $ :pending true))

  (let [state (atom $)]
    (while (< (:count @state) 3)
      (swap! state update :count inc))
    @state))
"#;
    assert_eq!(formatted(input).trim(), expected.trim());
}

#[test]
fn thread_like_matches_correctly() {
    let inp_thread_fist = r#"
(-> [1 2 3 4 5] (filter odd?)
     (map inc)
     (reduce +))
"#;
    assert_eq!(aligner_of(inp_thread_fist), Some(AlignKind::ThreadLike));
    let inp_thread_last = r#"
(->> [1 2 3 4 5] (filter odd?)
     (map inc)
     (reduce +))
"#;
    assert_eq!(aligner_of(inp_thread_last), Some(AlignKind::ThreadLike));
    let inp_thread_as = r#"
(as-> {:a 1 :b 2}           $
                    (assoc $ :c 3)
(update $ :a inc)
  (select-keys $   [:a :c]))
"#;
    assert_eq!(aligner_of(inp_thread_as), Some(AlignKind::ThreadLike));
    let inp_thread_some_first = r#"
(some-> {:a 1 :b 2}        
                    (assoc :c 3)
(update  :a inc)
  (select-keys   [:a :c]))
"#;
    assert_eq!(aligner_of(inp_thread_some_first), Some(AlignKind::ThreadLike));
    let inp_thread_some_last = r#"
(some->> {:a 1 :b 2}        
                    (map :c 3)
(reduce  :a inc)
  :b)
"#;
    assert_eq!(aligner_of(inp_thread_some_last), Some(AlignKind::ThreadLike));
    let inp_when = r#"
(when (:foo something)
(println "something"))
"#;
    assert_eq!(aligner_of(inp_when), Some(AlignKind::ThreadLike));
    let inp_when_not = r#"
(when-not (:foo something)
(println "something"))
"#;
    assert_eq!(aligner_of(inp_when_not), Some(AlignKind::ThreadLike));
    let inp_if = r#"
(if (:foo something)
(println "something")
    (println "none"))
"#;
    assert_eq!(aligner_of(inp_if), Some(AlignKind::ThreadLike));
    let inp_if_not = r#"
(if-not (:foo something)
(println "something")
    (println "none"))
"#;
    assert_eq!(aligner_of(inp_if_not), Some(AlignKind::ThreadLike));
    let inp_while = r#"
(while (:foo something)
(println "something"))
"#;
    assert_eq!(aligner_of(inp_while), Some(AlignKind::ThreadLike));
}

#[test]
fn thread_like_alignment_nested_thread_like_with_almost_everything() {
    let input = r#"
(-> {:user {:profile {:name "  Alice  "
                                    :address {:city "athens"}
    :tier :gold}
             :scores [1 nil 2 3]
                                :active? true
             :country "GR"}}
    :user
    (some-> (assoc :seen true))
    (as-> $
(let [clean-name (some-> $ :profile :name clojure.string/trim clojure.string/lower-case)
            city       (some-> $ :profile :address :city clojure.string/upper-case)
            tier-label (condp = (get-in $ [:profile :tier])
                         :gold :vip
                         :silver :preferred
                         :bronze :standard
                         :unknown)]
     (-> $
            (assoc-in [:profile :name] clean-name)
            (assoc-in [:profile :city] city)
            (assoc :tier-label tier-label))))
   (as-> 
      (cond-> $
        (:active? $) (assoc :active-label :active)
        (not (:active? $)) (assoc :active-label :inactive)
        true (update :scores
                     (fn [xs]
                       (some->> xs
                                        (filter number?)
            (map inc)
                                vec)))) $
     $)
    ((fn [user]
       (let [total (->> (:scores user)
                                    (map identity)
                        (reduce + 0))
             avg   (if (seq (:scores user))
                     (/ total (count (:scores user)))
                     0)
             bucket (cond
                      (>= avg 4) :high
                      (>= avg 2) :medium
                      :else :low)
             region (condp = (:country user)
                      "GR"              :greece
                                    "DE" :europe
                      "US" :>> (fn [_] :united-states)
                      :other)]
         (assoc user
                :total total
                        :avg avg
                :bucket bucket
                :region region))))
    (as-> $
                (assoc $ :display-name (some-> $ :profile :name))
      (select-keys $ [:profile
                                :scores
                      :total
                      :avg
                        :bucket
                      :region
                      :tier-label
                      :active-label
                      :display-name
                      :seen])))
"#;
    let expected = r#"
(-> {:user {:profile {:name    "  Alice  "
                      :address {:city "athens"}
                      :tier    :gold}
            :scores  [1 nil 2 3]
            :active? true
            :country "GR"}}
    :user
    (some-> (assoc :seen true))
    (as-> $ (let [clean-name (some-> $ :profile :name clojure.string/trim clojure.string/lower-case)
      city       (some-> $ :profile :address :city clojure.string/upper-case)
      tier-label (condp = (get-in $ [:profile :tier])
                   :gold   :vip
                   :silver :preferred
                   :bronze :standard
                   :unknown)]
  (-> $
      (assoc-in [:profile :name] clean-name)
      (assoc-in [:profile :city] city)
      (assoc :tier-label tier-label)))
      (let [clean-name (some-> $ :profile :name clojure.string/trim clojure.string/lower-case)
            city       (some-> $ :profile :address :city clojure.string/upper-case)
            tier-label (condp = (get-in $ [:profile :tier])
                         :gold   :vip
                         :silver :preferred
                         :bronze :standard
                         :unknown)]
        (-> $
            (assoc-in [:profile :name] clean-name)
            (assoc-in [:profile :city] city)
            (assoc :tier-label tier-label))))
    (as-> 
       (cond-> $
         (:active? $)       (assoc :active-label :active)
         (not (:active? $)) (assoc :active-label :inactive)
         true               (update :scores
                                    (fn [xs]
                                      (some->> xs
                                               (filter number?)
                                               (map inc)
                                               vec)))) $
      $)
    ((fn [user]
       (let [total  (->> (:scores user)
                         (map identity)
                         (reduce + 0))
             avg    (if (seq (:scores user))
                      (/ total (count (:scores user)))
                      0)
             bucket (cond
                      (>= avg 4) :high
                      (>= avg 2) :medium
                      :else      :low)
             region (condp = (:country user)
                      "GR" :greece
                      "DE" :europe
                      "US" :>> (fn [_] :united-states)
                      :other)]
         (assoc user
                :total total
                        :avg avg
                :bucket bucket
                :region region))))
    (as-> $ (assoc $ :display-name (some-> $ :profile :name))
      (assoc $ :display-name (some-> $ :profile :name))
      (select-keys $ [:profile
                      :scores
                      :total
                      :avg
                      :bucket
                      :region
                      :tier-label
                      :active-label
                      :display-name
                      :seen])))
"#;
    assert_eq!(formatted(input).trim(), expected.trim());
}
