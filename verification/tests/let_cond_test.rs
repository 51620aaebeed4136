use cljvindent::engine::{find_aligner, indent_bottom_up};
use cljvindent::helpers::{first_named_child, get_root_node, get_tree};
use cljvindent::model::AlignKind;

fn formatted(input: &str) -> String {
    String::from_utf8(indent_bottom_up(input.as_bytes(), 0).unwrap()).unwrap()
}

#[test]
fn cond_like_alignment_simple_cond() {
    let input = r#"
(cond
  (= status :new)  :fresh
  (= status :processing)                {:fooo "aoeuaoeeuaoeuoeauaoeu"
            :fii "foeuoeu"
                          :fooo/faaaaaaaaa 4}
  (= status :failed)                                :failed
  :else                  :unknown)
"#;
    let expected = r#"
(cond
  (= status :new)        :fresh
  (= status :processing) {:fooo            "aoeuaoeeuaoeuoeauaoeu"
                          :fii             "foeuoeu"
                          :fooo/faaaaaaaaa 4}
  (= status :failed)     :failed
  :else                  :unknown)
"#;
    assert_eq!(formatted(input).trim(), expected.trim());
}

#[test]
fn cond_like_alignment_simple_thread_cond() {
    let input = r#"
(cond-> {:id 42
         :tags [:a :b]
         :active? true
         :premium? true}
  (:active? profile)                          (assoc :status :active)

  (:premium? profile)
  (assoc :tier :gold)

  (seq (:tags profile))
  (update :tags conj :seen))
"#;
    let expected = r#"
(cond-> {:id       42
         :tags     [:a :b]
         :active?  true
         :premium? true}
  (:active? profile)    (assoc :status :active)

  (:premium? profile)   (assoc :tier :gold)

  (seq (:tags profile)) (update :tags conj :seen))
"#;
    assert_eq!(formatted(input).trim(), expected.trim());
}

#[test]
fn cond_like_alignment_simple_case() {
    let input = r#"
(case kind
:create {:status :ok
     :route :create-flow}
                (:update foo) {:status :ok
                           :route :update-flow}
                        :delete {:status :ok
           :route :delete-flow}
                                {:status :error
   :route :unknown})
"#;
    let expected = r#"
(case kind
  :create       {:status :ok
                 :route  :create-flow}
  (:update foo) {:status :ok
                 :route  :update-flow}
  :delete       {:status :ok
                 :route  :delete-flow}
  {:status :error
   :route  :unknown})
"#;
    assert_eq!(formatted(input).trim(), expected.trim());
}

#[test]
fn cond_like_alignment_complex_cond() {
    let input = r#"
(cond
  (= mode :user)
  (let [profile (-> data
                    :user
                    (select-keys [:id :name :email :active?]))
        clean   (-> profile
                                    (update :name #(some-> % clojure.string/trim))
                    (assoc :kind :user))]
    (when-not (:active? clean)
      (println "inactive user"))
    (if (:email clean)
      {:ok true
                            :entity clean
       :meta {:source :user-branch}}
      {:ok false
       :entity clean
       :error :missing-email}))

(= mode :orders)
  (let [orders (->> (:orders data)
                    (filter map?)
                    (map #(select-keys % [:id :total :status]))
                    vec)
        paid   (->> orders
                                (filter #(= :paid (:status %)))
                    count)]
    (if-not (empty? orders)
      {:ok true
       :orders orders
       :stats {:paid-count paid
               :total-count (count orders)}}
      {:ok false
       :orders []
       :stats {:paid-count 0
               :total-count 0}}))

  (= mode :summary)
  (let [summary (cond-> {:source :demo
                         :mode mode}
                                (:debug? data) (assoc :debug true)
                  (:trace-id data) (assoc :trace-id (:trace-id data)))]
    (when-not silent?
                        (println "building summary"))
    {:ok true:summary summary})

  :else
  (let [fallback {:ok false
                  :reason :unsupported-mode
                  :meta {:mode mode}}]
    fallback))
"#;
    let expected = r#"
(cond
  (= mode :user)    (let [profile (-> data
                                      :user
                                      (select-keys [:id :name :email :active?]))
                          clean   (-> profile
                                      (update :name #(some-> % clojure.string/trim))
                                      (assoc :kind :user))]
                      (when-not (:active? clean)
                        (println "inactive user"))
                      (if (:email clean)
                        {:ok     true
                         :entity clean
                         :meta   {:source :user-branch}}
                        {:ok     false
                         :entity clean
                         :error  :missing-email}))

  (= mode :orders)  (let [orders (->> (:orders data)
                                      (filter map?)
                                      (map #(select-keys % [:id :total :status]))
                                      vec)
                          paid   (->> orders
                                      (filter #(= :paid (:status %)))
                                      count)]
                      (if-not (empty? orders)
                        {:ok     true
                         :orders orders
                         :stats  {:paid-count  paid
                                  :total-count (count orders)}}
                        {:ok     false
                         :orders []
                         :stats  {:paid-count  0
                                  :total-count 0}}))

  (= mode :summary) (let [summary (cond-> {:source :demo
                                           :mode   mode}
                                    (:debug? data)   (assoc :debug true)
                                    (:trace-id data) (assoc :trace-id (:trace-id data)))]
                      (when-not silent?
                        (println "building summary"))
                      {:ok true:summary summary})

  :else             (let [fallback {:ok     false
                                    :reason :unsupported-mode
                                    :meta   {:mode mode}}]
                      fallback))
"#;
    assert_eq!(formatted(input).trim(), expected.trim());
}

#[test]
fn condp_like_alignment_simple_condp() {
    let input = r#"
(condp = action
  :read             :allowed

  :write
  :>> (fn [_]
        (let [result {:ok true
                      :action :write}]
          (if admin?
            (assoc result :role :admin)
            result)))

  :delete
(let [m {:ok false
           :action :delete}]
    (if-not protected?
            (assoc m :allowed true)
      (assoc m :reason :protected)))

  :unknown)
"#;
    let expected = r#"
(condp = action
  :read   :allowed

  :write  :>> (fn [_]
                (let [result {:ok     true
                              :action :write}]
                  (if admin?
                    (assoc result :role :admin)
                    result)))

  :delete (let [m {:ok     false
                   :action :delete}]
            (if-not protected?
              (assoc m :allowed true)
              (assoc m :reason :protected)))

  :unknown)
"#;
    assert_eq!(formatted(input).trim(), expected.trim());
}

#[test]
fn condp_like_alignment_complex_condp() {
    let input = r#"
(condp = action
  :create
  (let [title (some-> payload
                      :title
                      clojure.string/trim)
        body  (some-> payload
                      :body
                      clojure.string/trim)
        base  {:status :ok
               :action :create
               :payload {:title title
                         :body body}}]
    (if title
      (assoc base :valid true)
      (assoc base :valid false :reason :missing-title)))

  :update
  :>> (fn [_]
        (let [base {:status :ok
                                        :action :update
                    :id id
                    :changes changes}
              normalized (-> base
                             (assoc :seen true)
                             (update :changes #(or % {})))
              enriched   (cond-> normalized
                                            user-id (assoc :user-id user-id)
                           (:admin? opts) (assoc :mode :admin)
                           (not (:admin? opts)) (assoc :mode :user))]
          (when-not (:silent? opts)
            (println "updating record" id))
          enriched))

  :delete
  :>> (fn [_]
        (let [ids (->> items
                       (filter map?)
                                                (map :id)
                       (remove nil?)
                       vec)
              result {:status :ok
                      :action :delete
                      :ids ids}]
          (if-not (empty? ids)
            result
            (assoc result :status :noop :reason :no-ids))))

  :archive
  (let [entry {:status :ok
                                :action :archive
               :meta {:source :dummy
                      :request-id request-id}}]
    (when-not dry-run?
                (println "archiving" request-id))
    (if flagged?
      (assoc entry :flag :manual-review)
      entry))

  :publish
:>> (fn [_]
        (let [doc (-> payload
                      (assoc :published true)
                      (update :tags (fnil vec [])))
              preview (->> (:tags doc)
                           (filter keyword?)
                           (map name)
                           vec)]
          {:status :ok
           :action :publish
           :doc doc
           :preview preview}))

                :sync
  (let [jobs (->> queue
                  (filter map?)
                  (map #(select-keys % [:id :kind :status]))
                  vec)
        summary (cond
                  (empty? jobs) :empty
                  (= 1 (count jobs)) :single
                  :else :many)]
    {:status :ok
     :action :sync
     :jobs jobs
     :summary summary})

            :export
  :>> (fn [_]
        (let [base {:status :ok
                    :action :export
                    :format format}
              export-map (cond-> base
                           (= format :csv) (assoc :content-type "text/csv")
                           (= format :json) (assoc :content-type "application/json")
                           path (assoc :path path))]
          (if (:compressed? opts)
            (assoc export-map :compressed true)
            export-map)))

  {:status :error
   :action :unknown
   :input action})
"#;
    let expected = r#"
(condp = action
  :create  (let [title (some-> payload
                               :title
                               clojure.string/trim)
                 body  (some-> payload
                               :body
                               clojure.string/trim)
                 base  {:status  :ok
                        :action  :create
                        :payload {:title title
                                  :body  body}}]
             (if title
               (assoc base :valid true)
               (assoc base :valid false :reason :missing-title)))

  :update  :>> (fn [_]
                 (let [base       {:status  :ok
                                   :action  :update
                                   :id      id
                                   :changes changes}
                       normalized (-> base
                                      (assoc :seen true)
                                      (update :changes #(or % {})))
                       enriched   (cond-> normalized
                                    user-id              (assoc :user-id user-id)
                                    (:admin? opts)       (assoc :mode :admin)
                                    (not (:admin? opts)) (assoc :mode :user))]
                   (when-not (:silent? opts)
                     (println "updating record" id))
                   enriched))

  :delete  :>> (fn [_]
                 (let [ids    (->> items
                                   (filter map?)
                                   (map :id)
                                   (remove nil?)
                                   vec)
                       result {:status :ok
                               :action :delete
                               :ids    ids}]
                   (if-not (empty? ids)
                     result
                     (assoc result :status :noop :reason :no-ids))))

  :archive (let [entry {:status :ok
                        :action :archive
                        :meta   {:source     :dummy
                                 :request-id request-id}}]
             (when-not dry-run?
               (println "archiving" request-id))
             (if flagged?
               (assoc entry :flag :manual-review)
               entry))

  :publish :>> (fn [_]
                   (let [doc     (-> payload
                                     (assoc :published true)
                                     (update :tags (fnil vec [])))
                         preview (->> (:tags doc)
                                      (filter keyword?)
                                      (map name)
                                      vec)]
                     {:status  :ok
                      :action  :publish
                      :doc     doc
                      :preview preview}))

  :sync    (let [jobs    (->> queue
                              (filter map?)
                              (map #(select-keys % [:id :kind :status]))
                              vec)
                 summary (cond
                           (empty? jobs)      :empty
                           (= 1 (count jobs)) :single
                           :else              :many)]
             {:status  :ok
              :action  :sync
              :jobs    jobs
              :summary summary})

  :export  :>> (fn [_]
                 (let [base       {:status :ok
                                   :action :export
                                   :format format}
                       export-map (cond-> base
                                    (= format :csv)  (assoc :content-type "text/csv")
                                    (= format :json) (assoc :content-type "application/json")
                                    path             (assoc :path path))]
                   (if (:compressed? opts)
                     (assoc export-map :compressed true)
                     export-map)))

  {:status :error
   :action :unknown
   :input  action})
"#;
    assert_eq!(formatted(input).trim(), expected.trim());
}

#[test]
fn let_like_alignment_simple_let() {
    let input = r#"
(let [dummy-1 0
                dummy-really-long-sym-really-long "foooooooo"
a (fooo call foooo)]
  (do
    (foo1 a)
    (foo2 a)))
"#;
    let expected = r#"
(let [dummy-1                           0
      dummy-really-long-sym-really-long "foooooooo"
      a                                 (fooo call foooo)]
  (do
    (foo1 a)
    (foo2 a)))
"#;
    assert_eq!(formatted(input), expected);
}

#[test]
fn let_like_alignment_simple_let_with_destracturing_symbol() {
    let input = r#"
(let [dummy-1 0
      dummy-really-long-sym-really-long "foooooooo"
a                                           (fooo call foooo)
      {:key [fooo faaa] :as res} a]
  (do
    (foo1 a)
    (foo2 a)))
"#;
    let expected = r#"
(let [dummy-1                           0
      dummy-really-long-sym-really-long "foooooooo"
      a                                 (fooo call foooo)
      {:key [fooo faaa] :as res}        a]
  (do
    (foo1 a)
    (foo2 a)))
"#;
    assert_eq!(formatted(input), expected);
}

#[test]
fn let_like_alignment_simple_let_with_multiline_destrucaturing_symbol() {
    let input = r#"
(let [dummy-1            0
dummy-really-long-sym-really-long                                     "foooooooo"
      a               (fooo call foooo)
      {:key [fooo faaa]
       :as res}     a]
  (do
    (foo1 a)
    (foo2 a)))
"#;
    let expected = r#"
(let [dummy-1                           0
      dummy-really-long-sym-really-long "foooooooo"
      a                                 (fooo call foooo)
      {:key [fooo faaa]
       :as res} a]
  (do
    (foo1 a)
    (foo2 a)))
"#;
    assert_eq!(formatted(input), expected);
}

#[test]
fn let_like_alignment_nested_let() {
    let input = r#"
(let [dummy-1                               0
 dummy-really-long-sym-really-long          "foooooooo"
      a  (fooo call foooo)
      b (let [dummy-1                               0
 dummy-really-long-sym-really-long          "foooooooo"
      a  (fooo call foooo)
              c (let [dummy-1                               0
 dummy-really-long-sym-really-long          "foooooooo"
      a  (fooo call foooo)
      {:key [fooo faaa] :as res}        a]
  (do
    (foo1 a)
    (foo2 a)))]
  (do
    (foo1 a)
    (foo2 a)))]
  (do
    (foo1 a)
    (foo2 a)))
"#;
    let expected = r#"
(let [dummy-1                           0
      dummy-really-long-sym-really-long "foooooooo"
      a                                 (fooo call foooo)
      b                                 (let [dummy-1                           0
                                              dummy-really-long-sym-really-long "foooooooo"
                                              a                                 (fooo call foooo)
                                              c                                 (let [dummy-1                           0
                                                                                      dummy-really-long-sym-really-long "foooooooo"
                                                                                      a                                 (fooo call foooo)
                                                                                      {:key [fooo faaa] :as res}        a]
                                                                                  (do
                                                                                    (foo1 a)
                                                                                    (foo2 a)))]
                                          (do
                                            (foo1 a)
                                            (foo2 a)))]
  (do
    (foo1 a)
    (foo2 a)))
"#;
    assert_eq!(formatted(input), expected);
}

#[test]
fn let_like_alignment_nested_let_with_nested_map() {
    let input = r#"
(let [dummy-1                                                               0
      dummy-really-long-sym-really-long "foooooooo"
a        (fooo call foooo)
      b                                 (let [dummy-1                           0
                                              dummy-really-long-sym-really-long "foooooooo"
                                              a                                 (fooo call foooo)
                                              c                                 {:fooo fooo1
                                                                    :faaaa faaa2
                                                                                        :fiiii {:fiii1 (fooo a)
                                                                        :fpppppp            4
                                                                                                :ccccc {:faa feo
                                        :ggggggggggggg "gggggggggg"}}}]                                          
                                                    (foo1 a)
                                         (foo2 a))]
                    (foo1 a)
 (foo2 a))
"#;
    let expected = r#"
(let [dummy-1                           0
      dummy-really-long-sym-really-long "foooooooo"
      a                                 (fooo call foooo)
      b                                 (let [dummy-1                           0
                                              dummy-really-long-sym-really-long "foooooooo"
                                              a                                 (fooo call foooo)
                                              c                                 {:fooo  fooo1
                                                                                 :faaaa faaa2
                                                                                 :fiiii {:fiii1   (fooo a)
                                                                                         :fpppppp 4
                                                                                         :ccccc   {:faa           feo
                                                                                                   :ggggggggggggg "gggggggggg"}}}]                                          
                                          (foo1 a)
                                          (foo2 a))]
  (foo1 a)
  (foo2 a))
"#;
    assert_eq!(formatted(input), expected);
}

#[test]
fn let_like_alignment_nested_let_with_cond_map() {
    let input = r#"
(let [dummy-1         0
      dummy-really-long-sym-really-long "foooooooo"
      a                                 (fooo call foooo)
      b                                 (let [dummy-1                           0
                                              dummy-really-long-sym-really-long "foooooooo"
                                              a                                 (fooo call foooo)
                                              c                                            {:fooo  fooo1
                                                                  :faaaa faaa2
                                                                                 :fiiii {:fiii1   (fooo a)
                                                                            :fpppppp                       4
                                                                                         :ccccc   {:faa           feo
                                                                                           :ggggggggggggg "gggggggggg"}}}]                                          
                                          (cond (= 1 1) (fooo a)
                            (= 2 2eeeee) (fooo11 b)
                                                :else nil)
                                          (foo2 a))]
  (foo1 a)
  (cond
(= 1 1) (fooo a)
                                        (= 2 2eeeee) (fooo11 b)
                                                :else nil))
"#;
    let expected = r#"
(let [dummy-1                           0
      dummy-really-long-sym-really-long "foooooooo"
      a                                 (fooo call foooo)
      b                                 (let [dummy-1                           0
                                              dummy-really-long-sym-really-long "foooooooo"
                                              a                                 (fooo call foooo)
                                              c                                 {:fooo  fooo1
                                                                                 :faaaa faaa2
                                                                                 :fiiii {:fiii1   (fooo a)
                                                                                         :fpppppp 4
                                                                                         :ccccc   {:faa           feo
                                                                                                   :ggggggggggggg "gggggggggg"}}}]                                          
                                          (cond
                                            (= 1 1)      (fooo a)
                                            (= 2 2eeeee) (fooo11 b)
                                            :else        nil)
                                          (foo2 a))]
  (foo1 a)
  (cond
    (= 1 1)      (fooo a)
    (= 2 2eeeee) (fooo11 b)
    :else        nil))
"#;
    assert_eq!(formatted(input), expected);
}

#[test]
fn let_like_alignment_nested_let_with_thread_macro_cond() {
    let input = r#"
(let [dummy-1         0
      dummy-really-long-sym-really-long "foooooooo"
      a                                 (fooo call foooo)
      b                                 (let [dummy-1                           0
                                              dummy-really-long-sym-really-long "foooooooo"
                                              a                                 (fooo call foooo)
                                              c                                            (->> foo
                                        (assoc :foo o)
                                    (assoc :fiii o)
                                          (assoc :fuuuu aaa))]
                                          (-> foo
                                        (assoc :foo o)
                                    (assoc :fiii o)
                                          (assoc :fuuuu aaa))
                                          (foo2 a))]
  (foo1 a)
  (cond (= 1 1)      (fooo a)
    (= 2 2eeeee) (fooo11 b)
    :else        nil))
"#;
    let expected = r#"
(let [dummy-1                           0
      dummy-really-long-sym-really-long "foooooooo"
      a                                 (fooo call foooo)
      b                                 (let [dummy-1                           0
                                              dummy-really-long-sym-really-long "foooooooo"
                                              a                                 (fooo call foooo)
                                              c                                 (->> foo
                                                                                     (assoc :foo o)
                                                                                     (assoc :fiii o)
                                                                                     (assoc :fuuuu aaa))]
                                          (-> foo
                                              (assoc :foo o)
                                              (assoc :fiii o)
                                              (assoc :fuuuu aaa))
                                          (foo2 a))]
  (foo1 a)
  (cond
    (= 1 1)      (fooo a)
    (= 2 2eeeee) (fooo11 b)
    :else        nil))
"#;
    assert_eq!(formatted(input), expected);
}

#[test]
fn let_like_alignment_nested_let_with_thread_macros_cond_condp_map() {
    let input = r#"
(let [dummy-1         0
      dummy-really-long-sym-really-long "foooooooo"
      a                                 (fooo call foooo)
      x {:fooo   fooo1
                                         :faaaaa faaa2
                         :fiiii  {:fiii1   (fooo a)
                :fpppppp                      4
                            :ccccc   {:faa          feo
                                                           :ggggggggggggg "gggggggggg"}}}
      b                                 (let [dummy-1                           0
                                              dummy-really-long-sym-really-long "foooooooo"
                                              a                                 (fooo call foooo)
                                              c                                            (as-> [:foo]          $
                                                                                             (assoc $ :foo o)
                                                                                                          (assoc $ :fiii o)
                                                                                             (assoc $ :fuuuu aaa))]
                                          (-> foo
                                              (assoc :foo o)
                                              (assoc :fiii o)
                                              (assoc :fuuuu aaa))
                                          (foo2 a))
      c (condp = some-value
  :foo "plain-foo"
  :bar :>> (fn [v]
             (handle-bar v))
  :baz "plain-baz"
  :qux :>> (fn [v]
             {:value v
              :handled true})
  nil)]
  (condp = some-value
  :foo "plain-foo"
  :bar :>> (fn [v]
             (handle-bar v))
  :baz "plain-baz"
  :qux :>> (fn [v]
             {:value v
              :handled true})
  nil)
  (foo1 a)
  (cond (= 1 1)      (fooo a)
    (= 2 2eeeee) (fooo11 b)
    :else        nil))
"#;
    let expected = r#"
(let [dummy-1                           0
      dummy-really-long-sym-really-long "foooooooo"
      a                                 (fooo call foooo)
      x                                 {:fooo   fooo1
                                         :faaaaa faaa2
                                         :fiiii  {:fiii1   (fooo a)
                                                  :fpppppp 4
                                                  :ccccc   {:faa           feo
                                                            :ggggggggggggg "gggggggggg"}}}
      b                                 (let [dummy-1                           0
                                              dummy-really-long-sym-really-long "foooooooo"
                                              a                                 (fooo call foooo)
                                              c                                 (as-> [:foo] $
                                                                                  (assoc $ :foo o)
                                                                                  (assoc $ :fiii o)
                                                                                  (assoc $ :fuuuu aaa))]
                                          (-> foo
                                              (assoc :foo o)
                                              (assoc :fiii o)
                                              (assoc :fuuuu aaa))
                                          (foo2 a))
      c                                 (condp = some-value
                                          :foo "plain-foo"
                                          :bar :>> (fn [v]
                                                     (handle-bar v))
                                          :baz "plain-baz"
                                          :qux :>> (fn [v]
                                                     {:value   v
                                                      :handled true})
                                          nil)]
  (condp = some-value
    :foo "plain-foo"
    :bar :>> (fn [v]
               (handle-bar v))
    :baz "plain-baz"
    :qux :>> (fn [v]
               {:value   v
                :handled true})
    nil)
  (foo1 a)
  (cond
    (= 1 1)      (fooo a)
    (= 2 2eeeee) (fooo11 b)
    :else        nil))
"#;
    assert_eq!(formatted(input), expected);
}

fn aligner_of(input: &str) -> Option<AlignKind> {
    let tree = get_tree(input.as_bytes()).unwrap();
    let root = get_root_node(&tree).unwrap();
    let form = first_named_child(root).unwrap();
    find_aligner(form, input.as_bytes())
}

#[test]
fn let_like_matches_correctly() {
    let inp_let = r#"
(let [dummy-1 0
                dummy-really-long-sym-really-long "foooooooo"
a (fooo call foooo)]
  (do
    (foo1 a)
    (foo2 a)))
"#;
    assert_eq!(aligner_of(inp_let), Some(AlignKind::LetLike));
    let inp_when_let = r#"
(when-let [dummy-1 0]
  (do
    (foo1 a)
    (foo2 a)))
"#;
    assert_eq!(aligner_of(inp_when_let), Some(AlignKind::LetLike));
    let inp_if_let = r#"
(if-let [dummy-1 0]
  (do
    (foo1 a)
    (foo2 a))
"foo")
"#;
    assert_eq!(aligner_of(inp_if_let), Some(AlignKind::LetLike));
    let inp_binding = r#"
(binding [dummy-1 0
                dummy-really-long-sym-really-long "foooooooo"
a (fooo call foooo)]
  (do
    (foo1 a)
    (foo2 a)))
"#;
    assert_eq!(aligner_of(inp_binding), Some(AlignKind::LetLike));
    let inp_loop = r#"
(loop [dummy-1 0
                dummy-really-long-sym-really-long "foooooooo"
a (fooo call foooo)]
  (do
    (foo1 a)
    (foo2 a)))
"#;
    assert_eq!(aligner_of(inp_loop), Some(AlignKind::LetLike));
    let inp_with_open = r#"
(with-open [dummy-1 0
                dummy-really-long-sym-really-long "foooooooo"
a (fooo call foooo)]
  (do
    (foo1 a)
    (foo2 a)))
"#;
    assert_eq!(aligner_of(inp_with_open), Some(AlignKind::LetLike));
    let inp_with_redefs = r#"
(with-redefs [dummy-1 0
                dummy-really-long-sym-really-long "foooooooo"
a (fooo call foooo)]
  (do
    (foo1 a)
    (foo2 a)))
"#;
    assert_eq!(aligner_of(inp_with_redefs), Some(AlignKind::LetLike));
}
