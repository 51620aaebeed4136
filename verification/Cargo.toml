[package]
name = "cljvindent"
version = "0.1.0"
edition = "2021"
publish = false

[dependencies]
tree-sitter = "*"
tree-sitter-clojure = "*"
rayon = "1"
emacs = "*"
tracing = "0.1"
tracing-subscriber = { version = "0.3", features = ["json", "fmt"] }
tracing-appender = "0.2"
