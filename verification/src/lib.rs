//! Alignment and indentation of Clojure, ClojureScript and EDN source.
pub mod text;
pub mod helpers;
pub mod model;
pub mod alignable;
pub mod aligners;
pub mod engine;
pub mod logging;
