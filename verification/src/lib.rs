//! A single-file, copy-on-write database core.

pub mod ast;
pub mod bench;
pub mod blob;
pub mod btree;
pub mod bytes;
pub mod cache;
pub mod cache_laws;
pub mod catalog;
pub mod change_laws;
pub mod check_laws;
pub mod cli;
pub mod client;
pub mod commit;
pub mod consistency;
pub mod cost;
pub mod crash;
pub mod db;
pub mod derive;
pub mod effects;
pub mod encoding;
pub mod error;
pub mod exec_error;
pub mod explain_laws;
pub mod expr_laws;
pub mod find_laws;
pub mod float_laws;
pub mod freelist;
pub mod healthy;
pub mod history_laws;
pub mod importing;
pub mod join;
pub mod join_laws;
pub mod joining;
pub mod label_laws;
pub mod mark;
pub mod meta;
pub mod name_laws;
pub mod node;
pub mod order;
pub mod page;
pub mod pager;
pub mod path_laws;
pub mod plan;
pub mod prefix;
pub mod pretty;
pub mod query;
pub mod read_laws;
pub mod reading_laws;
pub mod refs;
pub mod rows;
pub mod run;
pub mod scan;
pub mod schema_laws;
pub mod serving;
pub mod session;
pub mod session_laws;
pub mod setup;
pub mod sha256;
pub mod shown_laws;
pub mod sort_laws;
pub mod sorting;
pub mod source;
pub mod split_laws;
pub mod statement;
pub mod statement_laws;
pub mod storage;
pub mod store;
pub mod strings;
pub mod text;
pub mod text_index;
pub mod token_laws;
pub mod tokens;
pub mod tree;
pub mod txn;
pub mod value_ops;
pub mod verify;
pub mod walk_laws;
pub mod word_laws;
pub mod words;
