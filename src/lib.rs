pub mod ast;
pub mod ast_headline;
pub mod ast_timestamp;
pub mod combinator;
pub mod config;
pub mod datetime;
pub mod document;
pub mod element;
pub mod drawer;
pub mod input;
pub mod headline;
pub mod kind;
pub mod number;
pub mod object;
pub mod planning;
pub mod section;
pub mod shape;
pub mod text;
pub mod timestamp;
pub mod tree;
