//! Core library of the MLMD neural-network architecture language: tokenizer,
//! parser, graph construction, shape inference, linting, code generation and
//! editor helpers.
pub mod text;
pub mod nodes;

pub mod tokenizer;
pub mod parser;

pub mod lsp;
pub mod strmap;
pub mod graph;
pub mod graph_builder;
pub mod graph_utils;
pub mod block;
pub mod shape;
pub mod lint;
pub mod codegen;
pub mod candle;
pub mod keras;
pub mod svg;
pub mod navigate;
pub mod diagnostics;
pub mod error;
pub mod config;
pub mod context;
pub mod plugin;
pub mod completions;
pub mod style;
pub mod edit;
pub mod install;
