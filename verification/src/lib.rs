//! The Locus LLVM back end.
pub mod analysis;
pub mod applying;
pub mod arith;
pub mod arrays;
pub mod blocks;
pub mod bounds;
pub mod calls;
pub mod captures;
pub mod catalog;
pub mod clauses;
pub mod cli;
pub mod closures;
pub mod covering;
pub mod cps;
pub mod currying;
pub mod diagnostics;
pub mod elements;
pub mod emit;
pub mod error;
pub mod evaluation;
pub mod floats;
pub mod freevars;
pub mod handlers;
pub mod handling;
pub mod heap;
pub mod help;
pub mod ir;
pub mod json;
pub mod lambdas;
pub mod lanes;
pub mod layout;
pub mod link;
pub mod loops;
pub mod lower;
pub mod manifest;
pub mod masks;
pub mod meaning;
pub mod message;
pub mod names;
pub mod natives;
pub mod objects;
pub mod programs;
pub mod reading;
pub mod recursion;
pub mod reliance;
pub mod report;
pub mod requests;
pub mod rereading;
pub mod resting;
pub mod rpc;
pub mod running;
pub mod scoping;
pub mod session;
pub mod shape;
pub mod simd;
pub mod simple;
pub mod spans;
pub mod spreading;
pub mod standing;
pub mod state;
pub mod storing;
pub mod symbols;
pub mod tails;
pub mod target;
pub mod text;
pub mod tuples;
pub mod utf16;
pub mod weaving;
pub mod worker;
