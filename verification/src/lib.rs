//! Heap-allocation profiling: the capture agent's bookkeeping, the textual
//! event ledger, and the interpreter that enriches it.
pub mod dylib;
pub mod executor;
pub mod interpret;
pub mod output;
pub mod parser;
pub mod pipe_io;
pub mod pool;
pub mod resolver;
pub mod text;
pub mod trace;
pub mod trace_tree;
pub mod tracer;
pub mod tracker;
