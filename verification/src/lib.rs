//! Slot layouts, polynomial sources and ideal encoders for protocol analyses.
pub mod combinatorics;
pub mod field;
pub mod typ;
pub mod text;
pub mod soundness;
pub mod var;
pub mod poly;
pub mod polyv;
pub mod poly_source;
pub mod value;
pub mod ideal;
pub mod encode;
pub mod namespace;
pub mod arith;
pub mod dot;
pub mod pow;
pub mod ops;
pub mod record;
pub mod concat;
pub mod fft;
pub mod interp;
pub mod eval;
pub mod inline;
pub mod equ;
pub mod reduce;
pub mod div;
pub mod reach;
pub mod mle_interp;
pub mod formal;
pub mod eliminate;
pub mod rounds;
