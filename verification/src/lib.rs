//! Algorithm and data-structure library centred on an indexable skip list: a
//! probabilistic ordered sequence addressed purely by position, with verified
//! insertion, removal, random access and iteration. Around it stand
//! independent utility modules: a seedable pseudo-random generator, modular
//! arithmetic and combinatorics, primality testing, a minimum-cost-flow
//! solver, a connectivity table for grid patterns, and small sequence
//! helpers. Every function is verified against the contracts stated at its
//! declaration.

pub mod argsort;
pub mod bounded_sorted_list;
pub mod change_min_max;
pub mod change_radix;
pub mod combination;
pub mod memo_rec;
pub mod min_cost_flow;
pub mod modint;
pub mod modpow;
pub mod prime;
pub mod removability_checker;
pub mod run_length_encoding;
pub mod skiplist;
pub mod transpose;
pub mod xoshiro256;
