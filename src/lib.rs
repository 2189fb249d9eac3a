//! Classic algorithms and data structures with machine-checked contracts.
//!
//! The core is `heap`, an array-backed d-ary max-heap with heapsort, and
//! `merge`, which merges ascending lists through such a heap. Around it stand
//! sorting routines (`sort`), inversion counting, min/max search, binary
//! addition, palindromes, a coin-driven random draw, and small text and
//! record utilities. The generic algorithms require the item type to compare
//! as a total order (`order::total_order`).

pub mod order;
pub mod multiset_facts;
pub mod heap;
pub mod merge;
pub mod logic_gates;
pub mod binary_add;
pub mod min_max;
pub mod palindrome;
pub mod user_auth;
pub mod matrix;
pub mod complex;
pub mod text;
pub mod minigrep;
pub mod todo_list;
pub mod random;
pub mod sort;
pub mod coin;
pub mod inversions;
pub mod web;
