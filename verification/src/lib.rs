//! Uniqueness constraint propagation (UCP) for Plonkish circuits: a set `K` of cells
//! known to be uniquely determined grows by rules on the circuit's zero equations,
//! together with value facts `Delta` (exact values and finite domains of cells).
pub mod integer;
pub mod cell;
pub mod expr;
pub mod facts;
pub mod rules;
pub mod cell_map;
pub mod domain;
pub mod linear;
pub mod field;
pub mod value;
pub mod value_sound;
pub mod all_but_one;
pub mod rule_values;
pub mod base_conv;
pub mod base_digits;
pub mod bigint_mul;
pub mod engine;
pub mod plonkish;
pub mod choose_var;
pub mod pipeline;
pub mod extractor;
