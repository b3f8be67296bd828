//! Determinization and minimization of finite automata.
//!
//! An [`automaton::Automaton`] over the symbols `1..=alphabet`, with `0` for
//! the empty word, is turned into a deterministic automaton by the subset
//! construction and into its smallest equivalent by partition refinement.
//!
//! - `ubig`, `subset_table`: sets of states as bit sets, their compressed
//!   form, and the table that numbers the subsets found.
//! - `automaton`, `closure`, `language`: the automaton, its transition index,
//!   closure under the empty word, and the words that an automaton accepts.
//! - `subset_construction`, `automaton_sequential`, `automaton_multithreaded`:
//!   what a determinization is, and the construction on one frontier and
//!   shard by shard.
//! - `partition`, `refinement`, `refine_loop`, `quotient`: partition
//!   refinement and the automaton of the blocks.
//! - `operations`, `validate`, `automaton_encoder`, `transition_graphs`: the
//!   operations on whole automata, the check of an automaton before use,
//!   reading an automaton from text, and the generated transition graphs.
//! - `laws`, `boundary_laws`, `det_unique`, `min_laws`, `unique`, `minimal`:
//!   what determinization and minimization promise.
//! - `sequential_proof`, `shard_proof`, `merge_proof`, `hopcroft_proof`,
//!   `counting`, `explore`, `config_table`: the invariants behind the
//!   constructions.

pub mod automaton;
pub mod automaton_encoder;
pub mod automaton_multithreaded;
pub mod automaton_sequential;
pub mod boundary_laws;
pub mod closure;
pub mod config_table;
pub mod coordinator;
pub mod counting;
pub mod det_unique;
pub mod explore;
pub mod hopcroft_proof;
pub mod language;
pub mod laws;
pub mod merge_proof;
pub mod min_laws;
pub mod minimal;
pub mod operations;
pub mod partition;
pub mod quotient;
pub mod refine_loop;
pub mod refinement;
pub mod sequential_proof;
pub mod shard_proof;
pub mod subset_construction;
pub mod subset_table;
pub mod transition_graphs;
pub mod ubig;
pub mod unique;
pub mod validate;
