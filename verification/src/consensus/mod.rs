//! The decisions on leader slots of the consensus committer.

pub mod ancestor_laws;
pub mod block;
pub mod committee;
pub mod dag_state;
pub mod history;
mod history_search;
pub mod leader_slot_decider;
pub mod leader_slot_laws;
mod vote_tally;
