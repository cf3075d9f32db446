//! Verified decision logic of three Sui components: the leader-slot decisions of the consensus
//! committer, the resumable checkpoint subscriptions of the GraphQL service, and the
//! decompiler pass that inlines single-use bindings.

pub mod consensus;
pub mod decompiler;
pub mod streaming;
