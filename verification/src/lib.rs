//! Enumerates the linear dialogue threads embedded in a branching
//! conversation: a tree of messages in which edits and regenerations create
//! sibling alternatives. Every root-to-leaf path is produced as one `Thread`,
//! siblings are visited in ascending creation-time order, branch points are
//! annotated with a sibling rank, and each thread is compared against the one
//! enumerated just before it so a renderer can elide the shared prefix.

pub mod differ;
pub mod enumerate;
pub mod laws;
pub mod model;
pub mod order;
pub mod render;

pub use model::{
    AuthorRole, Conversation, FinishKind, Message, ModelSlug, Node, SiblingRank, ThreadEntry,
    ThreadError,
};
