//! The entity model: one conversation as an arena of nodes.
//!
//! A conversation export stores its messages as an id-keyed map in which each
//! node carries a back-reference to its parent and a forward list of its
//! children. The library models that map as an arena: a node's identity is
//! its index into `Conversation::nodes`, and the parent and children fields
//! are plain index references. A reference that does not resolve to a node of
//! the arena is represented by an out-of-range index and is reported as a
//! dangling reference when the enumerator dereferences it.

use vstd::prelude::*;

verus! {

/// Who authored a message. The set is closed: an export carrying any other
/// role is rejected at deserialization, before this model is built.
#[derive(Copy, Clone, Debug, PartialEq, Eq)]
pub enum AuthorRole {
    User,
    Assistant,
    System,
}

/// The model that produced an assistant message, as far as the export names
/// it. The set is closed; an unknown identifier is a schema violation.
#[derive(Copy, Clone, Debug, PartialEq, Eq)]
pub enum ModelSlug {
    Gpt4,
    Davinci2,
}

/// Why a message ended.
#[derive(Copy, Clone, Debug, PartialEq, Eq)]
pub enum FinishKind {
    Stop,
    Interrupted,
    MaxTokens,
}

/// One message of the dialogue. `time_ms` is the creation timestamp
/// truncated to whole milliseconds; it is used only for ordering siblings,
/// and timestamps equal at millisecond resolution count as ties.
pub struct Message {
    pub role: AuthorRole,
    pub time_ms: u64,
    pub parts: Vec<String>,
    pub model: Option<ModelSlug>,
    pub finish: Option<FinishKind>,
}

/// One node of the conversation tree. A node without a message is a
/// structural ("virtual") root; every node that appears in a thread must
/// carry a message.
pub struct Node {
    pub parent: Option<usize>,
    pub children: Vec<usize>,
    pub message: Option<Message>,
}

/// One conversation: a title, the node arena, and the node that was current
/// when the export was taken. Enumeration ignores `current`: every path is
/// produced regardless of which one was last active.
pub struct Conversation {
    pub title: String,
    pub nodes: Vec<Node>,
    pub current: Option<usize>,
}

/// The corrupt-input conditions the enumerator detects. Each is fatal for
/// the whole conversation: the input is a static export, so there is nothing
/// to retry.
#[derive(Copy, Clone, Debug, PartialEq, Eq)]
pub enum ThreadError {
    /// A parent or child reference does not resolve to a node of the arena,
    /// or a node reached by traversal carries no message.
    Dangling,
    /// A message reached by traversal does not hold exactly one text part.
    ContentShape,
    /// The parent/child links do not form a tree: a path grew longer than
    /// any simple path through the arena could be.
    Cyclic,
}

/// A message's 1-based position among its sibling alternatives, recorded
/// only when the sibling set has more than one member.
#[derive(Copy, Clone, Debug, PartialEq, Eq)]
pub struct SiblingRank {
    pub index: usize,
    pub total: usize,
}

/// One position of a thread: the node whose message stands there, the
/// sibling rank when alternatives exist, and the divergence flag set by the
/// differ when this position differs from the previous thread.
#[derive(Copy, Clone, Debug, PartialEq, Eq)]
pub struct ThreadEntry {
    pub node: usize,
    pub rank: Option<SiblingRank>,
    pub diverges: bool,
}

/// A node index that is in range and whose node carries a message: the
/// condition under which traversal may read the node's message.
pub open spec fn node_ok(c: Conversation, i: int) -> bool {
    &&& 0 <= i < c.nodes@.len()
    &&& c.nodes@[i].message is Some
}

/// The message of node `i`, for nodes satisfying `node_ok`.
pub open spec fn msg_of(c: Conversation, i: int) -> Message {
    c.nodes@[i].message->Some_0
}

/// The ordering key of node `i`: its message's millisecond timestamp.
pub open spec fn time_of(c: Conversation, i: int) -> u64 {
    msg_of(c, i).time_ms
}

/// A message reached by traversal must hold exactly one text part.
pub open spec fn shape_ok(c: Conversation, i: int) -> bool {
    msg_of(c, i).parts@.len() == 1
}

} // verus!
