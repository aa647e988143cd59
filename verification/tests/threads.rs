use dialogue_threads::differ::{divergence_index, flag_thread, mark_divergence};
use dialogue_threads::enumerate::start_ids;
use dialogue_threads::render::{display_label, has_unclosed_fence, skip_count, RoleLabel};
use dialogue_threads::{
    AuthorRole, Conversation, FinishKind, Message, ModelSlug, Node, SiblingRank, ThreadEntry,
    ThreadError,
};

fn msg(role: AuthorRole, time_ms: u64) -> Message {
    Message {
        role,
        time_ms,
        parts: vec!["text".to_string()],
        model: None,
        finish: None,
    }
}

fn node(parent: Option<usize>, children: Vec<usize>, message: Option<Message>) -> Node {
    Node {
        parent,
        children,
        message,
    }
}

fn conv(nodes: Vec<Node>) -> Conversation {
    Conversation {
        title: "a conversation".to_string(),
        nodes,
        current: None,
    }
}

fn entry(node: usize, rank: Option<SiblingRank>, diverges: bool) -> ThreadEntry {
    ThreadEntry {
        node,
        rank,
        diverges,
    }
}

/// Start node S (user, t=0) with two assistant children C1 (t=1) and C2
/// (t=2), both leaves: two threads of length two, C1 ranked 1 of 2, C2
/// ranked 2 of 2, and in the second thread only the position holding C2 is
/// flagged as diverging.
#[test]
fn branch_of_two_regenerations() {
    let c = conv(vec![
        node(None, vec![1], None),
        node(Some(0), vec![2, 3], Some(msg(AuthorRole::User, 0))),
        node(Some(1), vec![], Some(msg(AuthorRole::Assistant, 1))),
        node(Some(1), vec![], Some(msg(AuthorRole::Assistant, 2))),
    ]);
    let threads = c.all_threads().unwrap();
    assert_eq!(threads.len(), 2);
    assert_eq!(threads[0].len(), 2);
    assert_eq!(threads[1].len(), 2);
    assert_eq!(threads[0][0], entry(1, None, false));
    assert_eq!(
        threads[0][1],
        entry(2, Some(SiblingRank { index: 1, total: 2 }), false)
    );
    assert_eq!(threads[1][0], entry(1, None, false));
    assert_eq!(
        threads[1][1],
        entry(3, Some(SiblingRank { index: 2, total: 2 }), true)
    );
}

/// A conversation whose only child of the virtual root is system-authored
/// yields no threads at all.
#[test]
fn system_only_start_yields_nothing() {
    let c = conv(vec![
        node(None, vec![1], None),
        node(Some(0), vec![], Some(msg(AuthorRole::System, 0))),
    ]);
    let threads = c.all_threads().unwrap();
    assert_eq!(threads.len(), 0);
}

/// A message with zero text parts is a fatal content-shape error.
#[test]
fn zero_parts_is_content_shape_error() {
    let mut m = msg(AuthorRole::User, 0);
    m.parts = vec![];
    let c = conv(vec![node(None, vec![1], None), node(Some(0), vec![], Some(m))]);
    assert_eq!(c.all_threads(), Err(ThreadError::ContentShape));
}

/// A message with two text parts is a fatal content-shape error too.
#[test]
fn two_parts_is_content_shape_error() {
    let mut m = msg(AuthorRole::User, 0);
    m.parts = vec!["a".to_string(), "b".to_string()];
    let c = conv(vec![node(None, vec![1], None), node(Some(0), vec![], Some(m))]);
    assert_eq!(c.all_threads(), Err(ThreadError::ContentShape));
}

/// A child reference that resolves to no node of the arena is fatal.
#[test]
fn dangling_child_is_fatal() {
    let c = conv(vec![
        node(None, vec![1], None),
        node(Some(0), vec![7], Some(msg(AuthorRole::User, 0))),
    ]);
    assert_eq!(c.all_threads(), Err(ThreadError::Dangling));
}

/// A parent reference that resolves to no node of the arena is fatal.
#[test]
fn dangling_parent_is_fatal() {
    let c = conv(vec![
        node(None, vec![1], None),
        node(Some(9), vec![], Some(msg(AuthorRole::User, 0))),
    ]);
    assert_eq!(c.all_threads(), Err(ThreadError::Dangling));
}

/// A node reached by traversal that carries no message is fatal, like a
/// dangling reference.
#[test]
fn child_without_message_is_fatal() {
    let c = conv(vec![
        node(None, vec![1], None),
        node(Some(0), vec![2], Some(msg(AuthorRole::User, 0))),
        node(Some(1), vec![], None),
    ]);
    assert_eq!(c.all_threads(), Err(ThreadError::Dangling));
}

/// Child links that loop back on themselves are recognised as corrupt
/// input instead of recursing forever.
#[test]
fn cyclic_links_are_fatal() {
    let c = conv(vec![
        node(None, vec![1], None),
        node(Some(0), vec![2], Some(msg(AuthorRole::User, 0))),
        node(Some(1), vec![1], Some(msg(AuthorRole::Assistant, 1))),
    ]);
    assert_eq!(c.all_threads(), Err(ThreadError::Cyclic));
}

/// Running the enumeration twice on the same conversation yields identical
/// thread sequences in identical order.
#[test]
fn enumeration_is_reproducible() {
    let c = conv(vec![
        node(None, vec![1, 2], None),
        node(Some(0), vec![3, 4], Some(msg(AuthorRole::User, 5))),
        node(Some(0), vec![], Some(msg(AuthorRole::User, 1))),
        node(Some(1), vec![], Some(msg(AuthorRole::Assistant, 7))),
        node(Some(1), vec![], Some(msg(AuthorRole::Assistant, 6))),
    ]);
    let first = c.all_threads().unwrap();
    let second = c.all_threads().unwrap();
    assert_eq!(first, second);
}

/// Siblings are visited in ascending creation time, not in list order.
#[test]
fn siblings_follow_ascending_time() {
    let c = conv(vec![
        node(None, vec![1], None),
        node(Some(0), vec![2, 3, 4], Some(msg(AuthorRole::User, 0))),
        node(Some(1), vec![], Some(msg(AuthorRole::Assistant, 5))),
        node(Some(1), vec![], Some(msg(AuthorRole::Assistant, 3))),
        node(Some(1), vec![], Some(msg(AuthorRole::Assistant, 4))),
    ]);
    let threads = c.all_threads().unwrap();
    assert_eq!(threads.len(), 3);
    assert_eq!(threads[0][1].node, 3);
    assert_eq!(threads[1][1].node, 4);
    assert_eq!(threads[2][1].node, 2);
    assert_eq!(threads[0][1].rank, Some(SiblingRank { index: 1, total: 3 }));
    assert_eq!(threads[1][1].rank, Some(SiblingRank { index: 2, total: 3 }));
    assert_eq!(threads[2][1].rank, Some(SiblingRank { index: 3, total: 3 }));
}

/// Timestamps equal at millisecond resolution are ties and keep encounter
/// order.
#[test]
fn equal_times_keep_encounter_order() {
    let c = conv(vec![
        node(None, vec![1], None),
        node(Some(0), vec![2, 3], Some(msg(AuthorRole::User, 0))),
        node(Some(1), vec![], Some(msg(AuthorRole::Assistant, 4))),
        node(Some(1), vec![], Some(msg(AuthorRole::Assistant, 4))),
    ]);
    let threads = c.all_threads().unwrap();
    assert_eq!(threads.len(), 2);
    assert_eq!(threads[0][1].node, 2);
    assert_eq!(threads[1][1].node, 3);
}

/// Multiple start nodes are conversation-level branches: one full set of
/// threads per start, the starts themselves in time order and ranked as one
/// sibling set.
#[test]
fn multiple_starts_are_one_sibling_set() {
    let c = conv(vec![
        node(None, vec![1, 2], None),
        node(Some(0), vec![], Some(msg(AuthorRole::User, 9))),
        node(Some(0), vec![], Some(msg(AuthorRole::User, 2))),
    ]);
    let threads = c.all_threads().unwrap();
    assert_eq!(threads.len(), 2);
    assert_eq!(
        threads[0][0],
        entry(2, Some(SiblingRank { index: 1, total: 2 }), false)
    );
    assert_eq!(
        threads[1][0],
        entry(1, Some(SiblingRank { index: 2, total: 2 }), true)
    );
}

/// A deeper tree returns exactly one thread per reachable leaf.
#[test]
fn one_thread_per_leaf() {
    let c = conv(vec![
        node(None, vec![1], None),
        node(Some(0), vec![2, 3], Some(msg(AuthorRole::User, 0))),
        node(Some(1), vec![4, 5], Some(msg(AuthorRole::Assistant, 1))),
        node(Some(1), vec![], Some(msg(AuthorRole::Assistant, 2))),
        node(Some(2), vec![], Some(msg(AuthorRole::User, 3))),
        node(Some(2), vec![], Some(msg(AuthorRole::User, 4))),
    ]);
    let threads = c.all_threads().unwrap();
    assert_eq!(threads.len(), 3);
    assert_eq!(threads[0].len(), 3);
    assert_eq!(threads[1].len(), 3);
    assert_eq!(threads[2].len(), 2);
}

/// An empty conversation, and one without any virtual root, yield zero
/// threads.
#[test]
fn no_starts_yield_nothing() {
    let empty = conv(vec![]);
    assert_eq!(empty.all_threads().unwrap().len(), 0);
    let rootless = conv(vec![node(None, vec![], Some(msg(AuthorRole::User, 0)))]);
    assert_eq!(rootless.all_threads().unwrap().len(), 0);
}

/// The start set holds the children of virtual roots whose message is not
/// system-authored, in ascending time order.
#[test]
fn start_detection_and_order() {
    let c = conv(vec![
        node(None, vec![1, 2, 3], None),
        node(Some(0), vec![], Some(msg(AuthorRole::System, 0))),
        node(Some(0), vec![], Some(msg(AuthorRole::User, 8))),
        node(Some(0), vec![], Some(msg(AuthorRole::User, 3))),
    ]);
    assert_eq!(start_ids(&c), Ok(vec![3, 2]));
}

/// The divergence point is the first position whose node identities
/// differ; identical threads have none; a strict prefix diverges at the
/// common length.
#[test]
fn divergence_points() {
    let a = vec![entry(1, None, false), entry(2, None, false)];
    let b = vec![entry(1, None, false), entry(3, None, false)];
    assert_eq!(divergence_index(&a, &b), Some(1));
    assert_eq!(divergence_index(&a, &a.clone()), None);
    let longer = vec![
        entry(1, None, false),
        entry(2, None, false),
        entry(4, None, false),
    ];
    assert_eq!(divergence_index(&a, &longer), Some(2));
    assert_eq!(divergence_index(&longer, &a), Some(2));
}

/// Every position from the divergence point onward is flagged; the
/// positions before it stay clear.
#[test]
fn flags_run_from_divergence_point() {
    let prev = vec![
        entry(1, None, false),
        entry(2, None, false),
        entry(3, None, false),
    ];
    let cur = vec![
        entry(1, None, false),
        entry(5, None, false),
        entry(6, None, false),
    ];
    let flagged = flag_thread(&prev, &cur);
    assert!(!flagged[0].diverges);
    assert!(flagged[1].diverges);
    assert!(flagged[2].diverges);
}

/// The first thread of a run carries no flags; each later one is flagged
/// against its immediate predecessor.
#[test]
fn marking_compares_neighbours_only() {
    let t0 = vec![entry(1, None, false), entry(2, None, false)];
    let t1 = vec![entry(1, None, false), entry(3, None, false)];
    let t2 = vec![entry(1, None, false), entry(3, None, false)];
    let marked = mark_divergence(&vec![t0, t1, t2]);
    assert!(!marked[0][0].diverges && !marked[0][1].diverges);
    assert!(!marked[1][0].diverges && marked[1][1].diverges);
    assert!(!marked[2][0].diverges && !marked[2][1].diverges);
}

/// The skip count is the first flagged position, or zero when nothing is
/// flagged.
#[test]
fn skip_count_finds_first_flag() {
    let t = vec![
        entry(1, None, false),
        entry(2, None, false),
        entry(3, None, true),
        entry(4, None, true),
    ];
    assert_eq!(skip_count(&t), 2);
    let unflagged = vec![entry(1, None, false)];
    assert_eq!(skip_count(&unflagged), 0);
    let empty: Vec<ThreadEntry> = vec![];
    assert_eq!(skip_count(&empty), 0);
}

/// Role labels: the recognised assistant model gets its own label, any
/// other or absent model the generic one.
#[test]
fn labels_follow_role_and_model() {
    assert_eq!(display_label(AuthorRole::User, None), RoleLabel::User);
    assert_eq!(display_label(AuthorRole::System, None), RoleLabel::System);
    assert_eq!(
        display_label(AuthorRole::Assistant, Some(ModelSlug::Gpt4)),
        RoleLabel::Gpt4
    );
    assert_eq!(
        display_label(AuthorRole::Assistant, Some(ModelSlug::Davinci2)),
        RoleLabel::ChatGpt
    );
    assert_eq!(display_label(AuthorRole::Assistant, None), RoleLabel::ChatGpt);
}

/// A text whose triple-backtick fences do not pair up leaves a code block
/// open.
#[test]
fn unclosed_fences_are_detected() {
    assert!(has_unclosed_fence("```let x = 1;"));
    assert!(!has_unclosed_fence("```let x = 1;```"));
    assert!(!has_unclosed_fence("no fences at all"));
    assert!(!has_unclosed_fence("``"));
    assert!(has_unclosed_fence("````"));
    assert!(!has_unclosed_fence(""));
}

/// Finish metadata rides along unchanged on the model type.
#[test]
fn finish_metadata_is_kept() {
    let mut m = msg(AuthorRole::Assistant, 1);
    m.finish = Some(FinishKind::Interrupted);
    m.model = Some(ModelSlug::Gpt4);
    let c = conv(vec![node(None, vec![1], None), node(Some(0), vec![], Some(m))]);
    let threads = c.all_threads().unwrap();
    assert_eq!(threads.len(), 1);
    let e = threads[0][0];
    assert_eq!(
        c.nodes[e.node].message.as_ref().unwrap().finish,
        Some(FinishKind::Interrupted)
    );
}
