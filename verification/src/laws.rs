//! The laws the library states of itself: how many threads the enumerator
//! returns, that enumeration is deterministic, and what the rank
//! annotation means.

use vstd::prelude::*;

use crate::differ::spec_all_threads;
use crate::enumerate::{
    annotate, spec_enumerate, spec_paths_list, spec_paths_node, spec_starts,
};
use crate::model::{Conversation, ThreadEntry};
use crate::order::{lemma_sort_len, sort_by_time};

verus! {

/// The number of leaves reachable from `n` by the enumerator's traversal,
/// within `fuel` levels.
pub open spec fn leaves_node(c: Conversation, n: usize, fuel: nat) -> nat
    decreases fuel, 0int,
{
    if fuel == 0 {
        0
    } else {
        let sorted = sort_by_time(c, c.nodes@[n as int].children@);
        if sorted.len() == 0 {
            1
        } else {
            leaves_list(c, sorted, (fuel - 1) as nat)
        }
    }
}

/// The number of leaves reachable from the nodes of a sibling set, within
/// `fuel` levels.
pub open spec fn leaves_list(c: Conversation, s: Seq<usize>, fuel: nat) -> nat
    decreases fuel, s.len() + 1,
{
    if s.len() == 0 {
        0
    } else {
        leaves_node(c, s[0], fuel) + leaves_list(c, s.drop_first(), fuel)
    }
}

proof fn lemma_count_node(c: Conversation, e: ThreadEntry, fuel: nat)
    requires
        spec_paths_node(c, e, fuel) is Ok,
    ensures
        spec_paths_node(c, e, fuel)->Ok_0.len() == leaves_node(c, e.node, fuel),
    decreases fuel, 0int,
{
    let sorted = sort_by_time(c, c.nodes@[e.node as int].children@);
    if sorted.len() > 0 {
        let entries = annotate(sorted);
        lemma_count_list(c, entries, (fuel - 1) as nat);
        assert(entries.map_values(|x: ThreadEntry| x.node) =~= sorted);
    }
}

proof fn lemma_count_list(c: Conversation, entries: Seq<ThreadEntry>, fuel: nat)
    requires
        spec_paths_list(c, entries, fuel) is Ok,
    ensures
        spec_paths_list(c, entries, fuel)->Ok_0.len() == leaves_list(
            c,
            entries.map_values(|x: ThreadEntry| x.node),
            fuel,
        ),
    decreases fuel, entries.len() + 1,
{
    let m = entries.map_values(|x: ThreadEntry| x.node);
    if entries.len() == 0 {
    } else {
        lemma_count_node(c, entries[0], fuel);
        lemma_count_list(c, entries.drop_first(), fuel);
        assert(entries.drop_first().map_values(|x: ThreadEntry| x.node) =~= m.drop_first());
        assert(m[0] == entries[0].node);
    }
}

/// For every conversation the enumerator accepts, the number of threads is
/// exactly the number of reachable leaves: one thread per leaf, counted
/// over the start nodes — the system-only openers having already been
/// excluded from the start set.
pub proof fn lemma_thread_count(c: Conversation)
    requires
        spec_enumerate(c) is Ok,
    ensures
        spec_enumerate(c)->Ok_0.len() == leaves_list(c, spec_starts(c), c.nodes@.len()),
{
    lemma_count_list(c, annotate(spec_starts(c)), c.nodes@.len());
    assert(annotate(spec_starts(c)).map_values(|x: ThreadEntry| x.node) =~= spec_starts(c));
}

/// Enumeration is deterministic and reproducible: the threads, their order
/// and their flags are a function of the conversation value alone, so two
/// runs on the same conversation return identical results. The executable
/// enumerator returns exactly these values.
pub proof fn lemma_enumeration_deterministic(c1: Conversation, c2: Conversation)
    requires
        c1 == c2,
    ensures
        spec_enumerate(c1) == spec_enumerate(c2),
        spec_all_threads(c1) == spec_all_threads(c2),
{
}

/// At a branch, the entries the enumerator recurses into are the node's
/// children in time order, and each carries a rank exactly when the node
/// has more than one child; the rank's total is the child count and its
/// index the child's 1-based position in time order.
pub proof fn lemma_branch_rank(c: Conversation, n: usize, i: int)
    requires
        c.nodes@[n as int].children@.len() <= usize::MAX,
        0 <= i < sort_by_time(c, c.nodes@[n as int].children@).len(),
    ensures
        ({
            let kids = c.nodes@[n as int].children@;
            let entries = annotate(sort_by_time(c, kids));
            &&& (entries[i].rank is Some <==> kids.len() > 1)
            &&& kids.len() > 1 ==> entries[i].rank->Some_0.total == kids.len()
            &&& kids.len() > 1 ==> entries[i].rank->Some_0.index == i + 1
        }),
{
    let kids = c.nodes@[n as int].children@;
    lemma_sort_len(c, kids);
    lemma_rank_annotation(sort_by_time(c, kids), i);
}

/// The rank annotation of a sibling set: a member carries a rank exactly
/// when the set has more than one member; the rank's total is the set's
/// size and its index is the member's 1-based position in the set's time
/// order.
pub proof fn lemma_rank_annotation(s: Seq<usize>, i: int)
    requires
        0 <= i < s.len(),
        s.len() <= usize::MAX,
    ensures
        annotate(s)[i].node == s[i],
        annotate(s)[i].rank is Some <==> s.len() > 1,
        s.len() > 1 ==> annotate(s)[i].rank->Some_0.index == i + 1,
        s.len() > 1 ==> annotate(s)[i].rank->Some_0.total == s.len(),
        !annotate(s)[i].diverges,
{
}

} // verus!
