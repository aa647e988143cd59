//! The path enumerator: every root-to-leaf thread of a conversation.
//!
//! A start node is a child of a virtual root (a node without a message)
//! whose own message is not system-authored; system-authored openers set
//! context and do not begin a visible thread. Start nodes form one sibling
//! set, ordered by time like every child set below them. The traversal is
//! depth-first: at a leaf the current path is one complete thread, at a
//! branch every child is visited in time order, and a child's rank
//! annotation never leaks into a sibling's path.
//!
//! The whole enumeration is specified by `spec_enumerate`, a function of the
//! conversation alone, and the executable enumerator returns exactly its
//! value — which is what makes the output order deterministic and
//! reproducible, and makes "the previous thread" well defined for the
//! differ.

use vstd::prelude::*;

use crate::model::{
    msg_of, node_ok, shape_ok, AuthorRole, Conversation, SiblingRank, ThreadEntry, ThreadError,
};
use crate::order::{all_ok, lemma_sort_ok, sort_by_time, sort_ids};

verus! {

/// Node `i`'s parent reference, if any, resolves to a node of the arena.
pub open spec fn parent_ok(c: Conversation, i: int) -> bool {
    match c.nodes@[i].parent {
        Some(p) => (p as int) < c.nodes@.len(),
        None => true,
    }
}

/// Every parent reference of the conversation resolves. The enumerator
/// reads the parent of every node to find the start nodes, so one dangling
/// parent reference is fatal for the whole conversation.
pub open spec fn parents_valid(c: Conversation) -> bool {
    forall|i: int| 0 <= i < c.nodes@.len() ==> parent_ok(c, i)
}

/// Node `i` begins a visible thread: it is a child of a virtual root — a
/// node without a message — and its own message is not system-authored.
pub open spec fn is_start(c: Conversation, i: int) -> bool {
    &&& 0 <= i < c.nodes@.len()
    &&& c.nodes@[i].parent is Some
    &&& (c.nodes@[i].parent->Some_0 as int) < c.nodes@.len()
    &&& c.nodes@[c.nodes@[i].parent->Some_0 as int].message is None
    &&& c.nodes@[i].message is Some
    &&& msg_of(c, i).role != AuthorRole::System
}

/// The start nodes among the first `n` nodes, in encounter order.
pub open spec fn starts_upto(c: Conversation, n: int) -> Seq<usize>
    decreases n,
{
    if n <= 0 {
        Seq::empty()
    } else if is_start(c, n - 1) {
        starts_upto(c, n - 1).push((n - 1) as usize)
    } else {
        starts_upto(c, n - 1)
    }
}

/// The start nodes of the conversation, in ascending time order.
pub open spec fn spec_starts(c: Conversation) -> Seq<usize> {
    sort_by_time(c, starts_upto(c, c.nodes@.len() as int))
}

/// A sibling set as thread entries: each node tagged with its 1-based rank
/// and the set's size — but only when the set holds more than one member.
pub open spec fn annotate(s: Seq<usize>) -> Seq<ThreadEntry> {
    Seq::new(
        s.len(),
        |i: int|
            ThreadEntry {
                node: s[i],
                rank: if s.len() > 1 {
                    Some(SiblingRank { index: (i + 1) as usize, total: s.len() as usize })
                } else {
                    None
                },
                diverges: false,
            },
    )
}

/// The threads of the subtree rooted at `e.node`, each beginning with `e`.
/// A node holding anything but exactly one text part is a content-shape
/// violation; a child set with an unresolvable member or a member without a
/// message is a dangling reference; a path longer than `fuel` allows shows
/// the links do not form a tree. Each is fatal.
pub open spec fn spec_paths_node(c: Conversation, e: ThreadEntry, fuel: nat) -> Result<
    Seq<Seq<ThreadEntry>>,
    ThreadError,
>
    decreases fuel, 0int,
{
    if !shape_ok(c, e.node as int) {
        Err(ThreadError::ContentShape)
    } else if fuel == 0 {
        Err(ThreadError::Cyclic)
    } else {
        let kids = c.nodes@[e.node as int].children@;
        if !all_ok(c, kids) {
            Err(ThreadError::Dangling)
        } else {
            let sorted = sort_by_time(c, kids);
            if sorted.len() == 0 {
                Ok(seq![seq![e]])
            } else {
                match spec_paths_list(c, annotate(sorted), (fuel - 1) as nat) {
                    Ok(ps) => Ok(ps.map_values(|p: Seq<ThreadEntry>| seq![e] + p)),
                    Err(er) => Err(er),
                }
            }
        }
    }
}

/// The threads of the subtrees of a sibling set, in sibling order: all
/// threads through the first sibling, then all through the second, and so
/// on. The first error of the depth-first visit wins.
pub open spec fn spec_paths_list(
    c: Conversation,
    entries: Seq<ThreadEntry>,
    fuel: nat,
) -> Result<Seq<Seq<ThreadEntry>>, ThreadError>
    decreases fuel, entries.len() + 1,
{
    if entries.len() == 0 {
        Ok(Seq::empty())
    } else {
        match spec_paths_node(c, entries[0], fuel) {
            Ok(ps0) => match spec_paths_list(c, entries.drop_first(), fuel) {
                Ok(rest) => Ok(ps0 + rest),
                Err(er) => Err(er),
            },
            Err(er) => Err(er),
        }
    }
}

/// The full enumeration: every thread of the conversation, in depth-first,
/// sibling-time order over the time-ordered start nodes. No simple path
/// can visit more nodes than the arena holds, so the traversal's fuel is
/// the arena size: exhausting it proves a cycle.
pub open spec fn spec_enumerate(c: Conversation) -> Result<Seq<Seq<ThreadEntry>>, ThreadError> {
    if !parents_valid(c) {
        Err(ThreadError::Dangling)
    } else {
        spec_paths_list(c, annotate(spec_starts(c)), c.nodes@.len())
    }
}

/// The mathematical value of an executable thread list.
pub open spec fn view_threads(v: Vec<Vec<ThreadEntry>>) -> Seq<Seq<ThreadEntry>> {
    v@.map_values(|t: Vec<ThreadEntry>| t@)
}

/// Every start candidate is a start node, and so carries a message.
proof fn lemma_starts_upto_ok(c: Conversation, n: int)
    requires
        n <= usize::MAX,
    ensures
        forall|j: int|
            0 <= j < starts_upto(c, n).len() ==> is_start(c, #[trigger] starts_upto(c, n)[j] as int),
    decreases n,
{
    if n > 0 {
        lemma_starts_upto_ok(c, n - 1);
        let prev = starts_upto(c, n - 1);
        let cur = starts_upto(c, n);
        assert forall|j: int| 0 <= j < cur.len() implies is_start(c, cur[j] as int) by {
            if is_start(c, n - 1) {
                if j < prev.len() {
                    assert(cur[j] == prev[j]);
                } else {
                    assert(cur[j] == (n - 1) as usize);
                }
            } else {
                assert(cur[j] == prev[j]);
            }
        }
    }
}

/// The start nodes of the conversation, in ascending time order, or the
/// dangling-reference error when some parent reference does not resolve.
pub fn start_ids(c: &Conversation) -> (r: Result<Vec<usize>, ThreadError>)
    ensures
        match r {
            Ok(v) => parents_valid(*c) && v@ == spec_starts(*c),
            Err(er) => !parents_valid(*c) && er == ThreadError::Dangling,
        },
{
    let n_nodes = c.nodes.len();
    let mut i: usize = 0;
    while i < n_nodes
        invariant
            n_nodes == c.nodes@.len(),
            i <= n_nodes,
            forall|j: int| 0 <= j < i ==> parent_ok(*c, j),
        decreases n_nodes - i,
    {
        match c.nodes[i].parent {
            Some(p) => {
                if p >= n_nodes {
                    proof {
                        assert(!parent_ok(*c, i as int));
                    }
                    return Err(ThreadError::Dangling);
                }
            },
            None => {},
        }
        i += 1;
    }
    let mut cands: Vec<usize> = Vec::new();
    let mut i: usize = 0;
    while i < n_nodes
        invariant
            n_nodes == c.nodes@.len(),
            i <= n_nodes,
            parents_valid(*c),
            cands@ == starts_upto(*c, i as int),
        decreases n_nodes - i,
    {
        proof {
            assert(parent_ok(*c, i as int));
        }
        let mut is_s = false;
        match c.nodes[i].parent {
            Some(p) => {
                if c.nodes[p].message.is_none() {
                    match &c.nodes[i].message {
                        Some(m) => {
                            is_s = match m.role {
                                AuthorRole::System => false,
                                _ => true,
                            };
                        },
                        None => {},
                    }
                }
            },
            None => {},
        }
        proof {
            assert(is_s == is_start(*c, i as int));
        }
        if is_s {
            cands.push(i);
        }
        i += 1;
    }
    proof {
        lemma_starts_upto_ok(*c, n_nodes as int);
        assert(all_ok(*c, cands@));
    }
    Ok(sort_ids(c, &cands))
}

/// The sibling set `ids` as annotated thread entries.
pub fn annotate_ids(ids: &Vec<usize>) -> (r: Vec<ThreadEntry>)
    ensures
        r@ == annotate(ids@),
{
    let total = ids.len();
    let mut r: Vec<ThreadEntry> = Vec::new();
    let mut j: usize = 0;
    while j < total
        invariant
            total == ids@.len(),
            j <= total,
            r@ =~= annotate(ids@).subrange(0, j as int),
        decreases total - j,
    {
        let rank = if total > 1 {
            Some(SiblingRank { index: j + 1, total })
        } else {
            None
        };
        r.push(ThreadEntry { node: ids[j], rank, diverges: false });
        proof {
            assert(r@ =~= annotate(ids@).subrange(0, j as int + 1));
        }
        j += 1;
    }
    proof {
        assert(annotate(ids@).subrange(0, total as int) =~= annotate(ids@));
    }
    r
}

/// The threads of the subtree rooted at `e.node`, depth-first in sibling
/// time order, each beginning with `e`: exactly the value of
/// `spec_paths_node`.
#[verifier::loop_isolation(false)]
pub fn paths_node(c: &Conversation, e: ThreadEntry, fuel: usize) -> (r: Result<
    Vec<Vec<ThreadEntry>>,
    ThreadError,
>)
    requires
        node_ok(*c, e.node as int),
    ensures
        match r {
            Ok(v) => spec_paths_node(*c, e, fuel as nat) == Ok::<_, ThreadError>(view_threads(v)),
            Err(er) => spec_paths_node(*c, e, fuel as nat) == Err::<Seq<Seq<ThreadEntry>>, _>(er),
        },
    decreases fuel, 0int,
{
    let parts_len = match &c.nodes[e.node].message {
        Some(m) => m.parts.len(),
        None => {
            proof {
                assert(false);
            }
            0
        },
    };
    if parts_len != 1 {
        return Err(ThreadError::ContentShape);
    }
    if fuel == 0 {
        return Err(ThreadError::Cyclic);
    }
    let n_nodes = c.nodes.len();
    let kids = &c.nodes[e.node].children;
    let mut j: usize = 0;
    while j < kids.len()
        invariant
            n_nodes == c.nodes@.len(),
            kids@ == c.nodes@[e.node as int].children@,
            j <= kids@.len(),
            forall|jj: int| 0 <= jj < j ==> node_ok(*c, #[trigger] kids@[jj] as int),
        decreases kids@.len() - j,
    {
        let k = kids[j];
        if k >= n_nodes {
            proof {
                assert(!node_ok(*c, kids@[j as int] as int));
                assert(!all_ok(*c, c.nodes@[e.node as int].children@));
            }
            return Err(ThreadError::Dangling);
        }
        if c.nodes[k].message.is_none() {
            proof {
                assert(!node_ok(*c, kids@[j as int] as int));
                assert(!all_ok(*c, c.nodes@[e.node as int].children@));
            }
            return Err(ThreadError::Dangling);
        }
        j += 1;
    }
    proof {
        assert(all_ok(*c, c.nodes@[e.node as int].children@));
    }
    let sorted = sort_ids(c, kids);
    proof {
        lemma_sort_ok(*c, kids@);
    }
    if sorted.len() == 0 {
        let mut path: Vec<ThreadEntry> = Vec::new();
        path.push(e);
        let mut out: Vec<Vec<ThreadEntry>> = Vec::new();
        out.push(path);
        proof {
            assert(view_threads(out) =~~= seq![seq![e]]);
        }
        return Ok(out);
    }
    let entries = annotate_ids(&sorted);
    proof {
        assert(forall|jj: int|
            0 <= jj < entries@.len() ==> node_ok(*c, #[trigger] entries@[jj].node as int));
    }
    match paths_list(c, &entries, 0, fuel - 1) {
        Err(er) => {
            proof {
                assert(entries@.skip(0) =~= entries@);
            }
            Err(er)
        },
        Ok(sub) => {
            proof {
                assert(entries@.skip(0) =~= entries@);
            }
            let mut out: Vec<Vec<ThreadEntry>> = Vec::new();
            let mut k: usize = 0;
            while k < sub.len()
                invariant
                    k <= sub@.len(),
                    out@.len() == k,
                    forall|kk: int| 0 <= kk < k ==> #[trigger] out@[kk]@ == seq![e] + sub@[kk]@,
                decreases sub@.len() - k,
            {
                let row = &sub[k];
                let mut np: Vec<ThreadEntry> = Vec::new();
                np.push(e);
                let mut t: usize = 0;
                while t < row.len()
                    invariant
                        row@ == sub@[k as int]@,
                        t <= row@.len(),
                        np@ == seq![e] + row@.subrange(0, t as int),
                    decreases row@.len() - t,
                {
                    np.push(row[t]);
                    proof {
                        assert(np@ =~= seq![e] + row@.subrange(0, t as int + 1));
                    }
                    t += 1;
                }
                proof {
                    assert(row@.subrange(0, row@.len() as int) =~= row@);
                }
                out.push(np);
                k += 1;
            }
            proof {
                let s = spec_paths_node(*c, e, fuel as nat);
                let ps = view_threads(sub);
                assert(s == Ok::<_, ThreadError>(ps.map_values(|p: Seq<ThreadEntry>| seq![e] + p)));
                assert(view_threads(out) =~~= ps.map_values(|p: Seq<ThreadEntry>| seq![e] + p));
            }
            Ok(out)
        },
    }
}

/// The threads of the siblings `entries[from..]`, in sibling order: exactly
/// the value of `spec_paths_list` on that suffix.
pub fn paths_list(c: &Conversation, entries: &Vec<ThreadEntry>, from: usize, fuel: usize) -> (r:
    Result<Vec<Vec<ThreadEntry>>, ThreadError>)
    requires
        from <= entries@.len(),
        forall|j: int| from <= j < entries@.len() ==> node_ok(*c, #[trigger] entries@[j].node as int),
    ensures
        match r {
            Ok(v) => spec_paths_list(*c, entries@.skip(from as int), fuel as nat) == Ok::<
                _,
                ThreadError,
            >(view_threads(v)),
            Err(er) => spec_paths_list(*c, entries@.skip(from as int), fuel as nat) == Err::<
                Seq<Seq<ThreadEntry>>,
                _,
            >(er),
        },
    decreases fuel, entries@.len() - from,
{
    proof {
        assert(entries@.skip(from as int).len() == entries@.len() - from);
    }
    if from >= entries.len() {
        let out: Vec<Vec<ThreadEntry>> = Vec::new();
        proof {
            assert(view_threads(out) =~= Seq::<Seq<ThreadEntry>>::empty());
        }
        return Ok(out);
    }
    proof {
        assert(entries@.skip(from as int)[0] == entries@[from as int]);
        assert(entries@.skip(from as int).drop_first() =~= entries@.skip(from as int + 1));
    }
    match paths_node(c, entries[from], fuel) {
        Err(er) => Err(er),
        Ok(mut ps0) => match paths_list(c, entries, from + 1, fuel) {
            Err(er) => Err(er),
            Ok(mut rest) => {
                proof {
                    let a = view_threads(ps0);
                    let b = view_threads(rest);
                    assert(spec_paths_list(*c, entries@.skip(from as int), fuel as nat) == Ok::<
                        _,
                        ThreadError,
                    >(a + b));
                }
                let ghost a = view_threads(ps0);
                let ghost b = view_threads(rest);
                ps0.append(&mut rest);
                proof {
                    assert(view_threads(ps0) =~~= a + b);
                }
                Ok(ps0)
            },
        },
    }
}

impl Conversation {
    /// Every thread of this conversation — exactly the value of
    /// `spec_enumerate`, so two runs on the same conversation return the
    /// same threads in the same order. Divergence flags are all clear; the
    /// differ sets them.
    pub fn enumerate_threads(&self) -> (r: Result<Vec<Vec<ThreadEntry>>, ThreadError>)
        ensures
            match r {
                Ok(v) => spec_enumerate(*self) == Ok::<_, ThreadError>(view_threads(v)),
                Err(er) => spec_enumerate(*self) == Err::<Seq<Seq<ThreadEntry>>, _>(er),
            },
    {
        let n_nodes = self.nodes.len();
        let starts = match start_ids(self) {
            Ok(s) => s,
            Err(er) => {
                return Err(er);
            },
        };
        let entries = annotate_ids(&starts);
        proof {
            lemma_starts_upto_ok(*self, n_nodes as int);
            lemma_sort_ok(*self, starts_upto(*self, self.nodes@.len() as int));
            assert(forall|j: int|
                0 <= j < entries@.len() ==> node_ok(*self, #[trigger] entries@[j].node as int));
            assert(entries@.skip(0) =~= entries@);
        }
        paths_list(self, &entries, 0, self.nodes.len())
    }
}

} // verus!
