//! The thread differ: marking where a thread diverges from its predecessor.
//!
//! Threads are compared in enumeration order, each against the one produced
//! immediately before it, position by position and by node identity — not
//! by content. The earliest position where the identities differ is the
//! divergence point, and every position from it onward is flagged; the
//! positions before it are the identical prefix a renderer may elide. When
//! one thread is a prefix of the other, the first position beyond the
//! common length is itself the divergence point. The first thread has no
//! predecessor and carries no flags.

use vstd::prelude::*;

use crate::enumerate::{spec_enumerate, view_threads};
use crate::model::{Conversation, ThreadEntry, ThreadError};

verus! {

/// The shorter of the two thread lengths.
pub open spec fn min_len(a: Seq<ThreadEntry>, b: Seq<ThreadEntry>) -> int {
    if a.len() <= b.len() {
        a.len() as int
    } else {
        b.len() as int
    }
}

/// The divergence point of `a` and `b` at or after position `i`: the first
/// position where the node identities differ, or the common length when one
/// thread is a strict prefix of the other, or nothing when the threads hold
/// the same nodes at every position and have the same length.
pub open spec fn div_from(a: Seq<ThreadEntry>, b: Seq<ThreadEntry>, i: int) -> Option<int>
    decreases min_len(a, b) - i,
{
    if i < 0 || i >= min_len(a, b) {
        if a.len() == b.len() {
            None
        } else {
            Some(min_len(a, b))
        }
    } else if a[i].node != b[i].node {
        Some(i)
    } else {
        div_from(a, b, i + 1)
    }
}

/// The divergence point of two whole threads.
pub open spec fn divergence_point(a: Seq<ThreadEntry>, b: Seq<ThreadEntry>) -> Option<int> {
    div_from(a, b, 0)
}

/// `cur` with its divergence flags set against its predecessor `prev`:
/// every position from the divergence point onward is flagged, every
/// position before it is clear.
pub open spec fn flag_from(prev: Seq<ThreadEntry>, cur: Seq<ThreadEntry>) -> Seq<ThreadEntry> {
    Seq::new(
        cur.len(),
        |i: int|
            ThreadEntry {
                node: cur[i].node,
                rank: cur[i].rank,
                diverges: match divergence_point(prev, cur) {
                    Some(d) => i >= d,
                    None => false,
                },
            },
    )
}

/// Every thread flagged against the one enumerated just before it; the
/// first thread is left as it is.
pub open spec fn spec_mark(threads: Seq<Seq<ThreadEntry>>) -> Seq<Seq<ThreadEntry>> {
    Seq::new(
        threads.len(),
        |k: int|
            if k == 0 {
                threads[0]
            } else {
                flag_from(threads[k - 1], threads[k])
            },
    )
}

/// The enumeration with divergence flags: every thread of the conversation,
/// in enumeration order, each flagged against its predecessor.
pub open spec fn spec_all_threads(c: Conversation) -> Result<Seq<Seq<ThreadEntry>>, ThreadError> {
    match spec_enumerate(c) {
        Ok(ts) => Ok(spec_mark(ts)),
        Err(er) => Err(er),
    }
}

proof fn lemma_div_from(a: Seq<ThreadEntry>, b: Seq<ThreadEntry>, i: int)
    requires
        0 <= i <= min_len(a, b),
    ensures
        match div_from(a, b, i) {
            Some(d) => {
                &&& i <= d <= min_len(a, b)
                &&& forall|j: int| i <= j < d ==> a[j].node == b[j].node
                &&& d < min_len(a, b) ==> a[d].node != b[d].node
                &&& d == min_len(a, b) ==> a.len() != b.len()
            },
            None => {
                &&& a.len() == b.len()
                &&& forall|j: int| i <= j < a.len() ==> a[j].node == b[j].node
            },
        },
    decreases min_len(a, b) - i,
{
    if i < min_len(a, b) && a[i].node == b[i].node {
        lemma_div_from(a, b, i + 1);
    }
}

/// The divergence point is what the differ's contract says it is: the first
/// position whose node identities differ; the common length, when no such
/// position exists within it and the lengths differ; and absent exactly
/// when the two threads agree in node sequence and length.
pub proof fn lemma_divergence_point(a: Seq<ThreadEntry>, b: Seq<ThreadEntry>)
    ensures
        match divergence_point(a, b) {
            Some(d) => {
                &&& 0 <= d <= min_len(a, b)
                &&& forall|j: int| 0 <= j < d ==> a[j].node == b[j].node
                &&& d < min_len(a, b) ==> a[d].node != b[d].node
                &&& d == min_len(a, b) ==> a.len() != b.len()
            },
            None => {
                &&& a.len() == b.len()
                &&& forall|j: int| 0 <= j < a.len() ==> a[j].node == b[j].node
            },
        },
{
    lemma_div_from(a, b, 0);
}

/// A flagged thread diverges exactly from the divergence point onward: a
/// position is flagged if and only if a divergence point exists and the
/// position is at or beyond it, and nothing else of the entry changes.
pub proof fn lemma_flagged_positions(prev: Seq<ThreadEntry>, cur: Seq<ThreadEntry>, i: int)
    requires
        0 <= i < cur.len(),
    ensures
        flag_from(prev, cur)[i].diverges <==> (divergence_point(prev, cur) is Some
            && i >= divergence_point(prev, cur)->Some_0),
        flag_from(prev, cur)[i].node == cur[i].node,
        flag_from(prev, cur)[i].rank == cur[i].rank,
{
}

/// The divergence point of `a` and `b`, by one pass over the common
/// prefix.
pub fn divergence_index(a: &Vec<ThreadEntry>, b: &Vec<ThreadEntry>) -> (r: Option<usize>)
    ensures
        match r {
            Some(d) => divergence_point(a@, b@) == Some(d as int),
            None => divergence_point(a@, b@) is None,
        },
{
    let min = if a.len() <= b.len() {
        a.len()
    } else {
        b.len()
    };
    let mut i: usize = 0;
    while i < min
        invariant
            min == min_len(a@, b@),
            i <= min,
            div_from(a@, b@, 0) == div_from(a@, b@, i as int),
        decreases min - i,
    {
        if a[i].node != b[i].node {
            return Some(i);
        }
        i += 1;
    }
    if a.len() != b.len() {
        Some(min)
    } else {
        None
    }
}

/// `cur` flagged against its predecessor `prev`.
pub fn flag_thread(prev: &Vec<ThreadEntry>, cur: &Vec<ThreadEntry>) -> (r: Vec<ThreadEntry>)
    ensures
        r@ == flag_from(prev@, cur@),
{
    let d = divergence_index(prev, cur);
    let mut r: Vec<ThreadEntry> = Vec::new();
    let mut i: usize = 0;
    while i < cur.len()
        invariant
            i <= cur@.len(),
            match d {
                Some(dd) => divergence_point(prev@, cur@) == Some(dd as int),
                None => divergence_point(prev@, cur@) is None,
            },
            r@ =~= flag_from(prev@, cur@).subrange(0, i as int),
        decreases cur@.len() - i,
    {
        let diverges = match d {
            Some(dd) => i >= dd,
            None => false,
        };
        let entry = &cur[i];
        r.push(ThreadEntry { node: entry.node, rank: entry.rank, diverges });
        proof {
            assert(r@ =~= flag_from(prev@, cur@).subrange(0, i as int + 1));
        }
        i += 1;
    }
    proof {
        assert(flag_from(prev@, cur@).subrange(0, cur@.len() as int) =~= flag_from(prev@, cur@));
    }
    r
}

fn copy_thread(t: &Vec<ThreadEntry>) -> (r: Vec<ThreadEntry>)
    ensures
        r@ == t@,
{
    let mut r: Vec<ThreadEntry> = Vec::new();
    let mut i: usize = 0;
    while i < t.len()
        invariant
            i <= t@.len(),
            r@ =~= t@.subrange(0, i as int),
        decreases t@.len() - i,
    {
        r.push(t[i]);
        proof {
            assert(r@ =~= t@.subrange(0, i as int + 1));
        }
        i += 1;
    }
    proof {
        assert(t@.subrange(0, t@.len() as int) =~= t@);
    }
    r
}

/// Every thread flagged against the one before it, in enumeration order:
/// exactly `spec_mark` of the input.
pub fn mark_divergence(threads: &Vec<Vec<ThreadEntry>>) -> (r: Vec<Vec<ThreadEntry>>)
    ensures
        view_threads(r) == spec_mark(view_threads(*threads)),
{
    let mut out: Vec<Vec<ThreadEntry>> = Vec::new();
    let mut k: usize = 0;
    while k < threads.len()
        invariant
            k <= threads@.len(),
            out@.len() == k,
            forall|kk: int|
                0 <= kk < k ==> #[trigger] out@[kk]@ == spec_mark(view_threads(*threads))[kk],
        decreases threads@.len() - k,
    {
        if k == 0 {
            out.push(copy_thread(&threads[0]));
        } else {
            out.push(flag_thread(&threads[k - 1], &threads[k]));
        }
        k += 1;
    }
    proof {
        assert(view_threads(out) =~~= spec_mark(view_threads(*threads)));
    }
    out
}

impl Conversation {
    /// Every thread of this conversation with its divergence flags: the
    /// enumeration of `spec_enumerate`, each thread flagged against its
    /// predecessor as `spec_mark` says — exactly the value of
    /// `spec_all_threads`.
    pub fn all_threads(&self) -> (r: Result<Vec<Vec<ThreadEntry>>, ThreadError>)
        ensures
            match r {
                Ok(v) => spec_all_threads(*self) == Ok::<_, ThreadError>(view_threads(v)),
                Err(er) => spec_all_threads(*self) == Err::<Seq<Seq<ThreadEntry>>, _>(er),
            },
    {
        match self.enumerate_threads() {
            Ok(ts) => Ok(mark_divergence(&ts)),
            Err(er) => Err(er),
        }
    }
}

} // verus!
