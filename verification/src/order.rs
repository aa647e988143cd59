//! Stable ordering of sibling sets by creation time.
//!
//! Sibling sets — the start nodes, and the child set at every step of the
//! traversal — are ordered by ascending millisecond-truncated timestamp.
//! The sort is stable: nodes whose timestamps are equal at millisecond
//! resolution keep their encounter order. The specification is an insertion
//! sort written as a recursive spec function, which fixes the output
//! uniquely and so makes the enumeration order deterministic.

use vstd::prelude::*;

use crate::model::{node_ok, time_of, Conversation};

verus! {

/// Every index of `ids` resolves to a node carrying a message, so each has
/// an ordering key.
pub open spec fn all_ok(c: Conversation, ids: Seq<usize>) -> bool {
    forall|j: int| 0 <= j < ids.len() ==> node_ok(c, #[trigger] ids[j] as int)
}

/// `x` inserted into `s` before the first element whose key is not below
/// `x`'s. Inserting after equal keys is what makes the sort stable: `x`
/// comes from earlier in the unsorted sequence than everything in `s`.
pub open spec fn insert_by_time(c: Conversation, s: Seq<usize>, x: usize) -> Seq<usize>
    decreases s.len(),
{
    if s.len() == 0 {
        seq![x]
    } else if time_of(c, s[0] as int) < time_of(c, x as int) {
        seq![s[0]] + insert_by_time(c, s.drop_first(), x)
    } else {
        seq![x] + s
    }
}

/// The sibling set `ids` in ascending time order, ties keeping encounter
/// order.
pub open spec fn sort_by_time(c: Conversation, ids: Seq<usize>) -> Seq<usize>
    decreases ids.len(),
{
    if ids.len() == 0 {
        Seq::empty()
    } else {
        insert_by_time(c, sort_by_time(c, ids.drop_first()), ids[0])
    }
}

/// Ascending time order.
pub open spec fn time_sorted(c: Conversation, s: Seq<usize>) -> bool {
    forall|i: int, j: int|
        0 <= i <= j < s.len() ==> time_of(c, #[trigger] s[i] as int) <= time_of(
            c,
            #[trigger] s[j] as int,
        )
}

proof fn lemma_cons_multiset(a: usize, s: Seq<usize>)
    ensures
        (seq![a] + s).to_multiset() == s.to_multiset().insert(a),
{
    broadcast use vstd::seq_lib::group_to_multiset_ensures;
    broadcast use vstd::multiset::group_multiset_axioms;

    let t = seq![a] + s;
    assert(t.remove(0) =~= s);
    assert(t.remove(0).to_multiset() =~= t.to_multiset().remove(t[0]));
    assert(t.contains(a));
    assert(t.to_multiset().count(a) > 0);
    assert(t.to_multiset() =~= t.to_multiset().remove(a).insert(a));
}

proof fn lemma_insert_multiset(c: Conversation, s: Seq<usize>, x: usize)
    ensures
        insert_by_time(c, s, x).to_multiset() == s.to_multiset().insert(x),
    decreases s.len(),
{
    broadcast use vstd::seq_lib::group_seq_properties;
    broadcast use vstd::multiset::group_multiset_axioms;

    if s.len() == 0 {
        assert(insert_by_time(c, s, x) =~= seq![x] + s);
        lemma_cons_multiset(x, s);
    } else if time_of(c, s[0] as int) < time_of(c, x as int) {
        lemma_insert_multiset(c, s.drop_first(), x);
        assert(insert_by_time(c, s, x) =~= seq![s[0]] + insert_by_time(c, s.drop_first(), x));
        assert(s =~= seq![s[0]] + s.drop_first());
        lemma_cons_multiset(s[0], insert_by_time(c, s.drop_first(), x));
        lemma_cons_multiset(s[0], s.drop_first());
        assert(s.drop_first().to_multiset().insert(x).insert(s[0])
            =~= s.drop_first().to_multiset().insert(s[0]).insert(x));
    } else {
        assert(insert_by_time(c, s, x) =~= seq![x] + s);
        lemma_cons_multiset(x, s);
    }
}

/// The sorted sibling set holds exactly the nodes of the unsorted one.
pub proof fn lemma_sort_multiset(c: Conversation, ids: Seq<usize>)
    ensures
        sort_by_time(c, ids).to_multiset() == ids.to_multiset(),
    decreases ids.len(),
{
    broadcast use vstd::seq_lib::group_seq_properties;

    if ids.len() > 0 {
        lemma_sort_multiset(c, ids.drop_first());
        lemma_insert_multiset(c, sort_by_time(c, ids.drop_first()), ids[0]);
        assert(ids =~= seq![ids[0]] + ids.drop_first());
        lemma_cons_multiset(ids[0], ids.drop_first());
    }
}

proof fn lemma_insert_sorted(c: Conversation, s: Seq<usize>, x: usize)
    requires
        time_sorted(c, s),
    ensures
        time_sorted(c, insert_by_time(c, s, x)),
    decreases s.len(),
{
    if s.len() == 0 {
    } else if time_of(c, s[0] as int) < time_of(c, x as int) {
        assert(time_sorted(c, s.drop_first()));
        lemma_insert_sorted(c, s.drop_first(), x);
        lemma_insert_multiset(c, s.drop_first(), x);
        let r = seq![s[0]] + insert_by_time(c, s.drop_first(), x);
        assert forall|i: int, j: int| 0 <= i <= j < r.len() implies time_of(
            c,
            #[trigger] r[i] as int,
        ) <= time_of(c, #[trigger] r[j] as int) by {
            if i == 0 && j > 0 {
                let t = insert_by_time(c, s.drop_first(), x);
                // every element of t is x or an element of s.drop_first()
                assert(t.to_multiset().count(t[j - 1]) > 0) by {
                    t.to_multiset_ensures();
                }
                assert(s.drop_first().to_multiset().insert(x).count(t[j - 1]) > 0);
                if t[j - 1] == x {
                } else {
                    assert(s.drop_first().to_multiset().count(t[j - 1]) > 0);
                    s.drop_first().to_multiset_ensures();
                    assert(s.drop_first().contains(t[j - 1]));
                    let k = choose|k: int|
                        0 <= k < s.drop_first().len() && s.drop_first()[k] == t[j - 1];
                    assert(s[k + 1] == t[j - 1]);
                    assert(time_of(c, s[0] as int) <= time_of(c, s[k + 1] as int));
                }
            }
        }
    } else {
        let r = seq![x] + s;
        assert forall|i: int, j: int| 0 <= i <= j < r.len() implies time_of(
            c,
            #[trigger] r[i] as int,
        ) <= time_of(c, #[trigger] r[j] as int) by {
            if i == 0 && j > 0 {
                assert(time_of(c, x as int) <= time_of(c, s[0] as int));
                assert(time_of(c, s[0] as int) <= time_of(c, s[j - 1] as int));
            }
        }
    }
}

/// Sibling ordering respects ascending timestamp: the sorted set is in
/// ascending time order.
pub proof fn lemma_sort_sorted(c: Conversation, ids: Seq<usize>)
    ensures
        time_sorted(c, sort_by_time(c, ids)),
    decreases ids.len(),
{
    if ids.len() > 0 {
        lemma_sort_sorted(c, ids.drop_first());
        lemma_insert_sorted(c, sort_by_time(c, ids.drop_first()), ids[0]);
    }
}

/// Sorting keeps the set's size.
pub proof fn lemma_sort_len(c: Conversation, ids: Seq<usize>)
    ensures
        sort_by_time(c, ids).len() == ids.len(),
    decreases ids.len(),
{
    broadcast use vstd::seq_lib::group_seq_properties;

    lemma_sort_multiset(c, ids);
    sort_by_time(c, ids).to_multiset_ensures();
    ids.to_multiset_ensures();
}

/// Sorting keeps validity: every sorted element is an element of the input.
pub proof fn lemma_sort_ok(c: Conversation, ids: Seq<usize>)
    requires
        all_ok(c, ids),
    ensures
        all_ok(c, sort_by_time(c, ids)),
{
    broadcast use vstd::seq_lib::group_seq_properties;

    lemma_sort_multiset(c, ids);
    let s = sort_by_time(c, ids);
    assert forall|j: int| 0 <= j < s.len() implies node_ok(c, #[trigger] s[j] as int) by {
        s.to_multiset_ensures();
        ids.to_multiset_ensures();
        assert(s.to_multiset().count(s[j]) > 0);
        assert(ids.contains(s[j]));
        let k = choose|k: int| 0 <= k < ids.len() && ids[k] == s[j];
        assert(node_ok(c, ids[k] as int));
    }
}

/// The members of `s` whose timestamp is `k`, in the order `s` holds them.
pub open spec fn with_time(c: Conversation, s: Seq<usize>, k: u64) -> Seq<usize>
    decreases s.len(),
{
    if s.len() == 0 {
        Seq::empty()
    } else if time_of(c, s[0] as int) == k {
        seq![s[0]] + with_time(c, s.drop_first(), k)
    } else {
        with_time(c, s.drop_first(), k)
    }
}

proof fn lemma_insert_stable(c: Conversation, t: Seq<usize>, x: usize, k: u64)
    ensures
        with_time(c, insert_by_time(c, t, x), k) == if time_of(c, x as int) == k {
            seq![x] + with_time(c, t, k)
        } else {
            with_time(c, t, k)
        },
    decreases t.len(),
{
    if t.len() == 0 {
        assert(insert_by_time(c, t, x) =~= seq![x] + t);
        assert((seq![x] + t).drop_first() =~= t);
    } else if time_of(c, t[0] as int) < time_of(c, x as int) {
        lemma_insert_stable(c, t.drop_first(), x, k);
        let r = seq![t[0]] + insert_by_time(c, t.drop_first(), x);
        assert(r.drop_first() =~= insert_by_time(c, t.drop_first(), x));
        if time_of(c, x as int) == k {
            assert(with_time(c, r, k) =~= seq![x] + with_time(c, t, k));
        }
    } else {
        let r = seq![x] + t;
        assert(r.drop_first() =~= t);
    }
}

/// The sort is stable: for every timestamp, the sibling set's members
/// carrying it stand in the sorted set in their encounter order —
/// timestamps equal at millisecond resolution are ties and keep their
/// relative order.
pub proof fn lemma_sort_stable(c: Conversation, ids: Seq<usize>, k: u64)
    ensures
        with_time(c, sort_by_time(c, ids), k) == with_time(c, ids, k),
    decreases ids.len(),
{
    if ids.len() > 0 {
        lemma_sort_stable(c, ids.drop_first(), k);
        lemma_insert_stable(c, sort_by_time(c, ids.drop_first()), ids[0], k);
        if time_of(c, ids[0] as int) == k {
            assert(with_time(c, ids, k) =~= seq![ids[0]] + with_time(c, ids.drop_first(), k));
        }
    }
}

/// Of two siblings with strictly ordered timestamps, the earlier one stands
/// first in the sorted sibling set.
pub proof fn lemma_earlier_sibling_first(c: Conversation, ids: Seq<usize>, i: int, j: int)
    requires
        0 <= i < sort_by_time(c, ids).len(),
        0 <= j < sort_by_time(c, ids).len(),
        time_of(c, sort_by_time(c, ids)[i] as int) < time_of(c, sort_by_time(c, ids)[j] as int),
    ensures
        i < j,
{
    lemma_sort_sorted(c, ids);
    if j <= i {
        assert(time_of(c, sort_by_time(c, ids)[j] as int) <= time_of(
            c,
            sort_by_time(c, ids)[i] as int,
        ));
    }
}

fn node_time(c: &Conversation, i: usize) -> (t: u64)
    requires
        node_ok(*c, i as int),
    ensures
        t == time_of(*c, i as int),
{
    match &c.nodes[i].message {
        Some(m) => m.time_ms,
        None => {
            proof {
                assert(false);
            }
            0
        },
    }
}

fn insert_exec(c: &Conversation, sorted: &Vec<usize>, from: usize, x: usize) -> (r: Vec<usize>)
    requires
        from <= sorted.len(),
        all_ok(*c, sorted@.skip(from as int)),
        node_ok(*c, x as int),
    ensures
        r@ == insert_by_time(*c, sorted@.skip(from as int), x),
    decreases sorted.len() - from,
{
    proof {
        assert(sorted@.skip(from as int).len() == sorted.len() - from);
    }
    if from >= sorted.len() {
        let r: Vec<usize> = vec![x];
        proof {
            assert(sorted@.skip(from as int).len() == 0);
            assert(r@ =~= insert_by_time(*c, sorted@.skip(from as int), x));
        }
        r
    } else {
        let head = sorted[from];
        proof {
            assert(sorted@.skip(from as int)[0] == head);
        }
        if node_time(c, head) < node_time(c, x) {
            proof {
                assert(sorted@.skip(from as int).drop_first() =~= sorted@.skip(from as int + 1));
            }
            let mut r = insert_exec(c, sorted, from + 1, x);
            r.insert(0, head);
            proof {
                assert(r@ =~= seq![head] + insert_by_time(*c, sorted@.skip(from as int + 1), x));
            }
            r
        } else {
            let mut r: Vec<usize> = vec![x];
            let mut j = from;
            while j < sorted.len()
                invariant
                    from <= j <= sorted.len(),
                    r@ == seq![x] + sorted@.subrange(from as int, j as int),
                decreases sorted.len() - j,
            {
                let v = sorted[j];
                r.push(v);
                proof {
                    assert(r@ =~= seq![x] + sorted@.subrange(from as int, j as int + 1));
                }
                j += 1;
            }
            proof {
                assert(sorted@.subrange(from as int, sorted@.len() as int) =~= sorted@.skip(
                    from as int,
                ));
                assert(r@ =~= seq![x] + sorted@.skip(from as int));
            }
            r
        }
    }
}

/// The sibling set `ids`, from position `from` on, in ascending time order
/// with ties keeping encounter order.
pub fn sort_ids_from(c: &Conversation, ids: &Vec<usize>, from: usize) -> (r: Vec<usize>)
    requires
        from <= ids.len(),
        all_ok(*c, ids@.skip(from as int)),
    ensures
        r@ == sort_by_time(*c, ids@.skip(from as int)),
    decreases ids.len() - from,
{
    proof {
        assert(ids@.skip(from as int).len() == ids.len() - from);
    }
    if from >= ids.len() {
        let r: Vec<usize> = Vec::new();
        proof {
            assert(r@ =~= sort_by_time(*c, ids@.skip(from as int)));
        }
        r
    } else {
        proof {
            assert(ids@.skip(from as int).drop_first() =~= ids@.skip(from as int + 1));
        }
        let rest = sort_ids_from(c, ids, from + 1);
        let head = ids[from];
        proof {
            assert(ids@.skip(from as int)[0] == head);
            lemma_sort_ok(*c, ids@.skip(from as int + 1));
            assert(rest@.skip(0) =~= rest@);
        }
        insert_exec(c, &rest, 0, head)
    }
}

/// The whole sibling set `ids` in ascending time order, ties keeping
/// encounter order.
pub fn sort_ids(c: &Conversation, ids: &Vec<usize>) -> (r: Vec<usize>)
    requires
        all_ok(*c, ids@),
    ensures
        r@ == sort_by_time(*c, ids@),
{
    proof {
        assert(ids@.skip(0) =~= ids@);
    }
    sort_ids_from(c, ids, 0)
}

} // verus!
