//! Ordering of the final collection: an insertion sort by the items'
//! priority, compared lexicographically, with the laws the pipeline relies
//! on — sorting an already sorted collection changes nothing, and a sorted
//! collection with pairwise distinct priorities is determined by its
//! contents alone.

use vstd::prelude::*;
use vstd::seq_lib::group_to_multiset_ensures;
use vstd::multiset::{Multiset, group_multiset_axioms};

use crate::text::{lex_le, lemma_lex_le_antisym, lemma_lex_le_total, lemma_lex_le_trans, str_le};
use crate::types::{ItemView, ToDoItem, item_views};

verus! {

/// The collection is ordered by priority, ascending.
pub open spec fn sorted_by_priority(s: Seq<ItemView>) -> bool {
    forall|i: int, j: int| 0 <= i <= j < s.len() ==> lex_le(s[i].priority, s[j].priority)
}

/// No two items of the collection share a priority.
pub open spec fn distinct_priorities(s: Seq<ItemView>) -> bool {
    forall|i: int, j: int| 0 <= i < j < s.len() ==> s[i].priority != s[j].priority
}

proof fn lemma_views_insert(s: Seq<ToDoItem>, p: int, x: ToDoItem)
    requires
        0 <= p <= s.len(),
    ensures
        item_views(s.insert(p, x)) =~= item_views(s).insert(p, x@),
{
}

proof fn lemma_views_remove(s: Seq<ToDoItem>, p: int)
    requires
        0 <= p < s.len(),
    ensures
        item_views(s.remove(p)) =~= item_views(s).remove(p),
{
}

/// Sorts the collection by priority, ascending, comparing priorities
/// lexicographically. The contents are unchanged as a multiset, and sorting
/// an already sorted collection yields the very same sequence.
pub fn sort_items(v: &mut Vec<ToDoItem>)
    ensures
        sorted_by_priority(item_views(final(v)@)),
        final(v)@.to_multiset() == old(v)@.to_multiset(),
        item_views(final(v)@).to_multiset() == item_views(old(v)@).to_multiset(),
        sorted_by_priority(item_views(old(v)@)) ==> final(v)@ == old(v)@,
{
    broadcast use group_to_multiset_ensures, group_multiset_axioms;
    broadcast use vstd::seq_lib::to_multiset_insert, vstd::seq_lib::to_multiset_remove;

    let ghost orig = v@;
    let mut out: Vec<ToDoItem> = Vec::new();
    proof {
        assert(out@.to_multiset() =~= Multiset::<ToDoItem>::empty());
        assert(item_views(out@).to_multiset() =~= Multiset::<ItemView>::empty());
        assert(out@ + v@ =~= orig);
    }
    while v.len() > 0
        invariant
            out@.to_multiset().add(v@.to_multiset()) =~= orig.to_multiset(),
            item_views(out@).to_multiset().add(item_views(v@).to_multiset()) =~= item_views(
                orig,
            ).to_multiset(),
            sorted_by_priority(item_views(out@)),
            sorted_by_priority(item_views(orig)) ==> out@ + v@ == orig,
        decreases v@.len(),
    {
        let ghost out_pre = out@;
        let ghost v_pre = v@;
        let x = v.remove(0);
        proof {
            lemma_views_remove(v_pre, 0);
            assert(v_pre.remove(0) =~= v_pre.drop_first());
            assert(item_views(v_pre).remove(0) =~= item_views(v_pre).drop_first());
            if sorted_by_priority(item_views(orig)) {
                assert(out_pre + seq![x] + v@ =~= orig);
            }
        }
        let mut p: usize = 0;
        while p < out.len() && str_le(out[p].priority.as_str(), x.priority.as_str())
            invariant
                0 <= p <= out@.len(),
                out@ == out_pre,
                forall|i: int|
                    0 <= i < p ==> lex_le(#[trigger] item_views(out@)[i].priority, x@.priority),
            decreases out@.len() - p,
        {
            assert(item_views(out@)[p as int].priority == out@[p as int].priority@);
            p += 1;
        }
        proof {
            if sorted_by_priority(item_views(orig)) {
                assert(out_pre + seq![x] + v@ =~= orig);
                if p < out_pre.len() {
                    let k = out_pre.len() as int;
                    assert(item_views(orig)[p as int] == out_pre[p as int]@);
                    assert(item_views(orig)[k] == x@);
                    assert(lex_le(out_pre[p as int]@.priority, x@.priority));
                    assert(false);
                }
                assert(p == out_pre.len());
                assert(out_pre.insert(p as int, x) =~= out_pre.push(x));
                assert(out_pre.push(x) + v@ =~= orig);
            }
            let ov = item_views(out_pre);
            let nv = ov.insert(p as int, x@);
            assert forall|i: int, j: int| 0 <= i <= j < nv.len() implies lex_le(
                nv[i].priority,
                nv[j].priority,
            ) by {
                if p < out_pre.len() {
                    assert(!lex_le(ov[p as int].priority, x@.priority));
                    lemma_lex_le_total(ov[p as int].priority, x@.priority);
                }
                if i == j {
                    lemma_lex_le_total(nv[i].priority, nv[i].priority);
                } else if i < j {
                    if j < p {
                        assert(lex_le(ov[i].priority, ov[j].priority));
                    } else if i > p {
                        assert(lex_le(ov[i - 1].priority, ov[j - 1].priority));
                    } else if i == p && j > p {
                        // x stands before a kept element: x is below out[p],
                        // which is below the rest
                        assert(nv[i] == x@);
                        assert(nv[j] == ov[j - 1]);
                        assert(lex_le(x@.priority, ov[p as int].priority));
                        assert(lex_le(ov[p as int].priority, ov[j - 1].priority));
                        lemma_lex_le_trans(x@.priority, ov[p as int].priority, ov[j - 1].priority);
                    } else if j == p {
                        assert(nv[j] == x@);
                        assert(i < p);
                        assert(lex_le(ov[i].priority, x@.priority));
                    } else {
                        // i < p < j
                        assert(nv[i] == ov[i]);
                        assert(nv[j] == ov[j - 1]);
                        assert(lex_le(ov[i].priority, x@.priority));
                        assert(lex_le(x@.priority, ov[p as int].priority));
                        assert(lex_le(ov[p as int].priority, ov[j - 1].priority));
                        lemma_lex_le_trans(x@.priority, ov[p as int].priority, ov[j - 1].priority);
                        lemma_lex_le_trans(ov[i].priority, x@.priority, ov[j - 1].priority);
                    }
                }
            }
            lemma_views_insert(out_pre, p as int, x);
        }
        out.insert(p, x);
        proof {
            assert(out@ == out_pre.insert(p as int, x));
            vstd::seq_lib::to_multiset_insert(out_pre, p as int, x);
            vstd::seq_lib::to_multiset_remove(v_pre, 0);
            assert(out_pre.insert(p as int, x).to_multiset() == out_pre.to_multiset().insert(x));
            assert(v_pre.remove(0).to_multiset() == v_pre.to_multiset().remove(x));
            assert(v_pre.contains(v_pre[0]));
            vstd::seq_lib::to_multiset_contains(v_pre, x);
            assert(v_pre.to_multiset().count(x) > 0);
            assert(out@.to_multiset().add(v@.to_multiset()) =~= orig.to_multiset());
            let ov = item_views(out_pre);
            let vv = item_views(v_pre);
            assert(item_views(out@) == ov.insert(p as int, x@));
            vstd::seq_lib::to_multiset_insert(ov, p as int, x@);
            vstd::seq_lib::to_multiset_remove(vv, 0);
            assert(ov.insert(p as int, x@).to_multiset() == ov.to_multiset().insert(x@));
            assert(item_views(v@) == vv.remove(0));
            assert(vv.remove(0).to_multiset() == vv.to_multiset().remove(vv[0]));
            assert(vv[0] == x@);
            assert(vv.contains(vv[0]));
            vstd::seq_lib::to_multiset_contains(vv, x@);
            assert(vv.to_multiset().count(x@) > 0);
            assert(item_views(out@).to_multiset().add(item_views(v@).to_multiset())
                =~= item_views(orig).to_multiset());
        }
    }
    proof {
        assert(v@.to_multiset() =~= Multiset::<ToDoItem>::empty());
        assert(item_views(v@).to_multiset() =~= Multiset::<ItemView>::empty());
        assert(out@.to_multiset() =~= orig.to_multiset());
        assert(item_views(out@).to_multiset() =~= item_views(orig).to_multiset());
        if sorted_by_priority(item_views(orig)) {
            assert(out@ + v@ =~= out@);
        }
    }
    *v = out;
}

/// Two collections that hold the same items, are both sorted by priority,
/// and carry pairwise distinct priorities, are the same sequence: the final
/// sort pins the output down regardless of the order items arrived in.
pub proof fn lemma_sorted_unique(a: Seq<ItemView>, b: Seq<ItemView>)
    requires
        sorted_by_priority(a),
        sorted_by_priority(b),
        a.to_multiset() == b.to_multiset(),
        distinct_priorities(a),
    ensures
        a == b,
    decreases a.len(),
{
    broadcast use group_to_multiset_ensures, group_multiset_axioms;

    if a.len() == 0 {
        assert(a.to_multiset().len() == a.len());
        assert(b.to_multiset().len() == b.len());
        assert(a =~= b);
    } else {
        assert(a.to_multiset().len() == a.len());
        assert(b.to_multiset().len() == b.len());
        assert(b.len() == a.len());
        assert(a.contains(a[0]));
        assert(a.to_multiset().count(a[0]) > 0);
        assert(b.contains(a[0]));
        let j = choose|j: int| 0 <= j < b.len() && b[j] == a[0];
        assert(b.contains(b[0]));
        assert(b.to_multiset().count(b[0]) > 0);
        assert(a.contains(b[0]));
        let i = choose|i: int| 0 <= i < a.len() && a[i] == b[0];
        assert(lex_le(a[0].priority, a[i].priority));
        assert(lex_le(b[0].priority, b[j].priority));
        lemma_lex_le_antisym(a[0].priority, b[0].priority);
        assert(a[0].priority == b[0].priority);
        if i != 0 {
            assert(a[0].priority != a[i].priority);
            assert(false);
        }
        assert(a[0] == b[0]);
        let at = a.drop_first();
        let bt = b.drop_first();
        assert(at =~= a.remove(0));
        assert(bt =~= b.remove(0));
        assert(at.to_multiset() == a.to_multiset().remove(a[0]));
        assert(bt.to_multiset() == b.to_multiset().remove(b[0]));
        assert(at.to_multiset() == bt.to_multiset());
        assert forall|x: int, y: int| 0 <= x <= y < at.len() implies lex_le(
            at[x].priority,
            at[y].priority,
        ) by {
            assert(at[x] == a[x + 1]);
            assert(at[y] == a[y + 1]);
        }
        assert forall|x: int, y: int| 0 <= x <= y < bt.len() implies lex_le(
            bt[x].priority,
            bt[y].priority,
        ) by {
            assert(bt[x] == b[x + 1]);
            assert(bt[y] == b[y + 1]);
        }
        assert forall|x: int, y: int| 0 <= x < y < at.len() implies at[x].priority
            != at[y].priority by {
            assert(at[x] == a[x + 1]);
            assert(at[y] == a[y + 1]);
        }
        lemma_sorted_unique(at, bt);
        assert(a =~= seq![a[0]] + at);
        assert(b =~= seq![b[0]] + bt);
    }
}

} // verus!
