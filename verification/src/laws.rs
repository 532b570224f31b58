//! The library's structural laws, stated and proved once: height balance,
//! fanout bounds, summary consistency, order preservation under insertion,
//! append round trips, deletion as the inverse of insertion, and the
//! agreement of counting seeks with ordinal positions.

use vstd::prelude::*;

use crate::bptree::BPTree;
use crate::bptree::Node;
use crate::bptree::childs_seq;
use crate::bptree::entry_count;
use crate::bptree::height_of;
use crate::bptree::lemma_wsum_concat;
use crate::bptree::min_fanout;
use crate::bptree::node_seq;
use crate::bptree::summary_of;
use crate::bptree::wf;
use crate::bptree::wsum;
use crate::seek::item_measure;
use crate::seek::spec_seek;
use crate::summary::Dimension;
use crate::summary::Summarizable;
use crate::summary::Summary;

verus! {

/// Every leaf below `n` sits exactly `d` levels down.
pub open spec fn leaves_at_depth<T, const MAX_FANOUT: usize>(n: Node<T, MAX_FANOUT>, d: int) -> bool
    decreases n,
{
    match n {
        Node::Leaf { .. } => d == 0,
        Node::Internal { childs, .. } => forall|i: int|
            0 <= i < childs@.len() ==> leaves_at_depth(#[trigger] childs@[i].spec_node(), d - 1),
    }
}

/// Height balance: in a well-formed tree every leaf sits at the same
/// depth from the root, namely the root's height.
pub proof fn lemma_height_balance<T: Summarizable, const MAX_FANOUT: usize>(n: Node<T, MAX_FANOUT>)
    requires
        wf(n),
    ensures
        leaves_at_depth(n, height_of(n)),
    decreases n,
{
    match n {
        Node::Leaf { .. } => {},
        Node::Internal { childs, .. } => {
            assert forall|i: int| 0 <= i < childs@.len() implies leaves_at_depth(
                #[trigger] childs@[i].spec_node(),
                height_of(n) - 1,
            ) by {
                assert(wf(childs@[i].spec_node()));
                lemma_height_balance(childs@[i].spec_node());
            }
        },
    }
}

/// Every node below `n` keeps its entry count within the fanout bounds,
/// and `n` itself never exceeds the upper bound.
pub open spec fn fanout_bounded<T: Summarizable, const MAX_FANOUT: usize>(
    n: Node<T, MAX_FANOUT>,
) -> bool
    decreases n,
{
    &&& entry_count(n) <= MAX_FANOUT
    &&& match n {
        Node::Leaf { .. } => true,
        Node::Internal { childs, .. } => forall|i: int|
            0 <= i < childs@.len() ==> {
                &&& min_fanout(MAX_FANOUT as int) <= entry_count(#[trigger] childs@[i].spec_node())
                &&& fanout_bounded(childs@[i].spec_node())
            },
    }
}

/// Fanout bounds: in a well-formed tree every non-root node holds
/// between `min_fanout` and `MAX_FANOUT` entries; the root may fall
/// below the lower bound but never exceeds the upper one.
pub proof fn lemma_fanout_bounds<T: Summarizable, const MAX_FANOUT: usize>(n: Node<T, MAX_FANOUT>)
    requires
        wf(n),
    ensures
        fanout_bounded(n),
    decreases n,
{
    match n {
        Node::Leaf { .. } => {},
        Node::Internal { childs, .. } => {
            assert forall|i: int| 0 <= i < childs@.len() implies min_fanout(MAX_FANOUT as int)
                <= entry_count(#[trigger] childs@[i].spec_node()) && fanout_bounded(
                childs@[i].spec_node(),
            ) by {
                assert(wf(childs@[i].spec_node()));
                lemma_fanout_bounds(childs@[i].spec_node());
            }
        },
    }
}

/// The sum of the stored counts of a run of summaries.
pub open spec fn counts_sum(ss: Seq<Summary>) -> int
    decreases ss.len(),
{
    if ss.len() == 0 {
        0
    } else {
        counts_sum(ss.drop_last()) + ss.last().count
    }
}

/// The sum of the stored weights of a run of summaries.
pub open spec fn weights_sum(ss: Seq<Summary>) -> int
    decreases ss.len(),
{
    if ss.len() == 0 {
        0
    } else {
        weights_sum(ss.drop_last()) + ss.last().weight
    }
}

/// Combine a run of summaries in order, starting from the identity.
pub open spec fn combine_all(ss: Seq<Summary>) -> Summary
    decreases ss.len(),
{
    if ss.len() == 0 {
        Summary::spec_identity()
    } else {
        combine_all(ss.drop_last()).spec_combine(ss.last())
    }
}

/// The single-item summaries of a sequence of items, in order.
pub open spec fn item_summaries<T: Summarizable>(s: Seq<T>) -> Seq<Summary> {
    Seq::new(s.len(), |i: int| Summary { count: 1, weight: s[i].spec_weight() })
}

/// Summed counts and weights are never negative.
proof fn lemma_sums_nonneg(ss: Seq<Summary>)
    ensures
        counts_sum(ss) >= 0,
        weights_sum(ss) >= 0,
    decreases ss.len(),
{
    if ss.len() > 0 {
        lemma_sums_nonneg(ss.drop_last());
    }
}

/// As long as neither total overflows, combining summaries in order adds
/// their counts and weights exactly.
pub proof fn lemma_combine_all_sums(ss: Seq<Summary>)
    requires
        counts_sum(ss) <= u64::MAX,
        weights_sum(ss) <= u64::MAX,
    ensures
        combine_all(ss) == (Summary {
            count: counts_sum(ss) as u64,
            weight: weights_sum(ss) as u64,
        }),
    decreases ss.len(),
{
    if ss.len() == 0 {
    } else {
        lemma_sums_nonneg(ss.drop_last());
        lemma_combine_all_sums(ss.drop_last());
    }
}

/// The cached summaries of a run of well-formed children sum to exactly
/// the item count and total weight of their concatenated contents.
proof fn lemma_child_summary_sums<T: Summarizable, const MAX_FANOUT: usize>(
    cs: Seq<BPTree<T, MAX_FANOUT>>,
    ss: Seq<Summary>,
)
    requires
        cs.len() == ss.len(),
        forall|i: int|
            0 <= i < cs.len() ==> wf(#[trigger] cs[i].spec_node()) && ss[i] == summary_of(
                cs[i].spec_node(),
            ),
    ensures
        counts_sum(ss) == childs_seq(cs).len(),
        weights_sum(ss) == wsum(childs_seq(cs)),
    decreases cs.len(),
{
    if cs.len() > 0 {
        assert(forall|i: int|
            0 <= i < cs.drop_last().len() ==> cs.drop_last()[i] == cs[i] && ss.drop_last()[i]
                == ss[i]);
        lemma_child_summary_sums(cs.drop_last(), ss.drop_last());
        assert(wf(cs[cs.len() - 1].spec_node()));
        lemma_wsum_concat(childs_seq(cs.drop_last()), node_seq(cs.last().spec_node()));
    }
}

/// The single-item summaries of a sequence sum to its length and total
/// weight.
proof fn lemma_item_summary_sums<T: Summarizable>(s: Seq<T>)
    ensures
        counts_sum(item_summaries(s)) == s.len(),
        weights_sum(item_summaries(s)) == wsum(s),
    decreases s.len(),
{
    if s.len() > 0 {
        assert(item_summaries(s).drop_last() =~= item_summaries(s.drop_last()));
        lemma_item_summary_sums(s.drop_last());
        assert(item_summaries(s).last() == Summary {
            count: 1,
            weight: s.last().spec_weight(),
        });
    }
}

/// Summary consistency: in a well-formed node the cached summary equals
/// the combine, in order, of the items' summaries for a leaf and of the
/// cached child summaries for an internal node. Since well-formedness is
/// recursive, this holds of every node of a well-formed tree.
pub proof fn lemma_summary_consistency<T: Summarizable, const MAX_FANOUT: usize>(
    n: Node<T, MAX_FANOUT>,
)
    requires
        wf(n),
    ensures
        match n {
            Node::Leaf { values, summary } => summary == combine_all(item_summaries(values@)),
            Node::Internal { child_summaries, summary, .. } => summary == combine_all(
                child_summaries@,
            ),
        },
{
    match n {
        Node::Leaf { values, summary } => {
            lemma_item_summary_sums(values@);
            lemma_combine_all_sums(item_summaries(values@));
        },
        Node::Internal { childs, child_summaries, summary, .. } => {
            lemma_child_summary_sums(childs@, child_summaries@);
            lemma_combine_all_sums(child_summaries@);
        },
    }
}

/// Order preservation: inserting `x` at position `i` puts `x` exactly
/// there, keeps everything before `i` in place, and shifts everything
/// from `i` on one position to the right.
pub proof fn lemma_order_preservation<T>(s: Seq<T>, i: int, x: T)
    requires
        0 <= i <= s.len(),
    ensures
        s.insert(i, x)[i] == x,
        forall|j: int| 0 <= j < i ==> #[trigger] s.insert(i, x)[j] == s[j],
        forall|j: int| i <= j < s.len() ==> s.insert(i, x)[j + 1] == s[j],
{
    s.insert_ensures(i, x);
}

/// Round trip: inserting at the end appends, so building a tree by
/// repeated appends reads back exactly the input sequence, in order.
pub proof fn lemma_append_round_trip<T>(s: Seq<T>, x: T)
    ensures
        s.insert(s.len() as int, x) == s.push(x),
        forall|j: int| 0 <= j < s.len() ==> #[trigger] s.push(x)[j] == s[j],
        s.push(x)[s.len() as int] == x,
{
    assert(s.insert(s.len() as int, x) =~= s.push(x));
}

/// Deleting right after inserting at the same position restores the
/// original sequence of items.
pub proof fn lemma_delete_insert_inverse<T>(s: Seq<T>, i: int, x: T)
    requires
        0 <= i <= s.len(),
    ensures
        s.insert(i, x).remove(i) == s,
{
    assert(s.insert(i, x).remove(i) =~= s);
}

/// Aggregate search agreement: seeking by cumulative item count lands on
/// exactly the ordinal position asked for, with nothing left over, for
/// every valid position.
pub proof fn lemma_seek_by_count<T: Summarizable>(s: Seq<T>, k: int)
    requires
        0 <= k < s.len(),
    ensures
        spec_seek(Dimension::Count, s, k) == (k, 0int),
    decreases k,
{
    assert(item_measure(Dimension::Count, s[0]) == 1);
    if k > 0 {
        lemma_seek_by_count(s.drop_first(), k - 1);
    }
}

} // verus!
