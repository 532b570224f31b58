//! Structural edits: building nodes with freshly computed summaries,
//! splitting an overfull node, merging or redistributing an underfull node
//! with a sibling, and the public `insert` and `delete` operations. A node
//! is never mutated: every edit builds new nodes along the affected path
//! and shares all other subtrees with the tree it started from.

use std::sync::Arc;
use vstd::prelude::*;

use crate::bptree::BPTree;
use crate::bptree::Node;
use crate::bptree::childs_seq;
use crate::bptree::entry_count;
use crate::bptree::height_of;
use crate::bptree::lemma_childs_seq_concat;
use crate::bptree::lemma_childs_seq_decompose;
use crate::bptree::lemma_childs_seq_decompose_pair;
use crate::bptree::lemma_childs_seq_pair;
use crate::bptree::lemma_childs_seq_push;
use crate::bptree::lemma_childs_seq_singleton;
use crate::bptree::lemma_wsum_concat;
use crate::bptree::lemma_wsum_nonneg;
use crate::bptree::min_fanout;
use crate::bptree::node_seq;
use crate::bptree::summary_of;
use crate::bptree::wf;
use crate::bptree::wf_tree;
use crate::bptree::wsum;
use crate::summary::Summarizable;
use crate::summary::Summary;

verus! {

/// The weight of a single-item sequence is that item's weight.
pub proof fn lemma_wsum_singleton<T: Summarizable>(x: T)
    ensures
        wsum(seq![x]) == x.spec_weight(),
{
    assert(seq![x].len() == 1);
    assert(seq![x].drop_last() =~= Seq::<T>::empty());
    assert(wsum(Seq::<T>::empty()) == 0);
    assert(seq![x].last() == x);
}

/// Inserting an item adds exactly its weight to the total.
pub proof fn lemma_wsum_insert<T: Summarizable>(s: Seq<T>, i: int, x: T)
    requires
        0 <= i <= s.len(),
    ensures
        wsum(s.insert(i, x)) == wsum(s) + x.spec_weight(),
{
    let a = s.subrange(0, i);
    let b = s.subrange(i, s.len() as int);
    assert(s.insert(i, x) =~= (a + seq![x]) + b);
    assert(a.push(x) =~= a + seq![x]);
    lemma_wsum_concat(a + seq![x], b);
    lemma_wsum_concat(a, seq![x]);
    lemma_wsum_singleton(x);
    assert(s =~= a + b);
    lemma_wsum_concat(a, b);
}

/// Removing an item subtracts exactly its weight from the total.
pub proof fn lemma_wsum_remove<T: Summarizable>(s: Seq<T>, i: int)
    requires
        0 <= i < s.len(),
    ensures
        wsum(s.remove(i)) == wsum(s) - s[i].spec_weight(),
{
    let a = s.subrange(0, i);
    let b = s.subrange(i + 1, s.len() as int);
    assert(s.remove(i) =~= a + b);
    lemma_wsum_concat(a, b);
    assert(s =~= (a + seq![s[i]]) + b);
    lemma_wsum_concat(a + seq![s[i]], b);
    lemma_wsum_concat(a, seq![s[i]]);
    lemma_wsum_singleton(s[i]);
}

/// Inserting at offset `j` of the middle piece of a three-way
/// concatenation inserts at offset `a.len() + j` of the whole.
pub proof fn lemma_seq_insert_middle<T>(a: Seq<T>, s: Seq<T>, c: Seq<T>, j: int, x: T)
    requires
        0 <= j <= s.len(),
    ensures
        (a + s + c).insert(a.len() + j, x) == a + s.insert(j, x) + c,
{
    assert((a + s + c).insert(a.len() + j, x) =~= a + s.insert(j, x) + c);
}

/// Removing at offset `j` of the middle piece of a three-way
/// concatenation removes at offset `a.len() + j` of the whole.
pub proof fn lemma_seq_remove_middle<T>(a: Seq<T>, s: Seq<T>, c: Seq<T>, j: int)
    requires
        0 <= j < s.len(),
    ensures
        (a + s + c).remove(a.len() + j) == a + s.remove(j) + c,
{
    assert((a + s + c).remove(a.len() + j) =~= a + s.remove(j) + c);
}

/// Copy the items of a leaf's vector exactly.
fn copy_values<T: Summarizable>(values: &Vec<T>) -> (r: Vec<T>)
    ensures
        r@ == values@,
{
    let mut r: Vec<T> = Vec::new();
    let mut j: usize = 0;
    while j < values.len()
        invariant
            j <= values@.len(),
            r@ =~= values@.subrange(0, j as int),
        decreases values@.len() - j,
    {
        r.push(values[j].clone_item());
        proof {
            assert(r@ =~= values@.subrange(0, j as int + 1));
        }
        j = j + 1;
    }
    proof {
        assert(values@.subrange(0, values@.len() as int) =~= values@);
    }
    r
}

/// Copy a vector of child handles; each handle shares its subtree.
fn copy_childs<T: Summarizable, const MAX_FANOUT: usize>(
    childs: &Vec<BPTree<T, MAX_FANOUT>>,
) -> (r: Vec<BPTree<T, MAX_FANOUT>>)
    ensures
        r@ == childs@,
{
    let mut r: Vec<BPTree<T, MAX_FANOUT>> = Vec::new();
    let mut j: usize = 0;
    while j < childs.len()
        invariant
            j <= childs@.len(),
            r@ =~= childs@.subrange(0, j as int),
        decreases childs@.len() - j,
    {
        r.push(childs[j].clone());
        proof {
            assert(r@ =~= childs@.subrange(0, j as int + 1));
        }
        j = j + 1;
    }
    proof {
        assert(childs@.subrange(0, childs@.len() as int) =~= childs@);
    }
    r
}

/// Build a leaf from a vector of items, computing its summary by combining
/// the items' summaries in order. This is the only place a leaf summary is
/// computed, so the summary invariant holds by construction.
fn build_leaf<T: Summarizable, const MAX_FANOUT: usize>(values: Vec<T>) -> (r: BPTree<
    T,
    MAX_FANOUT,
>)
    requires
        2 <= MAX_FANOUT < usize::MAX,
        values@.len() <= MAX_FANOUT,
        wsum(values@) <= u64::MAX,
    ensures
        wf(r.spec_node()),
        r.spec_node() is Leaf,
        r@ == values@,
        height_of(r.spec_node()) == 0,
        entry_count(r.spec_node()) == values@.len(),
{
    let ghost vs = values@;
    let mut acc = Summary::identity();
    let mut j: usize = 0;
    while j < values.len()
        invariant
            vs == values@,
            j <= vs.len(),
            vs.len() <= MAX_FANOUT < usize::MAX,
            wsum(vs) <= u64::MAX,
            acc.count as int == j,
            acc.weight as int == wsum(vs.subrange(0, j as int)),
        decreases vs.len() - j,
    {
        let s = values[j].summary();
        proof {
            assert(vs.subrange(0, j as int + 1) =~= vs.subrange(0, j as int).push(vs[j as int]));
            assert(vs.subrange(0, j as int).push(vs[j as int]).drop_last() =~= vs.subrange(
                0,
                j as int,
            ));
            assert(vs =~= vs.subrange(0, j as int + 1) + vs.subrange(j as int + 1, vs.len() as int));
            lemma_wsum_concat(
                vs.subrange(0, j as int + 1),
                vs.subrange(j as int + 1, vs.len() as int),
            );
            lemma_wsum_nonneg(vs.subrange(j as int + 1, vs.len() as int));
        }
        acc = acc.combine(&s);
        j = j + 1;
    }
    proof {
        assert(vs.subrange(0, vs.len() as int) =~= vs);
    }
    BPTree(Arc::new(Node::Leaf { values, summary: acc }))
}

/// Build an internal node from same-height children, caching each child's
/// summary and combining them in order into the node's own summary. This
/// is the only place an internal summary is computed.
fn build_internal<T: Summarizable, const MAX_FANOUT: usize>(
    height: u8,
    childs: Vec<BPTree<T, MAX_FANOUT>>,
) -> (r: BPTree<T, MAX_FANOUT>)
    requires
        2 <= MAX_FANOUT < usize::MAX,
        1 <= childs@.len() <= MAX_FANOUT,
        height >= 1,
        forall|i: int|
            0 <= i < childs@.len() ==> {
                &&& wf(#[trigger] childs@[i].spec_node())
                &&& height_of(childs@[i].spec_node()) == height - 1
                &&& entry_count(childs@[i].spec_node()) >= min_fanout(MAX_FANOUT as int)
            },
        childs_seq(childs@).len() <= u64::MAX,
        wsum(childs_seq(childs@)) <= u64::MAX,
    ensures
        wf(r.spec_node()),
        r.spec_node() is Internal,
        r@ == childs_seq(childs@),
        r.spec_node()->Internal_childs@ == childs@,
        height_of(r.spec_node()) == height,
        entry_count(r.spec_node()) == childs@.len(),
{
    let ghost cs = childs@;
    let mut child_summaries: Vec<Summary> = Vec::new();
    let mut acc = Summary::identity();
    let mut j: usize = 0;
    while j < childs.len()
        invariant
            cs == childs@,
            j <= cs.len(),
            forall|i: int|
                0 <= i < cs.len() ==> {
                    &&& wf(#[trigger] cs[i].spec_node())
                    &&& height_of(cs[i].spec_node()) == height - 1
                    &&& entry_count(cs[i].spec_node()) >= min_fanout(MAX_FANOUT as int)
                },
            childs_seq(cs).len() <= u64::MAX,
            wsum(childs_seq(cs)) <= u64::MAX,
            child_summaries@.len() == j,
            forall|i: int|
                0 <= i < j ==> child_summaries@[i] == summary_of(#[trigger] cs[i].spec_node()),
            acc.count as int == childs_seq(cs.subrange(0, j as int)).len(),
            acc.weight as int == wsum(childs_seq(cs.subrange(0, j as int))),
        decreases cs.len() - j,
    {
        let s = childs[j].0.summary();
        proof {
            assert(wf(cs[j as int].spec_node()));
            assert(cs.subrange(0, j as int + 1) =~= cs.subrange(0, j as int).push(cs[j as int]));
            lemma_childs_seq_push(cs.subrange(0, j as int), cs[j as int]);
            lemma_wsum_concat(
                childs_seq(cs.subrange(0, j as int)),
                node_seq(cs[j as int].spec_node()),
            );
            lemma_childs_seq_decompose(cs, j as int);
            lemma_childs_seq_concat(cs.subrange(0, j as int), cs.subrange(j as int, cs.len() as int));
            assert(cs =~= cs.subrange(0, j as int) + cs.subrange(j as int, cs.len() as int));
            lemma_wsum_concat(
                childs_seq(cs.subrange(0, j as int + 1)),
                childs_seq(cs.subrange(j as int + 1, cs.len() as int)),
            );
            assert(cs =~= cs.subrange(0, j as int + 1) + cs.subrange(j as int + 1, cs.len() as int));
            lemma_childs_seq_concat(
                cs.subrange(0, j as int + 1),
                cs.subrange(j as int + 1, cs.len() as int),
            );
            lemma_wsum_nonneg(childs_seq(cs.subrange(j as int + 1, cs.len() as int)));
        }
        child_summaries.push(s);
        acc = acc.combine(&s);
        j = j + 1;
    }
    proof {
        assert(cs.subrange(0, cs.len() as int) =~= cs);
    }
    BPTree(Arc::new(Node::Internal { height, childs, child_summaries, summary: acc }))
}

/// The outcome of rebuilding one node whose entries may no longer fit:
/// either one node within the fanout bound, or a deterministic even split
/// into two nodes (the left half no larger than the right).
enum Fitted<T, const MAX_FANOUT: usize> {
    One(BPTree<T, MAX_FANOUT>),
    Two(BPTree<T, MAX_FANOUT>, BPTree<T, MAX_FANOUT>),
}

/// Build one leaf from the items if they fit, else split them into two
/// leaves, each within the fanout bounds. An overflow caused by an
/// append (`append` set) leaves the left leaf as full as the bounds
/// allow, so that repeated appends produce densely packed leaves; any
/// other overflow splits evenly, the left half no larger than the right.
fn fit_leaf<T: Summarizable, const MAX_FANOUT: usize>(
    values: Vec<T>,
    append: bool,
) -> (r: Fitted<T, MAX_FANOUT>)
    requires
        2 <= MAX_FANOUT < usize::MAX,
        values@.len() <= 2 * MAX_FANOUT,
        append ==> values@.len() <= MAX_FANOUT + 1,
        wsum(values@) <= u64::MAX,
    ensures
        match r {
            Fitted::One(t) => {
                &&& values@.len() <= MAX_FANOUT
                &&& wf(t.spec_node())
                &&& height_of(t.spec_node()) == 0
                &&& t@ == values@
                &&& entry_count(t.spec_node()) == values@.len()
            },
            Fitted::Two(a, b) => {
                &&& values@.len() > MAX_FANOUT
                &&& wf(a.spec_node()) && wf(b.spec_node())
                &&& height_of(a.spec_node()) == 0 && height_of(b.spec_node()) == 0
                &&& a@ + b@ == values@
                &&& min_fanout(MAX_FANOUT as int) <= entry_count(a.spec_node()) <= MAX_FANOUT
                &&& min_fanout(MAX_FANOUT as int) <= entry_count(b.spec_node()) <= MAX_FANOUT
            },
        },
{
    let ghost vs = values@;
    if values.len() <= MAX_FANOUT {
        Fitted::One(build_leaf(values))
    } else {
        let mid = if append {
            values.len() - MAX_FANOUT / 2
        } else {
            values.len() / 2
        };
        let mut left = values;
        let right = left.split_off(mid);
        proof {
            assert(vs =~= left@ + right@);
            lemma_wsum_concat(left@, right@);
            lemma_wsum_nonneg(left@);
            lemma_wsum_nonneg(right@);
        }
        Fitted::Two(build_leaf(left), build_leaf(right))
    }
}

/// Build one internal node from the children if they fit, else split
/// them into two internal nodes, each within the fanout bounds, packing
/// the left node when the overflow came from an append and splitting
/// evenly otherwise, as [`fit_leaf`] does.
fn fit_internal<T: Summarizable, const MAX_FANOUT: usize>(
    height: u8,
    childs: Vec<BPTree<T, MAX_FANOUT>>,
    append: bool,
) -> (r: Fitted<T, MAX_FANOUT>)
    requires
        2 <= MAX_FANOUT < usize::MAX,
        1 <= childs@.len() <= 2 * MAX_FANOUT,
        append ==> childs@.len() <= MAX_FANOUT + 1,
        height >= 1,
        forall|i: int|
            0 <= i < childs@.len() ==> {
                &&& wf(#[trigger] childs@[i].spec_node())
                &&& height_of(childs@[i].spec_node()) == height - 1
                &&& entry_count(childs@[i].spec_node()) >= min_fanout(MAX_FANOUT as int)
            },
        childs_seq(childs@).len() <= u64::MAX,
        wsum(childs_seq(childs@)) <= u64::MAX,
    ensures
        match r {
            Fitted::One(t) => {
                &&& childs@.len() <= MAX_FANOUT
                &&& wf(t.spec_node())
                &&& height_of(t.spec_node()) == height
                &&& t@ == childs_seq(childs@)
                &&& t.spec_node() is Internal
                &&& t.spec_node()->Internal_childs@ == childs@
                &&& entry_count(t.spec_node()) == childs@.len()
            },
            Fitted::Two(a, b) => {
                &&& childs@.len() > MAX_FANOUT
                &&& wf(a.spec_node()) && wf(b.spec_node())
                &&& height_of(a.spec_node()) == height && height_of(b.spec_node()) == height
                &&& a@ + b@ == childs_seq(childs@)
                &&& min_fanout(MAX_FANOUT as int) <= entry_count(a.spec_node()) <= MAX_FANOUT
                &&& min_fanout(MAX_FANOUT as int) <= entry_count(b.spec_node()) <= MAX_FANOUT
            },
        },
{
    let ghost cs = childs@;
    if childs.len() <= MAX_FANOUT {
        Fitted::One(build_internal(height, childs))
    } else {
        let mid = if append {
            childs.len() - MAX_FANOUT / 2
        } else {
            childs.len() / 2
        };
        let mut left = childs;
        let right = left.split_off(mid);
        proof {
            assert(cs =~= left@ + right@);
            lemma_childs_seq_concat(left@, right@);
            lemma_wsum_concat(childs_seq(left@), childs_seq(right@));
            lemma_wsum_nonneg(childs_seq(left@));
            lemma_wsum_nonneg(childs_seq(right@));
        }
        Fitted::Two(build_internal(height, left), build_internal(height, right))
    }
}

/// Append clones of `src[from..to]` to `dst`; each clone shares its
/// subtree.
fn push_child_range<T: Summarizable, const MAX_FANOUT: usize>(
    dst: &mut Vec<BPTree<T, MAX_FANOUT>>,
    src: &Vec<BPTree<T, MAX_FANOUT>>,
    from: usize,
    to: usize,
)
    requires
        from <= to <= src@.len(),
    ensures
        final(dst)@ == old(dst)@ + src@.subrange(from as int, to as int),
{
    let mut j: usize = from;
    while j < to
        invariant
            from <= j <= to <= src@.len(),
            dst@ =~= old(dst)@ + src@.subrange(from as int, j as int),
        decreases to - j,
    {
        dst.push(src[j].clone());
        proof {
            assert(src@.subrange(from as int, j as int).push(src@[j as int]) =~= src@.subrange(
                from as int,
                j as int + 1,
            ));
            assert(dst@ =~= old(dst)@ + src@.subrange(from as int, j as int + 1));
        }
        j = j + 1;
    }
}

/// Insert `item` at ordinal position `index` below node `n`, descending to
/// the leaf that owns the position (or to the rightmost leaf for an
/// append) and splitting on the way back up whenever a node outgrows the
/// fanout bound.
fn node_insert<T: Summarizable, const MAX_FANOUT: usize>(
    n: &Node<T, MAX_FANOUT>,
    index: usize,
    item: T,
) -> (r: Fitted<T, MAX_FANOUT>)
    requires
        wf(*n),
        index as int <= node_seq(*n).len(),
        node_seq(*n).len() + 1 <= u64::MAX,
        wsum(node_seq(*n)) + item.spec_weight() <= u64::MAX,
    ensures
        match r {
            Fitted::One(t) => {
                &&& wf(t.spec_node())
                &&& height_of(t.spec_node()) == height_of(*n)
                &&& (t.spec_node() is Internal <==> *n is Internal)
                &&& t@ == node_seq(*n).insert(index as int, item)
                &&& entry_count(*n) <= entry_count(t.spec_node()) <= MAX_FANOUT
            },
            Fitted::Two(a, b) => {
                &&& wf(a.spec_node()) && wf(b.spec_node())
                &&& height_of(a.spec_node()) == height_of(*n)
                &&& height_of(b.spec_node()) == height_of(*n)
                &&& a@ + b@ == node_seq(*n).insert(index as int, item)
                &&& min_fanout(MAX_FANOUT as int) <= entry_count(a.spec_node()) <= MAX_FANOUT
                &&& min_fanout(MAX_FANOUT as int) <= entry_count(b.spec_node()) <= MAX_FANOUT
            },
        },
    decreases *n,
{
    let append = (index as u64) == n.summary().count;
    match n {
        Node::Leaf { values, .. } => {
            let mut vals = copy_values(values);
            vals.insert(index, item);
            proof {
                lemma_wsum_insert(values@, index as int, item);
            }
            fit_leaf(vals, append)
        },
        Node::Internal { height, childs, .. } => {
            let ghost cs = childs@;
            let h = *height;
            let mut k: usize = 0;
            let mut skipped: usize = 0;
            loop
                invariant
                    wf(*n),
                    *n is Internal,
                    childs == n->Internal_childs,
                    cs == childs@,
                    h == n->Internal_height,
                    index as int <= node_seq(*n).len(),
                    node_seq(*n).len() + 1 <= u64::MAX,
                    wsum(node_seq(*n)) + item.spec_weight() <= u64::MAX,
                    0 <= k < cs.len(),
                    skipped <= index,
                    skipped as int == childs_seq(cs.subrange(0, k as int)).len(),
                decreases cs.len() - k,
            {
                proof {
                    assert(wf(cs[k as int].spec_node()));
                    lemma_childs_seq_decompose(cs, k as int);
                }
                let ghost pre = childs_seq(cs.subrange(0, k as int));
                let ghost mid = node_seq(cs[k as int].spec_node());
                let ghost post = childs_seq(cs.subrange(k as int + 1, cs.len() as int));
                let child = &childs[k];
                let cnt = child.0.summary().count;
                let is_last = k + 1 == childs.len();
                if ((index - skipped) as u64) < cnt || is_last {
                    proof {
                        if is_last {
                            assert(cs.subrange(k as int + 1, cs.len() as int) =~= Seq::<
                                BPTree<T, MAX_FANOUT>,
                            >::empty());
                            assert(post.len() == 0);
                        }
                        lemma_wsum_concat(pre + mid, post);
                        lemma_wsum_concat(pre, mid);
                        lemma_wsum_nonneg(pre);
                        lemma_wsum_nonneg(post);
                        assert(decreases_to!(*n => *cs[k as int].0));
                    }
                    let j = index - skipped;
                    let outcome = node_insert(&*child.0, j, item);
                    proof {
                        lemma_seq_insert_middle(pre, mid, post, j as int, item);
                        lemma_wsum_insert(node_seq(*n), index as int, item);
                    }
                    let ghost target = node_seq(*n).insert(index as int, item);
                    match outcome {
                        Fitted::One(c) => {
                            let mut ncs: Vec<BPTree<T, MAX_FANOUT>> = Vec::new();
                            push_child_range(&mut ncs, childs, 0, k);
                            ncs.push(c.clone());
                            push_child_range(&mut ncs, childs, k + 1, childs.len());
                            proof {
                                let a = cs.subrange(0, k as int);
                                let bc = seq![c];
                                let d = cs.subrange(k as int + 1, cs.len() as int);
                                assert(ncs@ =~= (a + bc) + d);
                                lemma_childs_seq_concat(a + bc, d);
                                lemma_childs_seq_concat(a, bc);
                                lemma_childs_seq_singleton(c);
                                assert(childs_seq(ncs@) =~= target);
                                assert(forall|i: int|
                                    0 <= i < ncs@.len() ==> #[trigger] ncs@[i] == (if i < k as int {
                                        cs[i]
                                    } else if i == k as int {
                                        c
                                    } else {
                                        cs[i]
                                    }));
                            }
                            return fit_internal(h, ncs, append);
                        },
                        Fitted::Two(c1, c2) => {
                            let mut ncs: Vec<BPTree<T, MAX_FANOUT>> = Vec::new();
                            push_child_range(&mut ncs, childs, 0, k);
                            ncs.push(c1.clone());
                            ncs.push(c2.clone());
                            push_child_range(&mut ncs, childs, k + 1, childs.len());
                            proof {
                                let a = cs.subrange(0, k as int);
                                let bc = seq![c1, c2];
                                let d = cs.subrange(k as int + 1, cs.len() as int);
                                assert(ncs@ =~= (a + bc) + d);
                                lemma_childs_seq_concat(a + bc, d);
                                lemma_childs_seq_concat(a, bc);
                                lemma_childs_seq_pair(c1, c2);
                                assert(childs_seq(ncs@) =~= target);
                                assert(forall|i: int|
                                    0 <= i < ncs@.len() ==> #[trigger] ncs@[i] == (if i < k as int {
                                        cs[i]
                                    } else if i == k as int {
                                        c1
                                    } else if i == k as int + 1 {
                                        c2
                                    } else {
                                        cs[i - 1]
                                    }));
                            }
                            return fit_internal(h, ncs, append);
                        },
                    }
                } else {
                    proof {
                        assert(cs.subrange(0, k as int + 1) =~= cs.subrange(0, k as int).push(
                            cs[k as int],
                        ));
                        lemma_childs_seq_push(cs.subrange(0, k as int), cs[k as int]);
                    }
                    skipped = skipped + (cnt as usize);
                    k = k + 1;
                }
            }
        },
    }
}

impl<T: Summarizable, const MAX_FANOUT: usize> BPTree<T, MAX_FANOUT> {
    /// A tree with `item` inserted at ordinal position `index`; positions
    /// at or after `index` shift one to the right. An `index` beyond the
    /// end of the sequence is out of range and returns the tree unchanged.
    /// The receiver is untouched either way and remains a valid snapshot.
    /// The bounds demanded of the caller keep the cached `u64` count and
    /// weight and the `u8` height fields from overflowing.
    pub fn insert(&self, index: usize, item: T) -> (r: Self)
        requires
            wf_tree(*self),
            self@.len() + 1 <= u64::MAX,
            wsum(self@) + item.spec_weight() <= u64::MAX,
            height_of(self.spec_node()) < u8::MAX,
        ensures
            wf_tree(r),
            height_of(r.spec_node()) <= height_of(self.spec_node()) + 1,
            index as int <= self@.len() ==> r@ == self@.insert(index as int, item),
            index as int > self@.len() ==> r@ == self@,
    {
        if (index as u64) > self.0.summary().count {
            return self.clone();
        }
        let h = self.0.height();
        match node_insert(&*self.0, index, item) {
            Fitted::One(t) => t,
            Fitted::Two(a, b) => {
                proof {
                    lemma_childs_seq_pair(a, b);
                    lemma_wsum_insert(self@, index as int, item);
                }
                let ghost ga = a;
                let ghost gb = b;
                let mut roots: Vec<BPTree<T, MAX_FANOUT>> = Vec::new();
                roots.push(a);
                roots.push(b);
                proof {
                    assert(roots@ =~= seq![ga, gb]);
                }
                build_internal(h + 1, roots)
            },
        }
    }
}

/// The outcome of deleting below a node: either a rebuilt node of the
/// same height, or nothing at all because the subtree's only item left.
enum Pruned<T, const MAX_FANOUT: usize> {
    Kept(BPTree<T, MAX_FANOUT>),
    Emptied,
}

/// Concatenate the contents of two same-height nodes into one node if the
/// combined entries fit the fanout bound, else redistribute them evenly
/// into two nodes that both meet the bounds.
fn rebalance_pair<T: Summarizable, const MAX_FANOUT: usize>(
    left: &BPTree<T, MAX_FANOUT>,
    right: &BPTree<T, MAX_FANOUT>,
) -> (r: Fitted<T, MAX_FANOUT>)
    requires
        2 <= MAX_FANOUT < usize::MAX,
        wf(left.spec_node()),
        wf(right.spec_node()),
        height_of(left.spec_node()) == height_of(right.spec_node()),
        entry_count(left.spec_node()) + entry_count(right.spec_node()) <= 2 * MAX_FANOUT,
        left@.len() + right@.len() <= u64::MAX,
        wsum(left@) + wsum(right@) <= u64::MAX,
    ensures
        match r {
            Fitted::One(t) => {
                &&& wf(t.spec_node())
                &&& height_of(t.spec_node()) == height_of(left.spec_node())
                &&& t@ == left@ + right@
                &&& entry_count(t.spec_node()) == entry_count(left.spec_node()) + entry_count(
                    right.spec_node(),
                )
                &&& entry_count(t.spec_node()) <= MAX_FANOUT
            },
            Fitted::Two(a, b) => {
                &&& entry_count(left.spec_node()) + entry_count(right.spec_node()) > MAX_FANOUT
                &&& wf(a.spec_node()) && wf(b.spec_node())
                &&& height_of(a.spec_node()) == height_of(left.spec_node())
                &&& height_of(b.spec_node()) == height_of(left.spec_node())
                &&& a@ + b@ == left@ + right@
                &&& min_fanout(MAX_FANOUT as int) <= entry_count(a.spec_node()) <= MAX_FANOUT
                &&& min_fanout(MAX_FANOUT as int) <= entry_count(b.spec_node()) <= MAX_FANOUT
            },
        },
{
    match (&*left.0, &*right.0) {
        (Node::Leaf { values: lv, .. }, Node::Leaf { values: rv, .. }) => {
            let mut vv = copy_values(lv);
            let mut vv2 = copy_values(rv);
            vv.append(&mut vv2);
            proof {
                lemma_wsum_concat(lv@, rv@);
            }
            fit_leaf(vv, false)
        },
        (Node::Internal { height, childs: lc, .. }, Node::Internal { childs: rc, .. }) => {
            let mut cc: Vec<BPTree<T, MAX_FANOUT>> = Vec::new();
            push_child_range(&mut cc, lc, 0, lc.len());
            push_child_range(&mut cc, rc, 0, rc.len());
            proof {
                assert(lc@.subrange(0, lc@.len() as int) =~= lc@);
                assert(rc@.subrange(0, rc@.len() as int) =~= rc@);
                assert(cc@ =~= lc@ + rc@);
                lemma_childs_seq_concat(lc@, rc@);
                lemma_wsum_concat(childs_seq(lc@), childs_seq(rc@));
                assert(forall|i: int|
                    0 <= i < cc@.len() ==> #[trigger] cc@[i] == (if i < lc@.len() {
                        lc@[i]
                    } else {
                        rc@[i - lc@.len()]
                    }));
            }
            fit_internal(*height, cc, false)
        },
        _ => {
            proof {
                assert(false);
            }
            Fitted::One(left.clone())
        },
    }
}

/// Rebuild an internal node of height `h` after child `k` was rebuilt as
/// the possibly underfull `c`: merge or redistribute `c` with its right
/// sibling, then rebuild the parent around the outcome.
fn merge_child_right<T: Summarizable, const MAX_FANOUT: usize>(
    h: u8,
    childs: &Vec<BPTree<T, MAX_FANOUT>>,
    k: usize,
    c: &BPTree<T, MAX_FANOUT>,
    Ghost(target): Ghost<Seq<T>>,
) -> (t: BPTree<T, MAX_FANOUT>)
    requires
        2 <= MAX_FANOUT < usize::MAX,
        h >= 1,
        k + 1 < childs@.len(),
        childs@.len() <= MAX_FANOUT,
        forall|i: int|
            0 <= i < childs@.len() ==> {
                &&& wf(#[trigger] childs@[i].spec_node())
                &&& height_of(childs@[i].spec_node()) == h - 1
                &&& entry_count(childs@[i].spec_node()) >= min_fanout(MAX_FANOUT as int)
            },
        wf(c.spec_node()),
        height_of(c.spec_node()) == h - 1,
        entry_count(c.spec_node()) >= 1,
        target == childs_seq(childs@.subrange(0, k as int)) + (c@ + node_seq(
            childs@[k as int + 1].spec_node(),
        )) + childs_seq(childs@.subrange(k as int + 2, childs@.len() as int)),
        target.len() <= u64::MAX,
        wsum(target) <= u64::MAX,
    ensures
        wf(t.spec_node()),
        height_of(t.spec_node()) == h,
        t@ == target,
        childs@.len() - 1 <= entry_count(t.spec_node()) <= childs@.len(),
{
    let ghost cs = childs@;
    let ghost a = cs.subrange(0, k as int);
    let ghost ssib = node_seq(cs[k as int + 1].spec_node());
    let ghost d2 = cs.subrange(k as int + 2, cs.len() as int);
    proof {
        assert(wf(cs[k as int + 1].spec_node()));
        lemma_wsum_concat(childs_seq(a) + (c@ + ssib), childs_seq(d2));
        lemma_wsum_concat(childs_seq(a), c@ + ssib);
        lemma_wsum_concat(c@, ssib);
        lemma_wsum_nonneg(childs_seq(a));
        lemma_wsum_nonneg(childs_seq(d2));
    }
    let sib = &childs[k + 1];
    match rebalance_pair(c, sib) {
        Fitted::One(m) => {
            let mut ncs: Vec<BPTree<T, MAX_FANOUT>> = Vec::new();
            push_child_range(&mut ncs, childs, 0, k);
            ncs.push(m.clone());
            push_child_range(&mut ncs, childs, k + 2, childs.len());
            proof {
                let bc = seq![m];
                assert(ncs@ =~= (a + bc) + d2);
                lemma_childs_seq_concat(a + bc, d2);
                lemma_childs_seq_concat(a, bc);
                lemma_childs_seq_singleton(m);
                assert(childs_seq(ncs@) =~= target);
                assert(forall|i: int|
                    0 <= i < ncs@.len() ==> #[trigger] ncs@[i] == (if i < k as int {
                        cs[i]
                    } else if i == k as int {
                        m
                    } else {
                        cs[i + 1]
                    }));
            }
            build_internal(h, ncs)
        },
        Fitted::Two(m1, m2) => {
            let mut ncs: Vec<BPTree<T, MAX_FANOUT>> = Vec::new();
            push_child_range(&mut ncs, childs, 0, k);
            ncs.push(m1.clone());
            ncs.push(m2.clone());
            push_child_range(&mut ncs, childs, k + 2, childs.len());
            proof {
                let bc = seq![m1, m2];
                assert(ncs@ =~= (a + bc) + d2);
                lemma_childs_seq_concat(a + bc, d2);
                lemma_childs_seq_concat(a, bc);
                lemma_childs_seq_pair(m1, m2);
                assert(childs_seq(ncs@) =~= target);
                assert(forall|i: int|
                    0 <= i < ncs@.len() ==> #[trigger] ncs@[i] == (if i < k as int {
                        cs[i]
                    } else if i == k as int {
                        m1
                    } else if i == k as int + 1 {
                        m2
                    } else {
                        cs[i]
                    }));
            }
            build_internal(h, ncs)
        },
    }
}

/// Rebuild an internal node of height `h` after its last child was
/// rebuilt as the possibly underfull `c`: merge or redistribute `c` with
/// its left sibling, then rebuild the parent around the outcome.
fn merge_child_left<T: Summarizable, const MAX_FANOUT: usize>(
    h: u8,
    childs: &Vec<BPTree<T, MAX_FANOUT>>,
    k: usize,
    c: &BPTree<T, MAX_FANOUT>,
    Ghost(target): Ghost<Seq<T>>,
) -> (t: BPTree<T, MAX_FANOUT>)
    requires
        2 <= MAX_FANOUT < usize::MAX,
        h >= 1,
        1 <= k,
        k + 1 == childs@.len(),
        childs@.len() <= MAX_FANOUT,
        forall|i: int|
            0 <= i < childs@.len() ==> {
                &&& wf(#[trigger] childs@[i].spec_node())
                &&& height_of(childs@[i].spec_node()) == h - 1
                &&& entry_count(childs@[i].spec_node()) >= min_fanout(MAX_FANOUT as int)
            },
        wf(c.spec_node()),
        height_of(c.spec_node()) == h - 1,
        entry_count(c.spec_node()) >= 1,
        target == childs_seq(childs@.subrange(0, k as int - 1)) + (node_seq(
            childs@[k as int - 1].spec_node(),
        ) + c@),
        target.len() <= u64::MAX,
        wsum(target) <= u64::MAX,
    ensures
        wf(t.spec_node()),
        height_of(t.spec_node()) == h,
        t@ == target,
        childs@.len() - 1 <= entry_count(t.spec_node()) <= childs@.len(),
{
    let ghost cs = childs@;
    let ghost a2 = cs.subrange(0, k as int - 1);
    let ghost slo = node_seq(cs[k as int - 1].spec_node());
    proof {
        assert(wf(cs[k as int - 1].spec_node()));
        lemma_wsum_concat(childs_seq(a2), slo + c@);
        lemma_wsum_concat(slo, c@);
        lemma_wsum_nonneg(childs_seq(a2));
    }
    let sib = &childs[k - 1];
    match rebalance_pair(sib, c) {
        Fitted::One(m) => {
            let mut ncs: Vec<BPTree<T, MAX_FANOUT>> = Vec::new();
            push_child_range(&mut ncs, childs, 0, k - 1);
            ncs.push(m.clone());
            proof {
                let bc = seq![m];
                assert(ncs@ =~= a2 + bc);
                lemma_childs_seq_concat(a2, bc);
                lemma_childs_seq_singleton(m);
                assert(childs_seq(ncs@) =~= target);
                assert(forall|i: int|
                    0 <= i < ncs@.len() ==> #[trigger] ncs@[i] == (if i < k as int - 1 {
                        cs[i]
                    } else {
                        m
                    }));
            }
            build_internal(h, ncs)
        },
        Fitted::Two(m1, m2) => {
            let mut ncs: Vec<BPTree<T, MAX_FANOUT>> = Vec::new();
            push_child_range(&mut ncs, childs, 0, k - 1);
            ncs.push(m1.clone());
            ncs.push(m2.clone());
            proof {
                let bc = seq![m1, m2];
                assert(ncs@ =~= a2 + bc);
                lemma_childs_seq_concat(a2, bc);
                lemma_childs_seq_pair(m1, m2);
                assert(childs_seq(ncs@) =~= target);
                assert(forall|i: int|
                    0 <= i < ncs@.len() ==> #[trigger] ncs@[i] == (if i < k as int - 1 {
                        cs[i]
                    } else if i == k as int - 1 {
                        m1
                    } else {
                        m2
                    }));
            }
            build_internal(h, ncs)
        },
    }
}

/// Delete the item at ordinal position `index` below node `n`, descending
/// to the leaf that owns the position; on the way back up an underfull
/// node is merged with an adjacent sibling when their contents fit in one
/// node, and otherwise the two redistribute their contents evenly.
#[verifier::rlimit(100)]
fn node_delete<T: Summarizable, const MAX_FANOUT: usize>(
    n: &Node<T, MAX_FANOUT>,
    index: usize,
) -> (r: Pruned<T, MAX_FANOUT>)
    requires
        wf(*n),
        (index as int) < node_seq(*n).len(),
        *n is Internal ==> (entry_count(*n) >= 2 || entry_count(*n) >= min_fanout(
            MAX_FANOUT as int,
        )),
    ensures
        match r {
            Pruned::Emptied => node_seq(*n).len() == 1,
            Pruned::Kept(t) => {
                &&& wf(t.spec_node())
                &&& height_of(t.spec_node()) == height_of(*n)
                &&& t@ == node_seq(*n).remove(index as int)
                &&& entry_count(t.spec_node()) >= 1
                &&& entry_count(t.spec_node()) >= entry_count(*n) - 1
            },
        },
    decreases *n,
{
    match n {
        Node::Leaf { values, .. } => {
            let mut vals = copy_values(values);
            vals.remove(index);
            if vals.len() == 0 {
                Pruned::Emptied
            } else {
                proof {
                    lemma_wsum_remove(values@, index as int);
                }
                Pruned::Kept(build_leaf(vals))
            }
        },
        Node::Internal { height, childs, .. } => {
            let ghost cs = childs@;
            let h = *height;
            let mut k: usize = 0;
            let mut skipped: usize = 0;
            loop
                invariant
                    wf(*n),
                    *n is Internal,
                    childs == n->Internal_childs,
                    cs == childs@,
                    h == n->Internal_height,
                    (index as int) < node_seq(*n).len(),
                    entry_count(*n) >= 2 || entry_count(*n) >= min_fanout(MAX_FANOUT as int),
                    0 <= k < cs.len(),
                    skipped <= index,
                    skipped as int == childs_seq(cs.subrange(0, k as int)).len(),
                decreases cs.len() - k,
            {
                proof {
                    assert(wf(cs[k as int].spec_node()));
                    lemma_childs_seq_decompose(cs, k as int);
                    if k as int == cs.len() - 1 {
                        assert(cs.subrange(k as int + 1, cs.len() as int) =~= Seq::<
                            BPTree<T, MAX_FANOUT>,
                        >::empty());
                    }
                }
                let ghost pre = childs_seq(cs.subrange(0, k as int));
                let ghost mid = node_seq(cs[k as int].spec_node());
                let ghost post = childs_seq(cs.subrange(k as int + 1, cs.len() as int));
                let child = &childs[k];
                let cnt = child.0.summary().count;
                if ((index - skipped) as u64) < cnt {
                    let j = index - skipped;
                    proof {
                        assert(decreases_to!(*n => *cs[k as int].0));
                        lemma_seq_remove_middle(pre, mid, post, j as int);
                        lemma_wsum_remove(node_seq(*n), index as int);
                        lemma_wsum_concat(pre + mid, post);
                        lemma_wsum_concat(pre, mid);
                        lemma_wsum_nonneg(pre);
                        lemma_wsum_nonneg(post);
                    }
                    let ghost target = node_seq(*n).remove(index as int);
                    match node_delete(&*child.0, j) {
                        Pruned::Emptied => {
                            proof {
                                assert(mid.remove(j as int) =~= Seq::<T>::empty());
                                assert(target =~= pre + post);
                            }
                            if childs.len() == 1 {
                                proof {
                                    assert(cs.subrange(0, 0) =~= Seq::<
                                        BPTree<T, MAX_FANOUT>,
                                    >::empty());
                                    assert(node_seq(*n) =~= mid);
                                }
                                return Pruned::Emptied;
                            }
                            let mut ncs: Vec<BPTree<T, MAX_FANOUT>> = Vec::new();
                            push_child_range(&mut ncs, childs, 0, k);
                            push_child_range(&mut ncs, childs, k + 1, childs.len());
                            proof {
                                let a = cs.subrange(0, k as int);
                                let d = cs.subrange(k as int + 1, cs.len() as int);
                                assert(ncs@ =~= a + d);
                                lemma_childs_seq_concat(a, d);
                                assert(childs_seq(ncs@) =~= target);
                                assert(forall|i: int|
                                    0 <= i < ncs@.len() ==> #[trigger] ncs@[i] == (if i < k as int {
                                        cs[i]
                                    } else {
                                        cs[i + 1]
                                    }));
                            }
                            return Pruned::Kept(build_internal(h, ncs));
                        },
                        Pruned::Kept(c) => {
                            let ghost target_mid = mid.remove(j as int);
                            let ce = c.0.entries();
                            if ce >= MAX_FANOUT / 2 {
                                let mut ncs: Vec<BPTree<T, MAX_FANOUT>> = Vec::new();
                                push_child_range(&mut ncs, childs, 0, k);
                                ncs.push(c.clone());
                                push_child_range(&mut ncs, childs, k + 1, childs.len());
                                proof {
                                    let a = cs.subrange(0, k as int);
                                    let bc = seq![c];
                                    let d = cs.subrange(k as int + 1, cs.len() as int);
                                    assert(ncs@ =~= (a + bc) + d);
                                    lemma_childs_seq_concat(a + bc, d);
                                    lemma_childs_seq_concat(a, bc);
                                    lemma_childs_seq_singleton(c);
                                    assert(childs_seq(ncs@) =~= target);
                                    assert(forall|i: int|
                                        0 <= i < ncs@.len() ==> #[trigger] ncs@[i] == (if i
                                            < k as int {
                                            cs[i]
                                        } else if i == k as int {
                                            c
                                        } else {
                                            cs[i]
                                        }));
                                }
                                return Pruned::Kept(build_internal(h, ncs));
                            } else {
                                proof {
                                    if cs.len() < 2 {
                                        assert(entry_count(*n) == 1);
                                        assert(1 >= min_fanout(MAX_FANOUT as int));
                                        assert(entry_count(c.spec_node()) >= 1);
                                        assert(false);
                                    }
                                }
                                if k + 1 < childs.len() {
                                    proof {
                                        assert(wf(cs[k as int + 1].spec_node()));
                                        lemma_childs_seq_decompose_pair(cs, k as int);
                                        lemma_seq_remove_middle(
                                            pre,
                                            mid,
                                            node_seq(cs[k as int + 1].spec_node()) + childs_seq(
                                                cs.subrange(k as int + 2, cs.len() as int),
                                            ),
                                            j as int,
                                        );
                                        assert(target =~= pre + (target_mid + node_seq(
                                            cs[k as int + 1].spec_node(),
                                        )) + childs_seq(cs.subrange(k as int + 2, cs.len() as int)));
                                    }
                                    return Pruned::Kept(
                                        merge_child_right(h, childs, k, &c, Ghost(target)),
                                    );
                                } else {
                                    let ghost a2 = cs.subrange(0, k as int - 1);
                                    let ghost slo = node_seq(cs[k as int - 1].spec_node());
                                    proof {
                                        assert(wf(cs[k as int - 1].spec_node()));
                                        assert(post.len() == 0);
                                        assert(cs.subrange(k as int + 1, cs.len() as int) =~= Seq::<
                                            BPTree<T, MAX_FANOUT>,
                                        >::empty());
                                        lemma_childs_seq_concat(a2, cs.subrange(
                                            k as int - 1,
                                            k as int,
                                        ));
                                        assert(cs.subrange(0, k as int) =~= a2 + cs.subrange(
                                            k as int - 1,
                                            k as int,
                                        ));
                                        assert(cs.subrange(k as int - 1, k as int) =~= seq![
                                            cs[k as int - 1],
                                        ]);
                                        lemma_childs_seq_singleton(cs[k as int - 1]);
                                        assert(pre =~= childs_seq(a2) + slo);
                                        lemma_seq_remove_middle(
                                            childs_seq(a2) + slo,
                                            mid,
                                            post,
                                            j as int,
                                        );
                                        assert(target =~= childs_seq(a2) + (slo + target_mid));
                                    }
                                    return Pruned::Kept(
                                        merge_child_left(h, childs, k, &c, Ghost(target)),
                                    );
                                }
                            }
                        },
                    }
                } else {
                    proof {
                        assert(cs.subrange(0, k as int + 1) =~= cs.subrange(0, k as int).push(
                            cs[k as int],
                        ));
                        lemma_childs_seq_push(cs.subrange(0, k as int), cs[k as int]);
                        if k as int + 1 == cs.len() {
                            assert(false);
                        }
                    }
                    skipped = skipped + (cnt as usize);
                    k = k + 1;
                }
            }
        },
    }
}

impl<T: Summarizable, const MAX_FANOUT: usize> BPTree<T, MAX_FANOUT> {
    /// Partition this node's entries at position `at`: the left tree gets
    /// the entries before `at`, the right tree the rest, and each half's
    /// summary is recomputed. The two halves may sit below the
    /// `min_fanout` bound; they are meant to be reattached by a caller
    /// that restores the bounds.
    pub fn split(&self, at: usize) -> (r: (Self, Self))
        requires
            wf(self.spec_node()),
            1 <= at,
            (at as int) < entry_count(self.spec_node()),
        ensures
            wf(r.0.spec_node()),
            wf(r.1.spec_node()),
            height_of(r.0.spec_node()) == height_of(self.spec_node()),
            height_of(r.1.spec_node()) == height_of(self.spec_node()),
            r.0@ + r.1@ == self@,
            self.spec_node() is Leaf ==> r.0@ == self@.subrange(0, at as int),
            self.spec_node() is Internal ==> r.0@ == childs_seq(
                self.spec_node()->Internal_childs@.subrange(0, at as int),
            ),
            entry_count(r.0.spec_node()) == at,
            entry_count(r.1.spec_node()) == entry_count(self.spec_node()) - at,
    {
        match &*self.0 {
            Node::Leaf { values, .. } => {
                let mut left = copy_values(values);
                let right = left.split_off(at);
                proof {
                    assert(values@ =~= left@ + right@);
                    lemma_wsum_concat(left@, right@);
                    lemma_wsum_nonneg(left@);
                    lemma_wsum_nonneg(right@);
                }
                (build_leaf(left), build_leaf(right))
            },
            Node::Internal { height, childs, .. } => {
                let mut left = copy_childs(childs);
                let right = left.split_off(at);
                proof {
                    assert(childs@ =~= left@ + right@);
                    lemma_childs_seq_concat(left@, right@);
                    lemma_wsum_concat(childs_seq(left@), childs_seq(right@));
                    lemma_wsum_nonneg(childs_seq(left@));
                    lemma_wsum_nonneg(childs_seq(right@));
                    assert(forall|i: int|
                        0 <= i < left@.len() ==> #[trigger] left@[i] == childs@[i]);
                    assert(forall|i: int|
                        0 <= i < right@.len() ==> #[trigger] right@[i] == childs@[i + at]);
                }
                (build_internal(*height, left), build_internal(*height, right))
            },
        }
    }

    /// Concatenate the contents of two same-height trees into one node.
    /// The entries must fit within the fanout bound; merging trees of
    /// different heights is a contract violation, not a runtime error.
    pub fn merge(a: &Self, b: &Self) -> (r: Self)
        requires
            wf(a.spec_node()),
            wf(b.spec_node()),
            height_of(a.spec_node()) == height_of(b.spec_node()),
            entry_count(a.spec_node()) + entry_count(b.spec_node()) <= MAX_FANOUT,
            a@.len() + b@.len() <= u64::MAX,
            wsum(a@) + wsum(b@) <= u64::MAX,
        ensures
            wf(r.spec_node()),
            height_of(r.spec_node()) == height_of(a.spec_node()),
            r@ == a@ + b@,
            entry_count(r.spec_node()) == entry_count(a.spec_node()) + entry_count(b.spec_node()),
    {
        match rebalance_pair(a, b) {
            Fitted::One(t) => t,
            Fitted::Two(t, _) => {
                proof {
                    assert(false);
                }
                t
            },
        }
    }

    /// A tree with the item at ordinal position `index` removed; positions
    /// after `index` shift one to the left. An `index` beyond the end of
    /// the sequence is out of range and returns the tree unchanged. The
    /// receiver is untouched either way and remains a valid snapshot.
    pub fn delete(&self, index: usize) -> (r: Self)
        requires
            wf_tree(*self),
        ensures
            wf_tree(r),
            height_of(r.spec_node()) <= height_of(self.spec_node()),
            (index as int) < self@.len() ==> r@ == self@.remove(index as int),
            index as int >= self@.len() ==> r@ == self@,
    {
        if (index as u64) >= self.0.summary().count {
            return self.clone();
        }
        match node_delete(&*self.0, index) {
            Pruned::Emptied => {
                proof {
                    assert(self@.remove(index as int) =~= Seq::<T>::empty());
                }
                Self::new()
            },
            Pruned::Kept(t0) => {
                let mut t = t0;
                loop
                    invariant
                        (index as int) < self@.len(),
                        wf(t.spec_node()),
                        height_of(t.spec_node()) <= height_of(self.spec_node()),
                        t@ == self@.remove(index as int),
                    decreases height_of(t.spec_node()),
                {
                    if !t.0.is_leaf() && t.0.entries() == 1 {
                        let c = match &*t.0 {
                            Node::Internal { childs, .. } => {
                                proof {
                                    assert(wf(childs@[0].spec_node()));
                                    lemma_childs_seq_decompose(childs@, 0);
                                    assert(childs@.subrange(0, 0) =~= Seq::<
                                        BPTree<T, MAX_FANOUT>,
                                    >::empty());
                                    assert(childs@.subrange(1, childs@.len() as int) =~= Seq::<
                                        BPTree<T, MAX_FANOUT>,
                                    >::empty());
                                    assert(node_seq(t.spec_node()) =~= node_seq(
                                        childs@[0].spec_node(),
                                    ));
                                }
                                childs[0].clone()
                            },
                            Node::Leaf { .. } => {
                                proof {
                                    assert(false);
                                }
                                t.clone()
                            },
                        };
                        t = c;
                    } else {
                        return t;
                    }
                }
            },
        }
    }
}

} // verus!
