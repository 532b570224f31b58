//! The tree itself: a generic B+ tree kept as an ordered sequence of items.
//! Values live only in the leaf nodes; internal nodes hold child subtrees
//! together with a cached summary for each child. A tree is modelled by the
//! sequence of items it holds, in order, and every operation's contract is
//! stated over that sequence.

use std::sync::Arc;
use vstd::prelude::*;

use crate::summary::Summarizable;
use crate::summary::Summary;

verus! {

/// A shared, reference-counted handle to the root node of a tree. Several
/// handles may share one node: edits build new nodes along the affected
/// path and reuse every other subtree, so older handles stay valid.
pub struct BPTree<T, const MAX_FANOUT: usize>(pub Arc<Node<T, MAX_FANOUT>>);

/// One storage unit of the tree: either a leaf holding the items of one
/// contiguous run of the sequence, or an internal node holding same-height
/// child subtrees in order, with each child's summary cached beside it.
pub enum Node<T, const MAX_FANOUT: usize> {
    Leaf { values: Vec<T>, summary: Summary },
    Internal {
        height: u8,
        childs: Vec<BPTree<T, MAX_FANOUT>>,
        child_summaries: Vec<Summary>,
        summary: Summary,
    },
}

/// The smallest entry count a non-root node may keep: half the fanout,
/// rounded down.
pub open spec fn min_fanout(max: int) -> int {
    max / 2
}

impl<T, const MAX_FANOUT: usize> BPTree<T, MAX_FANOUT> {
    /// The node this handle points at.
    pub open spec fn spec_node(self) -> Node<T, MAX_FANOUT> {
        *self.0
    }
}

impl<T, const MAX_FANOUT: usize> View for BPTree<T, MAX_FANOUT> {
    type V = Seq<T>;

    open spec fn view(&self) -> Seq<T> {
        node_seq(self.spec_node())
    }
}

/// The stored height of a node: leaves sit at height zero.
pub open spec fn height_of<T, const MAX_FANOUT: usize>(n: Node<T, MAX_FANOUT>) -> int {
    match n {
        Node::Leaf { .. } => 0,
        Node::Internal { height, .. } => height as int,
    }
}

/// How many entries a node holds: items for a leaf, children for an
/// internal node.
pub open spec fn entry_count<T, const MAX_FANOUT: usize>(n: Node<T, MAX_FANOUT>) -> int {
    match n {
        Node::Leaf { values, .. } => values@.len() as int,
        Node::Internal { childs, .. } => childs@.len() as int,
    }
}

/// The cached summary stored in a node.
pub open spec fn summary_of<T, const MAX_FANOUT: usize>(n: Node<T, MAX_FANOUT>) -> Summary {
    match n {
        Node::Leaf { summary, .. } => summary,
        Node::Internal { summary, .. } => summary,
    }
}

/// The sequence of items a node holds, in order.
pub open spec fn node_seq<T, const MAX_FANOUT: usize>(n: Node<T, MAX_FANOUT>) -> Seq<T>
    decreases n,
{
    match n {
        Node::Leaf { values, .. } => values@,
        Node::Internal { childs, .. } => childs_seq(childs@),
    }
}

/// The concatenation, in order, of the sequences held by a run of child
/// subtrees.
pub open spec fn childs_seq<T, const MAX_FANOUT: usize>(cs: Seq<BPTree<T, MAX_FANOUT>>) -> Seq<T>
    decreases cs,
{
    if cs.len() == 0 {
        Seq::empty()
    } else {
        childs_seq(cs.drop_last()) + node_seq(cs.last().spec_node())
    }
}

/// The exact total weight of a sequence of items, as an unbounded integer.
pub open spec fn wsum<T: Summarizable>(s: Seq<T>) -> int
    decreases s.len(),
{
    if s.len() == 0 {
        0
    } else {
        wsum(s.drop_last()) + s.last().spec_weight()
    }
}

/// Well-formedness of a node and everything below it:
/// - a leaf holds at most `MAX_FANOUT` items;
/// - an internal node holds between one and `MAX_FANOUT` children, all of
///   the height just below its own, each meeting the `min_fanout` lower
///   bound, with `child_summaries` mirroring each child's cached summary;
/// - every cached summary states exactly the item count and total weight
///   of the node's subtree.
pub open spec fn wf<T: Summarizable, const MAX_FANOUT: usize>(n: Node<T, MAX_FANOUT>) -> bool
    decreases n,
{
    &&& MAX_FANOUT >= 2
    &&& MAX_FANOUT < usize::MAX
    &&& match n {
        Node::Leaf { values, summary } => {
            &&& values@.len() <= MAX_FANOUT
            &&& summary.count as int == values@.len()
            &&& summary.weight as int == wsum(values@)
        },
        Node::Internal { height, childs, child_summaries, summary } => {
            &&& 1 <= childs@.len() <= MAX_FANOUT
            &&& child_summaries@.len() == childs@.len()
            &&& height >= 1
            &&& forall|i: int|
                0 <= i < childs@.len() ==> {
                    &&& wf(#[trigger] childs@[i].spec_node())
                    &&& height_of(childs@[i].spec_node()) == height - 1
                    &&& entry_count(childs@[i].spec_node()) >= min_fanout(MAX_FANOUT as int)
                    &&& child_summaries@[i] == summary_of(childs@[i].spec_node())
                }
            &&& summary.count as int == childs_seq(childs@).len()
            &&& summary.weight as int == wsum(childs_seq(childs@))
        },
    }
}

/// Well-formedness of a whole tree: the root node is well formed and, if
/// it is internal, it kept at least two children (a root with a single
/// child is collapsed into that child when an edit produces it).
pub open spec fn wf_tree<T: Summarizable, const MAX_FANOUT: usize>(
    t: BPTree<T, MAX_FANOUT>,
) -> bool {
    &&& wf(t.spec_node())
    &&& t.spec_node() is Internal ==> entry_count(t.spec_node()) >= 2
}

/// Appending one more child extends the concatenated sequence by that
/// child's items.
pub proof fn lemma_childs_seq_push<T, const MAX_FANOUT: usize>(
    cs: Seq<BPTree<T, MAX_FANOUT>>,
    c: BPTree<T, MAX_FANOUT>,
)
    ensures
        childs_seq(cs.push(c)) == childs_seq(cs) + node_seq(c.spec_node()),
{
    assert(cs.push(c).drop_last() =~= cs);
    assert(cs.push(c).last() == c);
}

/// Concatenating two runs of children concatenates their item sequences.
pub proof fn lemma_childs_seq_concat<T, const MAX_FANOUT: usize>(
    a: Seq<BPTree<T, MAX_FANOUT>>,
    b: Seq<BPTree<T, MAX_FANOUT>>,
)
    ensures
        childs_seq(a + b) == childs_seq(a) + childs_seq(b),
    decreases b.len(),
{
    if b.len() == 0 {
        assert(a + b =~= a);
        assert(childs_seq(a) + childs_seq(b) =~= childs_seq(a));
    } else {
        lemma_childs_seq_concat(a, b.drop_last());
        assert((a + b).drop_last() =~= a + b.drop_last());
        assert((a + b).last() == b.last());
        assert(childs_seq(a) + (childs_seq(b.drop_last()) + node_seq(b.last().spec_node())) =~= (
        childs_seq(a) + childs_seq(b.drop_last())) + node_seq(b.last().spec_node()));
    }
}

/// Splitting a run of children at position `k` splits the concatenated
/// item sequence into the part before child `k`, child `k`'s own items,
/// and the part after.
pub proof fn lemma_childs_seq_decompose<T, const MAX_FANOUT: usize>(
    cs: Seq<BPTree<T, MAX_FANOUT>>,
    k: int,
)
    requires
        0 <= k < cs.len(),
    ensures
        childs_seq(cs) == childs_seq(cs.subrange(0, k)) + node_seq(cs[k].spec_node()) + childs_seq(
            cs.subrange(k + 1, cs.len() as int),
        ),
{
    let left = cs.subrange(0, k);
    let mid = cs.subrange(k, k + 1);
    let right = cs.subrange(k + 1, cs.len() as int);
    assert(cs =~= (left + mid) + right);
    lemma_childs_seq_concat(left + mid, right);
    lemma_childs_seq_concat(left, mid);
    assert(mid.len() == 1);
    assert(mid.drop_last() =~= Seq::<BPTree<T, MAX_FANOUT>>::empty());
    assert(mid.last() == mid[0] && mid[0] == cs[k]);
    assert(childs_seq(mid) == childs_seq(mid.drop_last()) + node_seq(mid.last().spec_node()));
    assert(childs_seq(mid.drop_last()) == Seq::<T>::empty());
    assert(Seq::<T>::empty() + node_seq(cs[k].spec_node()) =~= node_seq(cs[k].spec_node()));
    assert((childs_seq(left) + node_seq(cs[k].spec_node())) + childs_seq(right) =~= childs_seq(left)
        + node_seq(cs[k].spec_node()) + childs_seq(right));
}

/// A single child contributes exactly its own items.
pub proof fn lemma_childs_seq_singleton<T, const MAX_FANOUT: usize>(c: BPTree<T, MAX_FANOUT>)
    ensures
        childs_seq(seq![c]) == node_seq(c.spec_node()),
{
    assert(seq![c].len() == 1);
    assert(seq![c].drop_last() =~= Seq::<BPTree<T, MAX_FANOUT>>::empty());
    assert(childs_seq(seq![c].drop_last()) == Seq::<T>::empty());
    assert(seq![c].last() == c);
    assert(Seq::<T>::empty() + node_seq(c.spec_node()) =~= node_seq(c.spec_node()));
}

/// Two children contribute their items in order.
pub proof fn lemma_childs_seq_pair<T, const MAX_FANOUT: usize>(
    a: BPTree<T, MAX_FANOUT>,
    b: BPTree<T, MAX_FANOUT>,
)
    ensures
        childs_seq(seq![a, b]) == node_seq(a.spec_node()) + node_seq(b.spec_node()),
{
    assert(seq![a, b] =~= seq![a].push(b));
    lemma_childs_seq_push(seq![a], b);
    lemma_childs_seq_singleton(a);
}

/// Two adjacent children contribute their items between what comes before
/// and after them.
pub proof fn lemma_childs_seq_decompose_pair<T, const MAX_FANOUT: usize>(
    cs: Seq<BPTree<T, MAX_FANOUT>>,
    lo: int,
)
    requires
        0 <= lo,
        lo + 1 < cs.len(),
    ensures
        childs_seq(cs) == childs_seq(cs.subrange(0, lo)) + (node_seq(cs[lo].spec_node())
            + node_seq(cs[lo + 1].spec_node())) + childs_seq(
            cs.subrange(lo + 2, cs.len() as int),
        ),
{
    let a = cs.subrange(0, lo);
    let pair = seq![cs[lo], cs[lo + 1]];
    let d = cs.subrange(lo + 2, cs.len() as int);
    assert(cs =~= (a + pair) + d);
    lemma_childs_seq_concat(a + pair, d);
    lemma_childs_seq_concat(a, pair);
    lemma_childs_seq_pair(cs[lo], cs[lo + 1]);
}

/// The weight of a concatenation is the sum of the weights of the parts.
pub proof fn lemma_wsum_concat<T: Summarizable>(a: Seq<T>, b: Seq<T>)
    ensures
        wsum(a + b) == wsum(a) + wsum(b),
    decreases b.len(),
{
    if b.len() == 0 {
        assert(a + b =~= a);
    } else {
        lemma_wsum_concat(a, b.drop_last());
        assert((a + b).drop_last() =~= a + b.drop_last());
        assert((a + b).last() == b.last());
    }
}

/// Appending one more item adds exactly its weight to the total.
pub proof fn lemma_wsum_push<T: Summarizable>(s: Seq<T>, x: T)
    ensures
        wsum(s.push(x)) == wsum(s) + x.spec_weight(),
{
    assert(s.push(x).drop_last() =~= s);
    assert(s.push(x).last() == x);
}

/// A total weight is never negative.
pub proof fn lemma_wsum_nonneg<T: Summarizable>(s: Seq<T>)
    ensures
        wsum(s) >= 0,
    decreases s.len(),
{
    if s.len() > 0 {
        lemma_wsum_nonneg(s.drop_last());
    }
}

/// A well-formed node holds at least as many items as it has entries; in
/// particular a node with at least one entry is not empty.
pub proof fn lemma_len_at_least_entries<T: Summarizable, const MAX_FANOUT: usize>(
    n: Node<T, MAX_FANOUT>,
)
    requires
        wf(n),
    ensures
        node_seq(n).len() >= entry_count(n),
    decreases n,
{
    match n {
        Node::Leaf { .. } => {},
        Node::Internal { childs, .. } => {
            lemma_childs_len(childs@);
        },
    }
}

/// A run of well-formed children that each meet the `min_fanout` bound
/// contributes at least one item per child.
pub proof fn lemma_childs_len<T: Summarizable, const MAX_FANOUT: usize>(
    cs: Seq<BPTree<T, MAX_FANOUT>>,
)
    requires
        forall|i: int|
            0 <= i < cs.len() ==> wf(#[trigger] cs[i].spec_node()) && entry_count(cs[i].spec_node())
                >= 1,
    ensures
        childs_seq(cs).len() >= cs.len(),
    decreases cs,
{
    if cs.len() > 0 {
        assert(forall|i: int|
            0 <= i < cs.drop_last().len() ==> cs.drop_last()[i] == cs[i] && wf(
                #[trigger] cs.drop_last()[i].spec_node(),
            ) && entry_count(cs.drop_last()[i].spec_node()) >= 1);
        lemma_childs_len(cs.drop_last());
        assert(wf(cs[cs.len() - 1].spec_node()));
        lemma_len_at_least_entries(cs.last().spec_node());
    }
}

impl<T: Summarizable, const MAX_FANOUT: usize> Node<T, MAX_FANOUT> {
    /// Whether this node is a leaf.
    pub fn is_leaf(&self) -> (r: bool)
        ensures
            r == (*self is Leaf),
    {
        matches!(self, Node::Leaf { .. })
    }

    /// The child subtrees of this node; empty for a leaf.
    pub fn childs(&self) -> (r: &[BPTree<T, MAX_FANOUT>])
        ensures
            *self is Internal ==> r@ == self->Internal_childs@,
            *self is Leaf ==> r@.len() == 0,
    {
        match self {
            Node::Leaf { .. } => &[],
            Node::Internal { childs, .. } => childs.as_slice(),
        }
    }

    /// The items stored in this node; empty for an internal node.
    pub fn values(&self) -> (r: &[T])
        ensures
            *self is Leaf ==> r@ == self->Leaf_values@,
            *self is Internal ==> r@.len() == 0,
    {
        match self {
            Node::Leaf { values, .. } => values.as_slice(),
            Node::Internal { .. } => &[],
        }
    }

    /// The height of this node: zero for a leaf.
    pub fn height(&self) -> (r: u8)
        ensures
            r as int == height_of(*self),
    {
        match self {
            Node::Leaf { .. } => 0,
            Node::Internal { height, .. } => *height,
        }
    }

    /// Bounds-checked access to the child subtree at position `i`;
    /// nothing for an out-of-range position or for a leaf.
    pub fn child_at(&self, i: usize) -> (r: Option<&BPTree<T, MAX_FANOUT>>)
        ensures
            match r {
                Some(c) => *self is Internal && i < self->Internal_childs@.len() && *c
                    == self->Internal_childs@[i as int],
                None => *self is Leaf || (*self is Internal && i
                    >= self->Internal_childs@.len()),
            },
    {
        match self {
            Node::Internal { childs, .. } => {
                if i < childs.len() {
                    Some(&childs[i])
                } else {
                    None
                }
            },
            Node::Leaf { .. } => None,
        }
    }

    /// Bounds-checked access to the item at position `i` of a leaf;
    /// nothing for an out-of-range position or for an internal node.
    pub fn item_at(&self, i: usize) -> (r: Option<&T>)
        ensures
            match r {
                Some(x) => *self is Leaf && i < self->Leaf_values@.len() && *x
                    == self->Leaf_values@[i as int],
                None => *self is Internal || (*self is Leaf && i >= self->Leaf_values@.len()),
            },
    {
        match self {
            Node::Leaf { values, .. } => {
                if i < values.len() {
                    Some(&values[i])
                } else {
                    None
                }
            },
            Node::Internal { .. } => None,
        }
    }

    /// How many entries this node holds: items for a leaf, children for
    /// an internal node.
    pub fn entries(&self) -> (r: usize)
        ensures
            r as int == entry_count(*self),
    {
        match self {
            Node::Leaf { values, .. } => values.len(),
            Node::Internal { childs, .. } => childs.len(),
        }
    }

    /// The cached summary of this node's whole subtree.
    pub fn summary(&self) -> (r: Summary)
        ensures
            r == summary_of(*self),
    {
        match self {
            Node::Leaf { summary, .. } => *summary,
            Node::Internal { summary, .. } => *summary,
        }
    }
}

impl<T: Summarizable, const MAX_FANOUT: usize> Clone for BPTree<T, MAX_FANOUT> {
    /// Cloning a handle shares the root node; it copies no item.
    fn clone(&self) -> (r: Self)
        ensures
            r == *self,
    {
        BPTree(self.0.clone())
    }
}

impl<T: Summarizable, const MAX_FANOUT: usize> Default for BPTree<T, MAX_FANOUT> {
    /// The empty tree, exactly as [`BPTree::new`] builds it.
    fn default() -> (r: Self)
        ensures
            r@ == Seq::<T>::empty(),
            height_of(r.spec_node()) == 0,
            2 <= MAX_FANOUT < usize::MAX ==> wf_tree(r),
    {
        BPTree(
            Arc::new(Node::Leaf { values: Vec::new(), summary: Summary { count: 0, weight: 0 } }),
        )
    }
}

impl<T: Summarizable, const MAX_FANOUT: usize> BPTree<T, MAX_FANOUT> {
    /// The empty tree: a single leaf with no items.
    pub fn new() -> (r: Self)
        requires
            2 <= MAX_FANOUT < usize::MAX,
        ensures
            wf_tree(r),
            r@ == Seq::<T>::empty(),
            height_of(r.spec_node()) == 0,
    {
        BPTree(
            Arc::new(Node::Leaf { values: Vec::new(), summary: Summary { count: 0, weight: 0 } }),
        )
    }

    /// The total number of items in the tree, read from the root's cache.
    pub fn len(&self) -> (r: u64)
        requires
            wf(self.spec_node()),
        ensures
            r as int == self@.len(),
    {
        self.0.summary().count
    }

    /// The summary of every item in the tree, read from the root's cache.
    pub fn summary(&self) -> (r: Summary)
        requires
            wf(self.spec_node()),
        ensures
            r.count as int == self@.len(),
            r.weight as int == wsum(self@),
    {
        self.0.summary()
    }

    /// The first item of the sequence, or nothing if the tree is empty.
    pub fn first(&self) -> (r: Option<&T>)
        requires
            wf(self.spec_node()),
        ensures
            match r {
                None => self@.len() == 0,
                Some(x) => self@.len() > 0 && *x == self@[0],
            },
    {
        Self::walk_left(self)
    }

    /// The last item of the sequence, or nothing if the tree is empty.
    pub fn last(&self) -> (r: Option<&T>)
        requires
            wf(self.spec_node()),
        ensures
            match r {
                None => self@.len() == 0,
                Some(x) => self@.len() > 0 && *x == self@[self@.len() - 1],
            },
    {
        Self::walk_right(self)
    }

    /// The item at ordinal position `index`, or nothing if the index is
    /// beyond the end of the sequence.
    pub fn get(&self, index: usize) -> (r: Option<&T>)
        requires
            wf(self.spec_node()),
        ensures
            match r {
                None => index >= self@.len(),
                Some(x) => index < self@.len() && *x == self@[index as int],
            },
    {
        if (index as u64) < self.0.summary().count {
            Some(node_get(&*self.0, index))
        } else {
            None
        }
    }

    fn walk_left<'a>(node: &'a Self) -> (r: Option<&'a T>)
        requires
            wf(node.spec_node()),
        ensures
            match r {
                None => node@.len() == 0,
                Some(x) => node@.len() > 0 && *x == node@[0],
            },
        decreases node.spec_node(),
    {
        match &*node.0 {
            Node::Leaf { values, .. } => {
                if values.len() == 0 {
                    None
                } else {
                    Some(&values[0])
                }
            },
            Node::Internal { childs, .. } => {
                proof {
                    assert(wf(childs@[0].spec_node()));
                    lemma_len_at_least_entries(childs@[0].spec_node());
                    lemma_childs_seq_decompose(childs@, 0);
                    assert(childs@.subrange(0, 0) =~= Seq::<BPTree<T, MAX_FANOUT>>::empty());
                }
                Self::walk_left(&childs[0])
            },
        }
    }

    fn walk_right<'a>(node: &'a Self) -> (r: Option<&'a T>)
        requires
            wf(node.spec_node()),
        ensures
            match r {
                None => node@.len() == 0,
                Some(x) => node@.len() > 0 && *x == node@[node@.len() - 1],
            },
        decreases node.spec_node(),
    {
        match &*node.0 {
            Node::Leaf { values, .. } => {
                if values.len() == 0 {
                    None
                } else {
                    Some(&values[values.len() - 1])
                }
            },
            Node::Internal { childs, .. } => {
                let k = childs.len() - 1;
                proof {
                    assert(wf(childs@[k as int].spec_node()));
                    lemma_len_at_least_entries(childs@[k as int].spec_node());
                    lemma_childs_seq_decompose(childs@, k as int);
                    assert(childs@.subrange(k as int + 1, childs@.len() as int) =~= Seq::<
                        BPTree<T, MAX_FANOUT>,
                    >::empty());
                }
                Self::walk_right(&childs[k])
            },
        }
    }
}

/// Descend from `n` to the leaf owning ordinal position `index`, scanning
/// children left to right and subtracting each skipped child's item count.
fn node_get<'a, T: Summarizable, const MAX_FANOUT: usize>(
    n: &'a Node<T, MAX_FANOUT>,
    index: usize,
) -> (r: &'a T)
    requires
        wf(*n),
        (index as int) < node_seq(*n).len(),
    ensures
        *r == node_seq(*n)[index as int],
    decreases *n,
{
    match n {
        Node::Leaf { values, .. } => &values[index],
        Node::Internal { childs, .. } => {
            let ghost cs = childs@;
            let mut k: usize = 0;
            let mut skipped: usize = 0;
            loop
                invariant
                    wf(*n),
                    *n is Internal,
                    childs == n->Internal_childs,
                    cs == childs@,
                    (index as int) < node_seq(*n).len(),
                    0 <= k <= cs.len(),
                    skipped <= index,
                    skipped as int == childs_seq(cs.subrange(0, k as int)).len(),
                decreases cs.len() - k,
            {
                proof {
                    if k as int == cs.len() {
                        assert(cs.subrange(0, k as int) =~= cs);
                        assert(false);
                    }
                    assert(wf(cs[k as int].spec_node()));
                    lemma_childs_seq_decompose(cs, k as int);
                }
                let child = &childs[k];
                let cnt = child.0.summary().count;
                if ((index - skipped) as u64) < cnt {
                    proof {
                        assert(decreases_to!(*n => *cs[k as int].0));
                    }
                    return node_get(&*child.0, index - skipped);
                } else {
                    proof {
                        assert(cs.subrange(0, k as int + 1) =~= cs.subrange(0, k as int).push(
                            cs[k as int],
                        ));
                        lemma_childs_seq_push(cs.subrange(0, k as int), cs[k as int]);
                    }
                    skipped = skipped + (cnt as usize);
                    k = k + 1;
                }
            }
        },
    }
}

} // verus!
