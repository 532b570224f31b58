//! Lookup by cumulative summary offset: descend the tree comparing the
//! target against each child's cached summary instead of walking items.
//! Each item `i` owns the half-open interval of offsets from the measure
//! of everything before it up to, but not including, the measure with the
//! item itself; a target on a boundary belongs to the item that starts
//! there, which makes the search left biased over items of zero measure.

use vstd::prelude::*;

use crate::bptree::BPTree;
use crate::bptree::Node;
use crate::bptree::childs_seq;
use crate::bptree::lemma_childs_seq_concat;
use crate::bptree::lemma_childs_seq_decompose;
use crate::bptree::lemma_childs_seq_push;
use crate::bptree::lemma_wsum_concat;
use crate::bptree::lemma_wsum_nonneg;
use crate::bptree::node_seq;
use crate::bptree::wf;
use crate::bptree::wsum;
use crate::summary::Dimension;
use crate::summary::Summarizable;

verus! {

/// The measure one item contributes along a dimension: one for the count
/// dimension, the item's weight for the weight dimension.
pub open spec fn item_measure<T: Summarizable>(d: Dimension, x: T) -> int {
    match d {
        Dimension::Count => 1,
        Dimension::Weight => x.spec_weight() as int,
    }
}

/// The measure of a whole sequence along a dimension.
pub open spec fn msum<T: Summarizable>(d: Dimension, s: Seq<T>) -> int {
    match d {
        Dimension::Count => s.len() as int,
        Dimension::Weight => wsum(s),
    }
}

/// Where a cumulative target offset falls in a sequence: the pair of the
/// ordinal position of the first item whose cumulative measure strictly
/// exceeds the target, and what is left of the target before that item.
/// A target at or past the total measure yields the sequence's length and
/// the excess over the total.
pub open spec fn spec_seek<T: Summarizable>(d: Dimension, s: Seq<T>, t: int) -> (int, int)
    decreases s.len(),
{
    if s.len() == 0 {
        (0, t)
    } else if t < item_measure(d, s[0]) {
        (0, t)
    } else {
        let r = spec_seek(d, s.drop_first(), t - item_measure(d, s[0]));
        (r.0 + 1, r.1)
    }
}

/// A seek lands between position zero and the length; it runs off the end
/// exactly when the target reaches the total measure, and what is left of
/// the target is the target minus the measure of the items passed over.
pub proof fn lemma_seek_bounds<T: Summarizable>(d: Dimension, s: Seq<T>, t: int)
    requires
        0 <= t,
    ensures
        0 <= spec_seek(d, s, t).0 <= s.len(),
        0 <= spec_seek(d, s, t).1 <= t,
        (spec_seek(d, s, t).0 == s.len()) <==> t >= msum(d, s),
        spec_seek(d, s, t).0 == s.len() ==> spec_seek(d, s, t).1 == t - msum(d, s),
    decreases s.len(),
{
    if s.len() == 0 {
    } else if t < item_measure(d, s[0]) {
        if d is Weight {
            lemma_wsum_nonneg(s.drop_first());
            assert(s.drop_first().push(s[0]) =~= s.subrange(1, s.len() as int).push(s[0]));
            assert(s =~= s.subrange(0, 1) + s.subrange(1, s.len() as int));
            lemma_wsum_concat(s.subrange(0, 1), s.subrange(1, s.len() as int));
            assert(s.subrange(0, 1) =~= seq![s[0]]);
            crate::edit::lemma_wsum_singleton(s[0]);
        }
    } else {
        lemma_seek_bounds(d, s.drop_first(), t - item_measure(d, s[0]));
        if d is Weight {
            assert(s =~= s.subrange(0, 1) + s.subrange(1, s.len() as int));
            lemma_wsum_concat(s.subrange(0, 1), s.subrange(1, s.len() as int));
            assert(s.subrange(0, 1) =~= seq![s[0]]);
            crate::edit::lemma_wsum_singleton(s[0]);
            assert(s.drop_first() =~= s.subrange(1, s.len() as int));
        }
    }
}

/// Seeking in a concatenation either finishes in the left part, or passes
/// over all of it and continues in the right part with the left part's
/// measure subtracted from the target.
pub proof fn lemma_seek_concat<T: Summarizable>(d: Dimension, a: Seq<T>, b: Seq<T>, t: int)
    requires
        0 <= t,
    ensures
        spec_seek(d, a, t).0 < a.len() ==> spec_seek(d, a + b, t) == spec_seek(d, a, t),
        spec_seek(d, a, t).0 == a.len() ==> spec_seek(d, a + b, t) == (a.len() + spec_seek(
            d,
            b,
            t - msum(d, a),
        ).0, spec_seek(d, b, t - msum(d, a)).1),
    decreases a.len(),
{
    lemma_seek_bounds(d, a, t);
    if a.len() == 0 {
        assert(a + b =~= b);
        assert(msum(d, a) == 0);
    } else if t < item_measure(d, a[0]) {
        assert((a + b)[0] == a[0]);
    } else {
        assert((a + b)[0] == a[0]);
        assert((a + b).drop_first() =~= a.drop_first() + b);
        lemma_seek_concat(d, a.drop_first(), b, t - item_measure(d, a[0]));
        lemma_seek_bounds(d, a.drop_first(), t - item_measure(d, a[0]));
        if d is Weight {
            assert(a =~= a.subrange(0, 1) + a.subrange(1, a.len() as int));
            lemma_wsum_concat(a.subrange(0, 1), a.subrange(1, a.len() as int));
            assert(a.subrange(0, 1) =~= seq![a[0]]);
            crate::edit::lemma_wsum_singleton(a[0]);
            assert(a.drop_first() =~= a.subrange(1, a.len() as int));
        }
    }
}

/// Descend from `n` towards the offset `t` along dimension `d`, choosing
/// at every level the first child whose cumulative measure strictly
/// exceeds what is left of the target.
fn node_seek<T: Summarizable, const MAX_FANOUT: usize>(
    n: &Node<T, MAX_FANOUT>,
    d: Dimension,
    t: u64,
) -> (r: (u64, u64))
    requires
        wf(*n),
    ensures
        r.0 as int == spec_seek(d, node_seq(*n), t as int).0,
        r.1 as int == spec_seek(d, node_seq(*n), t as int).1,
    decreases *n,
{
    match n {
        Node::Leaf { values, .. } => {
            let ghost vs = values@;
            proof {
                assert(vs.subrange(0, vs.len() as int) =~= vs);
                assert(vs.subrange(0, 0) =~= Seq::<T>::empty());
            }
            let mut j: usize = 0;
            let mut acc: u64 = 0;
            while j < values.len()
                invariant
                    wf(*n),
                    *n is Leaf,
                    values == n->Leaf_values,
                    vs == values@,
                    j <= vs.len(),
                    acc as int == msum(d, vs.subrange(0, j as int)),
                    acc <= t,
                    spec_seek(d, vs, t as int).0 == j + spec_seek(
                        d,
                        vs.subrange(j as int, vs.len() as int),
                        t - acc,
                    ).0,
                    spec_seek(d, vs, t as int).1 == spec_seek(
                        d,
                        vs.subrange(j as int, vs.len() as int),
                        t - acc,
                    ).1,
                decreases vs.len() - j,
            {
                let ghost rest = vs.subrange(j as int, vs.len() as int);
                let m = d.project(&values[j].summary());
                proof {
                    assert(rest[0] == vs[j as int]);
                    assert(m as int == item_measure(d, vs[j as int]));
                    assert(rest.drop_first() =~= vs.subrange(j as int + 1, vs.len() as int));
                    assert(vs.subrange(0, j as int + 1) =~= vs.subrange(0, j as int).push(
                        vs[j as int],
                    ));
                    if d is Weight {
                        crate::bptree::lemma_wsum_push(vs.subrange(0, j as int), vs[j as int]);
                        lemma_wsum_nonneg(vs.subrange(0, j as int));
                        assert(vs =~= vs.subrange(0, j as int + 1) + vs.subrange(
                            j as int + 1,
                            vs.len() as int,
                        ));
                        lemma_wsum_concat(
                            vs.subrange(0, j as int + 1),
                            vs.subrange(j as int + 1, vs.len() as int),
                        );
                        lemma_wsum_nonneg(vs.subrange(j as int + 1, vs.len() as int));
                        lemma_wsum_nonneg(vs);
                    }
                }
                if t - acc < m {
                    return (j as u64, t - acc);
                }
                acc = acc + m;
                j = j + 1;
            }
            proof {
                assert(vs.subrange(vs.len() as int, vs.len() as int) =~= Seq::<T>::empty());
                assert(vs.subrange(0, vs.len() as int) =~= vs);
            }
            (values.len() as u64, t - acc)
        },
        Node::Internal { childs, .. } => {
            let ghost cs = childs@;
            let ghost ns = node_seq(*n);
            proof {
                assert(cs.subrange(0, cs.len() as int) =~= cs);
                assert(cs.subrange(0, 0) =~= Seq::<BPTree<T, MAX_FANOUT>>::empty());
                assert(childs_seq(Seq::<BPTree<T, MAX_FANOUT>>::empty()) == Seq::<T>::empty());
            }
            let mut k: usize = 0;
            let mut acc: u64 = 0;
            let mut skipped: u64 = 0;
            while k < childs.len()
                invariant
                    wf(*n),
                    *n is Internal,
                    childs == n->Internal_childs,
                    cs == childs@,
                    ns == node_seq(*n),
                    k <= cs.len(),
                    acc <= t,
                    skipped as int == childs_seq(cs.subrange(0, k as int)).len(),
                    acc as int == msum(d, childs_seq(cs.subrange(0, k as int))),
                    spec_seek(d, ns, t as int).0 == skipped + spec_seek(
                        d,
                        childs_seq(cs.subrange(k as int, cs.len() as int)),
                        t - acc,
                    ).0,
                    spec_seek(d, ns, t as int).1 == spec_seek(
                        d,
                        childs_seq(cs.subrange(k as int, cs.len() as int)),
                        t - acc,
                    ).1,
                decreases cs.len() - k,
            {
                let ghost rest = cs.subrange(k as int, cs.len() as int);
                let ghost mid = node_seq(cs[k as int].spec_node());
                let ghost tail = cs.subrange(k as int + 1, cs.len() as int);
                let child = &childs[k];
                let s = child.0.summary();
                let m = d.project(&s);
                proof {
                    assert(wf(cs[k as int].spec_node()));
                    assert(rest.drop_first() =~= tail);
                    assert(rest[0] == cs[k as int]);
                    assert(rest =~= seq![cs[k as int]] + tail);
                    crate::bptree::lemma_childs_seq_singleton(cs[k as int]);
                    crate::bptree::lemma_childs_seq_concat(seq![cs[k as int]], tail);
                    assert(childs_seq(rest) =~= mid + childs_seq(tail));
                    assert(m as int == msum(d, mid));
                    lemma_seek_concat(d, mid, childs_seq(tail), t as int - acc);
                    lemma_seek_bounds(d, mid, t as int - acc);
                    lemma_childs_seq_decompose(cs, k as int);
                    assert(ns.len() <= u64::MAX);
                    assert(skipped as int + mid.len() <= ns.len());
                    assert(cs.subrange(0, k as int + 1) =~= cs.subrange(0, k as int).push(
                        cs[k as int],
                    ));
                    lemma_childs_seq_push(cs.subrange(0, k as int), cs[k as int]);
                    assert(cs =~= cs.subrange(0, k as int + 1) + cs.subrange(
                        k as int + 1,
                        cs.len() as int,
                    ));
                    lemma_childs_seq_concat(
                        cs.subrange(0, k as int + 1),
                        cs.subrange(k as int + 1, cs.len() as int),
                    );
                    if d is Weight {
                        lemma_wsum_concat(childs_seq(cs.subrange(0, k as int)), mid);
                        lemma_wsum_nonneg(childs_seq(cs.subrange(0, k as int)));
                        lemma_wsum_nonneg(mid);
                        lemma_wsum_concat(
                            childs_seq(cs.subrange(0, k as int + 1)),
                            childs_seq(cs.subrange(k as int + 1, cs.len() as int)),
                        );
                        lemma_wsum_nonneg(
                            childs_seq(cs.subrange(k as int + 1, cs.len() as int)),
                        );
                        lemma_wsum_nonneg(ns);
                    }
                }
                if t - acc < m {
                    proof {
                        assert(decreases_to!(*n => *cs[k as int].0));
                    }
                    let inner = node_seek(&*child.0, d, t - acc);
                    proof {
                        assert(inner.0 as int <= mid.len());
                    }
                    return (skipped + inner.0, inner.1);
                }
                proof {
                    lemma_seek_bounds(d, childs_seq(tail), t as int - acc - m);
                }
                acc = acc + m;
                skipped = skipped + s.count;
                k = k + 1;
            }
            proof {
                assert(cs.subrange(cs.len() as int, cs.len() as int) =~= Seq::<
                    BPTree<T, MAX_FANOUT>,
                >::empty());
                assert(cs.subrange(0, cs.len() as int) =~= cs);
            }
            (skipped, t - acc)
        },
    }
}

impl<T: Summarizable, const MAX_FANOUT: usize> BPTree<T, MAX_FANOUT> {
    /// The ordinal position of the item owning the cumulative offset
    /// `target` along dimension `dim`, together with the offset left over
    /// within that item. Ownership is left biased over half-open
    /// intervals: the chosen position is the first whose cumulative
    /// measure strictly exceeds the target. A target at or past the total
    /// measure yields the tree's length and the excess over the total.
    pub fn find_by_summary(&self, dim: Dimension, target: u64) -> (r: (u64, u64))
        requires
            wf(self.spec_node()),
        ensures
            r.0 as int == spec_seek(dim, self@, target as int).0,
            r.1 as int == spec_seek(dim, self@, target as int).1,
    {
        node_seek(&*self.0, dim, target)
    }
}

} // verus!
