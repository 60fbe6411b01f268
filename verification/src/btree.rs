//! An in-memory balanced multi-way search tree (B-tree family) mapping
//! `u64` keys to `u64` values, verified against a `Map<u64, u64>` view.
//!
//! Insertion splits full nodes proactively on the way down, so the tree only
//! grows in height at the root.  Deletion removes from leaves directly and
//! replaces internal keys with their in-order predecessor; it performs no
//! underflow rebalancing, an accepted simplification of this design.

use vstd::prelude::*;
use crate::kv::{sorted_by_key, strictly_sorted};

verus! {

#[derive(Debug)]
pub struct BTreeNode {
    pub keys: Vec<u64>,
    pub values: Vec<u64>,
    pub children: Vec<Box<BTreeNode>>,
    pub is_leaf: bool,
}

/// Index of the first key that is `>=` the probe, or the length if none is.
pub open spec fn find_index(ks: Seq<u64>, key: u64) -> int
    decreases ks.len(),
{
    if ks.len() == 0 {
        0
    } else if key <= ks[0] {
        0
    } else {
        1 + find_index(ks.drop_first(), key)
    }
}

pub proof fn lemma_find_index_props(ks: Seq<u64>, key: u64)
    ensures
        0 <= find_index(ks, key) <= ks.len(),
        forall|j: int| 0 <= j < find_index(ks, key) ==> ks[j] < key,
        find_index(ks, key) < ks.len() ==> key <= ks[find_index(ks, key)],
    decreases ks.len(),
{
    if ks.len() > 0 && key > ks[0] {
        lemma_find_index_props(ks.drop_first(), key);
        assert forall|j: int| 0 <= j < find_index(ks, key) implies ks[j] < key by {
            if j > 0 {
                assert(ks.drop_first()[j - 1] == ks[j]);
            }
        }
    }
}

/// The descent index is determined by the usual bracketing conditions.
pub proof fn lemma_find_index_is(ks: Seq<u64>, key: u64, i: int)
    requires
        0 <= i <= ks.len(),
        forall|j: int| 0 <= j < i ==> ks[j] < key,
        i < ks.len() ==> key <= ks[i],
    ensures
        find_index(ks, key) == i,
    decreases ks.len(),
{
    if ks.len() > 0 && key > ks[0] {
        assert(i > 0);
        lemma_find_index_is(ks.drop_first(), key, i - 1);
    }
}

/// The value stored for a key in the subtree rooted at `n`, following the
/// same descent that the executable search performs.
pub open spec fn node_get(n: BTreeNode, key: u64) -> Option<u64>
    decreases n,
{
    let i = find_index(n.keys@, key);
    if 0 <= i < n.keys@.len() && n.keys@[i] == key && i < n.values@.len() {
        Some(n.values@[i])
    } else if n.is_leaf {
        None
    } else if 0 <= i < n.children@.len() {
        node_get(*n.children@[i], key)
    } else {
        None
    }
}

/// Bounds that the keys reachable through child `i` must respect.
pub open spec fn child_window(n: BTreeNode, i: int, k: u64) -> bool {
    &&& (i > 0 ==> n.keys@[i - 1] < k)
    &&& (i < n.keys@.len() ==> k < n.keys@[i])
}

/// Every key stored under child `i` lies strictly between the node's
/// neighbouring separator keys.
pub open spec fn separated(n: BTreeNode) -> bool {
    forall|i: int, k: u64|
        0 <= i < n.children@.len() && (#[trigger] node_get(*n.children@[i], k)) is Some
            ==> child_window(n, i, k)
}

/// Structural well-formedness: parallel key/value sequences, strictly sorted
/// keys, the child-count law, and key separation — recursively.  There is no
/// lower occupancy bound: deletion never rebalances, so underfull nodes are
/// legal states of this design.
pub open spec fn wf(n: BTreeNode) -> bool
    decreases n,
{
    &&& n.keys@.len() == n.values@.len()
    &&& strictly_sorted(n.keys@)
    &&& (n.is_leaf ==> n.children@.len() == 0)
    &&& (!n.is_leaf ==> n.children@.len() == n.keys@.len() + 1)
    &&& wf_children(n.children@)
    &&& separated(n)
}

pub open spec fn wf_children(cs: Seq<Box<BTreeNode>>) -> bool
    decreases cs,
{
    if cs.len() == 0 {
        true
    } else {
        wf(*cs.last()) && wf_children(cs.drop_last())
    }
}

/// Every node in the subtree holds at most `2t - 1` keys.
pub open spec fn bounded(n: BTreeNode, t: nat) -> bool
    decreases n,
{
    &&& n.keys@.len() <= 2 * t - 1
    &&& bounded_children(n.children@, t)
}

pub open spec fn bounded_children(cs: Seq<Box<BTreeNode>>, t: nat) -> bool
    decreases cs,
{
    if cs.len() == 0 {
        true
    } else {
        bounded(*cs.last(), t) && bounded_children(cs.drop_last(), t)
    }
}

pub open spec fn height(n: BTreeNode) -> nat
    decreases n,
{
    if n.is_leaf {
        0
    } else {
        1 + children_height(n.children@)
    }
}

pub open spec fn children_height(cs: Seq<Box<BTreeNode>>) -> nat
    decreases cs,
{
    if cs.len() == 0 {
        0
    } else {
        let h = height(*cs.last());
        let rest = children_height(cs.drop_last());
        if h > rest {
            h
        } else {
            rest
        }
    }
}

pub proof fn lemma_wf_children_index(cs: Seq<Box<BTreeNode>>, i: int)
    requires
        wf_children(cs),
        0 <= i < cs.len(),
    ensures
        wf(*cs[i]),
    decreases cs.len(),
{
    if i < cs.len() - 1 {
        assert(cs.drop_last()[i] == cs[i]);
        lemma_wf_children_index(cs.drop_last(), i);
    }
}

pub proof fn lemma_wf_children_all(cs: Seq<Box<BTreeNode>>)
    requires
        forall|i: int| 0 <= i < cs.len() ==> wf(*(#[trigger] cs[i])),
    ensures
        wf_children(cs),
    decreases cs.len(),
{
    if cs.len() > 0 {
        assert(forall|i: int|
            0 <= i < cs.drop_last().len() ==> (#[trigger] cs.drop_last()[i]) == cs[i]);
        lemma_wf_children_all(cs.drop_last());
    }
}

pub proof fn lemma_bounded_children_index(cs: Seq<Box<BTreeNode>>, t: nat, i: int)
    requires
        bounded_children(cs, t),
        0 <= i < cs.len(),
    ensures
        bounded(*cs[i], t),
    decreases cs.len(),
{
    if i < cs.len() - 1 {
        assert(cs.drop_last()[i] == cs[i]);
        lemma_bounded_children_index(cs.drop_last(), t, i);
    }
}

pub proof fn lemma_bounded_children_all(cs: Seq<Box<BTreeNode>>, t: nat)
    requires
        forall|i: int| 0 <= i < cs.len() ==> bounded(*(#[trigger] cs[i]), t),
    ensures
        bounded_children(cs, t),
    decreases cs.len(),
{
    if cs.len() > 0 {
        assert(forall|i: int|
            0 <= i < cs.drop_last().len() ==> (#[trigger] cs.drop_last()[i]) == cs[i]);
        lemma_bounded_children_all(cs.drop_last(), t);
    }
}

pub proof fn lemma_child_height_le(cs: Seq<Box<BTreeNode>>, i: int)
    requires
        0 <= i < cs.len(),
    ensures
        height(*cs[i]) <= children_height(cs),
    decreases cs.len(),
{
    if i < cs.len() - 1 {
        assert(cs.drop_last()[i] == cs[i]);
        lemma_child_height_le(cs.drop_last(), i);
    }
}

pub proof fn lemma_children_height_take(cs: Seq<Box<BTreeNode>>, j: int)
    requires
        0 <= j <= cs.len(),
    ensures
        children_height(cs.take(j)) <= children_height(cs),
    decreases cs.len(),
{
    if j < cs.len() {
        assert(cs.take(j) =~= cs.drop_last().take(j));
        lemma_children_height_take(cs.drop_last(), j);
    } else {
        assert(cs.take(j) =~= cs);
    }
}

pub proof fn lemma_children_height_skip(cs: Seq<Box<BTreeNode>>, j: int)
    requires
        0 <= j <= cs.len(),
    ensures
        children_height(cs.skip(j)) <= children_height(cs),
    decreases cs.len(),
{
    if j == 0 {
        assert(cs.skip(j) =~= cs);
    } else if j < cs.len() {
        assert(cs.skip(j).last() == cs.last());
        assert(cs.skip(j).drop_last() =~= cs.drop_last().skip(j));
        lemma_children_height_skip(cs.drop_last(), j);
    }
}

pub proof fn lemma_children_height_insert(cs: Seq<Box<BTreeNode>>, i: int, c: Box<BTreeNode>)
    requires
        0 <= i <= cs.len(),
    ensures
        children_height(cs.insert(i, c)) == if height(*c) > children_height(cs) {
            height(*c)
        } else {
            children_height(cs)
        },
    decreases cs.len(),
{
    let r = cs.insert(i, c);
    if i == cs.len() {
        assert(r.last() == c);
        assert(r.drop_last() =~= cs);
    } else {
        assert(r.last() == cs.last());
        assert(r.drop_last() =~= cs.drop_last().insert(i, c));
        lemma_children_height_insert(cs.drop_last(), i, c);
    }
}

pub proof fn lemma_children_height_remove(cs: Seq<Box<BTreeNode>>, i: int)
    requires
        0 <= i < cs.len(),
    ensures
        children_height(cs.remove(i)) <= children_height(cs),
    decreases cs.len(),
{
    if i == cs.len() - 1 {
        assert(cs.remove(i) =~= cs.drop_last());
    } else {
        assert(cs.remove(i).last() == cs.last());
        assert(cs.remove(i).drop_last() =~= cs.drop_last().remove(i));
        lemma_children_height_remove(cs.drop_last(), i);
    }
}

/// The tallest child is on one side of a cut or the other.
pub proof fn lemma_children_height_partition(cs: Seq<Box<BTreeNode>>, j: int)
    requires
        0 <= j <= cs.len(),
    ensures
        children_height(cs) == if children_height(cs.take(j)) > children_height(cs.skip(j)) {
            children_height(cs.take(j))
        } else {
            children_height(cs.skip(j))
        },
    decreases cs.len(),
{
    if j == cs.len() {
        assert(cs.take(j) =~= cs);
        assert(cs.skip(j) =~= Seq::<Box<BTreeNode>>::empty());
        assert(children_height(Seq::<Box<BTreeNode>>::empty()) == 0);
    } else {
        assert(cs.take(j) =~= cs.drop_last().take(j));
        if j < cs.len() {
            assert(cs.skip(j).last() == cs.last());
            assert(cs.skip(j).drop_last() =~= cs.drop_last().skip(j));
        }
        lemma_children_height_partition(cs.drop_last(), j);
    }
}

/// Removing one child and taking the maximum with its height gives back the
/// height of the whole list.
pub proof fn lemma_children_height_remove_max(cs: Seq<Box<BTreeNode>>, i: int)
    requires
        0 <= i < cs.len(),
    ensures
        children_height(cs) == if height(*cs[i]) > children_height(cs.remove(i)) {
            height(*cs[i])
        } else {
            children_height(cs.remove(i))
        },
    decreases cs.len(),
{
    if i == cs.len() - 1 {
        assert(cs.remove(i) =~= cs.drop_last());
    } else {
        assert(cs.remove(i).last() == cs.last());
        assert(cs.remove(i).drop_last() =~= cs.drop_last().remove(i));
        assert(cs.drop_last()[i] == cs[i]);
        lemma_children_height_remove_max(cs.drop_last(), i);
    }
}

/// The keys and values of a leaf, paired index by index.
pub open spec fn zip2(ks: Seq<u64>, vs: Seq<u64>) -> Seq<(u64, u64)>
    decreases ks.len(),
{
    if ks.len() == 0 || vs.len() == 0 {
        Seq::empty()
    } else {
        seq![(ks[0], vs[0])] + zip2(ks.drop_first(), vs.drop_first())
    }
}

/// The in-order traversal of a subtree: for an internal node, the entries of
/// each child interleaved with the node's own pairs.
pub open spec fn entries(n: BTreeNode) -> Seq<(u64, u64)>
    decreases n,
{
    if n.is_leaf {
        zip2(n.keys@, n.values@)
    } else {
        glue(n.children@, n.keys@, n.values@)
    }
}

pub open spec fn glue(cs: Seq<Box<BTreeNode>>, ks: Seq<u64>, vs: Seq<u64>) -> Seq<(u64, u64)>
    decreases cs,
{
    if cs.len() == 0 {
        Seq::empty()
    } else if ks.len() == 0 || vs.len() == 0 {
        entries(*cs[0])
    } else {
        entries(*cs[0]) + seq![(ks[0], vs[0])] + glue(
            cs.drop_first(),
            ks.drop_first(),
            vs.drop_first(),
        )
    }
}

proof fn lemma_zip2_index(ks: Seq<u64>, vs: Seq<u64>)
    requires
        ks.len() == vs.len(),
    ensures
        zip2(ks, vs).len() == ks.len(),
        forall|j: int| 0 <= j < ks.len() ==> #[trigger] zip2(ks, vs)[j] == (ks[j], vs[j]),
    decreases ks.len(),
{
    if ks.len() > 0 {
        lemma_zip2_index(ks.drop_first(), vs.drop_first());
        assert forall|j: int| 0 <= j < ks.len() implies #[trigger] zip2(ks, vs)[j] == (
        ks[j],
        vs[j],
        ) by {
            if j > 0 {
                assert(zip2(ks, vs)[j] == zip2(ks.drop_first(), vs.drop_first())[j - 1]);
            }
        }
    }
}

/// A pair of the interleaving either comes from a child subtree (inside that
/// child's key window) or is one of the node's own pairs.
pub open spec fn located(cs: Seq<Box<BTreeNode>>, ks: Seq<u64>, vs: Seq<u64>, pair: (u64, u64)) -> bool {
    ||| exists|i: int|
        0 <= i < cs.len() && node_get(*(#[trigger] cs[i]), pair.0) == Some(pair.1) && (i > 0
            ==> ks[i - 1] < pair.0) && (i < ks.len() ==> pair.0 < ks[i])
    ||| exists|m: int| 0 <= m < ks.len() && (#[trigger] ks[m]) == pair.0 && vs[m] == pair.1
}

#[verifier::rlimit(100)]
proof fn lemma_glue_entries(cs: Seq<Box<BTreeNode>>, ks: Seq<u64>, vs: Seq<u64>)
    requires
        cs.len() == ks.len() + 1,
        ks.len() == vs.len(),
        strictly_sorted(ks),
        forall|i: int| 0 <= i < cs.len() ==> wf(*(#[trigger] cs[i])),
        forall|i: int, k: u64|
            0 <= i < cs.len() && (#[trigger] node_get(*cs[i], k)) is Some ==> ((i > 0 ==> ks[i - 1]
                < k) && (i < ks.len() ==> k < ks[i])),
    ensures
        sorted_by_key(glue(cs, ks, vs)),
        forall|p: int|
            0 <= p < glue(cs, ks, vs).len() ==> located(cs, ks, vs, #[trigger] glue(cs, ks, vs)[p]),
    decreases cs,
{
    let g = glue(cs, ks, vs);
    if ks.len() == 0 {
        lemma_entries_sorted(*cs[0]);
        assert forall|p: int| 0 <= p < g.len() implies located(cs, ks, vs, #[trigger] g[p]) by {
            assert(node_get(*cs[0], g[p].0) == Some(g[p].1));
        }
    } else {
        let a = entries(*cs[0]);
        let b = seq![(ks[0], vs[0])];
        let c = glue(cs.drop_first(), ks.drop_first(), vs.drop_first());
        assert(g == a + b + c);
        lemma_entries_sorted(*cs[0]);
        assert forall|i: int| 0 <= i < cs.drop_first().len() implies wf(
            *(#[trigger] cs.drop_first()[i]),
        ) by {
            assert(cs.drop_first()[i] == cs[i + 1]);
        }
        assert forall|i: int, k: u64|
            0 <= i < cs.drop_first().len() && (#[trigger] node_get(
                *cs.drop_first()[i],
                k,
            )) is Some implies ((i > 0 ==> ks.drop_first()[i - 1] < k) && (i
            < ks.drop_first().len() ==> k < ks.drop_first()[i])) by {
            assert(cs.drop_first()[i] == cs[i + 1]);
            assert(node_get(*cs[i + 1], k) is Some);
        }
        lemma_glue_entries(cs.drop_first(), ks.drop_first(), vs.drop_first());
        // index decomposition of the three parts
        assert(g.len() == a.len() + 1 + c.len());
        assert(forall|p: int| 0 <= p < a.len() ==> #[trigger] g[p] == a[p]);
        assert(g[a.len() as int] == (ks[0], vs[0]));
        assert(forall|p: int|
            a.len() < p < g.len() ==> #[trigger] g[p] == c[p - a.len() - 1]);
        // every key left of the first separator is below it, every key right
        // of it above it
        assert forall|p: int| 0 <= p < a.len() implies (#[trigger] a[p]).0 < ks[0] by {
            assert(node_get(*cs[0], a[p].0) == Some(a[p].1));
        }
        assert forall|q: int| 0 <= q < c.len() implies (#[trigger] c[q]).0 > ks[0] by {
            assert(located(cs.drop_first(), ks.drop_first(), vs.drop_first(), c[q]));
            if exists|i: int|
                0 <= i < cs.drop_first().len() && node_get(
                    *(#[trigger] cs.drop_first()[i]),
                    c[q].0,
                ) == Some(c[q].1) && (i > 0 ==> ks.drop_first()[i - 1] < c[q].0) && (i
                < ks.drop_first().len() ==> c[q].0 < ks.drop_first()[i]) {
                let i = choose|i: int|
                    0 <= i < cs.drop_first().len() && node_get(
                        *(#[trigger] cs.drop_first()[i]),
                        c[q].0,
                    ) == Some(c[q].1) && (i > 0 ==> ks.drop_first()[i - 1] < c[q].0) && (i
                    < ks.drop_first().len() ==> c[q].0 < ks.drop_first()[i]);
                assert(cs.drop_first()[i] == cs[i + 1]);
                assert(node_get(*cs[i + 1], c[q].0) is Some);
                assert(ks[i] < c[q].0);
                if i > 0 {
                    assert(ks[0] < ks[i]);
                }
            } else {
                let m = choose|m: int|
                    0 <= m < ks.drop_first().len() && (#[trigger] ks.drop_first()[m]) == c[q].0
                        && vs.drop_first()[m] == c[q].1;
                assert(ks[m + 1] == c[q].0);
                assert(ks[0] < ks[m + 1]);
            }
        }
        assert forall|p: int, q: int| 0 <= p < q < g.len() implies g[p].0 < g[q].0 by {
            if p < a.len() && q < a.len() {
                assert(a[p].0 < a[q].0);
            } else if p < a.len() && q == a.len() {
            } else if p < a.len() {
                assert(g[q] == c[q - a.len() - 1]);
            } else if p == a.len() && q > a.len() {
                assert(g[q] == c[q - a.len() - 1]);
            } else {
                assert(g[p] == c[p - a.len() - 1]);
                assert(g[q] == c[q - a.len() - 1]);
                assert(c[p - a.len() - 1].0 < c[q - a.len() - 1].0);
            }
        }
        assert forall|p: int| 0 <= p < g.len() implies located(cs, ks, vs, #[trigger] g[p]) by {
            if p < a.len() {
                assert(node_get(*cs[0], g[p].0) == Some(g[p].1));
            } else if p == a.len() {
                assert(ks[0] == g[p].0 && vs[0] == g[p].1);
            } else {
                let pair = c[p - a.len() - 1];
                assert(located(cs.drop_first(), ks.drop_first(), vs.drop_first(), pair));
                if exists|i: int|
                    0 <= i < cs.drop_first().len() && node_get(
                        *(#[trigger] cs.drop_first()[i]),
                        pair.0,
                    ) == Some(pair.1) && (i > 0 ==> ks.drop_first()[i - 1] < pair.0) && (i
                    < ks.drop_first().len() ==> pair.0 < ks.drop_first()[i]) {
                    let i = choose|i: int|
                        0 <= i < cs.drop_first().len() && node_get(
                            *(#[trigger] cs.drop_first()[i]),
                            pair.0,
                        ) == Some(pair.1) && (i > 0 ==> ks.drop_first()[i - 1] < pair.0) && (i
                        < ks.drop_first().len() ==> pair.0 < ks.drop_first()[i]);
                    assert(cs.drop_first()[i] == cs[i + 1]);
                    assert(node_get(*cs[i + 1], pair.0) == Some(pair.1));
                    assert(ks[i + 1 - 1] < pair.0);
                    assert(i + 1 < ks.len() ==> pair.0 < ks[i + 1]);
                } else {
                    let m = choose|m: int|
                        0 <= m < ks.drop_first().len() && (#[trigger] ks.drop_first()[m])
                            == pair.0 && vs.drop_first()[m] == pair.1;
                    assert(ks[m + 1] == pair.0 && vs[m + 1] == pair.1);
                }
            }
        }
    }
}

/// Under the node invariant the in-order traversal is strictly ascending by
/// key, and each listed pair is what lookup returns for its key.
pub proof fn lemma_entries_sorted(n: BTreeNode)
    requires
        wf(n),
    ensures
        sorted_by_key(entries(n)),
        forall|p: int|
            0 <= p < entries(n).len() ==> node_get(n, (#[trigger] entries(n)[p]).0) == Some(
                entries(n)[p].1,
            ),
    decreases n,
{
    if n.is_leaf {
        lemma_zip2_index(n.keys@, n.values@);
        assert forall|p: int| 0 <= p < entries(n).len() implies node_get(
            n,
            (#[trigger] entries(n)[p]).0,
        ) == Some(entries(n)[p].1) by {
            assert(entries(n)[p] == (n.keys@[p], n.values@[p]));
            assert forall|j: int| 0 <= j < p implies n.keys@[j] < n.keys@[p] by {}
            lemma_find_index_is(n.keys@, n.keys@[p], p);
        }
        assert forall|p: int, q: int| 0 <= p < q < entries(n).len() implies entries(n)[p].0
            < entries(n)[q].0 by {
            assert(entries(n)[p] == (n.keys@[p], n.values@[p]));
            assert(entries(n)[q] == (n.keys@[q], n.values@[q]));
        }
    } else {
        assert forall|i: int| 0 <= i < n.children@.len() implies wf(
            *(#[trigger] n.children@[i]),
        ) by {
            lemma_wf_children_index(n.children@, i);
        }
        lemma_glue_entries(n.children@, n.keys@, n.values@);
        assert forall|p: int| 0 <= p < entries(n).len() implies node_get(
            n,
            (#[trigger] entries(n)[p]).0,
        ) == Some(entries(n)[p].1) by {
            let pair = entries(n)[p];
            assert(located(n.children@, n.keys@, n.values@, pair));
            if exists|i: int|
                0 <= i < n.children@.len() && node_get(*(#[trigger] n.children@[i]), pair.0)
                    == Some(pair.1) && (i > 0 ==> n.keys@[i - 1] < pair.0) && (i < n.keys@.len()
                    ==> pair.0 < n.keys@[i]) {
                let i = choose|i: int|
                    0 <= i < n.children@.len() && node_get(*(#[trigger] n.children@[i]), pair.0)
                        == Some(pair.1) && (i > 0 ==> n.keys@[i - 1] < pair.0) && (i
                        < n.keys@.len() ==> pair.0 < n.keys@[i]);
                assert forall|j: int| 0 <= j < i implies n.keys@[j] < pair.0 by {
                    if j < i - 1 {
                        assert(n.keys@[j] < n.keys@[i - 1]);
                    }
                }
                lemma_find_index_is(n.keys@, pair.0, i);
                if i < n.keys@.len() {
                    assert(n.keys@[i] != pair.0);
                }
                assert(node_get(n, pair.0) == node_get(*n.children@[i], pair.0));
            } else {
                let m = choose|m: int|
                    0 <= m < n.keys@.len() && (#[trigger] n.keys@[m]) == pair.0 && n.values@[m]
                        == pair.1;
                assert forall|j: int| 0 <= j < m implies n.keys@[j] < pair.0 by {}
                lemma_find_index_is(n.keys@, pair.0, m);
            }
        }
    }
}

proof fn lemma_glue_contains_own(cs: Seq<Box<BTreeNode>>, ks: Seq<u64>, vs: Seq<u64>, m: int)
    requires
        cs.len() == ks.len() + 1,
        ks.len() == vs.len(),
        0 <= m < ks.len(),
    ensures
        glue(cs, ks, vs).contains((ks[m], vs[m])),
    decreases cs,
{
    let g = glue(cs, ks, vs);
    let a = entries(*cs[0]);
    if m == 0 {
        assert(g[a.len() as int] == (ks[0], vs[0]));
    } else {
        lemma_glue_contains_own(cs.drop_first(), ks.drop_first(), vs.drop_first(), m - 1);
        let c = glue(cs.drop_first(), ks.drop_first(), vs.drop_first());
        let pair = (ks[m], vs[m]);
        assert(pair == (ks.drop_first()[m - 1], vs.drop_first()[m - 1]));
        let q = choose|q: int| 0 <= q < c.len() && c[q] == pair;
        assert(g[a.len() + 1 + q] == pair);
    }
}

proof fn lemma_glue_contains_child(
    cs: Seq<Box<BTreeNode>>,
    ks: Seq<u64>,
    vs: Seq<u64>,
    i: int,
    pair: (u64, u64),
)
    requires
        cs.len() == ks.len() + 1,
        ks.len() == vs.len(),
        0 <= i < cs.len(),
        entries(*cs[i]).contains(pair),
    ensures
        glue(cs, ks, vs).contains(pair),
    decreases cs,
{
    let g = glue(cs, ks, vs);
    let a = entries(*cs[0]);
    if ks.len() == 0 {
        assert(i == 0);
        assert(g == a);
    } else if i == 0 {
        let q = choose|q: int| 0 <= q < a.len() && a[q] == pair;
        assert(g[q] == pair);
    } else {
        assert(cs.drop_first()[i - 1] == cs[i]);
        lemma_glue_contains_child(cs.drop_first(), ks.drop_first(), vs.drop_first(), i - 1, pair);
        let c = glue(cs.drop_first(), ks.drop_first(), vs.drop_first());
        let q = choose|q: int| 0 <= q < c.len() && c[q] == pair;
        assert(g[a.len() + 1 + q] == pair);
    }
}

/// Every pair that lookup finds occurs in the in-order traversal.
proof fn lemma_entries_complete(n: BTreeNode, k: u64)
    requires
        wf(n),
        node_get(n, k) is Some,
    ensures
        entries(n).contains((k, node_get(n, k)->Some_0)),
    decreases n,
{
    lemma_find_index_props(n.keys@, k);
    let fi = find_index(n.keys@, k);
    if 0 <= fi < n.keys@.len() && n.keys@[fi] == k {
        if n.is_leaf {
            lemma_zip2_index(n.keys@, n.values@);
            assert(entries(n)[fi] == (k, n.values@[fi]));
        } else {
            lemma_glue_contains_own(n.children@, n.keys@, n.values@, fi);
        }
    } else {
        assert(!n.is_leaf && 0 <= fi < n.children@.len());
        lemma_wf_children_index(n.children@, fi);
        lemma_entries_complete(*n.children@[fi], k);
        lemma_glue_contains_child(
            n.children@,
            n.keys@,
            n.values@,
            fi,
            (k, node_get(n, k)->Some_0),
        );
    }
}

/// Splitting a full node `c` into its left part `l` (keys `0..t-2`, children
/// `0..t-1`), the promoted median (key `t-1`), and its right part `r` (keys
/// `t..2t-2`, children `t..2t-1`) partitions the lookups of `c` exactly.
proof fn lemma_split_node(c: BTreeNode, t: nat, l: BTreeNode, r: BTreeNode, k: u64)
    requires
        wf(c),
        bounded(c, t),
        t >= 2,
        c.keys@.len() == 2 * t - 1,
        l.keys@ == c.keys@.take(t - 1),
        l.values@ == c.values@.take(t - 1),
        r.keys@ == c.keys@.skip(t as int),
        r.values@ == c.values@.skip(t as int),
        l.is_leaf == c.is_leaf,
        r.is_leaf == c.is_leaf,
        c.is_leaf ==> l.children@.len() == 0 && r.children@.len() == 0,
        !c.is_leaf ==> l.children@ == c.children@.take(t as int) && r.children@ == c.children@.skip(
            t as int,
        ),
    ensures
        wf(l),
        wf(r),
        bounded(l, t),
        bounded(r, t),
        height(l) <= height(c),
        height(r) <= height(c),
        height(c) == if height(l) > height(r) {
            height(l)
        } else {
            height(r)
        },
        node_get(c, c.keys@[t - 1]) == Some(c.values@[t - 1]),
        k < c.keys@[t - 1] ==> node_get(l, k) == node_get(c, k),
        k > c.keys@[t - 1] ==> node_get(r, k) == node_get(c, k),
        k >= c.keys@[t - 1] ==> node_get(l, k) is None,
        k <= c.keys@[t - 1] ==> node_get(r, k) is None,
{
    let med = c.keys@[t - 1];
    // well-formedness of the two halves
    assert(strictly_sorted(l.keys@));
    assert(strictly_sorted(r.keys@));
    if !c.is_leaf {
        assert forall|j: int| 0 <= j < l.children@.len() implies wf(*(#[trigger] l.children@[j])) by {
            lemma_wf_children_index(c.children@, j);
        }
        lemma_wf_children_all(l.children@);
        assert forall|j: int| 0 <= j < r.children@.len() implies wf(*(#[trigger] r.children@[j])) by {
            lemma_wf_children_index(c.children@, j + t);
        }
        lemma_wf_children_all(r.children@);
        assert forall|j: int| 0 <= j < l.children@.len() implies bounded(
            *(#[trigger] l.children@[j]),
            t,
        ) by {
            lemma_bounded_children_index(c.children@, t, j);
        }
        lemma_bounded_children_all(l.children@, t);
        assert forall|j: int| 0 <= j < r.children@.len() implies bounded(
            *(#[trigger] r.children@[j]),
            t,
        ) by {
            lemma_bounded_children_index(c.children@, t, j + t);
        }
        lemma_bounded_children_all(r.children@, t);
        // separation carries over with the same windows, shifted for `r`
        assert forall|i: int, k2: u64|
            0 <= i < l.children@.len() && (#[trigger] node_get(*l.children@[i], k2)) is Some
            implies child_window(l, i, k2) by {
            assert(l.children@[i] == c.children@[i]);
            assert(node_get(*c.children@[i], k2) is Some);
        }
        assert forall|i: int, k2: u64|
            0 <= i < r.children@.len() && (#[trigger] node_get(*r.children@[i], k2)) is Some
            implies child_window(r, i, k2) by {
            assert(r.children@[i] == c.children@[i + t]);
            assert(node_get(*c.children@[i + t], k2) is Some);
        }
        lemma_children_height_take(c.children@, t as int);
        lemma_children_height_skip(c.children@, t as int);
        lemma_children_height_partition(c.children@, t as int);
    }
    assert(wf(l));
    assert(wf(r));
    // the median itself
    lemma_find_index_is(c.keys@, med, t - 1);
    // the probe analysis
    lemma_find_index_props(c.keys@, k);
    let fi = find_index(c.keys@, k);
    if k < med {
        assert(fi <= t - 1) by {
            if fi > t - 1 {
                assert(c.keys@[t - 1] < k);
            }
        }
        if fi < t - 1 {
            lemma_find_index_is(l.keys@, k, fi);
            if c.keys@[fi] == k {
            } else if !c.is_leaf {
                assert(l.children@[fi] == c.children@[fi]);
            }
        } else {
            assert(forall|j: int| 0 <= j < t - 1 ==> (#[trigger] c.keys@[j]) < c.keys@[t - 1]);
            lemma_find_index_is(l.keys@, k, t - 1);
            assert(c.keys@[t - 1] != k);
            if !c.is_leaf {
                assert(l.children@[t - 1] == c.children@[t - 1]);
            }
        }
    }
    if k > med {
        assert(forall|j: int| 0 <= j < t ==> c.keys@[j] < k) by {
            assert(forall|j: int| 0 <= j < t - 1 ==> (#[trigger] c.keys@[j]) < c.keys@[t - 1]);
        }
        assert(fi >= t) by {
            if fi < t {
                assert(k <= c.keys@[fi]);
                assert(c.keys@[fi] < k);
            }
        }
        assert forall|j: int| 0 <= j < fi - t implies r.keys@[j] < k by {
            assert(r.keys@[j] == c.keys@[j + t]);
        }
        if fi < c.keys@.len() {
            assert(r.keys@[fi - t] == c.keys@[fi]);
        }
        lemma_find_index_is(r.keys@, k, fi - t);
        if fi < c.keys@.len() && c.keys@[fi] == k {
            assert(r.values@[fi - t] == c.values@[fi]);
        } else if !c.is_leaf {
            assert(r.children@[fi - t] == c.children@[fi]);
        }
    }
    if k >= med {
        // nothing at or above the median remains reachable in `l`
        assert(forall|j: int| 0 <= j < t - 1 ==> l.keys@[j] < k) by {
            assert(forall|j: int| 0 <= j < t - 1 ==> (#[trigger] c.keys@[j]) < c.keys@[t - 1]);
        }
        lemma_find_index_is(l.keys@, k, t - 1);
        if !c.is_leaf {
            assert(l.children@[t - 1] == c.children@[t - 1]);
            if node_get(*c.children@[t - 1], k) is Some {
                assert(child_window(c, t - 1, k));
            }
        }
    }
    if k <= med {
        assert(r.keys@[0] == c.keys@[t as int]);
        assert(med < c.keys@[t as int]);
        lemma_find_index_is(r.keys@, k, 0);
        if !c.is_leaf {
            assert(r.children@[0] == c.children@[t as int]);
            if node_get(*c.children@[t as int], k) is Some {
                assert(child_window(c, t as int, k));
            }
        }
    }
}

/// Replacing one child by a version whose lookups differ only at `key`
/// (which lies strictly inside that child's window) changes the node's
/// lookups only at `key`.
proof fn lemma_child_update(pre: BTreeNode, post: BTreeNode, i: int, key: u64, nv: Option<u64>)
    requires
        wf(pre),
        !pre.is_leaf,
        0 <= i < pre.children@.len(),
        post.keys@ == pre.keys@,
        post.values@ == pre.values@,
        !post.is_leaf,
        post.children@.len() == pre.children@.len(),
        post.children@ == pre.children@.update(i, post.children@[i]),
        wf(*post.children@[i]),
        forall|k: u64|
            k != key ==> #[trigger] node_get(*post.children@[i], k) == node_get(
                *pre.children@[i],
                k,
            ),
        node_get(*post.children@[i], key) == nv,
        i > 0 ==> pre.keys@[i - 1] < key,
        i < pre.keys@.len() ==> key < pre.keys@[i],
    ensures
        wf(post),
        node_get(post, key) == nv,
        forall|k: u64| k != key ==> #[trigger] node_get(post, k) == node_get(pre, k),
{
    assert(forall|j: int|
        0 <= j < pre.children@.len() && j != i ==> (#[trigger] post.children@[j])
            == pre.children@[j]);
    assert forall|j: int| 0 <= j < post.children@.len() implies wf(
        *(#[trigger] post.children@[j]),
    ) by {
        if j != i {
            lemma_wf_children_index(pre.children@, j);
        }
    }
    lemma_wf_children_all(post.children@);
    assert forall|j: int, k: u64|
        0 <= j < post.children@.len() && (#[trigger] node_get(*post.children@[j], k)) is Some
        implies child_window(post, j, k) by {
        if j == i {
            if k != key {
                assert(node_get(*pre.children@[i], k) is Some);
            }
        } else {
            assert(node_get(*pre.children@[j], k) is Some);
        }
    }
    assert(wf(post));
    // lookups
    assert forall|k: u64| true implies #[trigger] node_get(post, k) == (if k == key {
        nv
    } else {
        node_get(pre, k)
    }) by {
        lemma_find_index_props(pre.keys@, k);
        let fi = find_index(pre.keys@, k);
        if k == key {
            assert forall|j: int| 0 <= j < i implies pre.keys@[j] < key by {
                if j < i - 1 {
                    assert(pre.keys@[j] < pre.keys@[i - 1]);
                }
            }
            lemma_find_index_is(pre.keys@, key, i);
            assert(fi == i);
            if i < pre.keys@.len() {
                assert(pre.keys@[i] != key);
            }
            assert(node_get(post, key) == node_get(*post.children@[i], key));
        } else {
            if 0 <= fi < pre.keys@.len() && pre.keys@[fi] == k {
            } else if 0 <= fi < pre.children@.len() {
                if fi == i {
                    assert(node_get(*post.children@[i], k) == node_get(*pre.children@[i], k));
                    assert(node_get(post, k) == node_get(*post.children@[i], k));
                    assert(node_get(pre, k) == node_get(*pre.children@[i], k));
                } else {
                    assert(post.children@[fi] == pre.children@[fi]);
                }
            }
        }
    }
}

impl BTreeNode {
    fn new(is_leaf: bool) -> (r: Self)
        ensures
            r.keys@.len() == 0,
            r.values@.len() == 0,
            r.children@.len() == 0,
            r.is_leaf == is_leaf,
    {
        Self { keys: Vec::new(), values: Vec::new(), children: Vec::new(), is_leaf }
    }
}

pub struct BTree {
    root: BTreeNode,
    t: usize,
}

impl BTree {
    /// The whole-tree invariant: a valid minimum degree and a well-formed,
    /// occupancy-bounded root.
    pub closed spec fn well_formed(self) -> bool {
        &&& self.t >= 2
        &&& 2 * self.t <= usize::MAX
        &&& wf(self.root)
        &&& bounded(self.root, self.t as nat)
    }

    pub closed spec fn as_map(self) -> Map<u64, u64> {
        Map::new(|k: u64| node_get(self.root, k) is Some, |k: u64| node_get(self.root, k)->Some_0)
    }

    pub closed spec fn spec_degree(self) -> nat {
        self.t as nat
    }

    /// The in-order traversal of the whole tree.
    pub closed spec fn in_order(self) -> Seq<(u64, u64)> {
        entries(self.root)
    }

    pub closed spec fn tree_height(self) -> nat {
        height(self.root)
    }

    /// How many keys the root node itself holds.
    pub closed spec fn root_key_count(self) -> nat {
        self.root.keys@.len()
    }

    /// How many children the root node itself holds.
    pub closed spec fn root_child_count(self) -> nat {
        self.root.children@.len()
    }

    pub open spec fn root_full(self) -> bool {
        self.root_key_count() == 2 * self.spec_degree() - 1
    }

    pub fn new(t: usize) -> (r: Self)
        requires
            t >= 2,
            2 * t <= usize::MAX,
        ensures
            r.well_formed(),
            r@ == Map::<u64, u64>::empty(),
            r.tree_height() == 0,
            r.root_key_count() == 0,
            !r.root_full(),
            r.spec_degree() == t,
    {
        let r = BTree { root: BTreeNode::new(true), t };
        proof {
            assert(r.as_map() =~= Map::<u64, u64>::empty());
        }
        r
    }

    /// Insert or overwrite: the tree afterwards represents the old map with
    /// `key` bound to `value`.  A key already present is overwritten in
    /// place and nothing structural changes.  Only a fresh key can
    /// restructure, and only through a full root, which splits exactly once
    /// into two children under a new one-key root: the sole way the tree
    /// grows in height.
    pub fn insert(&mut self, key: u64, value: u64)
        requires
            old(self).well_formed(),
        ensures
            final(self).well_formed(),
            final(self)@ == old(self)@.insert(key, value),
            final(self).spec_degree() == old(self).spec_degree(),
            old(self)@.dom().contains(key) ==> {
                &&& final(self).tree_height() == old(self).tree_height()
                &&& final(self).root_key_count() == old(self).root_key_count()
                &&& final(self).root_child_count() == old(self).root_child_count()
            },
            !old(self)@.dom().contains(key) && !old(self).root_full() ==> {
                &&& final(self).tree_height() == old(self).tree_height()
                &&& old(self).tree_height() == 0 ==> final(self).root_key_count() == old(
                    self,
                ).root_key_count() + 1
            },
            !old(self)@.dom().contains(key) && old(self).root_full() ==> {
                &&& final(self).tree_height() == old(self).tree_height() + 1
                &&& final(self).root_key_count() == 1
                &&& final(self).root_child_count() == 2
            },
    {
        let ghost pre = *self;
        let t = self.t;
        if Self::search_node(&self.root, key).is_some() {
            Self::update_value(&mut self.root, key, value);
            proof {
                assert(self.as_map() =~= pre.as_map().insert(key, value));
            }
            return ;
        }
        proof {
            assert(!pre.as_map().dom().contains(key));
        }
        if self.root.keys.len() == 2 * t - 1 {
            let mut fresh = BTreeNode::new(false);
            core::mem::swap(&mut self.root, &mut fresh);
            // `fresh` now holds the old root; grow the tree by one level
            self.root.children.push(Box::new(fresh));
            proof {
                let ghost grown = self.root;
                assert(grown.children@.len() == 1);
                assert(*grown.children@[0] == pre.root);
                assert(grown.children@.drop_last() =~= Seq::<Box<BTreeNode>>::empty());
                assert(*grown.children@.last() == pre.root);
                assert(wf_children(Seq::<Box<BTreeNode>>::empty()));
                assert(bounded_children(Seq::<Box<BTreeNode>>::empty(), t as nat));
                assert(children_height(Seq::<Box<BTreeNode>>::empty()) == 0);
                assert(wf_children(grown.children@));
                assert(bounded_children(grown.children@, t as nat));
                assert forall|i: int, k: u64|
                    0 <= i < grown.children@.len() && (#[trigger] node_get(
                        *grown.children@[i],
                        k,
                    )) is Some implies child_window(grown, i, k) by {}
                assert(wf(grown));
                assert(forall|k: u64| #[trigger]
                    node_get(grown, k) == node_get(pre.root, k));
                assert(children_height(grown.children@) == height(pre.root));
            }
            Self::split_child(&mut self.root, 0, t);
            let ghost split_root = self.root;
            proof {
                assert(height(split_root) == 1 + height(pre.root));
                assert(split_root.keys@.len() == 1);
                assert(split_root.children@.len() == 2);
                assert(split_root.children@[0].keys@.len() == t - 1);
                assert(split_root.children@[1].keys@.len() == t - 1);
            }
            Self::insert_non_full(&mut self.root, t, key, value);
            proof {
                assert(self.root.keys@.len() == 1);
                assert(self.root.children@.len() == 2);
            }
        } else {
            Self::insert_non_full(&mut self.root, t, key, value);
        }
        proof {
            assert(self.as_map() =~= pre.as_map().insert(key, value));
        }
    }

    /// Delete `key`: the tree afterwards represents the old map with `key`
    /// removed.  Deleting an absent key is a complete no-op: the tree value
    /// itself, structure included, is unchanged.
    pub fn delete(&mut self, key: u64)
        requires
            old(self).well_formed(),
        ensures
            final(self).well_formed(),
            final(self)@ == old(self)@.remove(key),
            !old(self)@.dom().contains(key) ==> *final(self) == *old(self),
            !old(self)@.dom().contains(key) ==> final(self)@ == old(self)@,
            final(self).spec_degree() == old(self).spec_degree(),
    {
        let ghost pre = *self;
        if Self::search_node(&self.root, key).is_none() {
            proof {
                assert(self.as_map() =~= pre.as_map().remove(key));
            }
            return ;
        }
        Self::delete_internal(&mut self.root, key);
        proof {
            assert(bounded(self.root, self.t as nat));
            assert(self.as_map() =~= pre.as_map().remove(key));
            if !pre.as_map().dom().contains(key) {
                assert(self.as_map() =~= pre.as_map());
            }
        }
    }

    /// The minimum degree the tree was constructed with.
    pub fn degree(&self) -> (r: usize)
        ensures
            r as nat == self.spec_degree(),
    {
        self.t
    }

    /// Whether the tree is still a single leaf, i.e. has height zero.
    pub fn root_is_leaf(&self) -> (r: bool)
        ensures
            r == (self.tree_height() == 0),
    {
        self.root.is_leaf
    }

    pub fn search(&self, key: &u64) -> (r: Option<u64>)
        requires
            self.well_formed(),
        ensures
            r == if self@.dom().contains(*key) {
                Some(self@[*key])
            } else {
                None
            },
    {
        Self::search_node(&self.root, *key)
    }

    /// Partition the full child at `index` into a left part, a promoted
    /// median, and a right part; the parent gains the median key and one
    /// child, and no lookup changes.
    #[verifier::rlimit(100)]
    fn split_child(parent: &mut BTreeNode, index: usize, t: usize)
        requires
            wf(*old(parent)),
            bounded(*old(parent), t as nat),
            t >= 2,
            2 * t <= usize::MAX,
            !old(parent).is_leaf,
            index < old(parent).children@.len(),
            old(parent).children@[index as int].keys@.len() == 2 * t - 1,
            old(parent).keys@.len() < 2 * t - 1,
        ensures
            wf(*final(parent)),
            bounded(*final(parent), t as nat),
            !final(parent).is_leaf,
            final(parent).keys@ == old(parent).keys@.insert(
                index as int,
                old(parent).children@[index as int].keys@[t - 1],
            ),
            final(parent).values@ == old(parent).values@.insert(
                index as int,
                old(parent).children@[index as int].values@[t - 1],
            ),
            final(parent).children@.len() == old(parent).children@.len() + 1,
            final(parent).children@[index as int].is_leaf == old(
                parent,
            ).children@[index as int].is_leaf,
            final(parent).children@[index as int + 1].is_leaf == old(
                parent,
            ).children@[index as int].is_leaf,
            final(parent).children@[index as int].keys@.len() == t - 1,
            final(parent).children@[index as int + 1].keys@.len() == t - 1,
            height(*final(parent)) == height(*old(parent)),
            forall|k: u64| #[trigger] node_get(*final(parent), k) == node_get(*old(parent), k),
    {
        let ghost oldp = *parent;
        let ghost oc = *oldp.children@[index as int];
        proof {
            lemma_wf_children_index(oldp.children@, index as int);
            lemma_bounded_children_index(oldp.children@, t as nat, index as int);
        }
        let mut child: Box<BTreeNode> = parent.children.remove(index);
        let mut right = BTreeNode::new(child.is_leaf);
        right.keys = child.keys.split_off(t);
        right.values = child.values.split_off(t);
        let median_key = child.keys.pop().unwrap();
        let median_val = child.values.pop().unwrap();
        if !child.is_leaf {
            right.children = child.children.split_off(t);
        }
        proof {
            assert(child.keys@ =~= oc.keys@.take(t - 1));
            assert(child.values@ =~= oc.values@.take(t - 1));
        }
        parent.children.insert(index, child);
        parent.children.insert(index + 1, Box::new(right));
        parent.keys.insert(index, median_key);
        parent.values.insert(index, median_val);
        proof {
            let med = oc.keys@[t - 1];
            let l = *parent.children@[index as int];
            let rn = *parent.children@[index as int + 1];
            lemma_split_node(oc, t as nat, l, rn, med);
            // the median lies strictly inside the old child's window
            assert(node_get(oc, med) is Some);
            assert(child_window(oldp, index as int, med));
            // the new child list, elementwise
            assert(parent.children@.len() == oldp.children@.len() + 1);
            assert(forall|j: int|
                0 <= j < index ==> (#[trigger] parent.children@[j]) == oldp.children@[j]);
            assert(forall|j: int|
                index + 1 < j < parent.children@.len() ==> (#[trigger] parent.children@[j])
                    == oldp.children@[j - 1]);
            // sortedness of the widened key sequence
            assert(parent.keys@.len() == oldp.keys@.len() + 1);
            assert(forall|j: int|
                0 <= j < index ==> (#[trigger] parent.keys@[j]) == oldp.keys@[j]);
            assert(parent.keys@[index as int] == med);
            assert(forall|j: int|
                index < j < parent.keys@.len() ==> (#[trigger] parent.keys@[j]) == oldp.keys@[j
                    - 1]);
            assert forall|a: int, b: int| 0 <= a < b < parent.keys@.len() implies parent.keys@[a]
                < parent.keys@[b] by {
                if a == index {
                    assert(med < oldp.keys@[b - 1]) by {
                        if b - 1 > index {
                            assert(oldp.keys@[index as int] <= oldp.keys@[b - 1]);
                        }
                    }
                } else if b == index {
                    assert(oldp.keys@[a] < med) by {
                        if a < index - 1 {
                            assert(oldp.keys@[a] < oldp.keys@[index - 1]);
                        }
                    }
                }
            }
            assert(strictly_sorted(parent.keys@));
            // children all well-formed and bounded
            assert forall|j: int| 0 <= j < parent.children@.len() implies wf(
                *(#[trigger] parent.children@[j]),
            ) && bounded(*parent.children@[j], t as nat) by {
                if j < index {
                    lemma_wf_children_index(oldp.children@, j);
                    lemma_bounded_children_index(oldp.children@, t as nat, j);
                } else if j > index + 1 {
                    lemma_wf_children_index(oldp.children@, j - 1);
                    lemma_bounded_children_index(oldp.children@, t as nat, j - 1);
                }
            }
            lemma_wf_children_all(parent.children@);
            lemma_bounded_children_all(parent.children@, t as nat);
            // separation around the two new children and the shifted tail
            assert forall|j: int, k: u64|
                0 <= j < parent.children@.len() && (#[trigger] node_get(
                    *parent.children@[j],
                    k,
                )) is Some implies child_window(*parent, j, k) by {
                lemma_split_node(oc, t as nat, l, rn, k);
                if j < index {
                    assert(node_get(*oldp.children@[j], k) is Some);
                    assert(child_window(oldp, j, k));
                } else if j == index {
                    // left part: everything below the median
                    assert(k < med);
                    assert(node_get(oc, k) is Some);
                    assert(child_window(oldp, index as int, k));
                } else if j == index + 1 {
                    assert(k > med);
                    assert(node_get(oc, k) is Some);
                    assert(child_window(oldp, index as int, k));
                } else {
                    assert(node_get(*oldp.children@[j - 1], k) is Some);
                    assert(child_window(oldp, j - 1, k));
                }
            }
            assert(wf(*parent));
            // the two halves partition the old child's children, so the
            // parent's height is unchanged exactly
            lemma_children_height_remove_max(oldp.children@, index as int);
            let cs1 = oldp.children@.remove(index as int);
            let cs2 = cs1.insert(index as int, parent.children@[index as int]);
            lemma_children_height_insert(cs1, index as int, parent.children@[index as int]);
            lemma_children_height_insert(cs2, index as int + 1, parent.children@[index as int + 1]);
            assert(parent.children@ =~= cs2.insert(index as int + 1, parent.children@[index as int
                + 1]));
            assert(height(*parent) == height(oldp));
            // lookups are preserved
            assert forall|k: u64| #[trigger] node_get(*parent, k) == node_get(oldp, k) by {
                lemma_split_node(oc, t as nat, l, rn, k);
                lemma_find_index_props(oldp.keys@, k);
                let fi = find_index(oldp.keys@, k);
                if k < med {
                    // descent index unchanged; left half behaves like the old child
                    assert(fi <= index) by {
                        if fi > index {
                            assert(oldp.keys@[index as int] < k);
                            assert(child_window(oldp, index as int, med));
                        }
                    }
                    lemma_find_index_is(parent.keys@, k, fi);
                    if 0 <= fi < oldp.keys@.len() && oldp.keys@[fi] == k {
                        assert(fi < index);
                        assert(parent.keys@[fi] == oldp.keys@[fi]);
                        assert(parent.values@[fi] == oldp.values@[fi]);
                    } else if fi < index {
                        assert(parent.children@[fi] == oldp.children@[fi]);
                    } else {
                        assert(fi == index);
                        assert(node_get(*parent, k) == node_get(l, k));
                        assert(node_get(oldp, k) == node_get(oc, k));
                    }
                } else if k == med {
                    assert forall|j: int| 0 <= j < index implies parent.keys@[j] < k by {
                        assert(oldp.keys@[j] <= oldp.keys@[index - 1]);
                    }
                    lemma_find_index_is(parent.keys@, k, index as int);
                    assert(node_get(*parent, k) == Some(oc.values@[t - 1]));
                    assert(fi == index) by {
                        lemma_find_index_is(oldp.keys@, k, index as int);
                    }
                    assert(node_get(oldp, k) == node_get(oc, k));
                } else {
                    // k > med
                    assert(fi >= index) by {
                        if fi < index {
                            assert(k <= oldp.keys@[fi]);
                            assert(oldp.keys@[fi] <= oldp.keys@[index - 1]);
                            assert(oldp.keys@[index - 1] < med);
                        }
                    }
                    if fi == index && 0 <= fi < oldp.keys@.len() && oldp.keys@[fi] == k {
                        // exact match stays at the shifted position
                        assert forall|j: int| 0 <= j < index + 1 implies parent.keys@[j] < k by {
                            if j < index {
                                assert(oldp.keys@[j] <= oldp.keys@[index - 1]);
                                assert(oldp.keys@[index - 1] < med);
                            }
                        }
                        lemma_find_index_is(parent.keys@, k, index as int + 1);
                        assert(parent.keys@[index as int + 1] == oldp.keys@[index as int]);
                        assert(parent.values@[index as int + 1] == oldp.values@[index as int]);
                    } else if fi == index {
                        // between the median and the next separator: right half
                        assert forall|j: int| 0 <= j < index + 1 implies parent.keys@[j] < k by {
                            if j < index {
                                assert(oldp.keys@[j] <= oldp.keys@[index - 1]);
                                assert(oldp.keys@[index - 1] < med);
                            }
                        }
                        lemma_find_index_is(parent.keys@, k, index as int + 1);
                        assert(node_get(*parent, k) == node_get(rn, k));
                        assert(node_get(oldp, k) == node_get(oc, k));
                    } else {
                        // fi > index: everything shifts one to the right
                        assert forall|j: int| 0 <= j < fi + 1 implies parent.keys@[j] < k by {
                            if j < index {
                                assert(oldp.keys@[j] < k);
                            } else if j == index {
                                assert(oldp.keys@[index as int] < k);
                            } else {
                                assert(oldp.keys@[j - 1] < k);
                            }
                        }
                        if fi + 1 < parent.keys@.len() {
                            assert(parent.keys@[fi + 1] == oldp.keys@[fi]);
                        }
                        lemma_find_index_is(parent.keys@, k, fi + 1);
                        if 0 <= fi < oldp.keys@.len() && oldp.keys@[fi] == k {
                            assert(parent.values@[fi + 1] == oldp.values@[fi]);
                        } else {
                            assert(parent.children@[fi + 1] == oldp.children@[fi]);
                        }
                    }
                }
            }
        }
    }

    /// Insert into a node that is known not to be full, splitting any full
    /// child before descending into it.  An already-present key has its
    /// value overwritten in place.
    #[verifier::rlimit(60)]
    fn insert_non_full(node: &mut BTreeNode, t: usize, key: u64, value: u64)
        requires
            wf(*old(node)),
            bounded(*old(node), t as nat),
            t >= 2,
            2 * t <= usize::MAX,
            old(node).keys@.len() < 2 * t - 1,
        ensures
            wf(*final(node)),
            bounded(*final(node), t as nat),
            final(node).is_leaf == old(node).is_leaf,
            height(*final(node)) == height(*old(node)),
            old(node).is_leaf && node_get(*old(node), key) is Some ==> final(node).keys@.len()
                == old(node).keys@.len(),
            old(node).is_leaf && node_get(*old(node), key) is None ==> final(node).keys@.len()
                == old(node).keys@.len() + 1,
            !old(node).is_leaf && (forall|j: int|
                0 <= j < old(node).children@.len() ==> (#[trigger] old(
                    node,
                ).children@[j]).keys@.len() < 2 * t - 1) ==> final(node).keys@.len() == old(
                node,
            ).keys@.len() && final(node).children@.len() == old(node).children@.len(),
            forall|k: u64| #[trigger]
                node_get(*final(node), k) == (if k == key {
                    Some(value)
                } else {
                    node_get(*old(node), k)
                }),
        decreases height(*old(node)),
    {
        let ghost n0 = *old(node);
        let mut i: usize = node.keys.len();
        while i > 0 && key < node.keys[i - 1]
            invariant
                i <= node.keys@.len(),
                forall|j: int| i <= j < node.keys@.len() ==> key < #[trigger] node.keys@[j],
                *node == n0,
            decreases i,
        {
            i -= 1;
        }
        if i > 0 && node.keys[i - 1] == key {
            // update in place
            node.values[i - 1] = value;
            proof {
                Self::lemma_set_value(n0, *node, i - 1, value);
                assert forall|j: int| 0 <= j < i - 1 implies n0.keys@[j] < key by {
                    assert(n0.keys@[j] < n0.keys@[i - 1]);
                }
                lemma_find_index_is(n0.keys@, key, i - 1);
                assert(node_get(n0, key) is Some);
                assert(height(*node) == height(n0));
            }
            return ;
        }
        proof {
            // the scan bracketed the key strictly
            assert forall|j: int| 0 <= j < i implies n0.keys@[j] < key by {
                if i > 0 && j < i - 1 {
                    assert(n0.keys@[j] < n0.keys@[i - 1]);
                }
            }
            lemma_find_index_is(n0.keys@, key, i as int);
        }
        if node.is_leaf {
            node.keys.insert(i, key);
            node.values.insert(i, value);
            proof {
                assert(node.keys@ =~= n0.keys@.insert(i as int, key));
                assert(node.values@ =~= n0.values@.insert(i as int, value));
                assert forall|a: int, b: int| 0 <= a < b < node.keys@.len() implies node.keys@[a]
                    < node.keys@[b] by {
                    if a != i && b != i {
                        let a0: int = if a < i { a } else { a - 1 };
                        let b0: int = if b < i { b } else { b - 1 };
                        assert(node.keys@[a] == n0.keys@[a0]);
                        assert(node.keys@[b] == n0.keys@[b0]);
                    }
                }
                assert(wf(*node));
                assert(node_get(n0, key) is None);
                assert forall|k: u64| true implies #[trigger] node_get(*node, k) == (if k == key {
                    Some(value)
                } else {
                    node_get(n0, k)
                }) by {
                    lemma_find_index_props(n0.keys@, k);
                    let fi = find_index(n0.keys@, k);
                    if k == key {
                        lemma_find_index_is(node.keys@, k, i as int);
                    } else if k < key {
                        assert(fi <= i) by {
                            if fi > i {
                                assert(n0.keys@[i as int] < k);
                                assert(key < n0.keys@[i as int]);
                            }
                        }
                        if fi < node.keys@.len() {
                            assert(node.keys@[fi] == (if fi < i {
                                n0.keys@[fi]
                            } else {
                                key
                            }));
                        }
                        lemma_find_index_is(node.keys@, k, fi);
                    } else {
                        // k > key
                        assert(fi >= i) by {
                            if fi < i {
                                assert(k <= n0.keys@[fi]);
                                assert(n0.keys@[fi] < key);
                            }
                        }
                        assert forall|j: int| 0 <= j < fi + 1 implies node.keys@[j] < k by {
                            if j < i {
                                assert(node.keys@[j] == n0.keys@[j]);
                            } else if j > i {
                                assert(node.keys@[j] == n0.keys@[j - 1]);
                            }
                        }
                        if fi + 1 < node.keys@.len() {
                            assert(node.keys@[fi + 1] == n0.keys@[fi]);
                        }
                        lemma_find_index_is(node.keys@, k, fi + 1);
                        if 0 <= fi < n0.keys@.len() && n0.keys@[fi] == k {
                            assert(node.values@[fi + 1] == n0.values@[fi]);
                        }
                    }
                }
            }
            return ;
        }
        // internal node: make sure the child we descend into is not full
        let ghost io: int = i as int;
        proof {
            lemma_wf_children_index(node.children@, io);
            lemma_bounded_children_index(node.children@, t as nat, io);
        }
        if node.children[i].keys.len() == 2 * t - 1 {
            Self::split_child(node, i, t);
            let ghost med = node.keys@[io];
            proof {
                assert(node.keys@ == n0.keys@.insert(io, med));
                assert(forall|j: int| 0 <= j < io ==> #[trigger] node.keys@[j] == n0.keys@[j]);
                assert(forall|j: int|
                    io < j < node.keys@.len() ==> #[trigger] node.keys@[j] == n0.keys@[j - 1]);
            }
            if node.keys[i] == key {
                // the promoted median is the key being written
                let ghost sp = *node;
                node.values[i] = value;
                proof {
                    Self::lemma_set_value(sp, *node, io, value);
                    assert(height(*node) == height(sp));
                    assert(bounded(*node, t as nat));
                }
                return ;
            }
            if key > node.keys[i] {
                i += 1;
            }
            proof {
                assert forall|j: int| 0 <= j < i implies #[trigger] node.keys@[j] < key by {
                    if j < io {
                        assert(node.keys@[j] == n0.keys@[j]);
                    } else {
                        assert(j == io && i as int == io + 1);
                        assert(key > med);
                    }
                }
                if (i as int) < node.keys@.len() {
                    if i as int == io {
                        assert(key < med);
                    } else {
                        assert(node.keys@[i as int] == n0.keys@[io]);
                        assert(key < n0.keys@[io]);
                    }
                }
                assert(node.children@[i as int].keys@.len() == t - 1);
            }
        } else {
            proof {
                assert(node.children@[io].keys@.len() < 2 * t - 1);
            }
        }
        let ghost n1 = *node;
        proof {
            lemma_wf_children_index(n1.children@, i as int);
            lemma_bounded_children_index(n1.children@, t as nat, i as int);
            lemma_find_index_is(n1.keys@, key, i as int);
            lemma_child_height_le(n1.children@, i as int);
            assert(height(*n1.children@[i as int]) < height(n1));
        }
        let mut child: Box<BTreeNode> = node.children.remove(i);
        Self::insert_non_full(&mut *child, t, key, value);
        node.children.insert(i, child);
        proof {
            assert(node.children@ =~= n1.children@.update(i as int, node.children@[i as int]));
            lemma_find_index_props(n1.keys@, key);
            lemma_child_update(n1, *node, i as int, key, Some(value));
            assert forall|j: int| 0 <= j < node.children@.len() implies bounded(
                *(#[trigger] node.children@[j]),
                t as nat,
            ) by {
                if j != i as int {
                    lemma_bounded_children_index(n1.children@, t as nat, j);
                }
            }
            lemma_bounded_children_all(node.children@, t as nat);
            // height: the updated child kept its height, so the node does too
            let cs1 = n1.children@.remove(i as int);
            lemma_children_height_remove_max(n1.children@, i as int);
            lemma_children_height_insert(cs1, i as int, node.children@[i as int]);
            assert(node.children@ =~= cs1.insert(i as int, node.children@[i as int]));
            assert(height(*node.children@[i as int]) == height(*n1.children@[i as int]));
            assert(children_height(node.children@) == children_height(n1.children@));
            assert(height(*node) == height(n1));
            assert(node.keys@ == n1.keys@);
            assert(node.children@.len() == n1.children@.len());
        }
    }

    /// Overwrite the value of a key already present in the subtree.  The
    /// descent only rewrites one value slot: keys, children and height are
    /// untouched, so an update performs no structural change.
    fn update_value(node: &mut BTreeNode, key: u64, value: u64)
        requires
            wf(*old(node)),
            node_get(*old(node), key) is Some,
        ensures
            wf(*final(node)),
            final(node).is_leaf == old(node).is_leaf,
            final(node).keys@ == old(node).keys@,
            final(node).children@.len() == old(node).children@.len(),
            height(*final(node)) == height(*old(node)),
            forall|k: u64| #[trigger]
                node_get(*final(node), k) == (if k == key {
                    Some(value)
                } else {
                    node_get(*old(node), k)
                }),
            forall|t: nat| bounded(*old(node), t) ==> #[trigger] bounded(*final(node), t),
        decreases *old(node),
    {
        let ghost n0 = *old(node);
        let mut i: usize = 0;
        while i < node.keys.len() && key > node.keys[i]
            invariant
                i <= node.keys@.len(),
                forall|j: int| 0 <= j < i ==> #[trigger] node.keys@[j] < key,
                *node == n0,
            decreases node.keys@.len() - i,
        {
            i += 1;
        }
        proof {
            lemma_find_index_is(n0.keys@, key, i as int);
        }
        if i < node.keys.len() && key == node.keys[i] {
            node.values[i] = value;
            proof {
                Self::lemma_set_value(n0, *node, i as int, value);
                assert(height(*node) == height(n0));
                assert forall|t: nat| bounded(n0, t) implies #[trigger] bounded(*node, t) by {}
            }
        } else {
            // the key resolves somewhere below: descend
            proof {
                assert(!n0.is_leaf);
                lemma_wf_children_index(n0.children@, i as int);
                assert(node_get(*n0.children@[i as int], key) is Some);
            }
            let mut child: Box<BTreeNode> = node.children.remove(i);
            Self::update_value(&mut *child, key, value);
            node.children.insert(i, child);
            proof {
                assert(node.children@ =~= n0.children@.update(i as int, node.children@[i as int]));
                lemma_child_update(n0, *node, i as int, key, Some(value));
                let cs1 = n0.children@.remove(i as int);
                lemma_children_height_remove_max(n0.children@, i as int);
                lemma_children_height_insert(cs1, i as int, node.children@[i as int]);
                assert(node.children@ =~= cs1.insert(i as int, node.children@[i as int]));
                assert(height(*node.children@[i as int]) == height(*n0.children@[i as int]));
                assert(children_height(node.children@) == children_height(n0.children@));
                assert(height(*node) == height(n0));
                assert forall|t: nat| bounded(n0, t) implies #[trigger] bounded(*node, t) by {
                    assert forall|j: int| 0 <= j < node.children@.len() implies bounded(
                        *(#[trigger] node.children@[j]),
                        t,
                    ) by {
                        lemma_bounded_children_index(n0.children@, t, j);
                    }
                    lemma_bounded_children_all(node.children@, t);
                }
            }
        }
    }

    /// Removing the pair at index `i` of a leaf removes exactly that key.
    proof fn lemma_leaf_remove(pre: BTreeNode, post: BTreeNode, i: int)
        requires
            wf(pre),
            pre.is_leaf,
            0 <= i < pre.keys@.len(),
            post.keys@ == pre.keys@.remove(i),
            post.values@ == pre.values@.remove(i),
            post.children@ == pre.children@,
            post.is_leaf,
        ensures
            wf(post),
            forall|k: u64| #[trigger]
                node_get(post, k) == (if k == pre.keys@[i] {
                    None
                } else {
                    node_get(pre, k)
                }),
    {
        let key = pre.keys@[i];
        assert(strictly_sorted(post.keys@));
        assert(wf(post));
        assert forall|k: u64| true implies #[trigger] node_get(post, k) == (if k == key {
            None
        } else {
            node_get(pre, k)
        }) by {
            lemma_find_index_props(pre.keys@, k);
            let fi = find_index(pre.keys@, k);
            if k <= key {
                assert(fi <= i) by {
                    if fi > i {
                        assert(pre.keys@[i] < k);
                    }
                }
                assert forall|j: int| 0 <= j < fi implies post.keys@[j] < k by {
                    assert(post.keys@[j] == pre.keys@[j]);
                }
                if fi < post.keys@.len() {
                    assert(post.keys@[fi] == (if fi < i {
                        pre.keys@[fi]
                    } else {
                        pre.keys@[fi + 1]
                    }));
                }
                lemma_find_index_is(post.keys@, k, fi);
                if k == key {
                    lemma_find_index_is(pre.keys@, k, i);
                }
            } else {
                assert(fi >= i + 1) by {
                    if fi <= i {
                        assert(k <= pre.keys@[fi]);
                        assert(pre.keys@[fi] <= pre.keys@[i]);
                    }
                }
                assert forall|j: int| 0 <= j < fi - 1 implies post.keys@[j] < k by {
                    if j < i {
                        assert(post.keys@[j] == pre.keys@[j]);
                    } else {
                        assert(post.keys@[j] == pre.keys@[j + 1]);
                    }
                }
                if fi - 1 < post.keys@.len() {
                    assert(post.keys@[fi - 1] == pre.keys@[fi]);
                }
                lemma_find_index_is(post.keys@, k, fi - 1);
                if fi < pre.keys@.len() && pre.keys@[fi] == k {
                    assert(post.values@[fi - 1] == pre.values@[fi]);
                }
            }
        }
    }

    /// Dropping separator `i` together with its (key-less) left subtree
    /// removes exactly that separator key from the node's lookups.
    #[verifier::rlimit(30)]
    proof fn lemma_drop_key_and_child(pre: BTreeNode, post: BTreeNode, i: int)
        requires
            wf(pre),
            !pre.is_leaf,
            0 <= i < pre.keys@.len(),
            post.keys@ == pre.keys@.remove(i),
            post.values@ == pre.values@.remove(i),
            post.children@ == pre.children@.remove(i),
            !post.is_leaf,
            forall|k: u64| #[trigger] node_get(*pre.children@[i], k) is None,
        ensures
            wf(post),
            forall|k: u64| #[trigger]
                node_get(post, k) == (if k == pre.keys@[i] {
                    None
                } else {
                    node_get(pre, k)
                }),
    {
        let key = pre.keys@[i];
        assert(forall|j: int|
            0 <= j < i ==> (#[trigger] post.children@[j]) == pre.children@[j]);
        assert(forall|j: int|
            i <= j < post.children@.len() ==> (#[trigger] post.children@[j]) == pre.children@[j
                + 1]);
        assert forall|j: int| 0 <= j < post.children@.len() implies wf(
            *(#[trigger] post.children@[j]),
        ) by {
            if j < i {
                lemma_wf_children_index(pre.children@, j);
            } else {
                lemma_wf_children_index(pre.children@, j + 1);
            }
        }
        lemma_wf_children_all(post.children@);
        assert forall|j: int, k: u64|
            0 <= j < post.children@.len() && (#[trigger] node_get(*post.children@[j], k)) is Some
            implies child_window(post, j, k) by {
            if j < i {
                assert(node_get(*pre.children@[j], k) is Some);
            } else {
                assert(node_get(*pre.children@[j + 1], k) is Some);
                assert(child_window(pre, j + 1, k));
                if j == i && i > 0 {
                    assert(pre.keys@[i - 1] < pre.keys@[i]);
                }
            }
        }
        assert(wf(post));
        assert(forall|j: int|
            0 <= j < i ==> (#[trigger] post.keys@[j]) == pre.keys@[j]);
        assert(forall|j: int|
            i <= j < post.keys@.len() ==> (#[trigger] post.keys@[j]) == pre.keys@[j + 1]);
        assert(forall|j: int|
            0 <= j < i ==> (#[trigger] post.values@[j]) == pre.values@[j]);
        assert(forall|j: int|
            i <= j < post.values@.len() ==> (#[trigger] post.values@[j]) == pre.values@[j + 1]);
        assert forall|k: u64| true implies #[trigger] node_get(post, k) == (if k == key {
            None
        } else {
            node_get(pre, k)
        }) by {
            lemma_find_index_props(pre.keys@, k);
            let fi = find_index(pre.keys@, k);
            if k <= key {
                assert(fi <= i) by {
                    if fi > i {
                        assert(pre.keys@[i] < k);
                    }
                }
                assert forall|j: int| 0 <= j < fi implies post.keys@[j] < k by {
                    assert(post.keys@[j] == pre.keys@[j]);
                }
                if fi < post.keys@.len() {
                    if fi < i {
                        assert(post.keys@[fi] == pre.keys@[fi]);
                        assert(k <= post.keys@[fi]);
                    } else {
                        assert(post.keys@[i] == pre.keys@[i + 1]);
                        assert(pre.keys@[i] < pre.keys@[i + 1]);
                        assert(k <= post.keys@[fi]);
                    }
                }
                lemma_find_index_is(post.keys@, k, fi);
                if k == key {
                    lemma_find_index_is(pre.keys@, k, i);
                    assert(fi == i);
                    if i < post.keys@.len() {
                        assert(post.keys@[i] == pre.keys@[i + 1]);
                        assert(pre.keys@[i] < pre.keys@[i + 1]);
                        assert(post.keys@[i] != k);
                    }
                    assert(post.children@[i] == pre.children@[i + 1]);
                    if node_get(*pre.children@[i + 1], k) is Some {
                        assert(child_window(pre, i + 1, k));
                        assert(pre.keys@[i] < k);
                    }
                    assert(node_get(post, k) is None);
                } else if fi < i {
                    assert(post.children@[fi] == pre.children@[fi]);
                    if fi < pre.keys@.len() && pre.keys@[fi] == k {
                        assert(post.values@[fi] == pre.values@[fi]);
                    }
                } else {
                    // both sides fall through to a child that cannot hold `k`
                    assert(fi == i);
                    assert(pre.keys@[i] != k);
                    if i < post.keys@.len() {
                        assert(post.keys@[i] == pre.keys@[i + 1]);
                        assert(k < pre.keys@[i + 1]);
                    }
                    assert(post.children@[i] == pre.children@[i + 1]);
                    if node_get(*pre.children@[i + 1], k) is Some {
                        assert(child_window(pre, i + 1, k));
                        assert(pre.keys@[i] < k);
                    }
                    assert(node_get(*pre.children@[i], k) is None);
                    assert(node_get(post, k) is None);
                    assert(node_get(pre, k) is None);
                }
            } else {
                assert(fi >= i + 1) by {
                    if fi <= i {
                        assert(k <= pre.keys@[fi]);
                        assert(pre.keys@[fi] <= pre.keys@[i]);
                    }
                }
                assert forall|j: int| 0 <= j < fi - 1 implies post.keys@[j] < k by {
                    if j < i {
                        assert(post.keys@[j] == pre.keys@[j]);
                    } else {
                        assert(post.keys@[j] == pre.keys@[j + 1]);
                    }
                }
                if fi - 1 < post.keys@.len() {
                    assert(post.keys@[fi - 1] == pre.keys@[fi]);
                    assert(k <= post.keys@[fi - 1]);
                }
                lemma_find_index_is(post.keys@, k, fi - 1);
                if fi < pre.keys@.len() && pre.keys@[fi] == k {
                    assert(post.values@[fi - 1] == pre.values@[fi]);
                } else {
                    assert(post.children@[fi - 1] == pre.children@[fi]);
                }
            }
        }
    }

    /// Replacing separator `i` (the deleted key) by the in-order predecessor
    /// `pk` just removed from its left subtree removes exactly the old key.
    #[verifier::rlimit(60)]
    proof fn lemma_replace_with_pred(pre: BTreeNode, post: BTreeNode, i: int, pk: u64, pv: u64)
        requires
            wf(pre),
            !pre.is_leaf,
            0 <= i < pre.keys@.len(),
            post.keys@ == pre.keys@.update(i, pk),
            post.values@ == pre.values@.update(i, pv),
            post.children@ == pre.children@.update(i, post.children@[i]),
            post.children@.len() == pre.children@.len(),
            !post.is_leaf,
            wf(*post.children@[i]),
            node_get(*pre.children@[i], pk) == Some(pv),
            forall|k: u64| #[trigger]
                node_get(*post.children@[i], k) == (if k == pk {
                    None
                } else {
                    node_get(*pre.children@[i], k)
                }),
            forall|k: u64| k > pk ==> #[trigger] node_get(*pre.children@[i], k) is None,
        ensures
            wf(post),
            forall|k: u64| #[trigger]
                node_get(post, k) == (if k == pre.keys@[i] {
                    None
                } else {
                    node_get(pre, k)
                }),
    {
        let key = pre.keys@[i];
        assert(child_window(pre, i, pk));
        assert(pk < key);
        assert(forall|j: int|
            0 <= j < pre.children@.len() && j != i ==> (#[trigger] post.children@[j])
                == pre.children@[j]);
        assert forall|a: int, b: int| 0 <= a < b < post.keys@.len() implies post.keys@[a]
            < post.keys@[b] by {
            if a == i {
                assert(pre.keys@[i] <= pre.keys@[b]);
            } else if b == i {
                if a < i - 1 {
                    assert(pre.keys@[a] < pre.keys@[i - 1]);
                }
            }
        }
        assert(strictly_sorted(post.keys@));
        assert forall|j: int| 0 <= j < post.children@.len() implies wf(
            *(#[trigger] post.children@[j]),
        ) by {
            if j != i {
                lemma_wf_children_index(pre.children@, j);
            }
        }
        lemma_wf_children_all(post.children@);
        assert forall|j: int, k: u64|
            0 <= j < post.children@.len() && (#[trigger] node_get(*post.children@[j], k)) is Some
            implies child_window(post, j, k) by {
            if j == i {
                assert(node_get(*pre.children@[i], k) is Some);
                assert(child_window(pre, i, k));
                assert(k != pk);
                assert(k < pk);
            } else {
                assert(node_get(*pre.children@[j], k) is Some);
                assert(child_window(pre, j, k));
                if j == i + 1 {
                    assert(pre.keys@[i] < k);
                }
            }
        }
        assert(wf(post));
        assert forall|k: u64| true implies #[trigger] node_get(post, k) == (if k == key {
            None
        } else {
            node_get(pre, k)
        }) by {
            lemma_find_index_props(pre.keys@, k);
            let fi = find_index(pre.keys@, k);
            assert forall|j: int| 0 <= j < i implies pre.keys@[j] < pk by {
                if j < i - 1 {
                    assert(pre.keys@[j] < pre.keys@[i - 1]);
                }
            }
            if k == key {
                lemma_find_index_is(pre.keys@, k, i);
                assert forall|j: int| 0 <= j < i + 1 implies post.keys@[j] < k by {
                    if j < i {
                        assert(post.keys@[j] == pre.keys@[j]);
                    }
                }
                if i + 1 < post.keys@.len() {
                    assert(post.keys@[i + 1] == pre.keys@[i + 1]);
                }
                lemma_find_index_is(post.keys@, k, i + 1);
                if i + 1 < post.children@.len() {
                    assert(post.children@[i + 1] == pre.children@[i + 1]);
                    if node_get(*pre.children@[i + 1], k) is Some {
                        assert(child_window(pre, i + 1, k));
                    }
                }
            } else if k == pk {
                lemma_find_index_is(post.keys@, k, i);
                lemma_find_index_is(pre.keys@, k, i);
                assert(node_get(pre, pk) == node_get(*pre.children@[i], pk));
            } else if k < pk {
                assert(fi <= i) by {
                    if fi > i {
                        assert(pre.keys@[i] < k);
                    }
                }
                assert forall|j: int| 0 <= j < fi implies post.keys@[j] < k by {
                    assert(post.keys@[j] == pre.keys@[j]);
                }
                if fi < post.keys@.len() {
                    assert(post.keys@[fi] == (if fi == i {
                        pk
                    } else {
                        pre.keys@[fi]
                    }));
                }
                lemma_find_index_is(post.keys@, k, fi);
                if fi == i {
                    assert(node_get(*post.children@[i], k) == node_get(*pre.children@[i], k));
                } else if fi < pre.keys@.len() && pre.keys@[fi] == k {
                } else if fi < pre.children@.len() {
                    assert(post.children@[fi] == pre.children@[fi]);
                }
            } else if k < key {
                // strictly between predecessor and deleted key: absent on both sides
                lemma_find_index_is(pre.keys@, k, i);
                assert(node_get(pre, k) == node_get(*pre.children@[i], k));
                assert(node_get(*pre.children@[i], k) is None);
                assert forall|j: int| 0 <= j < i + 1 implies post.keys@[j] < k by {
                    if j < i {
                        assert(post.keys@[j] == pre.keys@[j]);
                    }
                }
                if i + 1 < post.keys@.len() {
                    assert(post.keys@[i + 1] == pre.keys@[i + 1]);
                    assert(pre.keys@[i] < pre.keys@[i + 1]);
                }
                lemma_find_index_is(post.keys@, k, i + 1);
                if i + 1 < post.children@.len() {
                    assert(post.children@[i + 1] == pre.children@[i + 1]);
                    if node_get(*pre.children@[i + 1], k) is Some {
                        assert(child_window(pre, i + 1, k));
                    }
                }
            } else {
                // k > key
                assert(fi >= i + 1) by {
                    if fi <= i {
                        assert(k <= pre.keys@[fi]);
                        assert(pre.keys@[fi] <= pre.keys@[i]);
                    }
                }
                assert forall|j: int| 0 <= j < fi implies post.keys@[j] < k by {
                    if j == i {
                        assert(pk < key);
                    } else {
                        assert(post.keys@[j] == pre.keys@[j]);
                    }
                }
                if fi < post.keys@.len() {
                    assert(post.keys@[fi] == pre.keys@[fi]);
                }
                lemma_find_index_is(post.keys@, k, fi);
                if fi < pre.keys@.len() && pre.keys@[fi] == k {
                    assert(post.values@[fi] == pre.values@[fi]);
                } else if fi < pre.children@.len() {
                    assert(post.children@[fi] == pre.children@[fi]);
                }
            }
        }
    }

    /// Remove and return the greatest key (with its value) in the subtree,
    /// or report that the subtree holds no keys at all and leave it as it is.
    #[verifier::rlimit(60)]
    fn remove_max(node: &mut BTreeNode) -> (r: Option<(u64, u64)>)
        requires
            wf(*old(node)),
        ensures
            wf(*final(node)),
            final(node).is_leaf == old(node).is_leaf,
            r is None ==> final(node).keys@ == old(node).keys@,
            r is None ==> forall|k: u64| #[trigger] node_get(*old(node), k) is None,
            r is None ==> forall|k: u64| #[trigger] node_get(*final(node), k) is None,
            r is Some ==> node_get(*old(node), r->Some_0.0) == Some(r->Some_0.1),
            r is Some ==> forall|k: u64| #[trigger]
                node_get(*final(node), k) == (if k == r->Some_0.0 {
                    None
                } else {
                    node_get(*old(node), k)
                }),
            r is Some ==> forall|k: u64|
                k > r->Some_0.0 ==> #[trigger] node_get(*old(node), k) is None,
            forall|t: nat| bounded(*old(node), t) ==> #[trigger] bounded(*final(node), t),
        decreases *old(node),
    {
        let ghost n0 = *old(node);
        if node.is_leaf {
            if node.keys.len() == 0 {
                proof {
                    assert(forall|k: u64| #[trigger] node_get(n0, k) is None);
                }
                return None;
            }
            let m = node.keys.len();
            let pk = node.keys.pop().unwrap();
            let pv = node.values.pop().unwrap();
            proof {
                let mi = m - 1;
                assert(node.keys@ =~= n0.keys@.remove(mi));
                assert(node.values@ =~= n0.values@.remove(mi));
                Self::lemma_leaf_remove(n0, *node, mi);
                assert forall|j: int| 0 <= j < mi implies n0.keys@[j] < pk by {}
                lemma_find_index_is(n0.keys@, pk, mi);
                assert(node_get(n0, pk) == Some(pv));
                assert forall|k: u64| k > pk implies #[trigger] node_get(n0, k) is None by {
                    assert forall|j: int| 0 <= j < m implies n0.keys@[j] < k by {
                        assert(n0.keys@[j] <= n0.keys@[m - 1]);
                    }
                    lemma_find_index_is(n0.keys@, k, m as int);
                }
            }
            return Some((pk, pv));
        }
        let last = node.children.len() - 1;
        let ghost lasti = last as int;
        proof {
            lemma_wf_children_index(n0.children@, lasti);
            assert forall|t: nat| bounded(n0, t) implies bounded(
                *n0.children@[lasti],
                t,
            ) by {
                lemma_bounded_children_index(n0.children@, t, lasti);
            }
        }
        let mut child: Box<BTreeNode> = node.children.remove(last);
        let r = Self::remove_max(&mut *child);
        match r {
            Some((pk, pv)) => {
                node.children.insert(last, child);
                proof {
                    assert(node.children@ =~= n0.children@.update(lasti, node.children@[lasti]));
                    let m = n0.keys@.len() as int;
                    assert(lasti == m);
                    assert(child_window(n0, lasti, pk));
                    assert forall|j: int| 0 <= j < m implies n0.keys@[j] < pk by {
                        if j < m - 1 {
                            assert(n0.keys@[j] < n0.keys@[m - 1]);
                        }
                    }
                    lemma_child_update(n0, *node, lasti, pk, None);
                    assert forall|t: nat| bounded(n0, t) implies #[trigger] bounded(
                        *node,
                        t,
                    ) by {
                        assert forall|j: int| 0 <= j < node.children@.len() implies bounded(
                            *(#[trigger] node.children@[j]),
                            t,
                        ) by {
                            if j != lasti {
                                lemma_bounded_children_index(n0.children@, t, j);
                            }
                        }
                        lemma_bounded_children_all(node.children@, t);
                    }
                    lemma_find_index_is(n0.keys@, pk, m);
                    assert(node_get(n0, pk) == Some(pv));
                    assert forall|k: u64| k > pk implies #[trigger] node_get(n0, k) is None by {
                        assert forall|j: int| 0 <= j < m implies n0.keys@[j] < k by {
                            assert(n0.keys@[j] < pk);
                        }
                        lemma_find_index_is(n0.keys@, k, m);
                        assert(node_get(n0, k) == node_get(*n0.children@[m], k));
                    }
                }
                return Some((pk, pv));
            }
            None => {
                if node.keys.len() == 0 {
                    node.children.insert(last, child);
                    proof {
                        assert(node.children@.len() == 1);
                        assert forall|k: u64| #[trigger] node_get(n0, k) is None by {
                            lemma_find_index_is(n0.keys@, k, 0);
                            assert(node_get(n0, k) == node_get(*n0.children@[0], k));
                        }
                        assert forall|k: u64| #[trigger] node_get(*node, k) is None by {
                            lemma_find_index_is(node.keys@, k, 0);
                            assert(node_get(*node, k) == node_get(*node.children@[0], k));
                        }
                        assert(wf_children(node.children@)) by {
                            assert(node.children@.drop_last()
                                =~= Seq::<Box<BTreeNode>>::empty());
                            assert(wf_children(Seq::<Box<BTreeNode>>::empty()));
                        }
                        assert forall|j: int, k: u64|
                            0 <= j < node.children@.len() && (#[trigger] node_get(
                                *node.children@[j],
                                k,
                            )) is Some implies child_window(*node, j, k) by {}
                        assert(wf(*node));
                        assert forall|t: nat| bounded(n0, t) implies #[trigger] bounded(
                            *node,
                            t,
                        ) by {
                            assert(bounded_children(node.children@, t)) by {
                                lemma_bounded_children_index(n0.children@, t, 0);
                                assert(bounded(*node.children@[0], t));
                                assert(node.children@.last() == node.children@[0]);
                                assert(node.children@.drop_last()
                                    =~= Seq::<Box<BTreeNode>>::empty());
                                assert(bounded_children(Seq::<Box<BTreeNode>>::empty(), t));
                            }
                        }
                    }
                    return None;
                }
                let pk = node.keys.pop().unwrap();
                let pv = node.values.pop().unwrap();
                proof {
                    let m = n0.keys@.len() as int;
                    assert(lasti == m);
                    assert(node.keys@ =~= n0.keys@.remove(m - 1));
                    assert(node.values@ =~= n0.values@.remove(m - 1));
                    assert(node.children@ =~= n0.children@.remove(m));
                    // the dropped child was the key-less last subtree
                    assert forall|k: u64| #[trigger]
                        node_get(*n0.children@[m], k) is None by {}
                    Self::lemma_remove_last_separator(n0, *node, m - 1);
                    lemma_find_index_is(n0.keys@, pk, m - 1);
                    assert(node_get(n0, pk) == Some(pv));
                    assert forall|k: u64| k > pk implies #[trigger] node_get(n0, k) is None by {
                        lemma_find_index_is(n0.keys@, k, m);
                        if node_get(*n0.children@[m], k) is Some {
                        }
                    }
                    assert forall|t: nat| bounded(n0, t) implies #[trigger] bounded(
                        *node,
                        t,
                    ) by {
                        assert forall|j: int| 0 <= j < node.children@.len() implies bounded(
                            *(#[trigger] node.children@[j]),
                            t,
                        ) by {
                            lemma_bounded_children_index(n0.children@, t, j);
                        }
                        lemma_bounded_children_all(node.children@, t);
                    }
                }
                return Some((pk, pv));
            }
        }
    }

    /// Delete `key` from the subtree.  In a leaf the pair is removed
    /// directly; an internal hit is replaced by its in-order predecessor
    /// taken from the left subtree (or merged away when that subtree holds
    /// no keys); a miss at a leaf changes nothing.  No rebalancing happens.
    #[verifier::rlimit(60)]
    fn delete_internal(node: &mut BTreeNode, key: u64)
        requires
            wf(*old(node)),
        ensures
            wf(*final(node)),
            final(node).is_leaf == old(node).is_leaf,
            forall|k: u64| #[trigger]
                node_get(*final(node), k) == (if k == key {
                    None
                } else {
                    node_get(*old(node), k)
                }),
            forall|t: nat| bounded(*old(node), t) ==> #[trigger] bounded(*final(node), t),
        decreases *old(node),
    {
        let ghost n0 = *old(node);
        let mut i: usize = 0;
        while i < node.keys.len() && key > node.keys[i]
            invariant
                i <= node.keys@.len(),
                forall|j: int| 0 <= j < i ==> #[trigger] node.keys@[j] < key,
                *node == n0,
            decreases node.keys@.len() - i,
        {
            i += 1;
        }
        proof {
            lemma_find_index_is(n0.keys@, key, i as int);
        }
        if i < node.keys.len() && key == node.keys[i] {
            if node.is_leaf {
                node.keys.remove(i);
                node.values.remove(i);
                proof {
                    Self::lemma_leaf_remove(n0, *node, i as int);
                    assert forall|t: nat| bounded(n0, t) implies #[trigger] bounded(
                        *node,
                        t,
                    ) by {}
                }
            } else {
                let mut child: Box<BTreeNode> = node.children.remove(i);
                proof {
                    lemma_wf_children_index(n0.children@, i as int);
                }
                let res = Self::remove_max(&mut *child);
                match res {
                    Some((pk, pv)) => {
                        node.keys[i] = pk;
                        node.values[i] = pv;
                        node.children.insert(i, child);
                        proof {
                            assert(node.keys@ =~= n0.keys@.update(i as int, pk));
                            assert(node.values@ =~= n0.values@.update(i as int, pv));
                            assert(node.children@ =~= n0.children@.update(
                                i as int,
                                node.children@[i as int],
                            ));
                            Self::lemma_replace_with_pred(n0, *node, i as int, pk, pv);
                            assert forall|t: nat| bounded(n0, t) implies #[trigger] bounded(
                                *node,
                                t,
                            ) by {
                                assert forall|j: int|
                                    0 <= j < node.children@.len() implies bounded(
                                    *(#[trigger] node.children@[j]),
                                    t,
                                ) by {
                                    lemma_bounded_children_index(n0.children@, t, j);
                                }
                                lemma_bounded_children_all(node.children@, t);
                            }
                        }
                    },
                    None => {
                        // the left subtree holds no keys: merge it away
                        node.keys.remove(i);
                        node.values.remove(i);
                        proof {
                            assert(node.keys@ =~= n0.keys@.remove(i as int));
                            assert(node.values@ =~= n0.values@.remove(i as int));
                            assert(node.children@ =~= n0.children@.remove(i as int));
                            Self::lemma_drop_key_and_child(n0, *node, i as int);
                            assert forall|t: nat| bounded(n0, t) implies #[trigger] bounded(
                                *node,
                                t,
                            ) by {
                                assert forall|j: int|
                                    0 <= j < node.children@.len() implies bounded(
                                    *(#[trigger] node.children@[j]),
                                    t,
                                ) by {
                                    if j < i as int {
                                        lemma_bounded_children_index(n0.children@, t, j);
                                    } else {
                                        lemma_bounded_children_index(n0.children@, t, j + 1);
                                    }
                                }
                                lemma_bounded_children_all(node.children@, t);
                            }
                        }
                    },
                }
            }
        } else {
            if !node.is_leaf {
                proof {
                    lemma_wf_children_index(n0.children@, i as int);
                }
                let mut child: Box<BTreeNode> = node.children.remove(i);
                Self::delete_internal(&mut *child, key);
                node.children.insert(i, child);
                proof {
                    assert(node.children@ =~= n0.children@.update(
                        i as int,
                        node.children@[i as int],
                    ));
                    lemma_child_update(n0, *node, i as int, key, None);
                    assert forall|t: nat| bounded(n0, t) implies #[trigger] bounded(
                        *node,
                        t,
                    ) by {
                        assert forall|j: int| 0 <= j < node.children@.len() implies bounded(
                            *(#[trigger] node.children@[j]),
                            t,
                        ) by {
                            lemma_bounded_children_index(n0.children@, t, j);
                        }
                        lemma_bounded_children_all(node.children@, t);
                    }
                }
            } else {
                proof {
                    assert forall|k: u64| true implies #[trigger] node_get(*node, k) == (if k
                        == key {
                        None
                    } else {
                        node_get(n0, k)
                    }) by {}
                }
            }
        }
    }

    /// Dropping the last separator key together with the key-less last child
    /// removes exactly that key from the node's lookups.
    #[verifier::rlimit(30)]
    proof fn lemma_remove_last_separator(pre: BTreeNode, post: BTreeNode, i: int)
        requires
            wf(pre),
            !pre.is_leaf,
            i == pre.keys@.len() - 1,
            0 <= i,
            post.keys@ == pre.keys@.remove(i),
            post.values@ == pre.values@.remove(i),
            post.children@ == pre.children@.remove(i + 1),
            !post.is_leaf,
            forall|k: u64| #[trigger] node_get(*pre.children@[i + 1], k) is None,
        ensures
            wf(post),
            node_get(pre, pre.keys@[i]) == Some(pre.values@[i]),
            forall|k: u64| #[trigger]
                node_get(post, k) == (if k == pre.keys@[i] {
                    None
                } else {
                    node_get(pre, k)
                }),
    {
        let key = pre.keys@[i];
        assert(forall|j: int|
            0 <= j < post.children@.len() ==> (#[trigger] post.children@[j]) == pre.children@[j]);
        assert(forall|j: int|
            0 <= j < post.keys@.len() ==> (#[trigger] post.keys@[j]) == pre.keys@[j]);
        assert(forall|j: int|
            0 <= j < post.values@.len() ==> (#[trigger] post.values@[j]) == pre.values@[j]);
        assert forall|j: int| 0 <= j < post.children@.len() implies wf(
            *(#[trigger] post.children@[j]),
        ) by {
            lemma_wf_children_index(pre.children@, j);
        }
        lemma_wf_children_all(post.children@);
        assert forall|j: int, k: u64|
            0 <= j < post.children@.len() && (#[trigger] node_get(*post.children@[j], k)) is Some
            implies child_window(post, j, k) by {
            assert(node_get(*pre.children@[j], k) is Some);
            assert(child_window(pre, j, k));
        }
        assert(wf(post));
        assert forall|j: int| 0 <= j < i implies pre.keys@[j] < key by {
            assert(pre.keys@[j] < pre.keys@[i]);
        }
        lemma_find_index_is(pre.keys@, key, i);
        assert(node_get(pre, key) == Some(pre.values@[i]));
        assert forall|k: u64| true implies #[trigger] node_get(post, k) == (if k == key {
            None
        } else {
            node_get(pre, k)
        }) by {
            lemma_find_index_props(pre.keys@, k);
            let fi = find_index(pre.keys@, k);
            if k < key {
                assert(fi <= i) by {
                    if fi > i {
                        assert(pre.keys@[i] < k);
                    }
                }
                assert(forall|j: int| 0 <= j < fi ==> (#[trigger] post.keys@[j]) < k);
                if fi < post.keys@.len() {
                    assert(post.keys@[fi] == pre.keys@[fi]);
                    assert(k <= post.keys@[fi]);
                }
                lemma_find_index_is(post.keys@, k, fi);
                if fi < i && pre.keys@[fi] == k {
                    assert(post.values@[fi] == pre.values@[fi]);
                } else if fi < post.children@.len() {
                    assert(post.children@[fi] == pre.children@[fi]);
                    if fi == i {
                        assert(pre.keys@[fi] == key && key != k);
                    }
                }
            } else {
                // at or above the removed maximum separator
                assert forall|j: int| 0 <= j < i implies post.keys@[j] < k by {
                    assert(post.keys@[j] == pre.keys@[j]);
                    assert(pre.keys@[j] < pre.keys@[i]);
                }
                lemma_find_index_is(post.keys@, k, i);
                if k > key {
                    assert forall|j: int| 0 <= j < i + 1 implies pre.keys@[j] < k by {
                        assert(pre.keys@[j] <= pre.keys@[i]);
                    }
                    lemma_find_index_is(pre.keys@, k, i + 1);
                    assert(node_get(pre, k) == node_get(*pre.children@[i + 1], k));
                } else {
                    lemma_find_index_is(pre.keys@, k, i);
                }
                assert(post.children@[i] == pre.children@[i]);
                if node_get(*pre.children@[i], k) is Some {
                    assert(child_window(pre, i, k));
                    assert(k < pre.keys@[i]);
                }
                assert(node_get(post, k) == node_get(*pre.children@[i], k));
                assert(node_get(post, k) is None);
            }
        }
    }

    /// Overwriting the value co-indexed with key `i` changes lookups at that
    /// key alone.
    proof fn lemma_set_value(pre: BTreeNode, post: BTreeNode, i: int, value: u64)
        requires
            wf(pre),
            0 <= i < pre.keys@.len(),
            post.keys@ == pre.keys@,
            post.values@ == pre.values@.update(i, value),
            post.children@ == pre.children@,
            post.is_leaf == pre.is_leaf,
        ensures
            wf(post),
            forall|k: u64| #[trigger]
                node_get(post, k) == (if k == pre.keys@[i] {
                    Some(value)
                } else {
                    node_get(pre, k)
                }),
    {
        assert(post.values@.len() == pre.values@.len());
        assert forall|j: int, k: u64|
            0 <= j < post.children@.len() && (#[trigger] node_get(*post.children@[j], k)) is Some
            implies child_window(post, j, k) by {
            assert(node_get(*pre.children@[j], k) is Some);
        }
        assert(wf(post));
        let key = pre.keys@[i];
        assert forall|k: u64| true implies #[trigger] node_get(post, k) == (if k == key {
            Some(value)
        } else {
            node_get(pre, k)
        }) by {
            lemma_find_index_props(pre.keys@, k);
            let fi = find_index(pre.keys@, k);
            if k == key {
                assert forall|j: int| 0 <= j < i implies pre.keys@[j] < k by {
                    if j < i {
                        assert(pre.keys@[j] < pre.keys@[i]);
                    }
                }
                lemma_find_index_is(pre.keys@, k, i);
                assert(post.values@[i] == value);
            } else {
                if 0 <= fi < pre.keys@.len() && pre.keys@[fi] == k {
                    assert(fi != i);
                    assert(post.values@[fi] == pre.values@[fi]);
                }
            }
        }
    }

    fn search_node(n: &BTreeNode, key: u64) -> (r: Option<u64>)
        requires
            wf(*n),
        ensures
            r == node_get(*n, key),
        decreases *n,
    {
        let mut i: usize = 0;
        while i < n.keys.len() && key > n.keys[i]
            invariant
                i <= n.keys@.len(),
                forall|j: int| 0 <= j < i ==> n.keys@[j] < key,
            decreases n.keys@.len() - i,
        {
            i += 1;
        }
        proof {
            lemma_find_index_is(n.keys@, key, i as int);
        }
        if i < n.keys.len() && key == n.keys[i] {
            return Some(n.values[i]);
        }
        if n.is_leaf {
            return None;
        }
        proof {
            lemma_wf_children_index(n.children@, i as int);
        }
        Self::search_node(&n.children[i], key)
    }
}

/// However the tree was built, its in-order traversal lists keys in
/// strictly ascending order, every listed pair is a binding of the tree's
/// map, and every binding of the map is listed.
pub proof fn lemma_in_order_sorted(tree: BTree)
    requires
        tree.well_formed(),
    ensures
        sorted_by_key(tree.in_order()),
        forall|p: int|
            0 <= p < tree.in_order().len() ==> tree@.dom().contains(
                (#[trigger] tree.in_order()[p]).0,
            ) && tree@[tree.in_order()[p].0] == tree.in_order()[p].1,
        forall|k: u64| tree@.dom().contains(k) ==> tree.in_order().contains((k, tree@[k])),
{
    lemma_entries_sorted(tree.root);
    assert forall|k: u64| tree@.dom().contains(k) implies tree.in_order().contains(
        (k, tree@[k]),
    ) by {
        lemma_entries_complete(tree.root, k);
    }
}

impl View for BTree {
    type V = Map<u64, u64>;

    closed spec fn view(&self) -> Map<u64, u64> {
        self.as_map()
    }
}

} // verus!
