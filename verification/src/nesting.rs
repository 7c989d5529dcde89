//! How described lines nest: each is a child of the nearest line before it
//! that is indented less. The trees this makes, and the facts about them
//! that building them with a stack relies on.

use vstd::prelude::*;
use crate::part::{NodeInfoV, Span};
use crate::tree_doc::RawNodeV;

verus! {

/// A described line: its indent, what its block says, and where it is.
pub struct Entry {
    pub indent: int,
    pub info: NodeInfoV,
    pub span: Span,
}

/// Entry `i` is the parent of entry `j`: the nearest entry before `j` that
/// is indented less than `j`.
pub open spec fn is_parent(e: Seq<Entry>, i: int, j: int) -> bool {
    &&& 0 <= i < j < e.len()
    &&& e[i].indent < e[j].indent
    &&& forall|k: int| i < k < j ==> #[trigger] e[k].indent >= e[j].indent
}

/// The tree under entry `i`, counting only the entries before `lim`.
pub open spec fn tree_of(e: Seq<Entry>, i: int, lim: int) -> RawNodeV
    decreases lim - i, lim - i + 1,
{
    RawNodeV {
        info: e[i].info,
        children: if i < lim {
            children_upto(e, i, lim, lim)
        } else {
            seq![]
        },
        span: e[i].span,
    }
}

/// The trees of the children of entry `i` that come before entry `j`, in
/// order, each counting only the entries before `lim`.
pub open spec fn children_upto(e: Seq<Entry>, i: int, j: int, lim: int) -> Seq<RawNodeV>
    decreases lim - i, j - i,
{
    if i + 1 < j && j <= lim {
        children_upto(e, i, j - 1, lim) + if is_parent(e, i, j - 1) {
            seq![tree_of(e, j - 1, lim)]
        } else {
            seq![]
        }
    } else {
        seq![]
    }
}

/// Children of `x` before `j2` are those before `j1` when none lies between.
pub proof fn lemma_children_no_parent(e: Seq<Entry>, x: int, j1: int, j2: int, lim: int)
    requires
        x + 1 <= j1 <= j2 <= lim,
        forall|k: int| j1 <= k < j2 ==> !#[trigger] is_parent(e, x, k),
    ensures
        children_upto(e, x, j2, lim) == children_upto(e, x, j1, lim),
    decreases j2 - j1,
{
    if j1 < j2 {
        lemma_children_no_parent(e, x, j1, j2 - 1, lim);
        assert(!is_parent(e, x, j2 - 1));
        assert(children_upto(e, x, j2, lim) =~= children_upto(e, x, j2 - 1, lim));
    }
}

/// The children of `x` before `j` do not depend on the limit of their
/// subtrees when each of those subtrees does not.
pub proof fn lemma_children_limit(e: Seq<Entry>, x: int, j: int, a: int, b: int)
    requires
        x + 1 <= j <= a <= b,
        forall|k: int| x < k < j && is_parent(e, x, k) ==> tree_of(e, k, a) == tree_of(e, k, b),
    ensures
        children_upto(e, x, j, a) == children_upto(e, x, j, b),
    decreases j - x,
{
    if x + 1 < j {
        lemma_children_limit(e, x, j - 1, a, b);
    }
}

/// The tree under `x` is the same whether it counts entries before `a` or
/// before `b`, when no entry in `a..b` has a parent in `x..a`.
pub proof fn lemma_tree_stable(e: Seq<Entry>, x: int, a: int, b: int)
    requires
        0 <= x < a <= b,
        forall|j: int, y: int| a <= j < b && x <= y < a ==> !#[trigger] is_parent(e, y, j),
    ensures
        tree_of(e, x, a) == tree_of(e, x, b),
    decreases a - x,
{
    assert forall|k: int| x < k < a && is_parent(e, x, k) implies tree_of(e, k, a) == tree_of(
        e,
        k,
        b,
    ) by {
        lemma_tree_stable(e, k, a, b);
    }
    lemma_children_limit(e, x, a, a, b);
    assert forall|k: int| a <= k < b implies !#[trigger] is_parent(e, x, k) by {
        assert(!is_parent(e, x, k));
    }
    lemma_children_no_parent(e, x, a, b, b);
}

/// Closing the subtree of `t` under its parent `p`: the tree under `p`
/// counting entries before `c` is the tree under `p` counting entries before
/// `t`, with the tree under `t` as its last child, when every entry in
/// `t + 1..c` is indented deeper than `t`.
pub proof fn lemma_pop(e: Seq<Entry>, p: int, t: int, c: int)
    requires
        0 <= p < t < c <= e.len(),
        is_parent(e, p, t),
        forall|j: int| t < j < c ==> #[trigger] e[j].indent > e[t].indent,
    ensures
        tree_of(e, p, c) == (RawNodeV {
            info: e[p].info,
            children: tree_of(e, p, t).children.push(tree_of(e, t, c)),
            span: e[p].span,
        }),
{
    assert forall|k: int| t + 1 <= k < c implies !#[trigger] is_parent(e, p, k) by {
        if is_parent(e, p, k) {
            assert(e[t].indent >= e[k].indent);
        }
    }
    lemma_children_no_parent(e, p, t + 1, c, c);
    assert forall|k: int| p < k < t && is_parent(e, p, k) implies tree_of(e, k, t) == tree_of(
        e,
        k,
        c,
    ) by {
        assert forall|j: int, y: int| t <= j < c && k <= y < t implies !#[trigger] is_parent(
            e,
            y,
            j,
        ) by {
            if is_parent(e, y, j) {
                if j == t {
                    assert(e[y].indent >= e[t].indent);
                } else {
                    assert(e[t].indent >= e[j].indent);
                }
            }
        }
        lemma_tree_stable(e, k, t, c);
    }
    lemma_children_limit(e, p, t, t, c);
    assert(children_upto(e, p, t + 1, c) == children_upto(e, p, t, c) + seq![tree_of(e, t, c)]);
    assert(tree_of(e, p, c).children =~= tree_of(e, p, t).children.push(tree_of(e, t, c)));
}

/// What identifies a described line in a tree: what its block says, and
/// where it is.
pub open spec fn label(r: RawNodeV) -> (NodeInfoV, Span) {
    (r.info, r.span)
}

/// The labels of a tree, the root first and then each child's, in order.
pub open spec fn preorder(r: RawNodeV) -> Seq<(NodeInfoV, Span)>
    decreases r, 1int,
{
    seq![label(r)] + preorder_all(r.children)
}

/// The labels of the trees `cs`, one after the other.
pub open spec fn preorder_all(cs: Seq<RawNodeV>) -> Seq<(NodeInfoV, Span)>
    decreases cs, 0int,
{
    if cs.len() == 0 {
        seq![]
    } else {
        preorder(cs[0]) + preorder_all(cs.subrange(1, cs.len() as int))
    }
}

/// The labels of the entries `a..b`.
pub open spec fn labels(e: Seq<Entry>, a: int, b: int) -> Seq<(NodeInfoV, Span)> {
    Seq::new((b - a) as nat, |k: int| (e[a + k].info, e[a + k].span))
}

/// The children of entry `i` from entry `a` on, before `lim`.
pub open spec fn children_from(e: Seq<Entry>, i: int, a: int, lim: int) -> Seq<RawNodeV>
    decreases lim - a,
{
    if i < a < lim {
        (if is_parent(e, i, a) {
            seq![tree_of(e, a, lim)]
        } else {
            seq![]
        }) + children_from(e, i, a + 1, lim)
    } else {
        seq![]
    }
}

/// The first entry from `j` on, before `lim`, indented no deeper than `a`;
/// `lim` when there is none.
pub open spec fn extent(e: Seq<Entry>, a: int, j: int, lim: int) -> int
    decreases lim - j,
{
    if j < lim {
        if e[j].indent <= e[a].indent {
            j
        } else {
            extent(e, a, j + 1, lim)
        }
    } else {
        lim
    }
}

pub proof fn lemma_extent(e: Seq<Entry>, a: int, j: int, lim: int)
    requires
        j <= lim,
    ensures
        j <= extent(e, a, j, lim) <= lim,
        forall|k: int| j <= k < extent(e, a, j, lim) ==> #[trigger] e[k].indent > e[a].indent,
        extent(e, a, j, lim) < lim ==> e[extent(e, a, j, lim)].indent <= e[a].indent,
    decreases lim - j,
{
    if j < lim && e[j].indent > e[a].indent {
        lemma_extent(e, a, j + 1, lim);
    }
}

pub proof fn lemma_children_split(e: Seq<Entry>, i: int, a: int, lim: int)
    requires
        i < a <= lim,
    ensures
        children_upto(e, i, lim, lim) == children_upto(e, i, a, lim) + children_from(e, i, a, lim),
    decreases lim - a,
{
    if a < lim {
        lemma_children_split(e, i, a + 1, lim);
        assert(children_upto(e, i, a + 1, lim) == children_upto(e, i, a, lim) + if is_parent(e, i, a) {
            seq![tree_of(e, a, lim)]
        } else {
            seq![]
        });
        assert(children_upto(e, i, lim, lim) =~= children_upto(e, i, a, lim) + children_from(e, i, a, lim));
    } else {
        assert(children_upto(e, i, lim, lim) =~= children_upto(e, i, a, lim) + children_from(e, i, a, lim));
    }
}

pub proof fn lemma_children_from_skip(e: Seq<Entry>, i: int, a: int, b: int, lim: int)
    requires
        i < a <= b <= lim,
        forall|k: int| a <= k < b ==> !#[trigger] is_parent(e, i, k),
    ensures
        children_from(e, i, a, lim) == children_from(e, i, b, lim),
    decreases b - a,
{
    if a < b {
        assert(!is_parent(e, i, a));
        lemma_children_from_skip(e, i, a + 1, b, lim);
        assert(children_from(e, i, a, lim) =~= children_from(e, i, a + 1, lim));
    }
}

pub proof fn lemma_preorder_cons(t: RawNodeV, rest: Seq<RawNodeV>)
    ensures
        preorder_all(seq![t] + rest) == preorder(t) + preorder_all(rest),
{
    let cs = seq![t] + rest;
    assert(cs[0] == t);
    assert(cs.subrange(1, cs.len() as int) =~= rest);
}

/// The tree under `i`, counting entries before `lim`, lists the entries
/// `i..lim` in order when all of them after `i` are indented deeper than
/// `i`.
pub proof fn lemma_subtree_preorder(e: Seq<Entry>, i: int, lim: int)
    requires
        0 <= i < lim <= e.len(),
        forall|k: int| i < k < lim ==> #[trigger] e[k].indent > e[i].indent,
    ensures
        preorder(tree_of(e, i, lim)) == labels(e, i, lim),
    decreases 2 * (lim - i) + 1,
{
    let t = tree_of(e, i, lim);
    lemma_children_split(e, i, i + 1, lim);
    assert(children_upto(e, i, i + 1, lim) =~= Seq::<RawNodeV>::empty());
    assert(t.children =~= children_from(e, i, i + 1, lim));
    if i + 1 < lim {
        assert(is_parent(e, i, i + 1));
    }
    lemma_forest_preorder(e, i, i + 1, lim);
    assert(preorder(t) =~= labels(e, i, lim));
}

/// The children of `i` from its child `a` on list the entries `a..lim` in
/// order.
pub proof fn lemma_forest_preorder(e: Seq<Entry>, i: int, a: int, lim: int)
    requires
        0 <= i < a <= lim <= e.len(),
        forall|k: int| i < k < lim ==> #[trigger] e[k].indent > e[i].indent,
        a < lim ==> is_parent(e, i, a),
    ensures
        preorder_all(children_from(e, i, a, lim)) == labels(e, a, lim),
    decreases 2 * (lim - a) + 2,
{
    if a == lim {
        assert(labels(e, a, lim) =~= Seq::<(NodeInfoV, Span)>::empty());
    } else {
        let m = extent(e, a, a + 1, lim);
        lemma_extent(e, a, a + 1, lim);
        // No child of `i` lies strictly between `a` and `m`.
        assert forall|k: int| a + 1 <= k < m implies !#[trigger] is_parent(e, i, k) by {
            if is_parent(e, i, k) {
                assert(e[a].indent >= e[k].indent);
            }
        }
        lemma_children_from_skip(e, i, a + 1, m, lim);
        // `m`, if before `lim`, is the next child of `i`.
        if m < lim {
            assert forall|k: int| i < k < m implies #[trigger] e[k].indent >= e[m].indent by {
                if k < a {
                    assert(e[k].indent >= e[a].indent);
                } else if k > a {
                    assert(e[k].indent > e[a].indent);
                }
            }
            assert(is_parent(e, i, m));
        }
        // The subtree of `a` ends at `m`.
        assert forall|j: int, y: int| m <= j < lim && a <= y < m implies !#[trigger] is_parent(
            e,
            y,
            j,
        ) by {
            if is_parent(e, y, j) {
                if j == m {
                    if y > a {
                        assert(e[y].indent > e[a].indent);
                    }
                } else {
                    assert(e[m].indent >= e[j].indent);
                    if y > a {
                        assert(e[y].indent > e[a].indent);
                    }
                }
            }
        }
        if m > a + 1 {
            lemma_tree_stable(e, a, m, lim);
        } else {
            assert(tree_of(e, a, lim).children =~= tree_of(e, a, m).children) by {
                assert(children_upto(e, a, lim, lim) == children_upto(e, a, a + 1, lim) + children_from(e, a, a + 1, lim)) by {
                    lemma_children_split(e, a, a + 1, lim);
                }
                assert forall|k: int| a + 1 <= k < lim implies !#[trigger] is_parent(e, a, k) by {
                    if is_parent(e, a, k) {
                        assert(e[a + 1].indent >= e[k].indent);
                    }
                }
                lemma_children_from_skip(e, a, a + 1, lim, lim);
            }
        }
        lemma_subtree_preorder(e, a, m);
        lemma_forest_preorder(e, i, m, lim);
        assert(children_from(e, i, a, lim) =~= seq![tree_of(e, a, lim)] + children_from(e, i, a + 1, lim));
        lemma_preorder_cons(tree_of(e, a, lim), children_from(e, i, m, lim));
        assert(labels(e, a, lim) =~= labels(e, a, m) + labels(e, m, lim));
    }
}

/// Entries `e` and the entries after them extend `e`.
pub open spec fn extends(e: Seq<Entry>, f: Seq<Entry>) -> bool {
    e.len() <= f.len() && f.take(e.len() as int) == e
}

pub proof fn lemma_tree_prefix(e: Seq<Entry>, f: Seq<Entry>, i: int, lim: int)
    requires
        extends(e, f),
        0 <= i < lim <= e.len(),
    ensures
        tree_of(e, i, lim) == tree_of(f, i, lim),
    decreases lim - i,
{
    assert(e[i] == f.take(e.len() as int)[i]);
    assert forall|k: int| i < k < lim implies is_parent(e, i, k) == is_parent(f, i, k) by {
        assert forall|m: int| i <= m <= k implies e[m] == f[m] by {
            assert(e[m] == f.take(e.len() as int)[m]);
        }
    }
    assert forall|k: int| i < k < lim && is_parent(e, i, k) implies tree_of(e, k, lim) == tree_of(
        f,
        k,
        lim,
    ) by {
        lemma_tree_prefix(e, f, k, lim);
    }
    lemma_children_prefix(e, f, i, lim, lim);
}

pub proof fn lemma_children_prefix(e: Seq<Entry>, f: Seq<Entry>, i: int, j: int, lim: int)
    requires
        extends(e, f),
        0 <= i < j <= lim <= e.len(),
        forall|k: int| i < k < lim ==> is_parent(e, i, k) == is_parent(f, i, k),
        forall|k: int|
            i < k < lim && is_parent(e, i, k) ==> tree_of(e, k, lim) == tree_of(f, k, lim),
    ensures
        children_upto(e, i, j, lim) == children_upto(f, i, j, lim),
    decreases j - i,
{
    if i + 1 < j {
        lemma_children_prefix(e, f, i, j - 1, lim);
    }
}

pub proof fn lemma_is_parent_prefix(e: Seq<Entry>, f: Seq<Entry>, i: int, j: int)
    requires
        extends(e, f),
        j < e.len(),
    ensures
        is_parent(e, i, j) == is_parent(f, i, j),
{
    assert forall|m: int| 0 <= m < e.len() implies e[m] == f[m] by {
        assert(e[m] == f.take(e.len() as int)[m]);
    }
}

/// The entries between `i` and `j` whose parent is entry `i`, in order.
pub open spec fn child_indices(e: Seq<Entry>, i: int, j: int) -> Seq<int>
    decreases j - i,
{
    if i + 1 < j {
        child_indices(e, i, j - 1) + if is_parent(e, i, j - 1) {
            seq![j - 1]
        } else {
            seq![]
        }
    } else {
        seq![]
    }
}

proof fn lemma_child_indices(e: Seq<Entry>, i: int, j: int, lim: int)
    requires
        j <= lim,
    ensures
        children_upto(e, i, j, lim) == child_indices(e, i, j).map_values(|k: int| tree_of(e, k, lim)),
        forall|a: int, c: int|
            0 <= a < c < child_indices(e, i, j).len() ==> #[trigger] child_indices(e, i, j)[a]
                < #[trigger] child_indices(e, i, j)[c],
        forall|k: int| #[trigger] child_indices(e, i, j).contains(k) <==> (i < k < j && is_parent(e, i, k)),
    decreases j - i,
{
    let ci = child_indices(e, i, j);
    if i + 1 < j {
        lemma_child_indices(e, i, j - 1, lim);
        let c0 = child_indices(e, i, j - 1);
        if is_parent(e, i, j - 1) {
            assert(ci == c0.push(j - 1));
            assert(children_upto(e, i, j, lim) =~= ci.map_values(|k: int| tree_of(e, k, lim)));
            assert forall|k: int| #[trigger] ci.contains(k) <==> (i < k < j && is_parent(e, i, k)) by {
                if ci.contains(k) {
                    let x = choose|x: int| 0 <= x < ci.len() && ci[x] == k;
                    if x < c0.len() {
                        assert(c0[x] == k);
                        assert(c0.contains(k));
                    }
                }
                if i < k < j && is_parent(e, i, k) {
                    if k == j - 1 {
                        assert(ci[c0.len() as int] == k);
                    } else {
                        assert(c0.contains(k));
                        let x = choose|x: int| 0 <= x < c0.len() && c0[x] == k;
                        assert(ci[x] == k);
                    }
                }
            }
            assert forall|a: int, c: int| 0 <= a < c < ci.len() implies #[trigger] ci[a] < #[trigger] ci[c] by {
                if c == c0.len() {
                    assert(c0.contains(c0[a]));
                } else {
                    assert(c0[a] < c0[c]);
                }
            }
        } else {
            assert(ci =~= c0);
            assert(children_upto(e, i, j, lim) =~= ci.map_values(|k: int| tree_of(e, k, lim)));
        }
    } else {
        assert(children_upto(e, i, j, lim) =~= ci.map_values(|k: int| tree_of(e, k, lim)));
    }
}

/// Entry `j` has a parent.
pub open spec fn has_parent(e: Seq<Entry>, j: int) -> bool {
    exists|i: int| #[trigger] is_parent(e, i, j)
}

proof fn lemma_has_parent(e: Seq<Entry>, j: int, m: int)
    requires
        0 <= m < j < e.len(),
        e[0].indent < e[j].indent,
        forall|k: int| m < k < j ==> #[trigger] e[k].indent >= e[j].indent,
    ensures
        exists|i: int| #[trigger] is_parent(e, i, j),
    decreases m,
{
    if e[m].indent < e[j].indent {
        assert(is_parent(e, m, j));
    } else {
        lemma_has_parent(e, j, m - 1);
    }
}

/// How the described lines `e` nest, when none after the first is indented
/// as little as the first: the tree of the whole document is that of entry
/// 0; every later entry has exactly one parent, the nearest entry before it
/// that is indented less; the node of each entry has as children the nodes
/// of the entries whose parent it is, in document order, and no others; and
/// consecutive entries of equal indent have the same parent.
pub proof fn law_nesting(e: Seq<Entry>)
    requires
        forall|j: int| 0 < j < e.len() ==> #[trigger] e[j].indent > e[0].indent,
    ensures
        forall|j: int| 0 < j < e.len() ==> #[trigger] has_parent(e, j),
        forall|i: int, i2: int, j: int| #[trigger] is_parent(e, i, j) && #[trigger] is_parent(e, i2, j) ==> i == i2,
        forall|i: int| 0 <= i < e.len() ==> (#[trigger] tree_of(e, i, e.len() as int)).children
            == child_indices(e, i, e.len() as int).map_values(|k: int| tree_of(e, k, e.len() as int)),
        forall|i: int, a: int, c: int|
            0 <= a < c < child_indices(e, i, e.len() as int).len() ==> #[trigger] child_indices(e, i, e.len() as int)[a]
                < #[trigger] child_indices(e, i, e.len() as int)[c],
        forall|i: int, k: int| #[trigger] child_indices(e, i, e.len() as int).contains(k) <==> is_parent(e, i, k),
        forall|i: int, j: int| 0 < j < e.len() - 1 && e[j].indent == e[j + 1].indent ==> (#[trigger] is_parent(e, i, j)
            <==> is_parent(e, i, j + 1)),
{
    let n = e.len() as int;
    assert forall|j: int| 0 < j < n implies #[trigger] has_parent(e, j) by {
        lemma_has_parent(e, j, j - 1);
    }
    assert forall|i: int, i2: int, j: int| #[trigger] is_parent(e, i, j) && #[trigger] is_parent(e, i2, j) implies i == i2 by {
        if i < i2 {
            assert(e[i2].indent >= e[j].indent);
        } else if i2 < i {
            assert(e[i].indent >= e[j].indent);
        }
    }
    assert forall|i: int| 0 <= i < n implies (#[trigger] tree_of(e, i, n)).children == child_indices(e, i, n).map_values(
        |k: int| tree_of(e, k, n),
    ) by {
        lemma_child_indices(e, i, n, n);
        if !(i < n) {
        } else if i + 1 >= n {
            assert(tree_of(e, i, n).children =~= child_indices(e, i, n).map_values(|k: int| tree_of(e, k, n)));
        }
    }
    assert forall|i: int, a: int, c: int|
        0 <= a < c < child_indices(e, i, n).len() implies #[trigger] child_indices(e, i, n)[a]
            < #[trigger] child_indices(e, i, n)[c] by {
        lemma_child_indices(e, i, n, n);
    }
    assert forall|i: int, k: int| #[trigger] child_indices(e, i, n).contains(k) <==> is_parent(e, i, k) by {
        lemma_child_indices(e, i, n, n);
    }
    assert forall|i: int, j: int| 0 < j < n - 1 && e[j].indent == e[j + 1].indent implies (#[trigger] is_parent(e, i, j)
        <==> is_parent(e, i, j + 1)) by {
        if is_parent(e, i, j) {
            assert(is_parent(e, i, j + 1));
        }
        if is_parent(e, i, j + 1) {
            assert(e[j].indent >= e[j + 1].indent);
            assert(i != j);
            assert(is_parent(e, i, j));
        }
    }
}

} // verus!
