//! Preorder numbering of a forest whose nodes are numbered after their parents.
//!
//! `par[u]` is the parent of node `u`, or -1 for a root. The roots are visited in ascending order,
//! and the children of one node in descending order.

use vstd::prelude::*;

verus! {

/// Whether every parent is numbered before its children.
pub open spec fn forest(par: Seq<int>) -> bool {
    forall|u: int| 0 <= u < par.len() ==> -1 <= #[trigger] par[u] < u
}

/// The number of nodes in the subtree of `u`.
pub open spec fn size(par: Seq<int>, u: int) -> int
    decreases par.len() - u, 1int,
{
    1 + after(par, u, u)
}

/// The number of nodes in the subtrees of those children of `p` that are numbered after `v`.
pub open spec fn after(par: Seq<int>, p: int, v: int) -> int
    decreases par.len() - v, 0int,
{
    if v + 1 >= par.len() {
        0
    } else {
        after(par, p, v + 1) + if par[v + 1] == p {
            size(par, v + 1)
        } else {
            0
        }
    }
}

/// The place of `u` in the preorder.
pub open spec fn pos(par: Seq<int>, u: int) -> int
    decreases u,
{
    if 0 <= par[u] < u {
        pos(par, par[u]) + 1 + after(par, par[u], u)
    } else {
        par.len() - after(par, -1, u) - size(par, u)
    }
}

/// Whether `u` is `x` or an ancestor of `x`.
pub open spec fn below(par: Seq<int>, x: int, u: int) -> bool
    decreases x,
{
    x == u || (0 <= par[x] < x && below(par, par[x], u))
}

/// The child of `u` on the path from `u` down to `x`, where `x` lies strictly below `u`.
pub open spec fn toward(par: Seq<int>, u: int, x: int) -> int
    decreases x,
{
    if 0 <= par[x] < x && par[x] != u {
        toward(par, u, par[x])
    } else {
        x
    }
}

spec fn after_sum(par: Seq<int>, v: int, m: int) -> int
    decreases m + 2,
{
    if m < -1 {
        0
    } else {
        after_sum(par, v, m - 1) + after(par, m, v)
    }
}

proof fn lemma_sum_step(par: Seq<int>, v: int, m: int)
    requires
        0 <= v < par.len(),
        -2 <= m,
        -1 <= par[v],
    ensures
        after_sum(par, v - 1, m) == after_sum(par, v, m) + if par[v] <= m {
            size(par, v)
        } else {
            0
        },
    decreases m + 2,
{
    if m >= -1 {
        lemma_sum_step(par, v, m - 1);
    }
}

proof fn lemma_sum(par: Seq<int>, v: int)
    requires
        forest(par),
        -1 <= v < par.len(),
    ensures
        after_sum(par, v, v) == par.len() - 1 - v,
    decreases par.len() - v,
{
    if v + 1 < par.len() {
        lemma_sum(par, v + 1);
        lemma_sum_step(par, v + 1, v);
        assert(after_sum(par, v + 1, v + 1) == after_sum(par, v + 1, v) + after(par, v + 1, v + 1));
    } else {
        lemma_sum_last(par, v);
    }
}

proof fn lemma_sum_last(par: Seq<int>, m: int)
    requires
        -2 <= m,
    ensures
        after_sum(par, par.len() - 1, m) == 0,
    decreases m + 2,
{
    if m >= -1 {
        lemma_sum_last(par, m - 1);
    }
}

/// Sizes are positive and the sums grow.
pub proof fn lemma_after_mono(par: Seq<int>, p: int, v: int, w: int)
    requires
        v <= w,
    ensures
        0 <= after(par, p, w) <= after(par, p, v),
        size(par, w) >= 1,
        v < w < par.len() && par[w] == p ==> after(par, p, w) + size(par, w) <= after(par, p, v),
    decreases par.len() - v, w - v,
{
    if v == w {
        if w + 1 < par.len() {
            lemma_after_mono(par, p, w + 1, w + 1);
        }
        lemma_size_pos(par, w);
    } else if v + 1 < par.len() {
        lemma_after_mono(par, p, v + 1, w);
        lemma_after_mono(par, p, v + 1, v + 1);
        lemma_size_pos(par, v + 1);
    } else {
        lemma_size_pos(par, w);
    }
}

proof fn lemma_size_pos(par: Seq<int>, u: int)
    ensures
        size(par, u) >= 1,
    decreases par.len() - u, 1int,
{
    lemma_after_nonneg(par, u, u);
}

proof fn lemma_after_nonneg(par: Seq<int>, p: int, v: int)
    ensures
        after(par, p, v) >= 0,
    decreases par.len() - v, 0int,
{
    if v + 1 < par.len() {
        lemma_after_nonneg(par, p, v + 1);
        lemma_size_pos(par, v + 1);
    }
}

proof fn lemma_sum_part(par: Seq<int>, v: int, p: int, m: int)
    requires
        -1 <= p <= m,
    ensures
        after(par, p, v) <= after_sum(par, v, m),
    decreases m + 2,
{
    lemma_after_nonneg(par, m, v);
    if p < m {
        lemma_sum_part(par, v, p, m - 1);
    } else {
        lemma_sum_nonneg(par, v, m - 1);
    }
}

proof fn lemma_sum_nonneg(par: Seq<int>, v: int, m: int)
    ensures
        after_sum(par, v, m) >= 0,
    decreases m + 2,
{
    if m >= -1 {
        lemma_sum_nonneg(par, v, m - 1);
        lemma_after_nonneg(par, m, v);
    }
}

/// The nodes numbered after `v` bound the sums over them; the trees hold every node once.
pub proof fn lemma_after_bound(par: Seq<int>, p: int, v: int)
    requires
        forest(par),
        -1 <= p <= v < par.len(),
    ensures
        0 <= after(par, p, v) <= par.len() - 1 - v,
        v == -1 ==> after(par, -1, -1) == par.len(),
{
    lemma_sum(par, v);
    lemma_sum_part(par, v, p, v);
    lemma_after_nonneg(par, p, v);
    if v == -1 {
        assert(after_sum(par, -1, -2) == 0);
    }
}

/// The subtree of a child lies within that of its parent, behind the parent itself; a tree lies
/// within the whole.
pub proof fn lemma_child(par: Seq<int>, c: int)
    requires
        forest(par),
        0 <= c < par.len(),
    ensures
        size(par, c) >= 1,
        par[c] >= 0 ==> pos(par, par[c]) < pos(par, c) && pos(par, c) + size(par, c) <= pos(
            par,
            par[c],
        ) + size(par, par[c]),
        par[c] < 0 ==> 0 <= pos(par, c) && pos(par, c) + size(par, c) <= par.len(),
{
    assert(-1 <= par[c] < c);
    lemma_after_mono(par, par[c], par[c], c);
    if par[c] < 0 {
        lemma_after_bound(par, -1, -1);
    }
}

/// Every place lies within the forest.
pub proof fn lemma_pos_bound(par: Seq<int>, u: int)
    requires
        forest(par),
        0 <= u < par.len(),
    ensures
        0 <= pos(par, u),
        pos(par, u) < pos(par, u) + size(par, u) <= par.len(),
    decreases u,
{
    lemma_child(par, u);
    if par[u] >= 0 {
        lemma_pos_bound(par, par[u]);
    }
}

/// A node lies within the subtree of each of its ancestors.
pub proof fn lemma_below_in(par: Seq<int>, x: int, u: int)
    requires
        forest(par),
        0 <= x < par.len(),
        below(par, x, u),
    ensures
        0 <= u <= x,
        x != u ==> pos(par, u) < pos(par, x),
        pos(par, u) <= pos(par, x),
        pos(par, x) + size(par, x) <= pos(par, u) + size(par, u),
    decreases x,
{
    if x != u {
        lemma_below_in(par, par[x], u);
        lemma_child(par, x);
    }
}

/// The step from an ancestor toward a node is a child of the ancestor and above the node.
pub proof fn lemma_toward(par: Seq<int>, u: int, x: int)
    requires
        forest(par),
        0 <= x < par.len(),
        0 <= u,
        below(par, x, u),
        x != u,
    ensures
        u < toward(par, u, x) <= x,
        par[toward(par, u, x)] == u,
        below(par, x, toward(par, u, x)),
    decreases x,
{
    if par[x] != u {
        lemma_toward(par, u, par[x]);
    }
}

/// The subtrees of two children of one node, or two trees, do not overlap; of two children, the
/// one with the larger number comes first.
proof fn lemma_siblings(par: Seq<int>, c: int, d: int)
    requires
        forest(par),
        0 <= c < d < par.len(),
        par[c] == par[d],
    ensures
        par[c] >= 0 ==> pos(par, d) + size(par, d) <= pos(par, c),
        par[c] < 0 ==> pos(par, c) + size(par, c) <= pos(par, d),
{
    assert(-1 <= par[c] < c);
    assert(-1 <= par[d] < d);
    lemma_after_mono(par, par[c], c, d);
}

proof fn lemma_disjoint(par: Seq<int>, x: int, u: int)
    requires
        forest(par),
        0 <= x < par.len(),
        0 <= u < par.len(),
        !below(par, x, u),
        !below(par, u, x),
    ensures
        pos(par, x) + size(par, x) <= pos(par, u) || pos(par, u) + size(par, u) <= pos(par, x),
    decreases
            x + u,
            if x < u {
                1int
            } else {
                0int
            },
{
    if x < u {
        lemma_disjoint(par, u, x);
    } else {
        let p = par[x];
        assert(-1 <= par[x] < x);
        assert(-1 <= par[u] < u);
        if p < 0 {
            lemma_tree_disjoint(par, x, u);
        } else if below(par, u, p) {
            lemma_toward(par, p, u);
            let c = toward(par, p, u);
            if c < x {
                lemma_siblings(par, c, x);
            } else if x < c {
                lemma_siblings(par, x, c);
            }
            lemma_below_in(par, u, c);
        } else {
            lemma_disjoint(par, p, u);
            lemma_child(par, x);
        }
    }
}

/// The root `x` and a node `u` of another tree.
proof fn lemma_tree_disjoint(par: Seq<int>, x: int, u: int)
    requires
        forest(par),
        0 <= x < par.len(),
        0 <= u < par.len(),
        par[x] == -1,
        !below(par, u, x),
    ensures
        pos(par, x) + size(par, x) <= pos(par, u) || pos(par, u) + size(par, u) <= pos(par, x),
    decreases u,
{
    assert(-1 <= par[u] < u);
    if par[u] < 0 {
        if x < u {
            lemma_siblings(par, x, u);
        } else {
            lemma_siblings(par, u, x);
        }
    } else {
        lemma_tree_disjoint(par, x, par[u]);
        lemma_child(par, u);
    }
}

/// The subtree of `u` is exactly the interval that begins at the place of `u` and is as long as
/// the subtree is large.
pub proof fn lemma_below(par: Seq<int>, x: int, u: int)
    requires
        forest(par),
        0 <= x < par.len(),
        0 <= u < par.len(),
    ensures
        below(par, x, u) <==> pos(par, u) <= pos(par, x) < pos(par, u) + size(par, u),
{
    lemma_child(par, x);
    lemma_child(par, u);
    if below(par, x, u) {
        lemma_below_in(par, x, u);
    } else if below(par, u, x) {
        lemma_below_in(par, u, x);
    } else {
        lemma_disjoint(par, x, u);
    }
}

/// No two nodes have the same place.
pub proof fn lemma_pos_distinct(par: Seq<int>, x: int, u: int)
    requires
        forest(par),
        0 <= x < par.len(),
        0 <= u < par.len(),
        pos(par, x) == pos(par, u),
    ensures
        x == u,
{
    lemma_child(par, u);
    lemma_below(par, x, u);
    if x != u {
        lemma_below_in(par, x, u);
    }
}

/// The node `p` and the subtrees of its children numbered after `t` form an interval.
pub proof fn lemma_cut(par: Seq<int>, x: int, p: int, t: int)
    requires
        forest(par),
        0 <= x < par.len(),
        0 <= p < par.len(),
        p <= t,
    ensures
        (below(par, x, p) && (x == p || toward(par, p, x) > t)) <==> pos(par, p) <= pos(par, x)
            < pos(par, p) + 1 + after(par, p, t),
{
    lemma_below(par, x, p);
    lemma_after_mono(par, p, p, t);
    if below(par, x, p) && x != p {
        lemma_toward(par, p, x);
        let c = toward(par, p, x);
        lemma_child(par, x);
        lemma_below_in(par, x, c);
        if c > t {
            lemma_after_mono(par, p, t, c);
        } else {
            lemma_after_mono(par, p, c, t);
        }
    }
}

/// Every place is that of a node.
proof fn lemma_pos_onto(par: Seq<int>, n: int) -> (u: int)
    requires
        forest(par),
        0 <= n < par.len(),
    ensures
        0 <= u < par.len(),
        pos(par, u) == n,
{
    let range = vstd::set_lib::set_int_range(0, par.len() as int);
    vstd::set_lib::lemma_int_range(0, par.len() as int);
    let f = |u: int| pos(par, u);
    let image = range.map(f);
    assert forall|m: int| image.contains(m) implies range.contains(m) by {
        let u = choose|u: int| range.contains(u) && m == f(u);
        lemma_pos_bound(par, u);
    }
    assert forall|x: int, y: int|
        range.contains(x) && range.contains(y) && #[trigger] f(x) == #[trigger] f(y) implies x
        == y by {
        lemma_pos_distinct(par, x, y);
    }
    range.lemma_map_finite(f);
    vstd::set_lib::lemma_map_size(range, image, f);
    vstd::set_lib::lemma_subset_equality(image, range);
    assert(range.contains(n));
    choose|u: int| range.contains(u) && n == f(u)
}

/// The nodes in the subtree of `u`.
pub open spec fn subtree(par: Seq<int>, u: int) -> Set<int> {
    vstd::set_lib::set_int_range(0, par.len() as int).filter(|x: int| below(par, x, u))
}

/// A subtree has as many nodes as its size says.
pub proof fn lemma_subtree_len(par: Seq<int>, u: int)
    requires
        forest(par),
        0 <= u < par.len(),
    ensures
        subtree(par, u).finite(),
        subtree(par, u).len() == size(par, u),
{
    let range = vstd::set_lib::set_int_range(0, par.len() as int);
    vstd::set_lib::lemma_int_range(0, par.len() as int);
    let nodes = subtree(par, u);
    vstd::set_lib::lemma_set_subset_finite(range, nodes);
    lemma_pos_bound(par, u);
    let lo = pos(par, u);
    let hi = lo + size(par, u);
    let places = vstd::set_lib::set_int_range(lo, hi);
    vstd::set_lib::lemma_int_range(lo, hi);
    let f = |x: int| pos(par, x);
    assert forall|x: int, y: int|
        nodes.contains(x) && nodes.contains(y) && #[trigger] f(x) == #[trigger] f(y) implies x
        == y by {
        lemma_pos_distinct(par, x, y);
    }
    assert forall|m: int| nodes.map(f).contains(m) implies places.contains(m) by {
        let x = choose|x: int| nodes.contains(x) && m == f(x);
        lemma_below(par, x, u);
    }
    assert forall|m: int| places.contains(m) implies nodes.map(f).contains(m) by {
        let x = lemma_pos_onto(par, m);
        lemma_below(par, x, u);
        assert(nodes.contains(x) && m == f(x));
    }
    assert(nodes.map(f) =~= places);
    vstd::set_lib::lemma_map_size(nodes, places, f);
}

/// The size of the largest subtree of those children of `p` that are numbered after `v`.
pub open spec fn heaviest(par: Seq<int>, p: int, v: int) -> int
    decreases par.len() - v,
{
    if v + 1 >= par.len() {
        0
    } else {
        let rest = heaviest(par, p, v + 1);
        if par[v + 1] == p && size(par, v + 1) > rest {
            size(par, v + 1)
        } else {
            rest
        }
    }
}

/// All children are numbered after their parent.
pub proof fn lemma_children_later(par: Seq<int>, p: int, v: int)
    requires
        forest(par),
        -1 <= v <= p < par.len(),
    ensures
        after(par, p, v) == after(par, p, p),
        heaviest(par, p, v) == heaviest(par, p, p),
    decreases p - v,
{
    if v < p {
        lemma_children_later(par, p, v + 1);
        assert(-1 <= par[v + 1] < v + 1);
    }
}

/// The largest subtree is within a bound exactly if all of them are.
pub proof fn lemma_heaviest(par: Seq<int>, p: int, v: int, n: int)
    requires
        n >= 0,
    ensures
        heaviest(par, p, v) <= n <==> forall|w: int|
            v < w < par.len() && par[w] == p ==> #[trigger] size(par, w) <= n,
        0 <= heaviest(par, p, v) <= after(par, p, v),
    decreases par.len() - v,
{
    if v + 1 < par.len() {
        lemma_heaviest(par, p, v + 1, n);
        lemma_size_pos(par, v + 1);
        lemma_after_nonneg(par, p, v + 1);
        let next = v + 1;
        if heaviest(par, p, v) <= n {
            assert forall|w: int| v < w < par.len() && par[w] == p implies #[trigger] size(par, w)
                <= n by {
                if w != next {
                    assert(v + 1 < w);
                }
            }
        } else if forall|w: int|
            v < w < par.len() && par[w] == p ==> #[trigger] size(par, w) <= n {
            assert(par[next] == p ==> size(par, next) <= n);
        }
    }
}

} // verus!
