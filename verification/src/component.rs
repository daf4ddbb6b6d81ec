//! Connected pieces of a rooted tree, and how one node splits them.

use vstd::prelude::*;

use crate::forest;

verus! {

/// The parent of `x`.
pub open spec fn up(par: Seq<int>, x: int) -> int {
    par[x]
}

/// The members of `k` in the subtree of `u`.
pub open spec fn piece_below(par: Seq<int>, k: Set<int>, u: int) -> Set<int> {
    k.filter(|x: int| forest::below(par, x, u))
}

/// The members of `k` outside the subtree of `u`.
pub open spec fn piece_above(par: Seq<int>, k: Set<int>, u: int) -> Set<int> {
    k.filter(|x: int| !forest::below(par, x, u))
}

/// Whether `k` is a connected set of nodes whose topmost node is `top`.
pub open spec fn component(par: Seq<int>, k: Set<int>, top: int) -> bool {
    &&& forest::forest(par)
    &&& k.finite()
    &&& k.contains(top)
    &&& forall|x: int| #[trigger]
        k.contains(x) ==> 0 <= x < par.len() && forest::below(par, x, top)
    &&& forall|x: int| k.contains(x) && x != top ==> k.contains(#[trigger] up(par, x))
}

/// Whether removing `c` leaves no piece of `k` larger than `n`.
pub open spec fn split_within(par: Seq<int>, k: Set<int>, c: int, n: int) -> bool {
    &&& piece_above(par, k, c).len() <= n
    &&& forall|v: int| #[trigger]
        k.contains(v) && par[v] == c ==> piece_below(par, k, v).len() <= n
}

/// Whether `c` splits `k` best: no other node leaves a smaller largest piece.
pub open spec fn best_split(par: Seq<int>, k: Set<int>, c: int) -> bool {
    &&& k.contains(c)
    &&& forall|x: int, n: int|
        k.contains(x) && #[trigger] split_within(par, k, x, n) ==> split_within(par, k, c, n)
}

/// A node below `y`, which is below `z`, is below `z`.
pub proof fn lemma_below_trans(par: Seq<int>, x: int, y: int, z: int)
    requires
        forest::below(par, x, y),
        forest::below(par, y, z),
    ensures
        forest::below(par, x, z),
    decreases x,
{
    if x != y {
        lemma_below_trans(par, par[x], y, z);
    }
}

/// Of two ancestors of one node, the later one lies below the earlier one.
pub proof fn lemma_below_path(par: Seq<int>, x: int, y: int, z: int)
    requires
        forest::forest(par),
        0 <= x < par.len(),
        forest::below(par, x, y),
        forest::below(par, x, z),
        y <= z,
    ensures
        forest::below(par, z, y),
    decreases x,
{
    forest::lemma_below_in(par, x, y);
    forest::lemma_below_in(par, x, z);
    if x != z {
        if x == y {
        } else {
            lemma_below_path(par, par[x], y, z);
        }
    }
}

/// A connected set holds what lies between its members and its top.
pub proof fn lemma_between(par: Seq<int>, k: Set<int>, top: int, x: int, v: int)
    requires
        component(par, k, top),
        k.contains(x),
        forest::below(par, x, v),
        forest::below(par, v, top),
        0 <= v < par.len(),
    ensures
        k.contains(v),
    decreases x,
{
    if x != v {
        forest::lemma_below_in(par, x, v);
        if x == top {
            forest::lemma_below_in(par, v, top);
        }
        assert(k.contains(up(par, x)));
        lemma_between(par, k, top, par[x], v);
    }
}

/// What lies below a member is connected.
pub proof fn lemma_component_below(par: Seq<int>, k: Set<int>, top: int, v: int)
    requires
        component(par, k, top),
        k.contains(v),
    ensures
        component(par, piece_below(par, k, v), v),
{
    let p = piece_below(par, k, v);
    assert forall|x: int| p.contains(x) && x != v implies p.contains(#[trigger] up(par, x)) by {
        forest::lemma_below_in(par, x, v);
        if x == top {
            forest::lemma_below_in(par, v, top);
        }
        assert(k.contains(up(par, x)));
    }
}

/// What does not lie below a member is connected.
pub proof fn lemma_component_above(par: Seq<int>, k: Set<int>, top: int, c: int)
    requires
        component(par, k, top),
        k.contains(c),
        c != top,
    ensures
        component(par, piece_above(par, k, c), top),
{
    let p = piece_above(par, k, c);
    if forest::below(par, top, c) {
        forest::lemma_below_in(par, top, c);
        forest::lemma_below_in(par, c, top);
    }
    assert forall|x: int| p.contains(x) && x != top implies p.contains(#[trigger] up(par, x)) by {
        assert(k.contains(up(par, x)));
        if forest::below(par, par[x], c) {
            assert(0 <= par[x] < x) by {
                forest::lemma_below_in(par, x, top);
            }
            assert(forest::below(par, x, c));
        }
    }
}

/// The two pieces make up the whole.
pub proof fn lemma_pieces(par: Seq<int>, k: Set<int>, c: int)
    requires
        k.finite(),
    ensures
        piece_below(par, k, c).finite(),
        piece_above(par, k, c).finite(),
        piece_below(par, k, c).len() + piece_above(par, k, c).len() == k.len(),
{
    let a = piece_below(par, k, c);
    let b = piece_above(par, k, c);
    vstd::set_lib::lemma_set_subset_finite(k, a);
    vstd::set_lib::lemma_set_subset_finite(k, b);
    assert(a.disjoint(b));
    vstd::set_lib::lemma_set_disjoint_lens(a, b);
    assert(a + b =~= k);
}

/// The piece below a child is smaller than that below its parent.
proof fn lemma_smaller(par: Seq<int>, k: Set<int>, top: int, v: int)
    requires
        component(par, k, top),
        k.contains(v),
        k.contains(par[v]),
        v != top,
    ensures
        piece_below(par, k, v).len() < piece_below(par, k, par[v]).len(),
{
    let p = par[v];
    let a = piece_below(par, k, v);
    let b = piece_below(par, k, p);
    lemma_pieces(par, k, v);
    lemma_pieces(par, k, p);
    assert(-1 <= par[v] < v);
    assert(k.contains(p));
    assert(forest::below(par, p, p));
    assert(forest::below(par, v, p));
    assert forall|x: int| a.contains(x) implies b.contains(x) by {
        lemma_below_trans(par, x, v, p);
    }
    assert(b.contains(p));
    assert(!a.contains(p)) by {
        if forest::below(par, p, v) {
            forest::lemma_below_in(par, p, v);
        }
    }
    assert(a.subset_of(b.remove(p)));
    vstd::set_lib::lemma_len_subset(a, b.remove(p));
}

/// Some node splits a connected set into pieces of at most half its size: go down from `c`, a node
/// with more than half of the set below it, while some child has more than half below it.
proof fn lemma_half_exists(par: Seq<int>, k: Set<int>, top: int, c: int) -> (r: int)
    requires
        component(par, k, top),
        k.contains(c),
        2 * piece_below(par, k, c).len() > k.len(),
    ensures
        k.contains(r),
        split_within(par, k, r, k.len() as int / 2),
    decreases piece_below(par, k, c).len(),
{
    lemma_pieces(par, k, c);
    if split_within(par, k, c, k.len() as int / 2) {
        c
    } else {
        let v = choose|v: int| #[trigger]
            k.contains(v) && par[v] == c && piece_below(par, k, v).len() > k.len() as int / 2;
        assert(k.contains(v));
        if v == top {
            assert(-1 <= par[v] < v);
            forest::lemma_below_in(par, c, top);
        }
        lemma_smaller(par, k, top, v);
        lemma_half_exists(par, k, top, v)
    }
}

/// The node that splits best leaves no piece larger than half of the set.
pub proof fn law_best_split_halves(par: Seq<int>, k: Set<int>, top: int, c: int)
    requires
        component(par, k, top),
        best_split(par, k, c),
    ensures
        split_within(par, k, c, k.len() as int / 2),
{
    let all = piece_below(par, k, top);
    assert(all =~= k);
    let r = lemma_half_exists(par, k, top, top);
    assert(k.contains(r) && split_within(par, k, r, k.len() as int / 2));
}

/// The subtrees of two children of one node have no node in common.
pub proof fn lemma_siblings_apart(par: Seq<int>, x: int, v: int, w: int)
    requires
        forest::forest(par),
        0 <= x < par.len(),
        0 <= v < par.len(),
        0 <= w < par.len(),
        forest::below(par, x, v),
        forest::below(par, x, w),
        par[v] == par[w],
    ensures
        v == w,
{
    let (a, b) = if v < w {
        (v, w)
    } else {
        (w, v)
    };
    if a != b {
        lemma_below_path(par, x, a, b);
        assert(-1 <= par[b] < b);
        assert(-1 <= par[a] < a);
        forest::lemma_below_in(par, par[b], a);
    }
}

/// Of two nodes that split a connected set best, one is the parent of the other.
pub proof fn law_best_splits_adjacent(par: Seq<int>, k: Set<int>, top: int, c: int, d: int)
    requires
        component(par, k, top),
        best_split(par, k, c),
        best_split(par, k, d),
        c != d,
    ensures
        par[c] == d || par[d] == c,
{
    law_best_split_halves(par, k, top, c);
    law_best_split_halves(par, k, top, d);
    lemma_pieces(par, k, c);
    lemma_pieces(par, k, d);
    if forest::below(par, d, c) {
        lemma_best_child(par, k, top, c, d);
    } else if forest::below(par, c, d) {
        lemma_best_child(par, k, top, d, c);
    } else {
        let a = piece_below(par, k, c);
        let b = piece_below(par, k, d);
        assert forall|x: int| a.contains(x) implies !b.contains(x) by {
            if b.contains(x) {
                if c <= d {
                    lemma_below_path(par, x, c, d);
                } else {
                    lemma_below_path(par, x, d, c);
                }
            }
        }
        assert(!a.contains(top)) by {
            if forest::below(par, top, c) {
                forest::lemma_below_in(par, top, c);
                forest::lemma_below_in(par, c, top);
            }
        }
        assert(!b.contains(top)) by {
            if forest::below(par, top, d) {
                forest::lemma_below_in(par, top, d);
                forest::lemma_below_in(par, d, top);
            }
        }
        vstd::set_lib::lemma_set_disjoint_lens(a, b);
        assert((a + b).subset_of(k.remove(top)));
        vstd::set_lib::lemma_len_subset(a + b, k.remove(top));
    }
}

/// A node that splits in halves, strictly below another such node, is a child of it.
proof fn lemma_best_child(par: Seq<int>, k: Set<int>, top: int, c: int, d: int)
    requires
        component(par, k, top),
        k.contains(c),
        k.contains(d),
        split_within(par, k, c, k.len() as int / 2),
        split_within(par, k, d, k.len() as int / 2),
        forest::below(par, d, c),
        c != d,
    ensures
        par[d] == c,
{
    forest::lemma_toward(par, c, d);
    let v = forest::toward(par, c, d);
    assert(forest::below(par, v, c)) by {
        assert(-1 <= par[v] < v);
        assert(forest::below(par, c, c));
    }
    lemma_below_trans(par, v, c, top);
    lemma_between(par, k, top, d, v);
    let a = piece_below(par, k, v);
    let b = piece_below(par, k, d);
    lemma_pieces(par, k, v);
    lemma_pieces(par, k, d);
    assert forall|x: int| b.contains(x) implies a.contains(x) by {
        lemma_below_trans(par, x, d, v);
    }
    vstd::set_lib::lemma_len_subset(b, a);
    assert(k.contains(v) && par[v] == c);
    assert(a.len() <= k.len() as int / 2);
    vstd::set_lib::lemma_subset_equality(b, a);
    assert(forest::below(par, v, v));
    assert(a.contains(v));
    assert(b.contains(v));
    forest::lemma_below_in(par, v, d);
}

} // verus!
