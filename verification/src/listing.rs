//! The order in which the members of a component are listed, and which of them splits it best.

use vstd::prelude::*;

use crate::component;
use crate::forest;
use crate::numbering;
use crate::suffixes;

verus! {

/// Whether one of two tokens is the parent of the other.
pub open spec fn adjacent(par: Seq<int>, x: int, y: int) -> bool {
    par[x] == y || par[y] == x
}

/// Whether `x` is listed before `y`, both being neighbours of `u`: the parent comes first, and then
/// the children in the order of their valid intervals.
pub open spec fn comes_before(tokens: Seq<Seq<u8>>, u: int, x: int, y: int) -> bool {
    let par = numbering::parents(tokens);
    ||| par[u] == x
    ||| par[x] == u && par[y] == u && suffixes::valid(tokens, x).end <= suffixes::valid(
        tokens,
        y,
    ).start
}

/// Whether the tokens in `order` differ and each but the first is a neighbour of the one at the
/// earlier place that `from` holds for it.
pub open spec fn threaded(par: Seq<int>, order: Seq<u32>, from: Seq<int>) -> bool {
    &&& order.len() > 0
    &&& from.len() == order.len()
    &&& from[0] == -1
    &&& order.no_duplicates()
    &&& forall|a: int|
        1 <= a < order.len() ==> 0 <= #[trigger] from[a] < a && adjacent(
            par,
            order[from[a]] as int,
            order[a] as int,
        )
}

/// Whether the members at the places `a < b` were found in that order: from an earlier member, or
/// from the same one as an earlier neighbour.
pub open spec fn found_before(
    tokens: Seq<Seq<u8>>,
    order: Seq<u32>,
    from: Seq<int>,
    a: int,
    b: int,
) -> bool {
    from[a] < from[b] || (from[a] == from[b] && comes_before(
        tokens,
        order[from[a]] as int,
        order[a] as int,
        order[b] as int,
    ))
}

/// Whether `order` lists the members of `k` breadth first from `entry`: each but `entry` is found
/// from the member at the place that `from` holds for it, and the neighbours of one member follow
/// each other, its parent first and then its children in the order of their intervals.
pub open spec fn listing(
    tokens: Seq<Seq<u8>>,
    k: Set<int>,
    entry: int,
    order: Seq<u32>,
    from: Seq<int>,
) -> bool {
    &&& threaded(numbering::parents(tokens), order, from)
    &&& order[0] == entry
    &&& forall|a: int| 0 <= a < order.len() ==> k.contains((#[trigger] order[a]) as int)
    &&& forall|x: int| #[trigger] k.contains(x) ==> exists|a: int|
        0 <= a < order.len() && #[trigger] order[a] == x
    &&& forall|a: int, b: int|
        1 <= a < b < order.len() ==> #[trigger] found_before(tokens, order, from, a, b)
}

/// Whether `c` is the first in the list of those that split `k` best.
pub open spec fn first_best(par: Seq<int>, k: Set<int>, order: Seq<u32>, c: int) -> bool {
    exists|a: int|
        {
            &&& 0 <= a < order.len()
            &&& #[trigger] order[a] == c
            &&& component::best_split(par, k, c)
            &&& forall|b: int|
                0 <= b < a ==> !component::best_split(par, k, (#[trigger] order[b]) as int)
        }
}

/// Whether `c` is the centroid of `k`: the first member, listed from `entry`, whose removal leaves
/// the smallest largest piece.
pub open spec fn centroid(tokens: Seq<Seq<u8>>, k: Set<int>, entry: int, c: int) -> bool {
    exists|order: Seq<u32>, from: Seq<int>| #[trigger]
        listing(tokens, k, entry, order, from) && first_best(
            numbering::parents(tokens),
            k,
            order,
            c,
        )
}

/// The places found from each other form a forest.
pub proof fn lemma_thread_forest(par: Seq<int>, order: Seq<u32>, from: Seq<int>)
    requires
        threaded(par, order, from),
    ensures
        forest::forest(from),
{
    assert forall|a: int| 0 <= a < from.len() implies -1 <= #[trigger] from[a] < a by {
        if a > 0 {
            assert(0 <= from[a] < a);
        }
    }
}

/// Whether the token at place `z` and the one it was found from are `v` and its parent.
spec fn crosses(par: Seq<int>, order: Seq<u32>, from: Seq<int>, v: int, z: int) -> bool {
    ||| order[z] == v && order[from[z]] == par[v]
    ||| order[from[z]] == v && order[z] == par[v]
}

/// Only the edge above `v` leads into the subtree of `v` or out of it.
proof fn lemma_side(
    par: Seq<int>,
    order: Seq<u32>,
    from: Seq<int>,
    v: int,
    b: int,
    y: int,
)
    requires
        forest::forest(par),
        threaded(par, order, from),
        forall|a: int| 0 <= a < order.len() ==> 0 <= (#[trigger] order[a]) < par.len(),
        forall|z: int|
            1 <= z < order.len() && z != b ==> !#[trigger] crosses(par, order, from, v, z),
        0 <= y < order.len(),
    ensures
        forest::below(from, y, b) ==> forest::below(par, order[y] as int, v) == forest::below(
            par,
            order[b] as int,
            v,
        ),
        !forest::below(from, y, b) ==> forest::below(par, order[y] as int, v) == forest::below(
            par,
            order[0] as int,
            v,
        ),
    decreases y,
{
    if y != b && y != 0 {
        let z = from[y];
        assert(0 <= from[y] < y);
        lemma_side(par, order, from, v, b, z);
        let p = order[z] as int;
        let x = order[y] as int;
        assert(adjacent(par, p, x));
        assert(!crosses(par, order, from, v, y));
        assert(-1 <= par[p] < p);
        assert(-1 <= par[x] < x);
    }
}

/// Of two neighbours in the list, one was found from the other.
pub proof fn lemma_found_from(par: Seq<int>, order: Seq<u32>, from: Seq<int>, a: int, b: int)
    requires
        forest::forest(par),
        threaded(par, order, from),
        forall|q: int| 0 <= q < order.len() ==> 0 <= (#[trigger] order[q]) < par.len(),
        0 <= a < order.len(),
        0 <= b < order.len(),
        par[order[a] as int] == order[b],
    ensures
        (a > 0 && from[a] == b) || (b > 0 && from[b] == a),
{
    let v = order[a] as int;
    if !((a > 0 && from[a] == b) || (b > 0 && from[b] == a)) {
        assert forall|z: int| 1 <= z < order.len() && z != -1 implies !#[trigger] crosses(
            par,
            order,
            from,
            v,
            z,
        ) by {
            assert(0 <= from[z] < z);
        }
        lemma_nothing_below(from, a);
        lemma_nothing_below(from, b);
        lemma_side(par, order, from, v, -1, a);
        lemma_side(par, order, from, v, -1, b);
        assert(forest::below(par, v, v));
        lemma_parent_outside(par, v);
    }
}

/// No place lies below -1.
proof fn lemma_nothing_below(from: Seq<int>, y: int)
    requires
        0 <= y,
    ensures
        !forest::below(from, y, -1),
    decreases y,
{
    if 0 <= from[y] < y {
        lemma_nothing_below(from, from[y]);
    }
}

/// A parent does not lie below its child.
proof fn lemma_parent_outside(par: Seq<int>, v: int)
    requires
        forest::forest(par),
        0 <= v < par.len(),
        0 <= par[v],
    ensures
        !forest::below(par, par[v], v),
{
    assert(-1 <= par[v] < v);
    if forest::below(par, par[v], v) {
        forest::lemma_below_in(par, par[v], v);
    }
}

/// What was found through a place is what lies behind the edge to it.
proof fn lemma_edge_sides(
    par: Seq<int>,
    order: Seq<u32>,
    from: Seq<int>,
    b: int,
)
    requires
        forest::forest(par),
        threaded(par, order, from),
        forall|q: int| 0 <= q < order.len() ==> 0 <= (#[trigger] order[q]) < par.len(),
        1 <= b < order.len(),
    ensures
        ({
            let u = order[from[b]] as int;
            let w = order[b] as int;
            &&& par[w] == u ==> forall|y: int|
                0 <= y < order.len() ==> forest::below(from, y, b) == forest::below(
                    par,
                    (#[trigger] order[y]) as int,
                    w,
                )
            &&& par[w] == u ==> !forest::below(par, order[0] as int, w)
            &&& par[w] != u ==> forall|y: int|
                0 <= y < order.len() ==> forest::below(from, y, b) == !forest::below(
                    par,
                    (#[trigger] order[y]) as int,
                    u,
                )
            &&& par[w] != u ==> forest::below(par, order[0] as int, u)
        }),
{
    let a = from[b];
    assert(0 <= from[b] < b);
    let u = order[a] as int;
    let w = order[b] as int;
    assert(adjacent(par, u, w));
    let v = if par[w] == u {
        w
    } else {
        u
    };
    assert(-1 <= par[v] < v);
    assert forall|z: int| 1 <= z < order.len() && z != b implies !#[trigger] crosses(
        par,
        order,
        from,
        v,
        z,
    ) by {
        assert(0 <= from[z] < z);
    }
    lemma_thread_forest(par, order, from);
    lemma_parent_outside(par, v);
    assert(forest::below(par, v, v));
    assert(!forest::below(from, a, b)) by {
        if forest::below(from, a, b) {
            forest::lemma_below_in(from, a, b);
        }
    }
    lemma_side(par, order, from, v, b, a);
    assert forall|y: int| 0 <= y < order.len() implies forest::below(from, y, b) == (forest::below(
        par,
        (#[trigger] order[y]) as int,
        v,
    ) == forest::below(par, w, v)) by {
        lemma_side(par, order, from, v, b, y);
    }
}

/// The members at the places of a set are as many as the places.
proof fn lemma_places_len(order: Seq<u32>, places: Set<int>, members: Set<int>)
    requires
        order.no_duplicates(),
        places.finite(),
        forall|y: int| #[trigger] places.contains(y) ==> 0 <= y < order.len() && members.contains(
            order[y] as int,
        ),
        forall|x: int| #[trigger] members.contains(x) ==> exists|y: int| #[trigger]
            places.contains(y) && order[y] == x,
    ensures
        members.len() == places.len(),
{
    let f = |y: int| order[y] as int;
    assert forall|x: int, y: int|
        places.contains(x) && places.contains(y) && #[trigger] f(x) == #[trigger] f(y) implies x
        == y by {
        assert(order[x] == order[y]);
    }
    assert forall|x: int| members.contains(x) implies places.map(f).contains(x) by {
        let y = choose|y: int| #[trigger] places.contains(y) && order[y] == x;
        assert(places.contains(y) && f(y) == x);
    }
    assert forall|x: int| places.map(f).contains(x) implies members.contains(x) by {
        let y = choose|y: int| places.contains(y) && f(y) == x;
    }
    assert(places.map(f) =~= members);
    vstd::set_lib::lemma_map_size(places, members, f);
}

/// The piece behind an edge is as large as the subtree of the place it leads to.
proof fn lemma_edge_size(
    tokens: Seq<Seq<u8>>,
    k: Set<int>,
    entry: int,
    order: Seq<u32>,
    from: Seq<int>,
    b: int,
)
    requires
        forest::forest(numbering::parents(tokens)),
        forall|x: int| #[trigger] k.contains(x) ==> 0 <= x < numbering::parents(tokens).len(),
        listing(tokens, k, entry, order, from),
        1 <= b < order.len(),
    ensures
        ({
            let par = numbering::parents(tokens);
            let u = order[from[b]] as int;
            let w = order[b] as int;
            if par[w] == u {
                component::piece_below(par, k, w).len() == forest::size(from, b)
            } else {
                &&& par[u] == w
                &&& component::piece_above(par, k, u).len() == forest::size(from, b)
            }
        }),
{
    let par = numbering::parents(tokens);
    let u = order[from[b]] as int;
    let w = order[b] as int;
    assert(0 <= from[b] < b);
    assert(adjacent(par, u, w));
    assert forall|q: int| 0 <= q < order.len() implies 0 <= (#[trigger] order[q]) < par.len() by {
        assert(k.contains(order[q] as int));
    }
    lemma_thread_forest(par, order, from);
    lemma_edge_sides(par, order, from, b);
    forest::lemma_subtree_len(from, b);
    let places = forest::subtree(from, b);
    let members = if par[w] == u {
        component::piece_below(par, k, w)
    } else {
        component::piece_above(par, k, u)
    };
    assert forall|y: int| #[trigger] places.contains(y) implies 0 <= y < order.len()
        && members.contains(order[y] as int) by {
        assert(k.contains(order[y] as int));
    }
    assert forall|x: int| #[trigger] members.contains(x) implies exists|y: int| #[trigger]
        places.contains(y) && order[y] == x by {
        let y = choose|y: int| 0 <= y < order.len() && #[trigger] order[y] == x;
        assert(places.contains(y));
    }
    lemma_places_len(order, places, members);
}

/// The list is as long as the component is large.
pub proof fn lemma_listing_len(
    tokens: Seq<Seq<u8>>,
    k: Set<int>,
    entry: int,
    order: Seq<u32>,
    from: Seq<int>,
)
    requires
        listing(tokens, k, entry, order, from),
    ensures
        order.len() == k.len(),
        forest::size(from, 0) == order.len(),
{
    let par = numbering::parents(tokens);
    let places = vstd::set_lib::set_int_range(0, order.len() as int);
    vstd::set_lib::lemma_int_range(0, order.len() as int);
    assert forall|y: int| #[trigger] places.contains(y) implies 0 <= y < order.len() && k.contains(
        order[y] as int,
    ) by {}
    assert forall|x: int| #[trigger] k.contains(x) implies exists|y: int| #[trigger]
        places.contains(y) && order[y] == x by {
        let y = choose|y: int| 0 <= y < order.len() && #[trigger] order[y] == x;
        assert(places.contains(y));
    }
    lemma_places_len(order, places, k);
    lemma_thread_forest(par, order, from);
    forest::lemma_subtree_len(from, 0);
    assert forall|y: int| places.contains(y) implies forest::subtree(from, 0).contains(y) by {
        lemma_first_above(from, y);
    }
    assert(forest::subtree(from, 0) =~= places);
}

/// Every place lies below the first.
proof fn lemma_first_above(from: Seq<int>, y: int)
    requires
        0 <= y < from.len(),
        forall|a: int| 1 <= a < from.len() ==> 0 <= #[trigger] from[a] < a,
    ensures
        forest::below(from, y, 0),
    decreases y,
{
    if y > 0 {
        assert(0 <= from[y] < y);
        lemma_first_above(from, from[y]);
    }
}

/// The size of the largest piece that is left when the member at a place is removed.
pub open spec fn weight(from: Seq<int>, a: int) -> int {
    let below = forest::heaviest(from, a, a);
    let rest = from.len() - forest::size(from, a);
    if below > rest {
        below
    } else {
        rest
    }
}

/// The weight of a place says how well the member there splits the component.
#[verifier::spinoff_prover]
#[verifier::rlimit(40)]
pub proof fn lemma_weight(
    tokens: Seq<Seq<u8>>,
    k: Set<int>,
    top: int,
    entry: int,
    order: Seq<u32>,
    from: Seq<int>,
    a: int,
    n: int,
)
    requires
        component::component(numbering::parents(tokens), k, top),
        listing(tokens, k, entry, order, from),
        0 <= a < order.len(),
    ensures
        component::split_within(numbering::parents(tokens), k, order[a] as int, n) <==> weight(
            from,
            a,
        ) <= n,
        0 <= weight(from, a) < order.len(),
        forest::size(from, a) <= order.len(),
{
    let par = numbering::parents(tokens);
    let x = order[a] as int;
    lemma_thread_forest(par, order, from);
    lemma_listing_len(tokens, k, entry, order, from);
    forest::lemma_child(from, a);
    forest::lemma_pos_bound(from, a);
    forest::lemma_heaviest(from, a, a, 0);
    assert forall|q: int| 0 <= q < order.len() implies 0 <= (#[trigger] order[q]) < par.len() by {
        assert(k.contains(order[q] as int));
    }
    assert(k.contains(x));
    component::lemma_pieces(par, k, x);
    if n >= 0 {
        forest::lemma_heaviest(from, a, a, n);
    }
    if a > 0 {
        lemma_edge_size(tokens, k, entry, order, from, a);
        component::lemma_pieces(par, k, order[from[a]] as int);
    }
    if component::split_within(par, k, x, n) {
        assert(n >= 0);
        assert forall|b: int| a < b < from.len() && from[b] == a implies #[trigger] forest::size(
            from,
            b,
        ) <= n by {
            lemma_edge_size(tokens, k, entry, order, from, b);
            assert(k.contains(order[b] as int));
        }
        if a > 0 {
            assert(0 <= from[a] < a);
            assert(k.contains(order[from[a]] as int));
        }
    }
    if weight(from, a) <= n {
        assert forall|v: int| #[trigger] k.contains(v) && par[v] == x implies component::piece_below(
            par,
            k,
            v,
        ).len() <= n by {
            let b = choose|b: int| 0 <= b < order.len() && #[trigger] order[b] == v;
            lemma_found_from(par, order, from, b, a);
            if b > 0 && from[b] == a {
                lemma_edge_size(tokens, k, entry, order, from, b);
                assert(forest::size(from, b) <= n);
            }
        }
        assert(component::piece_above(par, k, x).len() <= n) by {
            if x == top {
                assert(component::piece_above(par, k, x) =~= Set::empty());
            } else {
                assert(k.contains(component::up(par, x)));
                let b = choose|b: int| 0 <= b < order.len() && #[trigger] order[b] == par[x];
                lemma_found_from(par, order, from, a, b);
                if b > 0 && from[b] == a {
                    lemma_edge_size(tokens, k, entry, order, from, b);
                    assert(forest::size(from, b) <= n);
                }
            }
        }
    }
}

/// Of a parent and its child, the child is listed first exactly if the list begins below it.
proof fn lemma_nearer_first(
    tokens: Seq<Seq<u8>>,
    k: Set<int>,
    entry: int,
    order: Seq<u32>,
    from: Seq<int>,
    a: int,
    b: int,
)
    requires
        forest::forest(numbering::parents(tokens)),
        forall|x: int| #[trigger] k.contains(x) ==> 0 <= x < numbering::parents(tokens).len(),
        listing(tokens, k, entry, order, from),
        0 <= a < order.len(),
        0 <= b < order.len(),
        numbering::parents(tokens)[order[a] as int] == order[b],
    ensures
        a < b <==> forest::below(numbering::parents(tokens), entry, order[a] as int),
        a != b,
{
    let par = numbering::parents(tokens);
    assert forall|q: int| 0 <= q < order.len() implies 0 <= (#[trigger] order[q]) < par.len() by {
        assert(k.contains(order[q] as int));
    }
    lemma_found_from(par, order, from, a, b);
    assert(-1 <= par[order[a] as int] < order[a]);
    if a > 0 && from[a] == b {
        lemma_edge_sides(par, order, from, a);
        assert(0 <= from[a] < a);
    } else {
        assert(-1 <= par[order[b] as int] < order[b]);
        lemma_edge_sides(par, order, from, b);
        assert(0 <= from[b] < b);
    }
}

/// A component has one centroid.
pub proof fn law_one_centroid(
    tokens: Seq<Seq<u8>>,
    k: Set<int>,
    top: int,
    entry: int,
    c: int,
    d: int,
)
    requires
        component::component(numbering::parents(tokens), k, top),
        centroid(tokens, k, entry, c),
        centroid(tokens, k, entry, d),
    ensures
        c == d,
{
    let par = numbering::parents(tokens);
    if c != d {
        let (o1, f1) = choose|order: Seq<u32>, from: Seq<int>| #[trigger]
            listing(tokens, k, entry, order, from) && first_best(par, k, order, c);
        let (o2, f2) = choose|order: Seq<u32>, from: Seq<int>| #[trigger]
            listing(tokens, k, entry, order, from) && first_best(par, k, order, d);
        component::law_best_splits_adjacent(par, k, top, c, d);
        let c1 = choose|a: int|
            {
                &&& 0 <= a < o1.len()
                &&& #[trigger] o1[a] == c
                &&& component::best_split(par, k, c)
                &&& forall|b: int|
                    0 <= b < a ==> !component::best_split(par, k, (#[trigger] o1[b]) as int)
            };
        let d2 = choose|a: int|
            {
                &&& 0 <= a < o2.len()
                &&& #[trigger] o2[a] == d
                &&& component::best_split(par, k, d)
                &&& forall|b: int|
                    0 <= b < a ==> !component::best_split(par, k, (#[trigger] o2[b]) as int)
            };
        assert(k.contains(c) && k.contains(d));
        let d1 = choose|a: int| 0 <= a < o1.len() && #[trigger] o1[a] == d;
        let c2 = choose|a: int| 0 <= a < o2.len() && #[trigger] o2[a] == c;
        if par[c] == d {
            lemma_nearer_first(tokens, k, entry, o1, f1, c1, d1);
            lemma_nearer_first(tokens, k, entry, o2, f2, c2, d2);
        } else {
            lemma_nearer_first(tokens, k, entry, o1, f1, d1, c1);
            lemma_nearer_first(tokens, k, entry, o2, f2, d2, c2);
        }
    }
}

/// Of two members that split a component equally well, the centroid is the one on the side that the
/// list begins on: the child if the list begins below it, and else the parent.
pub proof fn law_nearer_centroid_wins(
    tokens: Seq<Seq<u8>>,
    k: Set<int>,
    top: int,
    entry: int,
    c: int,
    d: int,
)
    requires
        component::component(numbering::parents(tokens), k, top),
        centroid(tokens, k, entry, c),
        component::best_split(numbering::parents(tokens), k, d),
        c != d,
    ensures
        ({
            let par = numbering::parents(tokens);
            ||| par[c] == d && forest::below(par, entry, c)
            ||| par[d] == c && !forest::below(par, entry, d)
        }),
{
    let par = numbering::parents(tokens);
    let (order, from) = choose|order: Seq<u32>, from: Seq<int>| #[trigger]
        listing(tokens, k, entry, order, from) && first_best(par, k, order, c);
    let a = choose|a: int|
        {
            &&& 0 <= a < order.len()
            &&& #[trigger] order[a] == c
            &&& component::best_split(par, k, c)
            &&& forall|b: int|
                0 <= b < a ==> !component::best_split(par, k, (#[trigger] order[b]) as int)
        };
    component::law_best_splits_adjacent(par, k, top, c, d);
    assert(k.contains(d));
    let b = choose|b: int| 0 <= b < order.len() && #[trigger] order[b] == d;
    if par[c] == d {
        lemma_nearer_first(tokens, k, entry, order, from, a, b);
    } else {
        lemma_nearer_first(tokens, k, entry, order, from, b, a);
    }
}

} // verus!
