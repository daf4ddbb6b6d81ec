//! The centroid search trees over the tokens that end a given token.
//!
//! The canonical tokens that end a token form one tree of the successor forest, rooted at its last
//! byte. That tree is where the last token of a text is searched, but it can be as high as the
//! token is long. A centroid search tree splits it recursively at its centroids, so that every step
//! of a search leaves at most half of what is left.

use daachorse::DoubleArrayAhoCorasick;
use vstd::prelude::*;

use crate::automaton;
use crate::automaton::{consume_byte, start_stepper, stepper_matches};
use crate::centroid::{Scratch, SuffixTree};
use crate::component;
use crate::entry::{Interval, SearchEntry, StateEntry, INVALID_ID};
use crate::forest;
use crate::lexicon;
use crate::listing;
use crate::numbering;
use crate::suffixes;
use crate::utils;
use crate::utils::{sort_pairs, FromU32};
use crate::vocab::TokenTableBuilder;

verus! {

/// One centroid in the decomposition of some tree of suffix tokens.
///
/// Removing it splits the tree into one component above it and one below each child.
#[derive(Clone, Copy)]
pub struct CentroidSearchTreeNode {
    /// The token that this centroid stands for.
    pub token: u32,
    /// The node of the component above the token, or `INVALID_ID` when nothing is left there.
    pub up_component: u32,
    /// Where this node's slice of `CentroidSearchTree::children` begins.
    pub child_start: u32,
    /// The number of children of the token, counting also those that are no longer in the
    /// component.
    pub child_len: u32,
    /// What the test for the token reads.
    pub search: SearchEntry,
}

/// An edge from a centroid to one of its children.
#[derive(Clone, Copy)]
pub struct CentroidSearchTreeChild {
    /// The valid interval of the child.
    pub valid: Interval,
    /// The node of the component below the child, or `INVALID_ID` when the child is no longer in
    /// the component.
    pub node: u32,
    /// The child.
    pub token: Ghost<int>,
}

/// The centroid search trees of all tokens, in shared arenas.
pub struct CentroidSearchTree {
    pub nodes: Vec<CentroidSearchTreeNode>,
    pub children: Vec<CentroidSearchTreeChild>,
    /// `roots[dfs_in(t)]` is where the search among the suffixes of `t` starts.
    pub roots: Vec<u32>,
}

/// Whether the children in `lo..hi` are the children of token `c` within the set `s`, sorted by
/// disjoint intervals.
pub open spec fn kids_ok(
    tokens: Seq<Seq<u8>>,
    s: Set<int>,
    children: Seq<CentroidSearchTreeChild>,
    lo: int,
    hi: int,
    c: int,
) -> bool {
    &&& 0 <= lo <= hi <= children.len()
    &&& forall|j: int|
        lo <= j < hi ==> {
            let child = #[trigger] children[j];
            &&& s.contains(child.token@)
            &&& 0 <= child.token@ < lexicon::canon(tokens).len()
            &&& numbering::parents(tokens)[child.token@] == c
            &&& child.valid == suffixes::valid(tokens, child.token@)
        }
    &&& forall|v: int| #[trigger]
        s.contains(v) && numbering::parents(tokens)[v] == c ==> exists|j: int|
            lo <= j < hi && (#[trigger] children[j]).token@ == v
    &&& forall|i: int, j: int|
        lo <= i < j < hi ==> (#[trigger] children[i]).valid.end <= (#[trigger] children[j]).valid.start
}

/// Whether the node at `idx` searches the component `k` of the tree `s` of suffix tokens.
pub open spec fn searches(
    tokens: Seq<Seq<u8>>,
    s: Set<int>,
    nodes: Seq<CentroidSearchTreeNode>,
    children: Seq<CentroidSearchTreeChild>,
    idx: int,
    k: Set<int>,
) -> bool
    decreases k.len(),
{
    let par = numbering::parents(tokens);
    let node = nodes[idx];
    let c = node.token as int;
    let lo = node.child_start as int;
    let hi = lo + node.child_len;
    &&& 0 <= idx < nodes.len()
    &&& k.finite()
    &&& k.contains(c)
    &&& node.search == numbering::search_of(tokens, c)
    &&& kids_ok(tokens, s, children, lo, hi, c)
    &&& forall|j: int|
        lo <= j < hi ==> {
            let v = (#[trigger] children[j]).token@;
            let below = component::piece_below(par, k, v);
            if k.contains(v) {
                2 * below.len() <= k.len() && searches(
                    tokens,
                    s,
                    nodes,
                    children,
                    children[j].node as int,
                    below,
                )
            } else {
                children[j].node == INVALID_ID
            }
        }
    &&& {
        let above = component::piece_above(par, k, c);
        if above.len() > 0 {
            2 * above.len() <= k.len() && searches(
                tokens,
                s,
                nodes,
                children,
                node.up_component as int,
                above,
            )
        } else {
            node.up_component == INVALID_ID
        }
    }
}

/// What the children in a range are depends on their tokens and intervals only.
proof fn lemma_kids_same(
    tokens: Seq<Seq<u8>>,
    s: Set<int>,
    children: Seq<CentroidSearchTreeChild>,
    lo: int,
    hi: int,
    children2: Seq<CentroidSearchTreeChild>,
    lo2: int,
    hi2: int,
    c: int,
)
    requires
        kids_ok(tokens, s, children, lo, hi, c),
        0 <= lo2 <= hi2 <= children2.len(),
        hi2 - lo2 == hi - lo,
        forall|j: int|
            lo2 <= j < hi2 ==> (#[trigger] children2[j]).token == children[j - lo2 + lo].token
                && children2[j].valid == children[j - lo2 + lo].valid,
    ensures
        kids_ok(tokens, s, children2, lo2, hi2, c),
{
    assert forall|j: int| lo2 <= j < hi2 implies ({
        let child = #[trigger] children2[j];
        &&& s.contains(child.token@)
        &&& 0 <= child.token@ < lexicon::canon(tokens).len()
        &&& numbering::parents(tokens)[child.token@] == c
        &&& child.valid == suffixes::valid(tokens, child.token@)
    }) by {
        let child = children[j - lo2 + lo];
        assert(s.contains(child.token@));
    }
    assert forall|v: int| #[trigger]
        s.contains(v) && numbering::parents(tokens)[v] == c implies exists|j: int|
        lo2 <= j < hi2 && (#[trigger] children2[j]).token@ == v by {
        let j = choose|j: int| lo <= j < hi && (#[trigger] children[j]).token@ == v;
        assert(children2[j - lo + lo2].token@ == v);
    }
    assert forall|i: int, j: int| lo2 <= i < j < hi2 implies (#[trigger] children2[i]).valid.end <= (
    #[trigger] children2[j]).valid.start by {
        let a = children[i - lo2 + lo];
        let b = children[j - lo2 + lo];
        assert(a.valid.end <= b.valid.start);
    }
}

/// The members of `k` below one of the children in `lo..hi`.
pub open spec fn below_children(
    par: Seq<int>,
    k: Set<int>,
    children: Seq<CentroidSearchTreeChild>,
    lo: int,
    hi: int,
) -> Set<int> {
    k.filter(
        |x: int|
            exists|j: int|
                lo <= j < hi && forest::below(par, x, (#[trigger] children[j]).token@),
    )
}

/// Whether the nodes of the component `k` begin at `idx` and follow each other without a gap: the
/// node of the centroid of what is listed from `entry`, then the pieces below its children, listed
/// from them in the order of the children, then the piece above it, listed from its parent.
pub open spec fn in_preorder(
    tokens: Seq<Seq<u8>>,
    nodes: Seq<CentroidSearchTreeNode>,
    children: Seq<CentroidSearchTreeChild>,
    idx: int,
    k: Set<int>,
    entry: int,
) -> bool
    decreases k.len(),
{
    let par = numbering::parents(tokens);
    let node = nodes[idx];
    let c = node.token as int;
    let lo = node.child_start as int;
    let hi = lo + node.child_len;
    let above = component::piece_above(par, k, c);
    &&& listing::centroid(tokens, k, entry, c)
    &&& forall|j: int|
        lo <= j < hi ==> {
            let v = (#[trigger] children[j]).token@;
            let below = component::piece_below(par, k, v);
            k.contains(v) ==> children[j].node == idx + 1 + below_children(
                par,
                k,
                children,
                lo,
                j,
            ).len() && below.len() < k.len() && in_preorder(
                tokens,
                nodes,
                children,
                children[j].node as int,
                below,
                v,
            )
        }
    &&& above.len() > 0 ==> node.up_component == idx + k.len() - above.len() && above.len()
        < k.len() && in_preorder(
        tokens,
        nodes,
        children,
        node.up_component as int,
        above,
        par[c],
    )
}

/// Whether the component `k` of the tree `s`, listed from `entry`, is decomposed from `idx` on.
pub open spec fn placed(
    tokens: Seq<Seq<u8>>,
    s: Set<int>,
    nodes: Seq<CentroidSearchTreeNode>,
    children: Seq<CentroidSearchTreeChild>,
    idx: int,
    k: Set<int>,
    entry: int,
) -> bool {
    &&& searches(tokens, s, nodes, children, idx, k)
    &&& in_preorder(tokens, nodes, children, idx, k, entry)
}

/// What is below the children in a range depends on their tokens only.
proof fn lemma_below_same(
    par: Seq<int>,
    k: Set<int>,
    children: Seq<CentroidSearchTreeChild>,
    children2: Seq<CentroidSearchTreeChild>,
    lo: int,
    hi: int,
)
    requires
        forall|j: int| lo <= j < hi ==> (#[trigger] children2[j]).token == children[j].token,
    ensures
        below_children(par, k, children2, lo, hi) == below_children(par, k, children, lo, hi),
{
    let a = below_children(par, k, children, lo, hi);
    let b = below_children(par, k, children2, lo, hi);
    assert forall|x: int| a.contains(x) implies b.contains(x) by {
        let j = choose|j: int|
            lo <= j < hi && forest::below(par, x, (#[trigger] children[j]).token@);
        assert(forest::below(par, x, children2[j].token@));
    }
    assert forall|x: int| b.contains(x) implies a.contains(x) by {
        let j = choose|j: int|
            lo <= j < hi && forest::below(par, x, (#[trigger] children2[j]).token@);
        assert(forest::below(par, x, children[j].token@));
    }
    assert(a =~= b);
}

/// A decomposition depends only on what lies behind its first node and behind the first child of
/// the nodes there.
#[verifier::spinoff_prover]
#[verifier::rlimit(40)]
proof fn lemma_placed_apart(
    tokens: Seq<Seq<u8>>,
    s: Set<int>,
    nodes: Seq<CentroidSearchTreeNode>,
    children: Seq<CentroidSearchTreeChild>,
    nodes2: Seq<CentroidSearchTreeNode>,
    children2: Seq<CentroidSearchTreeChild>,
    first: int,
    base: int,
    idx: int,
    k: Set<int>,
    entry: int,
)
    requires
        placed(tokens, s, nodes, children, idx, k, entry),
        0 <= first <= idx,
        nodes.len() <= nodes2.len(),
        children.len() <= children2.len(),
        forall|i: int|
            first <= i < nodes.len() ==> nodes2[i] == (#[trigger] nodes[i]) && nodes[i].child_start
                >= base,
        forall|j: int| base <= j < children.len() ==> children2[j] == #[trigger] children[j],
    ensures
        placed(tokens, s, nodes2, children2, idx, k, entry),
    decreases k.len(),
{
    let par = numbering::parents(tokens);
    let node = nodes[idx];
    let c = node.token as int;
    let lo = node.child_start as int;
    let hi = lo + node.child_len;
    assert(nodes2[idx] == node && lo >= base);
    assert forall|j: int| lo <= j < hi implies children2[j] == #[trigger] children[j] by {}
    assert forall|j: int| lo <= j < hi implies ({
        let v = (#[trigger] children2[j]).token@;
        let below = component::piece_below(par, k, v);
        &&& k.contains(v) ==> 2 * below.len() <= k.len() && below.len() < k.len()
        &&& k.contains(v) ==> placed(
            tokens,
            s,
            nodes2,
            children2,
            children2[j].node as int,
            below,
            v,
        )
        &&& k.contains(v) ==> children2[j].node == idx + 1 + below_children(
            par,
            k,
            children2,
            lo,
            j,
        ).len()
        &&& !k.contains(v) ==> children2[j].node == INVALID_ID
    }) by {
        assert(children2[j] == children[j]);
        let v = children[j].token@;
        if k.contains(v) {
            lemma_below_same(par, k, children, children2, lo, j);
            lemma_placed_apart(
                tokens,
                s,
                nodes,
                children,
                nodes2,
                children2,
                first,
                base,
                children[j].node as int,
                component::piece_below(par, k, v),
                v,
            );
        }
    }
    let above = component::piece_above(par, k, c);
    if above.len() > 0 {
        lemma_placed_apart(
            tokens,
            s,
            nodes,
            children,
            nodes2,
            children2,
            first,
            base,
            node.up_component as int,
            above,
            par[c],
        );
    }
    lemma_kids_same(tokens, s, children, lo, hi, children2, lo, hi, c);
}

/// The members of `s` whose parent lies in `k`.
pub open spec fn kids_of(par: Seq<int>, s: Set<int>, k: Set<int>) -> Set<int> {
    s.filter(|v: int| k.contains(par[v]))
}

/// The children of the nodes, counted together.
pub open spec fn child_total(nodes: Seq<CentroidSearchTreeNode>) -> int
    decreases nodes.len(),
{
    if nodes.len() == 0 {
        0
    } else {
        child_total(nodes.drop_last()) + nodes.last().child_len
    }
}

/// Whether a stored node number is one, or `INVALID_ID`.
pub open spec fn points(nodes: Seq<CentroidSearchTreeNode>, id: u32) -> bool {
    id == INVALID_ID || id < nodes.len()
}

/// Whether the slice of node `i` begins right behind those of the nodes before it.
pub open spec fn follows(nodes: Seq<CentroidSearchTreeNode>, i: int) -> bool {
    nodes[i].child_start == child_total(nodes.take(i))
}

impl CentroidSearchTree {
    /// Whether everything in the arenas points into the arenas, and the slices of the nodes follow
    /// each other without a gap.
    pub open spec fn closed_arenas(&self) -> bool {
        &&& self.nodes@.len() <= u32::MAX
        &&& self.children@.len() <= u32::MAX
        &&& child_total(self.nodes@) == self.children@.len()
        &&& forall|i: int| 0 <= i < self.nodes@.len() ==> #[trigger] follows(self.nodes@, i)
        &&& forall|i: int|
            0 <= i < self.nodes@.len() ==> {
                &&& points(self.nodes@, (#[trigger] self.nodes@[i]).up_component)
                &&& self.nodes@[i].child_start + self.nodes@[i].child_len <= self.children@.len()
            }
        &&& forall|j: int|
            0 <= j < self.children@.len() ==> points(self.nodes@, (#[trigger] self.children@[j]).node)
    }

    /// Whether the other arenas begin with these.
    pub open spec fn begins(&self, other: &CentroidSearchTree) -> bool {
        &&& self.nodes@.is_prefix_of(other.nodes@)
        &&& self.children@.is_prefix_of(other.children@)
        &&& self.roots@ == other.roots@
    }
}

/// Disjoint sets have disjoint children.
proof fn lemma_kids_add(par: Seq<int>, s: Set<int>, a: Set<int>, b: Set<int>)
    requires
        s.finite(),
        a.disjoint(b),
        a.finite(),
        b.finite(),
    ensures
        kids_of(par, s, a + b).len() == kids_of(par, s, a).len() + kids_of(par, s, b).len(),
        (a + b).len() == a.len() + b.len(),
{
    let x = kids_of(par, s, a);
    let y = kids_of(par, s, b);
    vstd::set_lib::lemma_set_subset_finite(s, x);
    vstd::set_lib::lemma_set_subset_finite(s, y);
    assert(x.disjoint(y));
    vstd::set_lib::lemma_set_disjoint_lens(x, y);
    vstd::set_lib::lemma_set_disjoint_lens(a, b);
    assert(kids_of(par, s, a + b) =~= x + y);
}

/// A larger set has more children.
proof fn lemma_kids_subset(par: Seq<int>, s: Set<int>, a: Set<int>, b: Set<int>)
    requires
        s.finite(),
        a.subset_of(b),
        b.finite(),
    ensures
        kids_of(par, s, a).len() <= kids_of(par, s, b).len() <= s.len(),
        a.len() <= b.len(),
{
    vstd::set_lib::lemma_set_subset_finite(s, kids_of(par, s, b));
    vstd::set_lib::lemma_len_subset(kids_of(par, s, a), kids_of(par, s, b));
    vstd::set_lib::lemma_len_subset(kids_of(par, s, b), s);
    vstd::set_lib::lemma_len_subset(a, b);
}

/// The children of one token are as many as its list is long.
proof fn lemma_kids_one(tree: &SuffixTree, c: int)
    requires
        tree.wf(),
        tree.members@.finite(),
        tree.members@.contains(c),
    ensures
        kids_of(tree.par(), tree.members@, set![c]).len() == tree.ch_end@[c] - tree.ch_start@[c],
{
    let lo = tree.ch_start@[c] as int;
    let hi = tree.ch_end@[c] as int;
    assert(tree.lists(c));
    let ids = tree.ch_list@.subrange(lo, hi).map_values(|x: u32| x as int);
    assert forall|i: int, j: int| 0 <= i < ids.len() && 0 <= j < ids.len() && i != j implies ids[i]
        != ids[j] by {
        if i < j {
            tree.lemma_distinct(c, lo + i, lo + j);
        } else {
            tree.lemma_distinct(c, lo + j, lo + i);
        }
    }
    ids.unique_seq_to_set();
    let kids = kids_of(tree.par(), tree.members@, set![c]);
    assert forall|v: int| kids.contains(v) implies ids.to_set().contains(v) by {
        assert(tree.members@.contains(v) && tree.par()[v] == c);
        let j = choose|j: int| lo <= j < hi && #[trigger] tree.ch_list@[j] == v;
        assert(ids[j - lo] == v);
    }
    assert forall|v: int| ids.to_set().contains(v) implies kids.contains(v) by {
        let j = choose|j: int| 0 <= j < ids.len() && ids[j] == v;
        assert(tree.ch_list@[lo + j] == v);
    }
    assert(kids =~= ids.to_set());
}

/// The members of `k` below one of the children listed in `lo..hi`.
spec fn below_listed(tree: &SuffixTree, k: Set<int>, lo: int, hi: int) -> Set<int> {
    k.filter(
        |x: int|
            exists|j: int|
                lo <= j < hi && forest::below(tree.par(), x, (#[trigger] tree.ch_list@[j]) as int),
    )
}

/// One more child adds the piece below it.
proof fn lemma_below_listed_step(tree: &SuffixTree, k: Set<int>, c: int, j: int)
    requires
        tree.wf(),
        k.finite(),
        k.subset_of(tree.members@),
        tree.members@.contains(c),
        tree.ch_start@[c] <= j < tree.ch_end@[c],
    ensures
        ({
            let lo = tree.ch_start@[c] as int;
            let piece = component::piece_below(tree.par(), k, tree.ch_list@[j] as int);
            let before = below_listed(tree, k, lo, j);
            &&& before.disjoint(piece)
            &&& below_listed(tree, k, lo, j + 1) == before + piece
            &&& before.finite()
            &&& piece.finite()
        }),
{
    let par = tree.par();
    let lo = tree.ch_start@[c] as int;
    let w = tree.ch_list@[j] as int;
    let piece = component::piece_below(par, k, w);
    let before = below_listed(tree, k, lo, j);
    let next = below_listed(tree, k, lo, j + 1);
    assert(tree.lists(c));
    assert(tree.members@.contains(w) && par[w] == c);
    assert(tree.lists(w));
    assert forall|x: int| before.contains(x) implies !piece.contains(x) by {
        if piece.contains(x) {
            let i = choose|i: int|
                lo <= i < j && forest::below(par, x, (#[trigger] tree.ch_list@[i]) as int);
            let v = tree.ch_list@[i] as int;
            assert(tree.members@.contains(v) && par[v] == c);
            assert(tree.lists(v));
            assert(tree.lists(x));
            component::lemma_siblings_apart(par, x, v, w);
            tree.lemma_distinct(c, i, j);
        }
    }
    assert forall|x: int| next.contains(x) implies before.contains(x) || piece.contains(x) by {
        let i = choose|i: int|
            lo <= i < j + 1 && forest::below(par, x, (#[trigger] tree.ch_list@[i]) as int);
        if i < j {
            assert(forest::below(par, x, tree.ch_list@[i] as int));
        }
    }
    assert forall|x: int| before.contains(x) || piece.contains(x) implies next.contains(x) by {
        if before.contains(x) {
            let i = choose|i: int|
                lo <= i < j && forest::below(par, x, (#[trigger] tree.ch_list@[i]) as int);
            assert(forest::below(par, x, tree.ch_list@[i] as int));
        } else {
            assert(forest::below(par, x, tree.ch_list@[j] as int));
        }
    }
    assert(next =~= before + piece);
    vstd::set_lib::lemma_set_subset_finite(k, before);
    vstd::set_lib::lemma_set_subset_finite(k, piece);
}

/// A component is its centroid, what is below the centroid's children, and what is above it.
proof fn lemma_component_parts(tree: &SuffixTree, k: Set<int>, top: int, c: int)
    requires
        tree.wf(),
        component::component(tree.par(), k, top),
        k.subset_of(tree.members@),
        k.contains(c),
    ensures
        ({
            let lo = tree.ch_start@[c] as int;
            let hi = tree.ch_end@[c] as int;
            let below = below_listed(tree, k, lo, hi);
            let above = component::piece_above(tree.par(), k, c);
            &&& below.finite()
            &&& above.finite()
            &&& !below.contains(c)
            &&& !above.contains(c)
            &&& below.disjoint(above)
            &&& k == (below + above).insert(c)
        }),
{
    let par = tree.par();
    let lo = tree.ch_start@[c] as int;
    let hi = tree.ch_end@[c] as int;
    let below = below_listed(tree, k, lo, hi);
    let above = component::piece_above(par, k, c);
    assert(tree.members@.contains(c));
    assert(tree.lists(c));
    assert(forest::below(par, c, c));
    vstd::set_lib::lemma_set_subset_finite(k, below);
    vstd::set_lib::lemma_set_subset_finite(k, above);
    assert forall|x: int| #[trigger] below.contains(x) implies x != c && forest::below(par, x, c) by {
        let j = choose|j: int|
            lo <= j < hi && forest::below(par, x, (#[trigger] tree.ch_list@[j]) as int);
        let v = tree.ch_list@[j] as int;
        assert(tree.members@.contains(v) && par[v] == c);
        assert(tree.lists(v));
        assert(tree.lists(x));
        assert(-1 <= par[v] < v);
        assert(forest::below(par, v, c));
        component::lemma_below_trans(par, x, v, c);
        forest::lemma_below_in(par, x, v);
    }
    assert forall|x: int| k.contains(x) implies (below + above).insert(c).contains(x) by {
        if x != c && forest::below(par, x, c) {
            assert(tree.lists(x));
            forest::lemma_toward(par, c, x);
            let v = forest::toward(par, c, x);
            assert(forest::below(par, v, c)) by {
                assert(-1 <= par[v] < v);
            }
            component::lemma_below_trans(par, v, c, top);
            component::lemma_between(par, k, top, x, v);
            assert(tree.members@.contains(v) && par[v] == c);
            let j = choose|j: int| lo <= j < hi && #[trigger] tree.ch_list@[j] == v;
            assert(forest::below(par, x, tree.ch_list@[j] as int));
        }
    }
    assert(k =~= (below + above).insert(c));
}

/// What is below the children of a node is what is below the listed children.
proof fn lemma_below_listed(
    tree: &SuffixTree,
    k: Set<int>,
    children: Seq<CentroidSearchTreeChild>,
    lo: int,
    begin: int,
    n: int,
)
    requires
        forall|j: int|
            lo <= j < lo + n ==> (#[trigger] children[j]).token@ == tree.ch_list@[j - lo + begin],
    ensures
        below_children(tree.par(), k, children, lo, lo + n) == below_listed(
            tree,
            k,
            begin,
            begin + n,
        ),
{
    let par = tree.par();
    let a = below_children(par, k, children, lo, lo + n);
    let b = below_listed(tree, k, begin, begin + n);
    assert forall|x: int| a.contains(x) implies b.contains(x) by {
        let j = choose|j: int|
            lo <= j < lo + n && forest::below(par, x, (#[trigger] children[j]).token@);
        assert(forest::below(par, x, tree.ch_list@[j - lo + begin] as int));
    }
    assert forall|x: int| b.contains(x) implies a.contains(x) by {
        let i = choose|i: int|
            begin <= i < begin + n && forest::below(par, x, (#[trigger] tree.ch_list@[i]) as int);
        assert(forest::below(par, x, children[i - begin + lo].token@));
    }
    assert(a =~= b);
}

/// Whether a node holds what a search reads of its token, and its slice is the token's child list.
spec fn entry_ok(
    tree: &SuffixTree,
    node: CentroidSearchTreeNode,
    children: Seq<CentroidSearchTreeChild>,
) -> bool {
    let c = node.token as int;
    let lo = node.child_start as int;
    &&& tree.members@.contains(c)
    &&& node.child_len == tree.ch_end@[c] - tree.ch_start@[c]
    &&& node.search == numbering::search_of(tree.table.vocab@, c)
    &&& kids_ok(tree.table.vocab@, tree.members@, children, lo, lo + node.child_len, c)
}

/// Whether the arenas, behind `nodes0` and `children0`, hold the decomposition of the component
/// `k`, listed from `entry`: one node for each member, whose children lie behind `children0`.
spec fn grown(
    tree: &SuffixTree,
    nodes0: Seq<CentroidSearchTreeNode>,
    children0: Seq<CentroidSearchTreeChild>,
    nodes: Seq<CentroidSearchTreeNode>,
    children: Seq<CentroidSearchTreeChild>,
    k: Set<int>,
    entry: int,
) -> bool {
    let first = nodes0.len() as int;
    &&& nodes0.is_prefix_of(nodes)
    &&& children0.is_prefix_of(children)
    &&& nodes.len() == nodes0.len() + k.len()
    &&& children.len() == children0.len() + kids_of(tree.par(), tree.members@, k).len()
    &&& placed(tree.table.vocab@, tree.members@, nodes, children, first, k, entry)
    &&& forall|i: int|
        first <= i < nodes.len() ==> {
            let node = #[trigger] nodes[i];
            &&& k.contains(node.token as int)
            &&& node.child_start >= children0.len()
            &&& entry_ok(tree, node, children)
        }
    &&& forall|i: int, j: int|
        first <= i < j < nodes.len() ==> (#[trigger] nodes[i]).token != (#[trigger] nodes[j]).token
}

/// The node of the piece below the `i`-th listed child, once the pieces before `j` are decomposed.
spec fn link(tree: &SuffixTree, k: Set<int>, first: int, begin: int, i: int, j: int) -> int {
    if i < j && k.contains(tree.ch_list@[i] as int) {
        first + 1 + below_listed(tree, k, begin, i).len()
    } else {
        INVALID_ID as int
    }
}

/// Whether the arenas, behind `nodes0` and `children0`, hold the node of the centroid `c`, its
/// children, and the decompositions of the pieces below the children listed before `j`.
#[verifier::opaque]
spec fn opened(
    tree: &SuffixTree,
    nodes0: Seq<CentroidSearchTreeNode>,
    children0: Seq<CentroidSearchTreeChild>,
    nodes: Seq<CentroidSearchTreeNode>,
    children: Seq<CentroidSearchTreeChild>,
    k: Set<int>,
    c: int,
    j: int,
) -> bool {
    let first = nodes0.len() as int;
    let lo = children0.len() as int;
    let begin = tree.ch_start@[c] as int;
    let end = tree.ch_end@[c] as int;
    let hi = lo + (end - begin);
    let done = below_listed(tree, k, begin, j);
    &&& begin <= j <= end
    &&& nodes0.is_prefix_of(nodes)
    &&& children0.is_prefix_of(children)
    &&& nodes.len() == first + 1 + done.len()
    &&& children.len() == hi + kids_of(tree.par(), tree.members@, done).len()
    &&& nodes[first].token == c
    &&& nodes[first].up_component == INVALID_ID
    &&& nodes[first].child_start == lo
    &&& entry_ok(tree, nodes[first], children)
    &&& forall|q: int|
        lo <= q < hi ==> (#[trigger] children[q]).token@ == tree.ch_list@[q - lo + begin]
            && children[q].node == link(tree, k, first, begin, q - lo + begin, j)
    &&& forall|i: int|
        begin <= i < j && k.contains((#[trigger] tree.ch_list@[i]) as int) ==> placed(
            tree.table.vocab@,
            tree.members@,
            nodes,
            children,
            first + 1 + below_listed(tree, k, begin, i).len(),
            component::piece_below(tree.par(), k, tree.ch_list@[i] as int),
            tree.ch_list@[i] as int,
        )
    &&& forall|i: int|
        first < i < nodes.len() ==> {
            let node = #[trigger] nodes[i];
            &&& done.contains(node.token as int)
            &&& node.child_start >= hi
            &&& entry_ok(tree, node, children)
        }
    &&& forall|i: int, h: int|
        first < i < h < nodes.len() ==> (#[trigger] nodes[i]).token != (#[trigger] nodes[h]).token
}

/// Whether the second children begin with the first ones, but for the nodes that these lead to.
spec fn same_labels(
    children: Seq<CentroidSearchTreeChild>,
    children2: Seq<CentroidSearchTreeChild>,
) -> bool {
    &&& children.len() <= children2.len()
    &&& forall|j: int|
        0 <= j < children.len() ==> (#[trigger] children2[j]).token == children[j].token
            && children2[j].valid == children[j].valid
}

/// What a node holds does not depend on where its children lead to.
proof fn lemma_entry_same(
    tree: &SuffixTree,
    node: CentroidSearchTreeNode,
    children: Seq<CentroidSearchTreeChild>,
    children2: Seq<CentroidSearchTreeChild>,
)
    requires
        entry_ok(tree, node, children),
        same_labels(children, children2),
    ensures
        entry_ok(tree, node, children2),
{
    let lo = node.child_start as int;
    let hi = lo + node.child_len;
    lemma_kids_same(
        tree.table.vocab@,
        tree.members@,
        children,
        lo,
        hi,
        children2,
        lo,
        hi,
        node.token as int,
    );
}

/// Nothing of the component is below a child that is not in it.
proof fn lemma_no_piece(tree: &SuffixTree, k: Set<int>, top: int, c: int, w: int)
    requires
        tree.wf(),
        component::component(tree.par(), k, top),
        k.contains(c),
        tree.members@.contains(w),
        tree.par()[w] == c,
        !k.contains(w),
    ensures
        component::piece_below(tree.par(), k, w) == Set::<int>::empty(),
{
    let par = tree.par();
    let piece = component::piece_below(par, k, w);
    assert(tree.lists(w));
    assert(forest::below(par, w, c)) by {
        assert(forest::below(par, c, c));
    }
    component::lemma_below_trans(par, w, c, top);
    assert forall|x: int| !piece.contains(x) by {
        if piece.contains(x) {
            component::lemma_between(par, k, top, x, w);
        }
    }
    assert(piece =~= Set::empty());
}

/// A child that is not in the component adds nothing.
#[verifier::spinoff_prover]
#[verifier::rlimit(40)]
proof fn lemma_opened_skip(
    tree: &SuffixTree,
    nodes0: Seq<CentroidSearchTreeNode>,
    children0: Seq<CentroidSearchTreeChild>,
    nodes: Seq<CentroidSearchTreeNode>,
    children: Seq<CentroidSearchTreeChild>,
    k: Set<int>,
    top: int,
    c: int,
    j: int,
)
    requires
        tree.wf(),
        component::component(tree.par(), k, top),
        k.subset_of(tree.members@),
        k.contains(c),
        opened(tree, nodes0, children0, nodes, children, k, c, j),
        j < tree.ch_end@[c],
        !k.contains(tree.ch_list@[j] as int),
    ensures
        opened(tree, nodes0, children0, nodes, children, k, c, j + 1),
        below_listed(tree, k, tree.ch_start@[c] as int, j + 1) == below_listed(
            tree,
            k,
            tree.ch_start@[c] as int,
            j,
        ),
{
    reveal(opened);
    let begin = tree.ch_start@[c] as int;
    assert(tree.lists(c));
    let w = tree.ch_list@[j] as int;
    assert(tree.members@.contains(w) && tree.par()[w] == c);
    lemma_no_piece(tree, k, top, c, w);
    lemma_below_listed_step(tree, k, c, j);
    assert(below_listed(tree, k, begin, j + 1) =~= below_listed(tree, k, begin, j));
}

/// The decomposition of one more piece, with the child's link set.
#[verifier::spinoff_prover]
#[verifier::rlimit(100)]
proof fn lemma_opened_step(
    tree: &SuffixTree,
    nodes0: Seq<CentroidSearchTreeNode>,
    children0: Seq<CentroidSearchTreeChild>,
    nodes: Seq<CentroidSearchTreeNode>,
    children: Seq<CentroidSearchTreeChild>,
    nodes2: Seq<CentroidSearchTreeNode>,
    children2: Seq<CentroidSearchTreeChild>,
    linked: CentroidSearchTreeChild,
    k: Set<int>,
    c: int,
    j: int,
)
    requires
        tree.wf(),
        tree.members@.finite(),
        k.finite(),
        k.subset_of(tree.members@),
        k.contains(c),
        opened(tree, nodes0, children0, nodes, children, k, c, j),
        j < tree.ch_end@[c],
        k.contains(tree.ch_list@[j] as int),
        grown(
            tree,
            nodes,
            children,
            nodes2,
            children2,
            component::piece_below(tree.par(), k, tree.ch_list@[j] as int),
            tree.ch_list@[j] as int,
        ),
        ({
            let at = children0.len() + (j - tree.ch_start@[c]);
            &&& linked.token == children2[at].token
            &&& linked.valid == children2[at].valid
            &&& linked.node == nodes.len()
        }),
    ensures
        opened(
            tree,
            nodes0,
            children0,
            nodes2,
            children2.update(children0.len() + (j - tree.ch_start@[c]), linked),
            k,
            c,
            j + 1,
        ),
{
    reveal(opened);
    let first = nodes0.len() as int;
    let lo = children0.len() as int;
    let begin = tree.ch_start@[c] as int;
    let end = tree.ch_end@[c] as int;
    let hi = lo + (end - begin);
    let at = lo + (j - begin);
    let done = below_listed(tree, k, begin, j);
    let next = below_listed(tree, k, begin, j + 1);
    let piece = component::piece_below(tree.par(), k, tree.ch_list@[j] as int);
    let children3 = children2.update(at, linked);
    assert(tree.lists(c));
    lemma_below_listed_step(tree, k, c, j);
    lemma_kids_add(tree.par(), tree.members@, done, piece);
    assert(lo <= at < hi);
    assert(children.len() >= hi);
    assert(same_labels(children2, children3));
    assert(same_labels(children, children3)) by {
        assert forall|q: int| 0 <= q < children.len() implies (#[trigger] children3[q]).token
            == children[q].token && children3[q].valid == children[q].valid by {
            assert(children2[q] == children[q]);
        }
    }
    assert(nodes2[first] == nodes[first]);
    lemma_entry_same(tree, nodes[first], children, children3);
    assert(children0.is_prefix_of(children3)) by {
        assert forall|q: int| 0 <= q < lo implies children3[q] == children0[q] by {
            assert(children[q] == children0[q]);
            assert(children2[q] == children[q]);
        }
        assert(children3.take(lo) =~= children0);
    }
    assert(nodes0.is_prefix_of(nodes2)) by {
        assert forall|q: int| 0 <= q < first implies nodes2[q] == nodes0[q] by {
            assert(nodes[q] == nodes0[q]);
            assert(nodes2[q] == nodes[q]);
        }
    }
    assert forall|q: int| lo <= q < hi implies (#[trigger] children3[q]).token@
        == tree.ch_list@[q - lo + begin] && children3[q].node == link(
        tree,
        k,
        first,
        begin,
        q - lo + begin,
        j + 1,
    ) by {
        assert(children2[q] == children[q]);
        assert(children[q].token@ == tree.ch_list@[q - lo + begin]);
    }
    assert forall|i: int| first < i < nodes2.len() implies ({
        let node = #[trigger] nodes2[i];
        &&& next.contains(node.token as int)
        &&& node.child_start >= hi
        &&& entry_ok(tree, node, children3)
    }) by {
        if i < nodes.len() {
            assert(nodes2[i] == nodes[i]);
            lemma_entry_same(tree, nodes[i], children, children3);
        } else {
            lemma_entry_same(tree, nodes2[i], children2, children3);
        }
    }
    assert forall|i: int, h: int| first < i < h < nodes2.len() implies (#[trigger] nodes2[i]).token
        != (#[trigger] nodes2[h]).token by {
        if h < nodes.len() {
            assert(nodes2[i] == nodes[i]);
            assert(nodes2[h] == nodes[h]);
        } else if i < nodes.len() {
            assert(nodes2[i] == nodes[i]);
            assert(done.contains(nodes[i].token as int));
            assert(piece.contains(nodes2[h].token as int));
        }
    }
    assert forall|i: int| first < i < nodes.len() implies nodes2[i] == (#[trigger] nodes[i])
        && nodes[i].child_start >= hi by {}
    assert forall|q: int| hi <= q < children.len() implies children3[q] == #[trigger] children[q] by {
        assert(children2[q] == children[q]);
    }
    assert forall|i: int|
        begin <= i < j + 1 && k.contains((#[trigger] tree.ch_list@[i]) as int) implies placed(
        tree.table.vocab@,
        tree.members@,
        nodes2,
        children3,
        first + 1 + below_listed(tree, k, begin, i).len(),
        component::piece_below(tree.par(), k, tree.ch_list@[i] as int),
        tree.ch_list@[i] as int,
    ) by {
        let idx = first + 1 + below_listed(tree, k, begin, i).len();
        let part = component::piece_below(tree.par(), k, tree.ch_list@[i] as int);
        if i < j {
            lemma_placed_apart(
                tree.table.vocab@,
                tree.members@,
                nodes,
                children,
                nodes2,
                children3,
                first + 1,
                hi,
                idx,
                part,
                tree.ch_list@[i] as int,
            );
        } else {
            assert(idx == nodes.len());
            lemma_placed_apart(
                tree.table.vocab@,
                tree.members@,
                nodes2,
                children2,
                nodes2,
                children3,
                first + 1,
                hi,
                idx,
                part,
                tree.ch_list@[i] as int,
            );
        }
    }
}

/// The pieces of a component, and their children, add up.
proof fn lemma_parts_len(tree: &SuffixTree, k: Set<int>, top: int, c: int)
    requires
        tree.wf(),
        tree.members@.finite(),
        component::component(tree.par(), k, top),
        k.subset_of(tree.members@),
        k.contains(c),
    ensures
        ({
            let par = tree.par();
            let s = tree.members@;
            let below = below_listed(tree, k, tree.ch_start@[c] as int, tree.ch_end@[c] as int);
            let above = component::piece_above(par, k, c);
            &&& k.len() == 1 + below.len() + above.len()
            &&& kids_of(par, s, k).len() == (tree.ch_end@[c] - tree.ch_start@[c]) + kids_of(
                par,
                s,
                below,
            ).len() + kids_of(par, s, above).len()
            &&& above.len() == 0 ==> kids_of(par, s, above).len() == 0
        }),
{
    let par = tree.par();
    let s = tree.members@;
    let below = below_listed(tree, k, tree.ch_start@[c] as int, tree.ch_end@[c] as int);
    let above = component::piece_above(par, k, c);
    lemma_component_parts(tree, k, top, c);
    lemma_kids_one(tree, c);
    lemma_kids_add(par, s, below, above);
    lemma_kids_add(par, s, below + above, set![c]);
    assert((below + above) + set![c] =~= k);
    assert(above.len() == 0 ==> above =~= Set::empty());
    assert(kids_of(par, s, Set::empty()) =~= Set::empty());
}

/// The arenas behind the first ones hold one node for each member of the component.
#[verifier::spinoff_prover]
#[verifier::rlimit(60)]
proof fn lemma_opened_nodes(
    tree: &SuffixTree,
    nodes0: Seq<CentroidSearchTreeNode>,
    children0: Seq<CentroidSearchTreeChild>,
    nodes: Seq<CentroidSearchTreeNode>,
    children: Seq<CentroidSearchTreeChild>,
    nodes2: Seq<CentroidSearchTreeNode>,
    children2: Seq<CentroidSearchTreeChild>,
    linked: CentroidSearchTreeNode,
    k: Set<int>,
    top: int,
    c: int,
)
    requires
        tree.wf(),
        tree.members@.finite(),
        component::component(tree.par(), k, top),
        k.contains(c),
        k.subset_of(tree.members@),
        opened(tree, nodes0, children0, nodes, children, k, c, tree.ch_end@[c] as int),
        linked == (CentroidSearchTreeNode {
            up_component: linked.up_component,
            ..nodes[nodes0.len() as int]
        }),
        ({
            let above = component::piece_above(tree.par(), k, c);
            if above.len() > 0 {
                &&& grown(
                    tree,
                    nodes,
                    children,
                    nodes2,
                    children2,
                    above,
                    tree.par()[c],
                )
                &&& linked.up_component == nodes.len()
            } else {
                &&& nodes2 == nodes
                &&& children2 == children
                &&& linked.up_component == INVALID_ID
            }
        }),
    ensures
        ({
            let nodes3 = nodes2.update(nodes0.len() as int, linked);
            &&& nodes0.is_prefix_of(nodes3)
            &&& children0.is_prefix_of(children2)
            &&& nodes3.len() == nodes0.len() + k.len()
            &&& children2.len() == children0.len() + kids_of(
                tree.par(),
                tree.members@,
                k,
            ).len()
            &&& forall|i: int|
                nodes0.len() <= i < nodes3.len() ==> {
                    let node = #[trigger] nodes3[i];
                    &&& k.contains(node.token as int)
                    &&& node.child_start >= children0.len()
                    &&& entry_ok(tree, node, children2)
                }
            &&& forall|i: int, j: int|
                nodes0.len() <= i < j < nodes3.len() ==> (#[trigger] nodes3[i]).token != (
                #[trigger] nodes3[j]).token
        }),
{
    reveal(opened);
    let par = tree.par();
    let first = nodes0.len() as int;
    let lo = children0.len() as int;
    let begin = tree.ch_start@[c] as int;
    let end = tree.ch_end@[c] as int;
    let below = below_listed(tree, k, begin, end);
    let above = component::piece_above(par, k, c);
    let nodes3 = nodes2.update(first, linked);
    assert(tree.lists(c));
    lemma_component_parts(tree, k, top, c);
    lemma_parts_len(tree, k, top, c);
    assert(nodes.is_prefix_of(nodes2) && children.is_prefix_of(children2));
    assert(same_labels(children, children2));
    assert(nodes0.is_prefix_of(nodes3)) by {
        assert forall|q: int| 0 <= q < first implies nodes3[q] == nodes0[q] by {
            assert(nodes[q] == nodes0[q]);
            assert(nodes2[q] == nodes[q]);
        }
    }
    assert(children0.is_prefix_of(children2)) by {
        assert forall|q: int| 0 <= q < lo implies children2[q] == children0[q] by {
            assert(children[q] == children0[q]);
            assert(children2[q] == children[q]);
        }
    }
    lemma_entry_same(tree, nodes[first], children, children2);
    assert forall|i: int| first <= i < nodes3.len() implies ({
        let node = #[trigger] nodes3[i];
        &&& k.contains(node.token as int)
        &&& node.child_start >= lo
        &&& entry_ok(tree, node, children2)
    }) by {
        if first < i {
            assert(nodes3[i] == nodes2[i]);
            if i < nodes.len() {
                assert(nodes2[i] == nodes[i]);
                lemma_entry_same(tree, nodes[i], children, children2);
            }
        }
    }
    assert forall|i: int, h: int| first <= i < h < nodes3.len() implies (#[trigger] nodes3[i]).token
        != (#[trigger] nodes3[h]).token by {
        assert(nodes3[h] == nodes2[h]);
        if h < nodes.len() {
            assert(nodes2[h] == nodes[h]);
            assert(below.contains(nodes[h].token as int));
        } else {
            assert(above.contains(nodes2[h].token as int));
        }
        if first < i {
            assert(nodes3[i] == nodes2[i]);
            if i < nodes.len() {
                assert(nodes2[i] == nodes[i]);
                assert(below.contains(nodes[i].token as int));
            }
        }
    }
}

/// Where the children of the centroid lead to, the pieces below them are decomposed.
#[verifier::spinoff_prover]
#[verifier::rlimit(60)]
proof fn lemma_opened_child(
    tree: &SuffixTree,
    nodes0: Seq<CentroidSearchTreeNode>,
    children0: Seq<CentroidSearchTreeChild>,
    nodes: Seq<CentroidSearchTreeNode>,
    children: Seq<CentroidSearchTreeChild>,
    nodes2: Seq<CentroidSearchTreeNode>,
    children2: Seq<CentroidSearchTreeChild>,
    k: Set<int>,
    c: int,
    q: int,
)
    requires
        tree.wf(),
        k.finite(),
        k.subset_of(tree.members@),
        k.contains(c),
        component::split_within(tree.par(), k, c, k.len() as int / 2),
        opened(tree, nodes0, children0, nodes, children, k, c, tree.ch_end@[c] as int),
        nodes.len() <= nodes2.len(),
        children.is_prefix_of(children2),
        forall|i: int| nodes0.len() < i < nodes.len() ==> nodes2[i] == #[trigger] nodes[i],
        children0.len() <= q < children0.len() + (tree.ch_end@[c] - tree.ch_start@[c]),
    ensures
        ({
            let par = tree.par();
            let lo = children0.len() as int;
            let v = children2[q].token@;
            let part = component::piece_below(par, k, v);
            &&& k.contains(v) ==> 2 * part.len() <= k.len() && part.len() < k.len()
            &&& k.contains(v) ==> placed(
                tree.table.vocab@,
                tree.members@,
                nodes2,
                children2,
                children2[q].node as int,
                part,
                v,
            )
            &&& k.contains(v) ==> children2[q].node == nodes0.len() + 1 + below_children(
                par,
                k,
                children2,
                lo,
                q,
            ).len()
            &&& !k.contains(v) ==> children2[q].node == INVALID_ID
        }),
{
    reveal(opened);
    let par = tree.par();
    let first = nodes0.len() as int;
    let lo = children0.len() as int;
    let begin = tree.ch_start@[c] as int;
    let end = tree.ch_end@[c] as int;
    let hi = lo + (end - begin);
    let i = q - lo + begin;
    assert(tree.lists(c));
    assert(children2[q] == children[q]);
    assert(children[q].token@ == tree.ch_list@[i]);
    let v = tree.ch_list@[i] as int;
    assert(tree.members@.contains(v) && par[v] == c);
    if k.contains(v) {
        assert forall|h: int| lo <= h < lo + (q - lo) implies (#[trigger] children2[h]).token@
            == tree.ch_list@[h - lo + begin] by {
            assert(children2[h] == children[h]);
        }
        lemma_below_listed(tree, k, children2, lo, begin, q - lo);
        let part = component::piece_below(par, k, v);
        assert(part.len() <= k.len() as int / 2);
        assert(k.len() > 0);
        lemma_placed_apart(
            tree.table.vocab@,
            tree.members@,
            nodes,
            children,
            nodes2,
            children2,
            first + 1,
            hi,
            first + 1 + below_listed(tree, k, begin, i).len(),
            part,
            v,
        );
    }
}

/// The decomposition of the piece above the centroid completes that of the component.
#[verifier::spinoff_prover]
#[verifier::rlimit(60)]
proof fn lemma_opened_done(
    tree: &SuffixTree,
    nodes0: Seq<CentroidSearchTreeNode>,
    children0: Seq<CentroidSearchTreeChild>,
    nodes: Seq<CentroidSearchTreeNode>,
    children: Seq<CentroidSearchTreeChild>,
    nodes2: Seq<CentroidSearchTreeNode>,
    children2: Seq<CentroidSearchTreeChild>,
    linked: CentroidSearchTreeNode,
    k: Set<int>,
    top: int,
    entry: int,
    c: int,
)
    requires
        tree.wf(),
        tree.members@.finite(),
        component::component(tree.par(), k, top),
        listing::centroid(tree.table.vocab@, k, entry, c),
        k.subset_of(tree.members@),
        opened(tree, nodes0, children0, nodes, children, k, c, tree.ch_end@[c] as int),
        linked == (CentroidSearchTreeNode {
            up_component: linked.up_component,
            ..nodes[nodes0.len() as int]
        }),
        ({
            let above = component::piece_above(tree.par(), k, c);
            if above.len() > 0 {
                &&& grown(
                    tree,
                    nodes,
                    children,
                    nodes2,
                    children2,
                    above,
                    tree.par()[c],
                )
                &&& linked.up_component == nodes.len()
            } else {
                &&& nodes2 == nodes
                &&& children2 == children
                &&& linked.up_component == INVALID_ID
            }
        }),
    ensures
        grown(
            tree,
            nodes0,
            children0,
            nodes2.update(nodes0.len() as int, linked),
            children2,
            k,
            entry,
        ),
{
    let par = tree.par();
    let s = tree.members@;
    let tokens = tree.table.vocab@;
    let first = nodes0.len() as int;
    let lo = children0.len() as int;
    let above = component::piece_above(par, k, c);
    let nodes3 = nodes2.update(first, linked);
    lemma_centroid_best(tokens, k, entry, c);
    lemma_opened_nodes(
        tree,
        nodes0,
        children0,
        nodes,
        children,
        nodes2,
        children2,
        linked,
        k,
        top,
        c,
    );
    assert(tree.lists(c));
    component::law_best_split_halves(par, k, top, c);
    lemma_parts_len(tree, k, top, c);
    assert(nodes.len() > first && nodes[first].token == c && nodes[first].child_start == lo
        && nodes[first].child_len == tree.ch_end@[c] - tree.ch_start@[c] && nodes.len() == first
        + k.len() - above.len()) by {
        reveal(opened);
    }
    assert(nodes3[first] == linked);
    assert(entry_ok(tree, linked, children2));
    if above.len() > 0 {
        assert(above.len() <= k.len() as int / 2);
        assert forall|i: int|
            first + 1 <= i < nodes2.len() implies nodes3[i] == (#[trigger] nodes2[i])
            && nodes2[i].child_start >= lo by {
            assert(nodes3[i].child_start >= lo);
        }
        lemma_placed_apart(
            tokens,
            s,
            nodes2,
            children2,
            nodes3,
            children2,
            first + 1,
            lo,
            nodes.len() as int,
            above,
            par[c],
        );
    }
    let hi = lo + linked.child_len;
    assert forall|i: int| first < i < nodes.len() implies nodes3[i] == #[trigger] nodes[i] by {
        assert(nodes2[i] == nodes[i]);
    }
    assert forall|q: int| lo <= q < hi implies ({
        let v = (#[trigger] children2[q]).token@;
        let part = component::piece_below(par, k, v);
        &&& k.contains(v) ==> 2 * part.len() <= k.len() && part.len() < k.len()
        &&& k.contains(v) ==> placed(tokens, s, nodes3, children2, children2[q].node as int, part, v)
        &&& k.contains(v) ==> children2[q].node == first + 1 + below_children(
            par,
            k,
            children2,
            lo,
            q,
        ).len()
        &&& !k.contains(v) ==> children2[q].node == INVALID_ID
    }) by {
        lemma_opened_child(
            tree,
            nodes0,
            children0,
            nodes,
            children,
            nodes3,
            children2,
            k,
            c,
            q,
        );
    }
    assert(searches(tokens, s, nodes3, children2, first, k));
    assert(in_preorder(tokens, nodes3, children2, first, k, entry));
}

/// The centroid splits the component best.
proof fn lemma_centroid_best(tokens: Seq<Seq<u8>>, k: Set<int>, entry: int, c: int)
    requires
        listing::centroid(tokens, k, entry, c),
    ensures
        component::best_split(numbering::parents(tokens), k, c),
{
}

/// How far the arenas have grown.
proof fn lemma_opened_len(
    tree: &SuffixTree,
    nodes0: Seq<CentroidSearchTreeNode>,
    children0: Seq<CentroidSearchTreeChild>,
    nodes: Seq<CentroidSearchTreeNode>,
    children: Seq<CentroidSearchTreeChild>,
    k: Set<int>,
    c: int,
    j: int,
)
    requires
        opened(tree, nodes0, children0, nodes, children, k, c, j),
    ensures
        ({
            let done = below_listed(tree, k, tree.ch_start@[c] as int, j);
            &&& nodes.len() == nodes0.len() + 1 + done.len()
            &&& children.len() == children0.len() + (tree.ch_end@[c] - tree.ch_start@[c])
                + kids_of(tree.par(), tree.members@, done).len()
            &&& nodes[nodes0.len() as int].up_component == INVALID_ID
        }),
{
    reveal(opened);
}

/// The node of the centroid with its children.
proof fn lemma_opened_start(
    tree: &SuffixTree,
    nodes0: Seq<CentroidSearchTreeNode>,
    children0: Seq<CentroidSearchTreeChild>,
    nodes: Seq<CentroidSearchTreeNode>,
    children: Seq<CentroidSearchTreeChild>,
    k: Set<int>,
    c: int,
)
    requires
        tree.wf(),
        tree.members@.contains(c),
        nodes0.is_prefix_of(nodes),
        children0.is_prefix_of(children),
        nodes.len() == nodes0.len() + 1,
        children.len() == children0.len() + (tree.ch_end@[c] - tree.ch_start@[c]),
        nodes.last().token == c,
        nodes.last().up_component == INVALID_ID,
        nodes.last().child_start == children0.len(),
        entry_ok(tree, nodes.last(), children),
        forall|q: int|
            children0.len() <= q < children.len() ==> (#[trigger] children[q]).token@
                == tree.ch_list@[q - children0.len() + tree.ch_start@[c]] && children[q].node
                == INVALID_ID,
    ensures
        opened(tree, nodes0, children0, nodes, children, k, c, tree.ch_start@[c] as int),
        below_listed(tree, k, tree.ch_start@[c] as int, tree.ch_start@[c] as int) == Set::<
            int,
        >::empty(),
{
    reveal(opened);
    assert(tree.lists(c));
    let begin = tree.ch_start@[c] as int;
    assert(below_listed(tree, k, begin, begin) =~= Set::empty());
    assert(kids_of(tree.par(), tree.members@, Set::empty()) =~= Set::empty());
}

/// What is left when the piece below a child, or the piece above, is decomposed next.
proof fn lemma_left_below(
    tree: &SuffixTree,
    removed0: Seq<bool>,
    removed: Seq<bool>,
    k: Set<int>,
    top: int,
    c: int,
    j: int,
)
    requires
        tree.wf(),
        component::component(tree.par(), k, top),
        tree.left(removed0, k),
        k.contains(c),
        tree.ch_start@[c] <= j < tree.ch_end@[c],
        removed.len() == removed0.len(),
        forall|x: int|
            0 <= x < removed.len() ==> (#[trigger] removed[x] <==> removed0[x] || x == c
                || below_listed(tree, k, tree.ch_start@[c] as int, j).contains(x)),
    ensures
        ({
            let w = tree.ch_list@[j] as int;
            &&& 0 <= w < removed.len()
            &&& removed[w] <==> !k.contains(w)
            &&& k.contains(w) ==> tree.left(removed, component::piece_below(tree.par(), k, w))
            &&& k.contains(w) ==> component::component(
                tree.par(),
                component::piece_below(tree.par(), k, w),
                w,
            )
        }),
{
    let par = tree.par();
    let w = tree.ch_list@[j] as int;
    let piece = component::piece_below(par, k, w);
    assert(tree.members@.contains(c));
    assert(tree.lists(c));
    assert(tree.members@.contains(w) && par[w] == c);
    assert(tree.lists(w));
    assert(-1 <= par[w] < w);
    lemma_below_listed_step(tree, k, c, j);
    assert(forest::below(par, w, w));
    assert(k.contains(w) ==> piece.contains(w));
    assert(removed[w] <==> !k.contains(w));
    if k.contains(w) {
        component::lemma_component_below(par, k, top, w);
        assert forall|x: int| #[trigger] piece.contains(x) implies !removed[x] by {
            assert(tree.lists(x));
            forest::lemma_below_in(par, x, w);
        }
        assert forall|v: int| #[trigger]
            tree.members@.contains(v) && piece.contains(par[v]) && !removed[v] implies piece.contains(
            v,
        ) by {
            assert(tree.lists(v));
            assert(-1 <= par[v] < v);
            assert(k.contains(v));
        }
    }
}

proof fn lemma_left_above(
    tree: &SuffixTree,
    removed0: Seq<bool>,
    removed: Seq<bool>,
    k: Set<int>,
    top: int,
    c: int,
)
    requires
        tree.wf(),
        component::component(tree.par(), k, top),
        tree.left(removed0, k),
        k.contains(c),
        c != top,
        removed.len() == removed0.len(),
        forall|x: int|
            0 <= x < removed.len() ==> (#[trigger] removed[x] <==> removed0[x] || x == c
                || below_listed(
                tree,
                k,
                tree.ch_start@[c] as int,
                tree.ch_end@[c] as int,
            ).contains(x)),
    ensures
        tree.left(removed, component::piece_above(tree.par(), k, c)),
        component::component(tree.par(), component::piece_above(tree.par(), k, c), top),
{
    let par = tree.par();
    let piece = component::piece_above(par, k, c);
    component::lemma_component_above(par, k, top, c);
    lemma_component_parts(tree, k, top, c);
    assert forall|x: int| #[trigger] piece.contains(x) implies !removed[x] by {
        assert(tree.lists(x));
    }
    assert forall|v: int| #[trigger]
        tree.members@.contains(v) && piece.contains(par[v]) && !removed[v] implies piece.contains(
        v,
    ) by {
        assert(tree.lists(v));
        assert(k.contains(v));
        if forest::below(par, v, c) {
            assert(v == c);
        }
    }
}

/// Whether there is a piece above the centroid shows at its parent, once the pieces below are
/// decomposed.
proof fn lemma_parent_left(
    tree: &SuffixTree,
    removed0: Seq<bool>,
    removed: Seq<bool>,
    k: Set<int>,
    top: int,
    c: int,
)
    requires
        tree.wf(),
        component::component(tree.par(), k, top),
        tree.left(removed0, k),
        k.contains(c),
        removed.len() == removed0.len(),
        forall|x: int|
            0 <= x < removed.len() ==> (#[trigger] removed[x] <==> removed0[x] || x == c
                || below_listed(
                tree,
                k,
                tree.ch_start@[c] as int,
                tree.ch_end@[c] as int,
            ).contains(x)),
    ensures
        ({
            let p = tree.par()[c];
            &&& c != top <==> p >= 0 && !removed[p]
            &&& c != top ==> component::piece_above(tree.par(), k, c).contains(p)
        }),
{
    let par = tree.par();
    let p = par[c];
    assert(tree.lists(c));
    assert(-1 <= par[c] < c);
    lemma_component_parts(tree, k, top, c);
    if p >= 0 {
        assert(!forest::below(par, p, c)) by {
            if forest::below(par, p, c) {
                forest::lemma_below_in(par, p, c);
            }
        }
        assert(k.contains(p) ==> component::piece_above(par, k, c).contains(p));
    }
    if c != top {
        assert(k.contains(component::up(par, c)));
    } else if p >= 0 && k.contains(p) {
        forest::lemma_below_in(par, p, top);
    }
}

impl CentroidSearchTree {
    /// Appends the node of a centroid and its children, which lead nowhere yet.
    #[verifier::spinoff_prover]
    #[verifier::rlimit(60)]
    fn push_node(&mut self, tree: &SuffixTree, c: u32)
        requires
            tree.wf(),
            tree.members@.contains(c as int),
            old(self).closed_arenas(),
            old(self).nodes@.len() < u32::MAX,
            old(self).children@.len() + (tree.ch_end@[c as int] - tree.ch_start@[c as int])
                <= u32::MAX,
        ensures
            old(self).begins(&*final(self)),
            final(self).closed_arenas(),
            final(self).nodes@.len() == old(self).nodes@.len() + 1,
            final(self).children@.len() == old(self).children@.len() + (tree.ch_end@[c as int]
                - tree.ch_start@[c as int]),
            final(self).nodes@.last().token == c,
            final(self).nodes@.last().up_component == INVALID_ID,
            final(self).nodes@.last().child_start == old(self).children@.len(),
            entry_ok(tree, final(self).nodes@.last(), final(self).children@),
            forall|q: int|
                old(self).children@.len() <= q < final(self).children@.len() ==> {
                    let child = #[trigger] final(self).children@[q];
                    let i = q - old(self).children@.len();
                    &&& child.token@ == tree.ch_list@[tree.ch_start@[c as int] + i]
                    &&& child.node == INVALID_ID
                },
    {
        let ghost par = tree.par();
        let ghost s = tree.members@;
        let ghost tokens = tree.table.vocab@;
        let ghost nodes0 = self.nodes@;
        let ghost children0 = self.children@;
        let ghost lo = self.children@.len() as int;
        let ci: usize = usize::from_u32(c);
        assert(tree.lists(c as int));
        let begin: usize = usize::from_u32(tree.ch_start[ci]);
        let end: usize = usize::from_u32(tree.ch_end[ci]);
        assert(tree.table.search@[c as int] == numbering::search_of(tokens, c as int));
        let node: CentroidSearchTreeNode = CentroidSearchTreeNode {
            token: c,
            up_component: INVALID_ID,
            child_start: self.children.len() as u32,
            child_len: (end - begin) as u32,
            search: tree.table.search[ci],
        };
        self.nodes.push(node);
        let mut j: usize = begin;
        while j < end
            invariant
                begin <= j <= end,
                tree.wf(),
                s == tree.members@,
                tokens == tree.table.vocab@,
                s.contains(c as int),
                tree.lists(c as int),
                begin == tree.ch_start@[c as int],
                end == tree.ch_end@[c as int],
                self.nodes@ == nodes0.push(node),
                self.roots@ == old(self).roots@,
                lo == children0.len(),
                self.children@.len() == lo + (j - begin),
                children0.is_prefix_of(self.children@),
                forall|q: int|
                    lo <= q < self.children@.len() ==> {
                        let child = #[trigger] self.children@[q];
                        &&& child.token@ == tree.ch_list@[q - lo + begin]
                        &&& child.valid == suffixes::valid(tokens, child.token@)
                        &&& child.node == INVALID_ID
                    },
            decreases end - j,
        {
            let v: u32 = tree.ch_list[j];
            assert(tree.members@.contains(v as int));
            assert(tree.lists(v as int));
            assert(tree.table.search@[v as int] == numbering::search_of(tokens, v as int));
            let valid: Interval = tree.table.search[usize::from_u32(v)].valid;
            self.children.push(
                CentroidSearchTreeChild { valid, node: INVALID_ID, token: Ghost(v as int) },
            );
            j += 1;
        }
        proof {
            let hi = self.children@.len() as int;
            assert(self.nodes@.drop_last() =~= nodes0);
            assert(nodes0.is_prefix_of(self.nodes@));
            assert forall|q: int| 0 <= q < hi implies points(
                self.nodes@,
                (#[trigger] self.children@[q]).node,
            ) by {
                if q < lo {
                    assert(self.children@[q] == children0[q]);
                    assert(points(nodes0, children0[q].node));
                }
            }
            assert forall|n: int| 0 <= n < self.nodes@.len() implies #[trigger] follows(
                self.nodes@,
                n,
            ) by {
                assert(self.nodes@.take(n) =~= nodes0.take(n));
                if n < nodes0.len() {
                    assert(follows(nodes0, n));
                    assert(self.nodes@[n] == nodes0[n]);
                } else {
                    assert(nodes0.take(n) =~= nodes0);
                }
            }
            assert forall|n: int| 0 <= n < self.nodes@.len() implies ({
                &&& points(self.nodes@, (#[trigger] self.nodes@[n]).up_component)
                &&& self.nodes@[n].child_start + self.nodes@[n].child_len <= self.children@.len()
            }) by {
                if n < nodes0.len() {
                    assert(self.nodes@[n] == nodes0[n]);
                }
            }
            assert(kids_ok(tokens, s, self.children@, lo, hi, c as int)) by {
                assert forall|q: int| lo <= q < hi implies ({
                    let child = #[trigger] self.children@[q];
                    &&& s.contains(child.token@)
                    &&& 0 <= child.token@ < lexicon::canon(tokens).len()
                    &&& par[child.token@] == c
                    &&& child.valid == suffixes::valid(tokens, child.token@)
                }) by {
                    let child = self.children@[q];
                    assert(child.token@ == tree.ch_list@[q - lo + begin]);
                    assert(tree.lists(child.token@));
                }
                assert forall|v: int| #[trigger] s.contains(v) && par[v] == c implies exists|q: int|
                    lo <= q < hi && (#[trigger] self.children@[q]).token@ == v by {
                    let q = choose|q: int|
                        begin <= q < end && #[trigger] tree.ch_list@[q] == v;
                    assert(self.children@[q - begin + lo].token@ == v);
                }
                assert forall|x: int, y: int| lo <= x < y < hi implies (
                #[trigger] self.children@[x]).valid.end <= (
                #[trigger] self.children@[y]).valid.start by {
                    assert(self.children@[x].token@ == tree.ch_list@[x - lo + begin]);
                    assert(self.children@[y].token@ == tree.ch_list@[y - lo + begin]);
                }
            }
        }
    }

    /// Lets a child lead to a node.
    fn link_child(&mut self, at: usize, node: u32)
        requires
            old(self).closed_arenas(),
            at < old(self).children@.len(),
            node < old(self).nodes@.len(),
        ensures
            final(self).closed_arenas(),
            final(self).nodes@ == old(self).nodes@,
            final(self).roots@ == old(self).roots@,
            final(self).children@ == old(self).children@.update(
                at as int,
                (CentroidSearchTreeChild { node, ..old(self).children@[at as int] }),
            ),
    {
        let child: CentroidSearchTreeChild = self.children[at];
        self.children.set(at, CentroidSearchTreeChild { node, ..child });
    }

    /// Lets a node lead up to another one.
    fn link_up(&mut self, idx: u32, up: u32)
        requires
            old(self).closed_arenas(),
            idx < old(self).nodes@.len(),
            up < old(self).nodes@.len(),
        ensures
            final(self).closed_arenas(),
            final(self).children@ == old(self).children@,
            final(self).roots@ == old(self).roots@,
            final(self).nodes@ == old(self).nodes@.update(
                idx as int,
                (CentroidSearchTreeNode { up_component: up, ..old(self).nodes@[idx as int] }),
            ),
    {
        let ghost nodes0 = self.nodes@;
        let at: usize = usize::from_u32(idx);
        let node: CentroidSearchTreeNode = self.nodes[at];
        self.nodes.set(at, CentroidSearchTreeNode { up_component: up, ..node });
        proof {
            lemma_total_same(self.nodes@, nodes0);
            assert forall|i: int| 0 <= i < self.nodes@.len() implies #[trigger] follows(
                self.nodes@,
                i,
            ) by {
                assert(follows(nodes0, i));
                lemma_total_same(self.nodes@.take(i), nodes0.take(i));
            }
            assert forall|i: int| 0 <= i < self.nodes@.len() implies ({
                &&& points(self.nodes@, (#[trigger] self.nodes@[i]).up_component)
                &&& self.nodes@[i].child_start + self.nodes@[i].child_len <= self.children@.len()
            }) by {
                assert(points(nodes0, nodes0[i].up_component));
            }
        }
    }

    /// Decomposes a component and returns the index of its node, which is the next free one.
    ///
    /// Removing the centroid splits the component into a piece above it and one below each child,
    /// each at most half as large. The pieces below follow the centroid's node in the order of the
    /// children, and the piece above comes last.
    #[verifier::spinoff_prover]
    #[verifier::rlimit(100)]
    fn decompose(
        &mut self,
        tree: &SuffixTree,
        scratch: &mut Scratch,
        entry: u32,
        k: Ghost<Set<int>>,
        top: Ghost<int>,
    ) -> (idx: u32)
        requires
            tree.wf(),
            tree.members@.finite(),
            old(scratch).wf(tree.par().len() as int),
            tree.left(old(scratch).removed@, k@),
            component::component(tree.par(), k@, top@),
            k@.contains(entry as int),
            old(self).closed_arenas(),
            old(self).nodes@.len() + k@.len() <= u32::MAX,
            old(self).children@.len() + kids_of(tree.par(), tree.members@, k@).len() <= u32::MAX,
        ensures
            idx == old(self).nodes@.len(),
            final(self).closed_arenas(),
            final(self).roots@ == old(self).roots@,
            grown(
                tree,
                old(self).nodes@,
                old(self).children@,
                final(self).nodes@,
                final(self).children@,
                k@,
                entry as int,
            ),
            final(scratch).wf(tree.par().len() as int),
            forall|x: int|
                0 <= x < tree.par().len() ==> (#[trigger] final(scratch).removed@[x] <==> old(
                    scratch,
                ).removed@[x] || k@.contains(x)),
        decreases k@.len(),
    {
        let ghost par = tree.par();
        let ghost s = tree.members@;
        let ghost tokens = tree.table.vocab@;
        let ghost removed0 = scratch.removed@;
        let ghost nodes0 = self.nodes@;
        let ghost children0 = self.children@;
        let c: u32 = scratch.find_centroid(tree, entry, k, top);
        let ci: usize = usize::from_u32(c);
        assert(listing::centroid(tokens, k@, entry as int, c as int));
        assert(s.contains(c as int));
        assert(tree.lists(c as int));
        scratch.removed.set(ci, true);
        let begin: usize = usize::from_u32(tree.ch_start[ci]);
        let end: usize = usize::from_u32(tree.ch_end[ci]);
        let ghost below = below_listed(tree, k@, begin as int, end as int);
        let ghost above = component::piece_above(par, k@, c as int);
        proof {
            component::law_best_split_halves(par, k@, top@, c as int);
            lemma_component_parts(tree, k@, top@, c as int);
            lemma_parts_len(tree, k@, top@, c as int);
        }
        let idx: u32 = self.nodes.len() as u32;
        let base: usize = self.children.len();
        self.push_node(tree, c);
        proof {
            lemma_opened_start(
                tree,
                nodes0,
                children0,
                self.nodes@,
                self.children@,
                k@,
                c as int,
            );
        }
        let mut j: usize = begin;
        while j < end
            invariant
                tree.wf(),
                s.finite(),
                par == tree.par(),
                s == tree.members@,
                tree.left(removed0, k@),
                component::component(par, k@, top@),
                component::split_within(par, k@, c as int, k@.len() as int / 2),
                k@.contains(c as int),
                s.contains(c as int),
                tree.lists(c as int),
                begin == tree.ch_start@[c as int],
                end == tree.ch_end@[c as int],
                begin <= j <= end,
                below == below_listed(tree, k@, begin as int, end as int),
                below.finite(),
                nodes0.len() + 1 + below.len() <= u32::MAX,
                children0.len() + (end - begin) + kids_of(par, s, below).len() <= u32::MAX,
                base == children0.len(),
                scratch.wf(par.len() as int),
                forall|x: int|
                    0 <= x < par.len() ==> (#[trigger] scratch.removed@[x] <==> removed0[x] || x
                        == c || below_listed(tree, k@, begin as int, j as int).contains(x)),
                self.closed_arenas(),
                self.roots@ == old(self).roots@,
                opened(
                    tree,
                    nodes0,
                    children0,
                    self.nodes@,
                    self.children@,
                    k@,
                    c as int,
                    j as int,
                ),
            decreases end - j,
        {
            let w: u32 = tree.ch_list[j];
            let ghost before = below_listed(tree, k@, begin as int, j as int);
            let ghost next = below_listed(tree, k@, begin as int, j + 1);
            let ghost piece = component::piece_below(par, k@, w as int);
            let ghost nodes1 = self.nodes@;
            let ghost children1 = self.children@;
            proof {
                lemma_left_below(
                    tree,
                    removed0,
                    scratch.removed@,
                    k@,
                    top@,
                    c as int,
                    j as int,
                );
                lemma_below_listed_step(tree, k@, c as int, j as int);
                lemma_kids_add(par, s, before, piece);
                lemma_opened_len(
                    tree,
                    nodes0,
                    children0,
                    nodes1,
                    children1,
                    k@,
                    c as int,
                    j as int,
                );
                assert(next.subset_of(below));
                lemma_kids_subset(par, s, next, below);
                assert(tree.members@.contains(w as int) && par[w as int] == c);
            }
            if scratch.removed[usize::from_u32(w)] {
                proof {
                    lemma_opened_skip(
                        tree,
                        nodes0,
                        children0,
                        self.nodes@,
                        self.children@,
                        k@,
                        top@,
                        c as int,
                        j as int,
                    );
                }
            } else {
                proof {
                    assert(k@.contains(w as int) && par[w as int] == c);
                    assert(piece.len() <= k@.len() as int / 2);
                    assert(k@.len() > 0);
                }
                let node: u32 = self.decompose(
                    tree,
                    scratch,
                    w,
                    Ghost(piece),
                    Ghost(w as int),
                );
                let ghost children2 = self.children@;
                let at: usize = base + (j - begin);
                self.link_child(at, node);
                proof {
                    lemma_opened_step(
                        tree,
                        nodes0,
                        children0,
                        nodes1,
                        children1,
                        self.nodes@,
                        children2,
                        self.children@[at as int],
                        k@,
                        c as int,
                        j as int,
                    );
                }
            }
            j += 1;
        }
        let ghost nodes1 = self.nodes@;
        let ghost children1 = self.children@;
        let ghost mut nodes2 = self.nodes@;
        proof {
            lemma_opened_len(
                tree,
                nodes0,
                children0,
                nodes1,
                children1,
                k@,
                c as int,
                end as int,
            );
        }
        let p: u32 = tree.parent(c);
        proof {
            lemma_parent_left(tree, removed0, scratch.removed@, k@, top@, c as int);
        }
        if p != INVALID_ID && !scratch.removed[usize::from_u32(p)] {
            proof {
                lemma_left_above(tree, removed0, scratch.removed@, k@, top@, c as int);
                assert(above.len() <= k@.len() as int / 2);
                assert(k@.len() > 0);
                assert(above.contains(top@));
                assert(above.contains(p as int));
            }
            let up: u32 = self.decompose(tree, scratch, p, Ghost(above), top);
            proof {
                nodes2 = self.nodes@;
            }
            self.link_up(idx, up);
        } else {
            assert(above =~= Set::empty()) by {
                assert forall|x: int| !above.contains(x) by {
                    if above.contains(x) {
                        assert(k@.contains(x));
                    }
                }
            }
            assert(self.nodes@ =~= nodes2.update(idx as int, nodes2[idx as int]));
        }
        proof {
            lemma_opened_done(
                tree,
                nodes0,
                children0,
                nodes1,
                children1,
                nodes2,
                self.children@,
                self.nodes@[idx as int],
                k@,
                top@,
                entry as int,
                c as int,
            );
        }
        idx
    }
}

/// Whether the patterns are the canonical tokens by number with their payloads, followed by
/// patterns that end no canonical token.
pub open spec fn token_patterns(
    tokens: Seq<Seq<u8>>,
    patterns: Seq<(Seq<u8>, StateEntry)>,
) -> bool {
    let k = lexicon::canon(tokens).len();
    &&& automaton::distinct_patterns(automaton::keys(patterns))
    &&& k <= patterns.len()
    &&& forall|i: int|
        0 <= i < k ==> #[trigger] patterns[i] == (
            lexicon::token(tokens, i),
            numbering::entry_of(tokens, i),
        )
    &&& forall|i: int, t: int|
        k <= i < patterns.len() && 0 <= t < k ==> !automaton::ends_with(
            #[trigger] lexicon::token(tokens, t),
            (#[trigger] patterns[i]).0,
        )
}

/// The patterns that end a canonical token are the canonical tokens that do.
proof fn lemma_token_suffixes(tokens: Seq<Seq<u8>>, patterns: Seq<(Seq<u8>, StateEntry)>, tau: int)
    requires
        lexicon::vocab_error(tokens) is None,
        token_patterns(tokens, patterns),
        0 <= tau < lexicon::canon(tokens).len(),
    ensures
        ({
            let text = lexicon::token(tokens, tau);
            let list = automaton::suffix_list(automaton::keys(patterns), text, text.len() as int);
            let s = suffixes::suffix_set(tokens, text);
            &&& list.len() <= text.len()
            &&& list.no_duplicates()
            &&& list.len() > 0
            &&& list.last() == suffixes::byte_id(tokens, text.last())
            &&& forall|a: int|
                0 <= a < list.len() ==> s.contains(#[trigger] list[a]) && 0 <= list[a]
                    < lexicon::canon(tokens).len()
            &&& forall|x: int| #[trigger] s.contains(x) ==> list.contains(x)
        }),
{
    let keys = automaton::keys(patterns);
    let text = lexicon::token(tokens, tau);
    let n = text.len() as int;
    let list = automaton::suffix_list(keys, text, n);
    let s = suffixes::suffix_set(tokens, text);
    let k = lexicon::canon(tokens).len() as int;
    lexicon::lemma_accepted(tokens);
    lexicon::lemma_canon(tokens);
    automaton::lemma_suffix_list(keys, text, n);
    assert(text.len() > 0);
    assert forall|a: int| 0 <= a < list.len() implies s.contains(#[trigger] list[a]) && 0 <= list[a]
        < k by {
        let i = list[a];
        assert(keys[i] == patterns[i].0);
        if i >= k {
            assert(!automaton::ends_with(lexicon::token(tokens, tau), patterns[i].0));
        }
    }
    assert forall|x: int| #[trigger] s.contains(x) implies list.contains(x) by {
        assert(keys[x] == patterns[x].0);
    }
    let b = suffixes::byte_id(tokens, text.last());
    suffixes::lemma_byte_id(tokens, text.last());
    assert(text.skip(n - 1) =~= seq![text.last()]);
    assert(keys[b] == patterns[b].0);
    assert(automaton::ends_text(keys, text, 1, b));
    let last = list.last();
    assert(keys[last] == keys[b]);
}

/// The number of tokens that end one of the first `n` canonical tokens, counted for each of them.
pub open spec fn suffix_total(tokens: Seq<Seq<u8>>, n: int) -> int
    decreases n,
{
    if n <= 0 {
        0
    } else {
        suffix_total(tokens, n - 1) + suffixes::suffix_set(
            tokens,
            lexicon::token(tokens, n - 1),
        ).len()
    }
}

/// All members of a component but the topmost are children of a member.
proof fn lemma_kids_all(par: Seq<int>, k: Set<int>, top: int)
    requires
        component::component(par, k, top),
    ensures
        kids_of(par, k, k).len() == k.len() - 1,
{
    let kids = kids_of(par, k, k);
    assert forall|x: int| #[trigger] k.contains(x) && x != top implies k.contains(par[x]) by {
        assert(k.contains(component::up(par, x)));
    }
    assert(!k.contains(par[top])) by {
        assert(-1 <= par[top] < top);
        if k.contains(par[top]) {
            forest::lemma_below_in(par, par[top], top);
        }
    }
    assert(kids =~= k.remove(top));
}

impl CentroidSearchTree {
    /// Whether the tree for token `tau` is in place.
    pub open spec fn root_ok(&self, tokens: Seq<Seq<u8>>, tau: int) -> bool {
        let s = suffixes::suffix_set(tokens, lexicon::token(tokens, tau));
        searches(
            tokens,
            s,
            self.nodes@,
            self.children@,
            self.roots@[numbering::timestamp(tokens, tau)] as int,
            s,
        )
    }

    /// Whether node `i` is that of a canonical token and holds what a search reads of it, and its
    /// children are sorted by disjoint intervals.
    pub open spec fn node_ok(&self, tokens: Seq<Seq<u8>>, i: int) -> bool {
        let node = self.nodes@[i];
        &&& node.token < lexicon::canon(tokens).len()
        &&& node.search == numbering::search_of(tokens, node.token as int)
        &&& forall|a: int, b: int|
            node.child_start <= a < b < node.child_start + node.child_len ==> (
            #[trigger] self.children@[a]).valid.end <= (#[trigger] self.children@[b]).valid.start
    }

    /// Whether these are the search trees of the canonical tokens of an accepted list, and the
    /// arenas hold nothing else.
    pub open spec fn wf(&self, tokens: Seq<Seq<u8>>) -> bool {
        let k = lexicon::canon(tokens).len();
        &&& lexicon::vocab_error(tokens) is None
        &&& self.closed_arenas()
        &&& self.nodes@.len() == suffix_total(tokens, k as int)
        &&& self.children@.len() == self.nodes@.len() - k
        &&& forall|i: int| 0 <= i < self.nodes@.len() ==> #[trigger] self.node_ok(tokens, i)
        &&& self.roots@.len() == k
        &&& forall|tau: int| 0 <= tau < k ==> #[trigger] self.root_ok(tokens, tau)
        &&& forall|i: int|
            0 <= i < self.roots@.len() ==> #[trigger] self.roots@[i] < self.nodes@.len()
    }

    /// Whether the nodes of the tree for token `tau` follow those of the trees for the tokens
    /// before it, in preorder.
    pub open spec fn in_turn(&self, tokens: Seq<Seq<u8>>, tau: int) -> bool {
        &&& self.roots@[numbering::timestamp(tokens, tau)] == suffix_total(tokens, tau)
        &&& in_preorder(
            tokens,
            self.nodes@,
            self.children@,
            suffix_total(tokens, tau),
            suffixes::suffix_set(tokens, lexicon::token(tokens, tau)),
            suffixes::byte_id(tokens, lexicon::token(tokens, tau).last()),
        )
    }

    /// Whether the trees lie in the order of the tokens, each in preorder.
    pub open spec fn token_order(&self, tokens: Seq<Seq<u8>>) -> bool {
        forall|tau: int|
            0 <= tau < lexicon::canon(tokens).len() ==> #[trigger] self.in_turn(tokens, tau)
    }

    /// Whether the trees for the tokens below `n` are in place, and nothing else.
    spec fn holds(&self, tokens: Seq<Seq<u8>>, n: int) -> bool {
        &&& self.nodes@.len() == suffix_total(tokens, n)
        &&& self.children@.len() == self.nodes@.len() - n
        &&& forall|i: int| 0 <= i < self.nodes@.len() ==> #[trigger] self.node_ok(tokens, i)
        &&& forall|i: int| 0 <= i < n ==> #[trigger] self.root_ok(tokens, i)
        &&& forall|i: int| 0 <= i < n ==> #[trigger] self.in_turn(tokens, i)
    }

    /// Lists the tokens that end token `tau`, the longest first.
    fn list_suffixes(
        table: &TokenTableBuilder,
        pma: &DoubleArrayAhoCorasick<StateEntry>,
        token_of_dfs: &Vec<u32>,
        tau: u32,
        list: &mut Vec<u32>,
    )
        requires
            table.wf(),
            token_patterns(table.vocab@, automaton::patterns_of(*pma)),
            automaton::standard(*pma),
            tau < lexicon::canon(table.vocab@).len(),
            token_of_dfs@.len() == lexicon::canon(table.vocab@).len(),
            forall|t: int|
                0 <= t < lexicon::canon(table.vocab@).len()
                    ==> token_of_dfs@[#[trigger] numbering::timestamp(table.vocab@, t)] == t,
        ensures
            final(list)@.len() > 0,
            final(list)@.len() <= lexicon::token(table.vocab@, tau as int).len(),
            final(list)@.no_duplicates(),
            ({
                let text = lexicon::token(table.vocab@, tau as int);
                let s = suffixes::suffix_set(table.vocab@, text);
                &&& final(list)@.last() == suffixes::byte_id(table.vocab@, text.last())
                &&& forall|i: int|
                    0 <= i < final(list)@.len() ==> s.contains((#[trigger] final(list)@[i]) as int)
                &&& forall|v: int| #[trigger]
                    s.contains(v) ==> exists|i: int|
                        0 <= i < final(list)@.len() && #[trigger] final(list)@[i] == v
            }),
    {
        let ghost tokens = table.vocab@;
        let ghost patterns = automaton::patterns_of(*pma);
        let ghost keys = automaton::keys(patterns);
        let bytes: &[u8] = table.token_bytes(tau);
        let mut stepper = start_stepper(pma);
        let mut b: usize = 0;
        assert(bytes@.take(0) =~= Seq::<u8>::empty());
        while b < bytes.len()
            invariant
                b <= bytes@.len(),
                automaton::stepper_patterns(stepper) == patterns,
                automaton::stepper_text(stepper) == bytes@.take(b as int),
            decreases bytes.len() - b,
        {
            consume_byte(&mut stepper, bytes[b]);
            assert(bytes@.take(b as int).push(bytes@[b as int]) =~= bytes@.take(b + 1));
            b += 1;
        }
        assert(bytes@.take(b as int) =~= bytes@);
        let values: Vec<StateEntry> = stepper_matches(&stepper);
        let ghost ids = automaton::suffix_list(keys, bytes@, bytes@.len() as int);
        proof {
            lemma_token_suffixes(tokens, patterns, tau as int);
            numbering::lemma_timestamp(tokens);
        }
        list.clear();
        let mut i: usize = 0;
        while i < values.len()
            invariant
                i <= values@.len(),
                values@.len() == ids.len(),
                lexicon::canon(tokens).len() <= u32::MAX,
                token_of_dfs@.len() == lexicon::canon(tokens).len(),
                forall|t: int|
                    0 <= t < lexicon::canon(tokens).len()
                        ==> token_of_dfs@[#[trigger] numbering::timestamp(tokens, t)] == t,
                forall|t: int|
                    0 <= t < lexicon::canon(tokens).len() ==> 0 <= #[trigger] numbering::timestamp(
                        tokens,
                        t,
                    ) < lexicon::canon(tokens).len(),
                forall|a: int|
                    0 <= a < ids.len() ==> 0 <= #[trigger] ids[a] < lexicon::canon(tokens).len()
                        && values@[a] == numbering::entry_of(tokens, ids[a]),
                list@.len() == i,
                forall|a: int| 0 <= a < i ==> list@[a] == #[trigger] ids[a],
            decreases values.len() - i,
        {
            assert(0 <= ids[i as int] < lexicon::canon(tokens).len());
            let ghost stamp = numbering::timestamp(tokens, ids[i as int]);
            assert(values@[i as int].dfs_in_tau == stamp);
            list.push(token_of_dfs[usize::from_u32(values[i].dfs_in_tau)]);
            i += 1;
        }
        proof {
            let s = suffixes::suffix_set(tokens, bytes@);
            assert forall|v: int| #[trigger] s.contains(v) implies exists|a: int|
                0 <= a < list@.len() && #[trigger] list@[a] == v by {
                assert(ids.contains(v));
                let a = choose|a: int| 0 <= a < ids.len() && ids[a] == v;
                assert(list@[a] == v);
            }
            assert forall|a: int| 0 <= a < list@.len() implies s.contains(
                (#[trigger] list@[a]) as int,
            ) by {
                assert(s.contains(ids[a]));
            }
            assert forall|a: int, c: int| 0 <= a < list@.len() && 0 <= c < list@.len() && a
                != c implies list@[a] != list@[c] by {
                assert(ids[a] != ids[c]);
            }
            assert(list@.last() == ids.last());
        }
    }

    /// Precomputes one centroid search tree per canonical token, in the order of the tokens.
    ///
    /// The arenas hold one node for each token that ends the canonical token, and one child for
    /// each of them but the last byte.
    #[verifier::spinoff_prover]
    #[verifier::rlimit(60)]
    pub fn build(table: &TokenTableBuilder, pma: &DoubleArrayAhoCorasick<StateEntry>) -> (r: Self)
        requires
            table.wf(),
            token_patterns(table.vocab@, automaton::patterns_of(*pma)),
            automaton::standard(*pma),
        ensures
            r.wf(table.vocab@),
            r.token_order(table.vocab@),
    {
        let ghost tokens = table.vocab@;
        let ghost par = numbering::parents(tokens);
        let k: usize = table.len();
        proof {
            numbering::lemma_forest(tokens);
            numbering::lemma_timestamp(tokens);
            lexicon::lemma_accepted(tokens);
        }
        // The payload carries no token number, so invert dfs_in to recover it.
        let mut token_of_dfs: Vec<u32> = vec![0u32; k];
        let mut t: usize = 0;
        while t < k
            invariant
                table.wf(),
                tokens == table.vocab@,
                k == lexicon::canon(tokens).len(),
                k <= u32::MAX,
                t <= k,
                token_of_dfs@.len() == k,
                forall|i: int|
                    0 <= i < k ==> 0 <= #[trigger] numbering::timestamp(tokens, i) < k,
                forall|i: int, j: int|
                    #![trigger numbering::timestamp(tokens, i), numbering::timestamp(tokens, j)]
                    0 <= i < k && 0 <= j < k && numbering::timestamp(tokens, i)
                        == numbering::timestamp(tokens, j) ==> i == j,
                forall|i: int|
                    0 <= i < t ==> token_of_dfs@[#[trigger] numbering::timestamp(tokens, i)] == i,
            decreases k - t,
        {
            assert(table.dfs_in@[t as int] == numbering::timestamp(tokens, t as int));
            token_of_dfs.set(usize::from_u32(table.dfs_in[t]), t as u32);
            t += 1;
        }
        let mut r: CentroidSearchTree = CentroidSearchTree {
            nodes: Vec::new(),
            children: Vec::new(),
            roots: vec![INVALID_ID; k],
        };
        let mut tree: SuffixTree = SuffixTree {
            table,
            ch_start: vec![0u32; k],
            ch_end: vec![0u32; k],
            ch_list: Vec::new(),
            members: Ghost(Set::empty()),
        };
        let mut scratch: Scratch = Scratch {
            removed: vec![false; k],
            order: Vec::new(),
            from: Vec::new(),
            size: Vec::new(),
            best_child: Vec::new(),
        };
        let mut list: Vec<u32> = Vec::new();
        let mut tau: u32 = 0;
        while (tau as usize) < k
            invariant
                table.wf(),
                tokens == table.vocab@,
                par == numbering::parents(tokens),
                par.len() == k,
                forest::forest(par),
                lexicon::vocab_error(tokens) is None,
                token_patterns(tokens, automaton::patterns_of(*pma)),
                automaton::standard(*pma),
                k == lexicon::canon(tokens).len(),
                k <= u32::MAX,
                tau <= k,
                token_of_dfs@.len() == k,
                forall|i: int|
                    0 <= i < k ==> 0 <= #[trigger] numbering::timestamp(tokens, i) < k,
                forall|i: int, j: int|
                    #![trigger numbering::timestamp(tokens, i), numbering::timestamp(tokens, j)]
                    0 <= i < k && 0 <= j < k && numbering::timestamp(tokens, i)
                        == numbering::timestamp(tokens, j) ==> i == j,
                forall|i: int|
                    0 <= i < k ==> token_of_dfs@[#[trigger] numbering::timestamp(tokens, i)] == i,
                forall|i: int|
                    0 <= i < k ==> #[trigger] lexicon::entry_error(tokens, i) is None,
                tree.table == table,
                tree.ready(),
                scratch.wf(k as int),
                r.closed_arenas(),
                r.roots@.len() == k,
                r.holds(tokens, tau as int),
                r.nodes@.len() <= lexicon::total_len(tokens, tau as int),
                forall|i: int|
                    0 <= i < tau ==> r.roots@[#[trigger] numbering::timestamp(tokens, i)]
                        < r.nodes@.len(),
            decreases k - tau,
        {
            let ghost text = lexicon::token(tokens, tau as int);
            let ghost s = suffixes::suffix_set(tokens, text);
            Self::list_suffixes(table, pma, &token_of_dfs, tau, &mut list);
            proof {
                lexicon::lemma_accepted(tokens);
                lexicon::lemma_canon(tokens);
                assert(text.len() > 0);
                assert(lexicon::entry_error(tokens, tau as int) is None);
                assert(lexicon::total_len(tokens, tau + 1) == lexicon::total_len(
                    tokens,
                    tau as int,
                ) + text.len());
                suffixes::lemma_suffix_tree(tokens, text);
                suffixes::lemma_suffix_count(tokens, text);
                assert forall|v: int| #[trigger] s.contains(v) && par[v] >= 0 implies s.contains(
                    par[v],
                ) by {
                    if lexicon::token(tokens, v).len() >= 2 {
                        suffixes::lemma_parent_suffix(tokens, text, v);
                    }
                }
            }
            tree.build_local(&list, Ghost(s));
            let mut i: usize = 0;
            while i < list.len()
                invariant
                    i <= list@.len(),
                    scratch.wf(k as int),
                    k == lexicon::canon(tokens).len(),
                    s == suffixes::suffix_set(tokens, text),
                    forall|a: int| 0 <= a < list@.len() ==> s.contains((#[trigger] list@[a]) as int),
                    forall|a: int| 0 <= a < i ==> !scratch.removed@[(#[trigger] list@[a]) as int],
                decreases list.len() - i,
            {
                assert(s.contains(list@[i as int] as int));
                scratch.removed.set(usize::from_u32(list[i]), false);
                i += 1;
            }
            proof {
                assert forall|x: int| #[trigger] s.contains(x) implies !scratch.removed@[x] by {
                    let a = choose|a: int| 0 <= a < list@.len() && #[trigger] list@[a] == x;
                    assert(!scratch.removed@[list@[a] as int]);
                }
                assert(tree.left(scratch.removed@, s));
                lemma_kids_all(par, s, suffixes::byte_id(tokens, text.last()));
            }
            let ghost before = r;
            let ghost top = suffixes::byte_id(tokens, text.last());
            let root: u32 = r.decompose(
                &tree,
                &mut scratch,
                list[list.len() - 1],
                Ghost(s),
                Ghost(top),
            );
            let stamp: usize = usize::from_u32(table.dfs_in[tau as usize]);
            assert(table.dfs_in@[tau as int] == numbering::timestamp(tokens, tau as int));
            r.roots.set(stamp, root);
            proof {
                lemma_tree_added(&tree, &before, &r, tau as int);
                assert forall|i: int| 0 <= i < tau + 1 implies r.roots@[#[trigger] numbering::timestamp(
                    tokens,
                    i,
                )] < r.nodes@.len() by {
                    assert(r.root_ok(tokens, i));
                }
            }
            tau += 1;
        }
        proof {
            assert forall|n: int| 0 <= n < r.roots@.len() implies #[trigger] r.roots@[n]
                < r.nodes@.len() by {
                let i = numbering::lemma_timestamp_onto(tokens, n);
                assert(r.roots@[numbering::timestamp(tokens, i)] < r.nodes@.len());
            }
        }
        r
    }
}

/// One more decomposition completes the tree of the next token.
#[verifier::spinoff_prover]
#[verifier::rlimit(40)]
proof fn lemma_tree_added(
    tree: &SuffixTree,
    before: &CentroidSearchTree,
    now: &CentroidSearchTree,
    tau: int,
)
    requires
        tree.wf(),
        lexicon::vocab_error(tree.table.vocab@) is None,
        0 <= tau < lexicon::canon(tree.table.vocab@).len(),
        tree.members@ == suffixes::suffix_set(
            tree.table.vocab@,
            lexicon::token(tree.table.vocab@, tau),
        ),
        before.closed_arenas(),
        before.roots@.len() == lexicon::canon(tree.table.vocab@).len(),
        before.holds(tree.table.vocab@, tau),
        before.nodes@.len() <= u32::MAX,
        kids_of(tree.par(), tree.members@, tree.members@).len() == tree.members@.len() - 1,
        grown(
            tree,
            before.nodes@,
            before.children@,
            now.nodes@,
            now.children@,
            tree.members@,
            suffixes::byte_id(
                tree.table.vocab@,
                lexicon::token(tree.table.vocab@, tau).last(),
            ),
        ),
        now.roots@ == before.roots@.update(
            numbering::timestamp(tree.table.vocab@, tau),
            before.nodes@.len() as u32,
        ),
    ensures
        now.holds(tree.table.vocab@, tau + 1),
{
    let tokens = tree.table.vocab@;
    let s = tree.members@;
    numbering::lemma_timestamp(tokens);
    assert(suffix_total(tokens, tau + 1) == suffix_total(tokens, tau) + s.len());
    assert forall|i: int| 0 <= i < now.nodes@.len() implies #[trigger] now.node_ok(tokens, i) by {
        if i < before.nodes@.len() {
            assert(before.node_ok(tokens, i));
            assert(now.nodes@[i] == before.nodes@[i]);
            let lo = now.nodes@[i].child_start;
            let hi = lo + now.nodes@[i].child_len;
            assert(before.nodes@[i].child_start + before.nodes@[i].child_len
                <= before.children@.len());
            assert forall|a: int, b: int| lo <= a < b < hi implies (
            #[trigger] now.children@[a]).valid.end <= (#[trigger] now.children@[b]).valid.start by {
                assert(now.children@[a] == before.children@[a]);
                assert(now.children@[b] == before.children@[b]);
            }
        } else {
            assert(entry_ok(tree, now.nodes@[i], now.children@));
            assert(tree.lists(now.nodes@[i].token as int));
        }
    }
    let stamp = numbering::timestamp(tokens, tau);
    assert forall|i: int| 0 <= i < tau + 1 implies #[trigger] now.root_ok(tokens, i)
        && now.in_turn(tokens, i) by {
        let at = numbering::timestamp(tokens, i);
        if i < tau {
            assert(before.root_ok(tokens, i));
            assert(before.in_turn(tokens, i));
            let set = suffixes::suffix_set(tokens, lexicon::token(tokens, i));
            assert(at != stamp);
            assert(before.roots@[at] == now.roots@[at]);
            lemma_placed_apart(
                tokens,
                set,
                before.nodes@,
                before.children@,
                now.nodes@,
                now.children@,
                0,
                0,
                before.roots@[at] as int,
                set,
                suffixes::byte_id(tokens, lexicon::token(tokens, i).last()),
            );
        }
    }
    assert forall|i: int| 0 <= i < tau + 1 implies #[trigger] now.in_turn(tokens, i) by {
        assert(now.root_ok(tokens, i));
    }
}

/// Whether the node number `new` stands for the node that was at `prior`, or neither is a node.
pub open spec fn same_node(order: Seq<int>, new: u32, prior: u32) -> bool {
    if prior == INVALID_ID {
        new == INVALID_ID
    } else {
        new < order.len() && order[new as int] == prior
    }
}

/// Whether `order` lists the numbers below `n`, each once, in the order of descending counts, and
/// those of equal counts in ascending order.
pub open spec fn by_counts(counts: Seq<u64>, order: Seq<int>) -> bool {
    &&& order.len() == counts.len()
    &&& order.no_duplicates()
    &&& forall|i: int| 0 <= i < order.len() ==> 0 <= #[trigger] order[i] < counts.len()
    &&& forall|i: int, j: int|
        0 <= i < j < order.len() ==> counts[#[trigger] order[i]] > counts[#[trigger] order[j]] || (
        counts[order[i]] == counts[order[j]] && order[i] < order[j])
}

/// Whether the children in `lo..hi` are the former children in `lo2..hi2`, renumbered.
pub open spec fn same_children(
    order: Seq<int>,
    new: Seq<CentroidSearchTreeChild>,
    lo: int,
    prior: Seq<CentroidSearchTreeChild>,
    lo2: int,
    n: int,
) -> bool {
    &&& 0 <= lo <= lo + n <= new.len()
    &&& 0 <= lo2 <= lo2 + n <= prior.len()
    &&& forall|d: int|
        0 <= d < n ==> {
            let a = #[trigger] new[lo + d];
            let b = prior[lo2 + d];
            &&& a.valid == b.valid
            &&& a.token == b.token
            &&& same_node(order, a.node, b.node)
        }
}

/// Whether node `i` is the former node `order[i]`, renumbered, with its children behind those of
/// the nodes before it.
pub open spec fn moved_to(
    prior: &CentroidSearchTree,
    order: Seq<int>,
    nodes: Seq<CentroidSearchTreeNode>,
    children: Seq<CentroidSearchTreeChild>,
    i: int,
) -> bool {
    let a = nodes[i];
    let b = prior.nodes@[order[i]];
    &&& a.token == b.token
    &&& a.search == b.search
    &&& a.child_len == b.child_len
    &&& same_node(order, a.up_component, b.up_component)
    &&& a.child_start == child_total(nodes.take(i))
    &&& same_children(
        order,
        children,
        a.child_start as int,
        prior.children@,
        b.child_start as int,
        a.child_len as int,
    )
}

impl CentroidSearchTree {
    /// Whether node `i` is the former node `order[i]`, renumbered.
    pub open spec fn moved(&self, prior: &CentroidSearchTree, order: Seq<int>, i: int) -> bool {
        moved_to(prior, order, self.nodes@, self.children@, i)
    }

    /// Whether these arenas are the former ones in the given order, with everything that refers to
    /// a position renumbered.
    pub open spec fn reordered(&self, prior: &CentroidSearchTree, order: Seq<int>) -> bool {
        &&& self.nodes@.len() == prior.nodes@.len()
        &&& self.children@.len() == prior.children@.len()
        &&& self.roots@.len() == prior.roots@.len()
        &&& order.len() == prior.nodes@.len()
        &&& forall|i: int| 0 <= i < order.len() ==> 0 <= #[trigger] order[i] < prior.nodes@.len()
        &&& forall|i: int| 0 <= i < self.nodes@.len() ==> #[trigger] self.moved(prior, order, i)
        &&& forall|i: int|
            0 <= i < self.roots@.len() ==> same_node(
                order,
                #[trigger] self.roots@[i],
                prior.roots@[i],
            )
    }
}

/// A renumbered node searches what the former node searched.
proof fn lemma_searches_moved(
    tokens: Seq<Seq<u8>>,
    s: Set<int>,
    prior: &CentroidSearchTree,
    new: &CentroidSearchTree,
    order: Seq<int>,
    x: int,
    y: int,
    k: Set<int>,
)
    requires
        searches(tokens, s, prior.nodes@, prior.children@, x, k),
        new.reordered(prior, order),
        prior.nodes@.len() <= u32::MAX,
        0 <= y < order.len(),
        order[y] == x,
    ensures
        searches(tokens, s, new.nodes@, new.children@, y, k),
    decreases k.len(),
{
    let par = numbering::parents(tokens);
    assert(new.moved(prior, order, y));
    let a = new.nodes@[y];
    let b = prior.nodes@[x];
    let c = b.token as int;
    let lo = a.child_start as int;
    let hi = lo + a.child_len;
    let lo2 = b.child_start as int;
    let hi2 = lo2 + b.child_len;
    assert forall|j: int| lo <= j < hi implies (#[trigger] new.children@[j]).token
        == prior.children@[j - lo + lo2].token && new.children@[j].valid == prior.children@[j - lo
        + lo2].valid by {
        assert(new.children@[lo + (j - lo)] == new.children@[j]);
    }
    lemma_kids_same(tokens, s, prior.children@, lo2, hi2, new.children@, lo, hi, c);
    assert forall|j: int| lo <= j < hi implies ({
        let v = (#[trigger] new.children@[j]).token@;
        let below = component::piece_below(par, k, v);
        if k.contains(v) {
            2 * below.len() <= k.len() && searches(
                tokens,
                s,
                new.nodes@,
                new.children@,
                new.children@[j].node as int,
                below,
            )
        } else {
            new.children@[j].node == INVALID_ID
        }
    }) by {
        let d = j - lo;
        let p = new.children@[lo + d];
        let q = prior.children@[lo2 + d];
        assert(same_node(order, p.node, q.node));
        let v = q.token@;
        if k.contains(v) {
            let below = component::piece_below(par, k, v);
            assert(searches(tokens, s, prior.nodes@, prior.children@, q.node as int, below));
            lemma_searches_moved(
                tokens,
                s,
                prior,
                new,
                order,
                q.node as int,
                p.node as int,
                component::piece_below(par, k, v),
            );
        } else {
            assert(q.node == INVALID_ID);
        }
    }
    let above = component::piece_above(par, k, c);
    if above.len() > 0 {
        assert(searches(tokens, s, prior.nodes@, prior.children@, b.up_component as int, above));
        lemma_searches_moved(
            tokens,
            s,
            prior,
            new,
            order,
            b.up_component as int,
            a.up_component as int,
            above,
        );
    }
}

/// A node holds in its new place what it held before.
proof fn lemma_node_moved(
    tokens: Seq<Seq<u8>>,
    prior: &CentroidSearchTree,
    now: &CentroidSearchTree,
    order: Seq<int>,
    i: int,
)
    requires
        0 <= i < order.len(),
        prior.node_ok(tokens, order[i]),
        now.moved(prior, order, i),
    ensures
        now.node_ok(tokens, i),
{
    let a = now.nodes@[i];
    let b = prior.nodes@[order[i]];
    assert forall|x: int, y: int|
        a.child_start <= x < y < a.child_start + a.child_len implies (
    #[trigger] now.children@[x]).valid.end <= (#[trigger] now.children@[y]).valid.start by {
        let d = x - a.child_start;
        let e = y - a.child_start;
        assert(now.children@[a.child_start + d].valid == prior.children@[b.child_start + d].valid);
        assert(now.children@[a.child_start + e].valid == prior.children@[b.child_start + e].valid);
    }
}

/// A sum without one of its parts.
proof fn lemma_total_remove(nodes: Seq<CentroidSearchTreeNode>, q: int)
    requires
        0 <= q < nodes.len(),
    ensures
        child_total(nodes.remove(q)) == child_total(nodes) - nodes[q].child_len,
    decreases nodes.len(),
{
    let r = nodes.remove(q);
    if q == nodes.len() - 1 {
        assert(r =~= nodes.drop_last());
    } else {
        lemma_total_remove(nodes.drop_last(), q);
        assert(r.drop_last() =~= nodes.drop_last().remove(q));
        assert(r.last() == nodes.last());
    }
}

/// Sums depend on the numbers of children only.
proof fn lemma_total_same(a: Seq<CentroidSearchTreeNode>, b: Seq<CentroidSearchTreeNode>)
    requires
        a.len() == b.len(),
        forall|i: int| 0 <= i < a.len() ==> (#[trigger] a[i]).child_len == b[i].child_len,
    ensures
        child_total(a) == child_total(b),
    decreases a.len(),
{
    if a.len() > 0 {
        lemma_total_same(a.drop_last(), b.drop_last());
    }
}

/// The nodes at the given places.
spec fn picks(nodes: Seq<CentroidSearchTreeNode>, order: Seq<int>) -> Seq<CentroidSearchTreeNode> {
    order.map_values(|x: int| nodes[x])
}

/// Different nodes among the first `n` have no more children together than the first `n`, and as
/// many if they are all of them.
proof fn lemma_total_pick(nodes: Seq<CentroidSearchTreeNode>, order: Seq<int>, n: int)
    requires
        0 <= n <= nodes.len(),
        order.no_duplicates(),
        forall|i: int| 0 <= i < order.len() ==> 0 <= #[trigger] order[i] < n,
    ensures
        child_total(picks(nodes, order)) <= child_total(nodes.take(n)),
        order.len() <= n,
        order.len() == n ==> child_total(picks(nodes, order)) == child_total(nodes.take(n)),
    decreases n,
{
    if n == 0 {
        if order.len() > 0 {
            assert(0 <= order[0] < n);
        }
        assert(picks(nodes, order) =~= nodes.take(n));
    } else {
        assert(nodes.take(n).drop_last() =~= nodes.take(n - 1));
        if order.contains(n - 1) {
            let q = choose|q: int| 0 <= q < order.len() && order[q] == n - 1;
            let rest = order.remove(q);
            assert forall|i: int| 0 <= i < rest.len() implies 0 <= #[trigger] rest[i] < n - 1 by {
                if i < q {
                    assert(rest[i] == order[i]);
                } else {
                    assert(rest[i] == order[i + 1]);
                }
            }
            lemma_total_pick(nodes, rest, n - 1);
            lemma_total_remove(picks(nodes, order), q);
            assert(picks(nodes, order).remove(q) =~= picks(nodes, rest));
        } else {
            assert forall|i: int| 0 <= i < order.len() implies 0 <= #[trigger] order[i] < n - 1 by {
                assert(order.contains(order[i]));
            }
            lemma_total_pick(nodes, order, n - 1);
        }
    }
}

/// A list of different numbers below its length holds each of them.
proof fn lemma_listed(order: Seq<int>, x: int) -> (j: int)
    requires
        order.no_duplicates(),
        forall|i: int| 0 <= i < order.len() ==> 0 <= #[trigger] order[i] < order.len(),
        0 <= x < order.len(),
    ensures
        0 <= j < order.len(),
        order[j] == x,
{
    let n = order.len() as int;
    let range = vstd::set_lib::set_int_range(0, n);
    vstd::set_lib::lemma_int_range(0, n);
    order.unique_seq_to_set();
    assert forall|y: int| order.to_set().contains(y) implies range.contains(y) by {
        let i = choose|i: int| 0 <= i < order.len() && order[i] == y;
        assert(0 <= order[i] < n);
    }
    vstd::set_lib::lemma_subset_equality(order.to_set(), range);
    assert(order.to_set().contains(x));
    choose|j: int| 0 <= j < order.len() && order[j] == x
}

/// Nodes moved before stay moved when more follow.
proof fn lemma_moved_extend(
    prior: &CentroidSearchTree,
    order: Seq<int>,
    nodes: Seq<CentroidSearchTreeNode>,
    children: Seq<CentroidSearchTreeChild>,
    nodes2: Seq<CentroidSearchTreeNode>,
    children2: Seq<CentroidSearchTreeChild>,
    j: int,
)
    requires
        moved_to(prior, order, nodes, children, j),
        nodes.is_prefix_of(nodes2),
        children.is_prefix_of(children2),
        0 <= j < nodes.len(),
    ensures
        moved_to(prior, order, nodes2, children2, j),
{
    assert(nodes2[j] == nodes[j]);
    assert(nodes2.take(j) =~= nodes.take(j));
    let lo = nodes[j].child_start as int;
    let b = prior.nodes@[order[j]];
    assert forall|d: int| 0 <= d < nodes[j].child_len implies ({
        let p = #[trigger] children2[lo + d];
        let q = prior.children@[b.child_start + d];
        &&& p.valid == q.valid
        &&& p.token == q.token
        &&& same_node(order, p.node, q.node)
    }) by {
        assert(children2[lo + d] == children[lo + d]);
    }
}

/// The children of the nodes moved so far and of the next one are not more than there are.
proof fn lemma_room(
    prior: &CentroidSearchTree,
    order: Seq<int>,
    nodes: Seq<CentroidSearchTreeNode>,
    children: Seq<CentroidSearchTreeChild>,
    i: int,
)
    requires
        order.no_duplicates(),
        order.len() == prior.nodes@.len(),
        forall|j: int| 0 <= j < order.len() ==> 0 <= #[trigger] order[j] < order.len(),
        0 <= i < order.len(),
        nodes.len() == i,
        forall|j: int| 0 <= j < i ==> moved_to(prior, order, nodes, children, j),
    ensures
        child_total(nodes) + prior.nodes@[order[i]].child_len <= child_total(prior.nodes@),
{
    let head = order.take(i + 1);
    assert forall|j: int| 0 <= j < head.len() implies 0 <= #[trigger] head[j] < order.len() by {
        assert(head[j] == order[j]);
    }
    lemma_total_pick(prior.nodes@, head, order.len() as int);
    assert(prior.nodes@.take(order.len() as int) =~= prior.nodes@);
    let p = picks(prior.nodes@, head);
    assert forall|j: int| 0 <= j < nodes.len() implies (#[trigger] nodes[j]).child_len
        == p.drop_last()[j].child_len by {
        assert(moved_to(prior, order, nodes, children, j));
    }
    lemma_total_same(nodes, p.drop_last());
}

/// The numbers of a list.
spec fn ints(list: Seq<u32>) -> Seq<int> {
    list.map_values(|x: u32| x as int)
}

/// Lists the node numbers by descending counts, those of equal counts in ascending order.
fn order_by_counts(counts: &[u64]) -> (r: Vec<u32>)
    requires
        counts@.len() <= u32::MAX,
    ensures
        by_counts(counts@, ints(r@)),
        r@.len() == counts@.len(),
{
    let n: usize = counts.len();
    let mut pairs: Vec<(u64, u32)> = Vec::new();
    let mut i: usize = 0;
    while i < n
        invariant
            i <= n,
            n == counts@.len(),
            n <= u32::MAX,
            pairs@.len() == i,
            forall|j: int|
                0 <= j < i ==> #[trigger] pairs@[j] == ((u64::MAX - counts@[j]) as u64, j as u32),
        decreases n - i,
    {
        pairs.push((u64::MAX - counts[i], i as u32));
        i += 1;
    }
    let ghost unsorted = pairs@;
    assert(unsorted.no_duplicates());
    sort_pairs(&mut pairs);
    proof {
        utils::lemma_same_elements(unsorted, pairs@);
        assert forall|j: int| 0 <= j < pairs@.len() implies (#[trigger] pairs@[j]).1 < n
            && pairs@[j].0 == u64::MAX - counts@[pairs@[j].1 as int] by {
            assert(pairs@.contains(pairs@[j]));
            let q = choose|q: int| 0 <= q < unsorted.len() && unsorted[q] == pairs@[j];
            assert(unsorted[q].1 == q);
        }
    }
    let mut r: Vec<u32> = Vec::new();
    i = 0;
    while i < n
        invariant
            i <= n,
            n == counts@.len(),
            pairs@.len() == n,
            r@.len() == i,
            forall|j: int| 0 <= j < i ==> #[trigger] r@[j] == pairs@[j].1,
        decreases n - i,
    {
        r.push(pairs[i].1);
        i += 1;
    }
    proof {
        let order = ints(r@);
        assert forall|a: int, b: int| 0 <= a < b < order.len() implies (counts@[#[trigger] order[a]]
            > counts@[#[trigger] order[b]] || (counts@[order[a]] == counts@[order[b]] && order[a]
            < order[b])) by {
            assert(utils::pair_le(pairs@[a], pairs@[b]));
            if pairs@[a].1 == pairs@[b].1 {
                assert(pairs@[a] == pairs@[b]);
            }
        }
        assert forall|a: int, b: int| 0 <= a < order.len() && 0 <= b < order.len() && a
            != b implies order[a] != order[b] by {
            if order[a] == order[b] {
                assert(pairs@[a] == pairs@[b]);
            }
        }
        assert forall|a: int| 0 <= a < order.len() implies 0 <= #[trigger] order[a] < counts@.len() by {
            assert(pairs@[a].1 < n);
        }
    }
    r
}

impl CentroidSearchTree {
    /// The node at `prior`, and its children, in their new places.
    #[verifier::spinoff_prover]
    #[verifier::rlimit(60)]
    fn move_node(
        &self,
        prior: u32,
        new_of_old: &Vec<u32>,
        nodes: &mut Vec<CentroidSearchTreeNode>,
        children: &mut Vec<CentroidSearchTreeChild>,
        order: Ghost<Seq<int>>,
    )
        requires
            self.closed_arenas(),
            prior < self.nodes@.len(),
            new_of_old@.len() == self.nodes@.len(),
            order@.len() == self.nodes@.len(),
            forall|x: int|
                0 <= x < new_of_old@.len() ==> (#[trigger] new_of_old@[x]) < order@.len()
                    && order@[new_of_old@[x] as int] == x,
            old(children)@.len() + self.nodes@[prior as int].child_len <= u32::MAX,
        ensures
            old(nodes)@.is_prefix_of(final(nodes)@),
            old(children)@.is_prefix_of(final(children)@),
            final(nodes)@.len() == old(nodes)@.len() + 1,
            final(children)@.len() == old(children)@.len() + self.nodes@[prior as int].child_len,
            ({
                let a = final(nodes)@.last();
                let b = self.nodes@[prior as int];
                &&& a.token == b.token
                &&& a.search == b.search
                &&& a.child_len == b.child_len
                &&& a.child_start == old(children)@.len()
                &&& same_node(order@, a.up_component, b.up_component)
                &&& same_children(
                    order@,
                    final(children)@,
                    a.child_start as int,
                    self.children@,
                    b.child_start as int,
                    a.child_len as int,
                )
            }),
    {
        let mut node: CentroidSearchTreeNode = self.nodes[usize::from_u32(prior)];
        let start: usize = usize::from_u32(node.child_start);
        let len: usize = usize::from_u32(node.child_len);
        assert(points(self.nodes@, self.nodes@[prior as int].up_component));
        let ghost children0 = children@;
        let child_start: u32 = children.len() as u32;
        let mut d: usize = 0;
        while d < len
            invariant
                d <= len,
                self.closed_arenas(),
                start + len <= self.children@.len(),
                new_of_old@.len() == self.nodes@.len(),
                order@.len() == self.nodes@.len(),
                forall|x: int|
                    0 <= x < new_of_old@.len() ==> (#[trigger] new_of_old@[x]) < order@.len()
                        && order@[new_of_old@[x] as int] == x,
                children@.len() == children0.len() + d,
                children0.is_prefix_of(children@),
                same_children(
                    order@,
                    children@,
                    children0.len() as int,
                    self.children@,
                    start as int,
                    d as int,
                ),
            decreases len - d,
        {
            assert(start + d < self.children.len());
            let mut child: CentroidSearchTreeChild = self.children[start + d];
            assert(points(self.nodes@, self.children@[start + d].node));
            if child.node != INVALID_ID {
                let node: u32 = new_of_old[usize::from_u32(child.node)];
                child = CentroidSearchTreeChild { node, ..child };
            }
            let ghost before = children@;
            children.push(child);
            proof {
                assert forall|e: int| 0 <= e < d + 1 implies ({
                    let p = #[trigger] children@[children0.len() + e];
                    let q = self.children@[start + e];
                    &&& p.valid == q.valid
                    &&& p.token == q.token
                    &&& same_node(order@, p.node, q.node)
                }) by {
                    if e < d {
                        assert(children@[children0.len() + e] == before[children0.len() + e]);
                    }
                }
            }
            d += 1;
        }
        let mut up: u32 = node.up_component;
        if up != INVALID_ID {
            up = new_of_old[usize::from_u32(up)];
        }
        node = CentroidSearchTreeNode { child_start, up_component: up, ..node };
        nodes.push(node);
    }

    /// Reorders the arenas so that the nodes with the largest `counts` come first.
    ///
    /// Everything that refers to a position is renumbered, so every search finds what it found
    /// before. What changes is locality: visits concentrate on few nodes, which come to lie
    /// together.
    #[verifier::spinoff_prover]
    #[verifier::rlimit(60)]
    pub fn reorder_by_counts(&mut self, counts: &[u64])
        requires
            old(self).closed_arenas(),
            counts@.len() == old(self).nodes@.len(),
            forall|i: int|
                0 <= i < old(self).roots@.len() ==> #[trigger] old(self).roots@[i] < old(self).nodes@.len(),
        ensures
            exists|order: Seq<int>|
                by_counts(counts@, order) && #[trigger] final(self).reordered(
                    &*old(self),
                    order,
                ),
            final(self).closed_arenas(),
            forall|i: int|
                0 <= i < final(self).roots@.len() ==> #[trigger] final(self).roots@[i] < final(self).nodes@.len(),
            forall|tokens: Seq<Seq<u8>>|
                old(self).wf(tokens) ==> #[trigger] final(self).wf(tokens),
    {
        let n: usize = self.nodes.len();
        let list: Vec<u32> = order_by_counts(counts);
        let ghost order = ints(list@);
        // new_of_old[prior] is the new place of the node that was at `prior`.
        let mut new_of_old: Vec<u32> = vec![0u32; n];
        let mut i: usize = 0;
        while i < n
            invariant
                i <= n,
                n <= u32::MAX,
                n == counts@.len(),
                list@.len() == n,
                order == ints(list@),
                by_counts(counts@, order),
                new_of_old@.len() == n,
                forall|j: int|
                    0 <= j < i ==> new_of_old@[#[trigger] order[j]] == j,
            decreases n - i,
        {
            let ghost before = new_of_old@;
            assert(order[i as int] == list@[i as int]);
            new_of_old.set(usize::from_u32(list[i]), i as u32);
            proof {
                assert forall|j: int| 0 <= j < i + 1 implies new_of_old@[#[trigger] order[j]] == j by {
                    if j < i {
                        assert(order[j] != order[i as int]);
                        assert(before[order[j]] == j);
                    }
                }
            }
            i += 1;
        }
        proof {
            assert forall|x: int| 0 <= x < n implies (#[trigger] new_of_old@[x]) < n
                && order[new_of_old@[x] as int] == x by {
                let j = lemma_listed(order, x);
                assert(new_of_old@[order[j]] == j);
            }
        }
        let mut nodes: Vec<CentroidSearchTreeNode> = Vec::new();
        let mut children: Vec<CentroidSearchTreeChild> = Vec::new();
        i = 0;
        while i < n
            invariant
                i <= n,
                n <= u32::MAX,
                n == counts@.len(),
                list@.len() == n,
                order == ints(list@),
                by_counts(counts@, order),
                self.closed_arenas(),
                *self == *old(self),
                self.nodes@.len() == n,
                new_of_old@.len() == n,
                forall|x: int|
                    0 <= x < n ==> (#[trigger] new_of_old@[x]) < order.len()
                        && order[new_of_old@[x] as int] == x,
                nodes@.len() == i,
                child_total(nodes@) == children@.len(),
                forall|j: int|
                    0 <= j < children@.len() ==> (#[trigger] children@[j]).node == INVALID_ID
                        || children@[j].node < n,
                forall|j: int|
                    0 <= j < i ==> (#[trigger] nodes@[j]).child_start + nodes@[j].child_len
                        <= children@.len(),
                forall|j: int| 0 <= j < i ==> moved_to(self, order, nodes@, children@, j),
            decreases n - i,
        {
            let ghost nodes0 = nodes@;
            let ghost children0 = children@;
            proof {
                assert(order[i as int] == list@[i as int]);
                lemma_room(self, order, nodes@, children@, i as int);
            }
            self.move_node(list[i], &new_of_old, &mut nodes, &mut children, Ghost(order));
            proof {
                assert(nodes@.drop_last() =~= nodes0);
                assert(nodes@.take(i as int) =~= nodes0);
                assert forall|j: int| 0 <= j < children@.len() implies (
                #[trigger] children@[j]).node == INVALID_ID || children@[j].node < n by {
                    if j < children0.len() {
                        assert(children@[j] == children0[j]);
                    } else {
                        let d = j - children0.len();
                        assert(children@[nodes@.last().child_start + d] == children@[j]);
                    }
                }
                assert forall|j: int| 0 <= j < i + 1 implies (#[trigger] nodes@[j]).child_start
                    + nodes@[j].child_len <= children@.len() by {
                    if j < i {
                        assert(nodes@[j] == nodes0[j]);
                    }
                }
                assert forall|j: int| 0 <= j < i + 1 implies moved_to(
                    self,
                    order,
                    nodes@,
                    children@,
                    j,
                ) by {
                    if j < i {
                        lemma_moved_extend(
                            self,
                            order,
                            nodes0,
                            children0,
                            nodes@,
                            children@,
                            j,
                        );
                    }
                }
            }
            i += 1;
        }
        proof {
            lemma_total_pick(self.nodes@, order, n as int);
            assert(self.nodes@.take(n as int) =~= self.nodes@);
            assert forall|j: int| 0 <= j < nodes@.len() implies (#[trigger] nodes@[j]).child_len
                == picks(self.nodes@, order)[j].child_len by {
                assert(moved_to(self, order, nodes@, children@, j));
            }
            lemma_total_same(nodes@, picks(self.nodes@, order));
        }
        let mut roots: Vec<u32> = Vec::new();
        i = 0;
        while i < self.roots.len()
            invariant
                i <= self.roots@.len(),
                n == self.nodes@.len(),
                *self == *old(self),
                forall|j: int| 0 <= j < self.roots@.len() ==> #[trigger] self.roots@[j] < n,
                order.len() == n,
                new_of_old@.len() == n,
                n <= u32::MAX,
                forall|x: int|
                    0 <= x < n ==> (#[trigger] new_of_old@[x]) < order.len()
                        && order[new_of_old@[x] as int] == x,
                roots@.len() == i,
                forall|j: int|
                    0 <= j < i ==> (#[trigger] roots@[j]) < n && same_node(
                        order,
                        roots@[j],
                        self.roots@[j],
                    ),
            decreases self.roots.len() - i,
        {
            roots.push(new_of_old[usize::from_u32(self.roots[i])]);
            i += 1;
        }
        self.nodes = nodes;
        self.children = children;
        self.roots = roots;
        proof {
            let before = old(self);
            assert forall|j: int| 0 <= j < self.nodes@.len() implies #[trigger] self.moved(
                &*before,
                order,
                j,
            ) by {
                assert(moved_to(before, order, nodes@, children@, j));
            }
            assert(self.reordered(&*before, order));
            assert forall|j: int| 0 <= j < self.nodes@.len() implies #[trigger] follows(
                self.nodes@,
                j,
            ) by {
                assert(self.moved(&*before, order, j));
            }
            assert forall|j: int| 0 <= j < self.nodes@.len() implies ({
                &&& points(self.nodes@, (#[trigger] self.nodes@[j]).up_component)
                &&& self.nodes@[j].child_start + self.nodes@[j].child_len <= self.children@.len()
            }) by {
                assert(self.moved(&*before, order, j));
            }
            assert forall|tokens: Seq<Seq<u8>>| before.wf(tokens) implies #[trigger] self.wf(
                tokens,
            ) by {
                assert forall|i: int| 0 <= i < self.nodes@.len() implies #[trigger] self.node_ok(
                    tokens,
                    i,
                ) by {
                    lemma_node_moved(tokens, &*before, &*self, order, i);
                }
                assert forall|tau: int|
                    0 <= tau < lexicon::canon(tokens).len() implies #[trigger] self.root_ok(
                    tokens,
                    tau,
                ) by {
                    assert(before.root_ok(tokens, tau));
                    let s = suffixes::suffix_set(tokens, lexicon::token(tokens, tau));
                    let at = numbering::timestamp(tokens, tau);
                    numbering::lemma_timestamp(tokens);
                    assert(0 <= at < self.roots@.len());
                    assert(same_node(order, self.roots@[at], before.roots@[at]));
                    lemma_searches_moved(
                        tokens,
                        s,
                        &*before,
                        &*self,
                        order,
                        before.roots@[at] as int,
                        self.roots@[at] as int,
                        s,
                    );
                }
            }
        }
    }
}

} // verus!
