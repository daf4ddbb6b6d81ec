//! The search for the last token of a text, and the nodes that it visits.

use vstd::prelude::*;

use crate::automaton;
use crate::component;
use crate::encoding;
use crate::entry::{SearchEntry, INVALID_ID};
use crate::forest;
use crate::lexicon;
use crate::merge;
use crate::numbering;
use crate::successor;
use crate::suffixes;
use crate::sufsuc;
use crate::sufsuc::{CentroidSearchTree, CentroidSearchTreeChild, CentroidSearchTreeNode};
use crate::utils::FromU32;

verus! {

/// The number of the last token of a text.
pub open spec fn last_id(tokens: Seq<Seq<u8>>, text: Seq<u8>) -> int {
    numbering::id_of(tokens, merge::last_token(lexicon::rank_map(tokens), text))
}

/// The timestamp of the last token of a text.
pub open spec fn stamp(tokens: Seq<Seq<u8>>, text: Seq<u8>) -> int {
    numbering::timestamp(tokens, last_id(tokens, text))
}

/// Whether `dfs` holds, behind `INVALID_ID` for the empty text, the timestamps of the last tokens
/// of the beginnings of the text.
pub open spec fn history(tokens: Seq<Seq<u8>>, dfs: Seq<u32>, text: Seq<u8>) -> bool {
    &&& dfs.len() == text.len() + 1
    &&& dfs[0] == INVALID_ID
    &&& forall|d: int| 1 <= d <= text.len() ==> #[trigger] dfs[d] == stamp(tokens, text.take(d))
}

/// What is told of each search tree node that a search touches.
pub trait Visitor: Sized {
    /// Whether the visitor can go on.
    spec fn ok(&self) -> bool;

    /// The number of nodes that the visitor knows.
    spec fn room(&self) -> int;

    /// The nodes visited so far.
    spec fn log(&self) -> Seq<u32>;

    /// Takes note of a node.
    fn visit(&mut self, idx: u32)
        requires
            old(self).ok(),
            idx < old(self).room(),
        ensures
            final(self).ok(),
            final(self).room() == old(self).room(),
            final(self).log() == old(self).log().push(idx),
    ;
}

/// A visitor that does nothing.
pub struct NoVisits {
    pub log: Ghost<Seq<u32>>,
}

impl Visitor for NoVisits {
    open spec fn ok(&self) -> bool {
        true
    }

    open spec fn room(&self) -> int {
        u32::MAX as int + 1
    }

    open spec fn log(&self) -> Seq<u32> {
        self.log@
    }

    fn visit(&mut self, idx: u32) {
        self.log = Ghost(self.log@.push(idx));
    }
}

/// How often `x` is in the list.
pub open spec fn times(list: Seq<u32>, x: int) -> nat
    decreases list.len(),
{
    if list.len() == 0 {
        0
    } else {
        times(list.drop_last(), x) + if list.last() == x {
            1nat
        } else {
            0nat
        }
    }
}

/// Whether the counts are how often each number is in the list, as far as a `u64` counts.
pub open spec fn counted(counts: Seq<u64>, list: Seq<u32>) -> bool {
    forall|x: int|
        0 <= x < counts.len() ==> #[trigger] counts[x] == if times(list, x) <= u64::MAX {
            times(list, x) as u64
        } else {
            u64::MAX
        }
}

/// A visitor that counts the visits of each node.
pub struct VisitCounts {
    pub counts: Vec<u64>,
    pub log: Ghost<Seq<u32>>,
}

impl Visitor for VisitCounts {
    open spec fn ok(&self) -> bool {
        counted(self.counts@, self.log@)
    }

    open spec fn room(&self) -> int {
        self.counts@.len() as int
    }

    open spec fn log(&self) -> Seq<u32> {
        self.log@
    }

    fn visit(&mut self, idx: u32) {
        let i: usize = usize::from_u32(idx);
        let n: u64 = self.counts[i].saturating_add(1);
        self.counts.set(i, n);
        self.log = Ghost(self.log@.push(idx));
        proof {
            let before = old(self).log@;
            assert(self.log@.drop_last() =~= before);
            assert forall|x: int| 0 <= x < self.counts@.len() implies #[trigger] self.counts@[x]
                == if times(self.log@, x) <= u64::MAX {
                times(self.log@, x) as u64
            } else {
                u64::MAX
            } by {
                assert(old(self).counts@[x] == if times(before, x) <= u64::MAX {
                    times(before, x) as u64
                } else {
                    u64::MAX
                });
            }
        }
    }
}

/// The node of the component below child `v` of a node.
pub open spec fn child_node(
    node: CentroidSearchTreeNode,
    children: Seq<CentroidSearchTreeChild>,
    v: int,
) -> int {
    let j = choose|j: int|
        node.child_start <= j < node.child_start + node.child_len && (
        #[trigger] children[j]).token@ == v;
    children[j].node as int
}

/// The nodes that the search for token `theta` visits, from the node at `idx` on.
pub open spec fn trail(
    tokens: Seq<Seq<u8>>,
    nodes: Seq<CentroidSearchTreeNode>,
    children: Seq<CentroidSearchTreeChild>,
    theta: int,
    idx: int,
    fuel: nat,
) -> Seq<u32>
    decreases fuel,
{
    if fuel == 0 {
        Seq::empty()
    } else {
        let par = numbering::parents(tokens);
        let node = nodes[idx];
        let c = node.token as int;
        seq![idx as u32] + if theta == c {
            Seq::empty()
        } else {
            let next = if forest::below(par, theta, c) {
                child_node(node, children, forest::toward(par, c, theta))
            } else {
                node.up_component as int
            };
            trail(tokens, nodes, children, theta, next, (fuel - 1) as nat)
        }
    }
}

/// The test of a token against the history tells whether the last token lies below it.
pub proof fn lemma_test(tokens: Seq<Seq<u8>>, text: Seq<u8>, dfs: Seq<u32>, c: int)
    requires
        lexicon::vocab_error(tokens) is None,
        text.len() > 0,
        history(tokens, dfs, text.drop_last()),
        suffixes::suffix_set(tokens, text).contains(c),
        lexicon::token(tokens, c).len() >= 2,
    ensures
        ({
            let n = numbering::suc_len_of(tokens, c);
            &&& 0 < n < text.len()
            &&& n <= u16::MAX
            &&& suffixes::valid(tokens, c).holds(dfs[text.len() - n]) <==> forest::below(
                numbering::parents(tokens),
                last_id(tokens, text),
                c,
            )
        }),
{
    let ranks = lexicon::rank_map(tokens);
    let t = lexicon::token(tokens, c);
    let n = numbering::suc_len_of(tokens, c);
    let d = text.len() - n;
    lexicon::lemma_accepted(tokens);
    lexicon::lemma_canon(tokens);
    numbering::lemma_components(tokens, c);
    assert(lexicon::entry_error(tokens, c) is None);
    let front = text.drop_last();
    let head = text.take(d);
    assert(front.take(d) =~= head);
    assert(dfs[d] == stamp(tokens, front.take(d)));
    assert(merge::chop(text, n as nat) =~= head);
    suffixes::lemma_last_number(tokens, head);
    suffixes::lemma_last_number(tokens, text);
    successor::theorem_last_token(ranks, text, t);
    numbering::lemma_timestamp(tokens);
    numbering::lemma_follows(tokens, last_id(tokens, head), c);
    numbering::lemma_below(tokens, last_id(tokens, text), c);
}

/// The children of a node are in different places.
proof fn lemma_child_place(
    tokens: Seq<Seq<u8>>,
    s: Set<int>,
    node: CentroidSearchTreeNode,
    children: Seq<CentroidSearchTreeChild>,
    j: int,
)
    requires
        lexicon::vocab_error(tokens) is None,
        sufsuc::kids_ok(
            tokens,
            s,
            children,
            node.child_start as int,
            node.child_start + node.child_len,
            node.token as int,
        ),
        node.child_start <= j < node.child_start + node.child_len,
    ensures
        child_node(node, children, children[j].token@) == children[j].node,
{
    let v = children[j].token@;
    let i = choose|i: int|
        node.child_start <= i < node.child_start + node.child_len && (
        #[trigger] children[i]).token@ == v;
    assert(children[i].token@ == v);
    if i != j {
        assert(numbering::parents(tokens)[v] == node.token);
        assert(lexicon::token(tokens, v).len() >= 2);
        suffixes::lemma_interval_nonempty(tokens, v);
    }
}

/// The first place in `lo..hi` whose interval begins after `h`.
fn partition_children(children: &Vec<CentroidSearchTreeChild>, lo: usize, hi: usize, h: u32) -> (r:
    usize)
    requires
        lo <= hi <= children@.len(),
        forall|i: int, j: int|
            lo <= i < j < hi ==> (#[trigger] children@[i]).valid.start <= (
            #[trigger] children@[j]).valid.start,
    ensures
        lo <= r <= hi,
        forall|i: int| lo <= i < r ==> (#[trigger] children@[i]).valid.start <= h,
        forall|i: int| r <= i < hi ==> (#[trigger] children@[i]).valid.start > h,
{
    let mut a: usize = lo;
    let mut b: usize = hi;
    while a < b
        invariant
            lo <= a <= b <= hi <= children@.len(),
            forall|i: int, j: int|
                lo <= i < j < hi ==> (#[trigger] children@[i]).valid.start <= (
                #[trigger] children@[j]).valid.start,
            forall|i: int| lo <= i < a ==> (#[trigger] children@[i]).valid.start <= h,
            forall|i: int| b <= i < hi ==> (#[trigger] children@[i]).valid.start > h,
        decreases b - a,
    {
        let mid: usize = a + (b - a) / 2;
        if children[mid].valid.start <= h {
            a = mid + 1;
        } else {
            b = mid;
        }
    }
    a
}

/// If the last token is not below a node of a component, it is above it; if it is below a child, it
/// is in the piece of the child.
proof fn lemma_in_piece(par: Seq<int>, k: Set<int>, top: int, theta: int, c: int)
    requires
        component::component(par, k, top),
        k.contains(theta),
        k.contains(c),
    ensures
        !forest::below(par, theta, c) ==> component::piece_above(par, k, c).contains(theta) && c
            != top && component::piece_above(par, k, c).len() > 0,
        forest::below(par, theta, c) ==> component::piece_below(par, k, c).contains(theta),
{
    component::lemma_pieces(par, k, c);
}

impl CentroidSearchTree {
    /// The nodes that the search among the suffixes of token `tau` for the last token of the text
    /// visits.
    pub open spec fn search_trail(&self, tokens: Seq<Seq<u8>>, text: Seq<u8>, tau: int) -> Seq<u32> {
        trail(
            tokens,
            self.nodes@,
            self.children@,
            last_id(tokens, text),
            self.roots@[numbering::timestamp(tokens, tau)] as int,
            suffixes::suffix_set(tokens, lexicon::token(tokens, tau)).len(),
        )
    }

    /// Descends the centroid search tree of token `tau`, the longest that ends the text, and returns
    /// the number of the last token of the text.
    ///
    /// The tokens that pass the test form a path from the root, so one test tells on which side of a
    /// centroid the last token lies. On failure the search goes on above the centroid, and on
    /// success below the only child whose interval holds the tested timestamp, if there is one.
    #[verifier::spinoff_prover]
    #[verifier::rlimit(80)]
    pub(crate) fn descend<V: Visitor>(
        &self,
        dfs_in_tau: u32,
        dfs: &[u32],
        visit: &mut V,
        tokens: Ghost<Seq<Seq<u8>>>,
        text: Ghost<Seq<u8>>,
        tau: Ghost<int>,
    ) -> (r: u32)
        requires
            self.wf(tokens@),
            text@.len() > 0,
            history(tokens@, dfs@, text@.drop_last()),
            encoding::longest_token(tokens@, text@, tau@),
            dfs_in_tau == numbering::timestamp(tokens@, tau@),
            old(visit).ok(),
            old(visit).room() >= self.nodes@.len(),
        ensures
            r == last_id(tokens@, text@),
            r < lexicon::canon(tokens@).len(),
            final(visit).ok(),
            final(visit).room() == old(visit).room(),
            final(visit).log() == old(visit).log() + self.search_trail(tokens@, text@, tau@),
    {
        let ghost par = numbering::parents(tokens@);
        let ghost tau_text = lexicon::token(tokens@, tau@);
        let ghost s = suffixes::suffix_set(tokens@, tau_text);
        let ghost theta = last_id(tokens@, text@);
        let ghost mut k: Set<int> = s;
        let ghost mut top: int = suffixes::byte_id(tokens@, tau_text.last());
        let ghost root = top;
        let ghost mut fuel: nat = s.len();
        proof {
            lexicon::lemma_accepted(tokens@);
            lexicon::lemma_canon(tokens@);
            numbering::lemma_timestamp(tokens@);
            assert(tau_text.len() > 0);
            suffixes::lemma_suffix_tree(tokens@, tau_text);
            suffixes::lemma_last_number(tokens@, text@);
            assert(suffixes::suffix_set(tokens@, text@).contains(theta));
            suffixes::lemma_ends_nested(text@, tau_text, lexicon::token(tokens@, theta));
            assert(s.contains(theta));
            assert(self.root_ok(tokens@, tau@));
        }
        let mut idx: u32 = self.roots[usize::from_u32(dfs_in_tau)];
        let ghost full = trail(tokens@, self.nodes@, self.children@, theta, idx as int, fuel);
        let ghost log0 = visit.log();
        assert(log0 + full =~= visit.log() + full);
        loop
            invariant
                self.wf(tokens@),
                text@.len() > 0,
                history(tokens@, dfs@, text@.drop_last()),
                par == numbering::parents(tokens@),
                tau_text == lexicon::token(tokens@, tau@),
                automaton::ends_with(text@, tau_text),
                s == suffixes::suffix_set(tokens@, tau_text),
                theta == last_id(tokens@, text@),
                log0 == old(visit).log(),
                full == self.search_trail(tokens@, text@, tau@),
                0 <= theta < lexicon::canon(tokens@).len(),
                s.contains(theta),
                component::component(par, s, root),
                component::component(par, k, top),
                k.subset_of(s),
                k.contains(theta),
                sufsuc::searches(tokens@, s, self.nodes@, self.children@, idx as int, k),
                k.len() <= fuel,
                visit.ok(),
                visit.room() == old(visit).room(),
                visit.room() >= self.nodes@.len(),
                log0 + full == visit.log() + trail(
                    tokens@,
                    self.nodes@,
                    self.children@,
                    theta,
                    idx as int,
                    fuel,
                ),
            decreases k.len(),
        {
            visit.visit(idx);
            let node: CentroidSearchTreeNode = self.nodes[usize::from_u32(idx)];
            let search: SearchEntry = node.search;
            let ghost c = node.token as int;
            proof {
                assert(k.contains(c));
                assert(fuel > 0);
                assert(s.contains(c));
                suffixes::lemma_ends_trans(text@, tau_text, lexicon::token(tokens@, c));
                assert(suffixes::suffix_set(tokens@, text@).contains(c));
                lexicon::lemma_accepted(tokens@);
                lexicon::lemma_canon(tokens@);
                assert(lexicon::token(tokens@, c).len() > 0);
                assert(lexicon::entry_error(tokens@, c) is None);
                if lexicon::token(tokens@, c).len() >= 2 {
                    lemma_test(tokens@, text@, dfs@, c);
                } else {
                    lemma_byte_above(tokens@, s, root, c);
                }
                lemma_in_piece(par, k, top, theta, c);
            }
            let suc_len: usize = search.suc_len as usize;
            let valid: bool = search.suc_len == 0 || search.valid.contains(
                dfs[dfs.len() - suc_len],
            );
            assert(valid == forest::below(par, theta, c));
            if !valid {
                idx = node.up_component;
                proof {
                    let above = component::piece_above(par, k, c);
                    component::lemma_component_above(par, k, top, c);
                    k = above;
                    fuel = (fuel - 1) as nat;
                    assert(log0 + full =~= visit.log() + trail(
                        tokens@,
                        self.nodes@,
                        self.children@,
                        theta,
                        idx as int,
                        fuel,
                    ));
                }
            } else {
                let len: usize = search.len as usize;
                let h: u32 = dfs[dfs.len() - len];
                let start: usize = usize::from_u32(node.child_start);
                let end: usize = start + usize::from_u32(node.child_len);
                proof {
                    assert forall|i: int, j: int| start <= i < j < end implies (
                    #[trigger] self.children@[i]).valid.start <= (
                    #[trigger] self.children@[j]).valid.start by {
                        lemma_start_below_end(tokens@, self.children@[i].token@, c);
                    }
                    assert forall|i: int| start <= i < end implies ((
                    #[trigger] self.children@[i]).valid.holds(h) <==> forest::below(
                        par,
                        theta,
                        self.children@[i].token@,
                    )) by {
                        lemma_child_test(
                            tokens@,
                            text@,
                            tau_text,
                            dfs@,
                            c,
                            self.children@[i].token@,
                        );
                    }
                }
                let pos: usize = partition_children(&self.children, start, end, h);
                if pos > start && self.children[pos - 1].valid.contains(h) {
                    let child: CentroidSearchTreeChild = self.children[pos - 1];
                    idx = child.node;
                    proof {
                        let v = child.token@;
                        assert(self.children@[pos - 1].token@ == v);
                        assert(s.contains(v) && par[v] == c);
                        assert(0 <= v < par.len());
                        assert(forest::below(par, theta, v));
                        assert(-1 <= par[v] < v);
                        assert(forest::below(par, v, c)) by {
                            assert(forest::below(par, c, c));
                        }
                        assert(forest::below(par, c, top));
                        component::lemma_below_trans(par, v, c, top);
                        component::lemma_between(par, k, top, theta, v);
                        forest::lemma_below_in(par, theta, v);
                        forest::lemma_toward(par, c, theta);
                        component::lemma_siblings_apart(
                            par,
                            theta,
                            v,
                            forest::toward(par, c, theta),
                        );
                        lemma_child_place(tokens@, s, node, self.children@, pos - 1);
                        component::lemma_component_below(par, k, top, v);
                        k = component::piece_below(par, k, v);
                        top = v;
                        fuel = (fuel - 1) as nat;
                        assert(log0 + full =~= visit.log() + trail(
                            tokens@,
                            self.nodes@,
                            self.children@,
                            theta,
                            idx as int,
                            fuel,
                        ));
                    }
                } else {
                    proof {
                        if theta != c {
                            forest::lemma_toward(par, c, theta);
                            let v = forest::toward(par, c, theta);
                            assert(forest::below(par, v, c)) by {
                                assert(-1 <= par[v] < v);
                                assert(forest::below(par, c, c));
                            }
                            assert(forest::below(par, c, root));
                            component::lemma_below_trans(par, v, c, root);
                            component::lemma_between(par, s, root, theta, v);
                            assert(s.contains(v) && par[v] == c);
                            let j = choose|j: int|
                                start <= j < end && (#[trigger] self.children@[j]).token@ == v;
                            assert(self.children@[j].valid.holds(h));
                            if j < pos - 1 {
                                assert(self.children@[j].valid.end
                                    <= self.children@[pos - 1].valid.start);
                            }
                        }
                        assert(trail(
                            tokens@,
                            self.nodes@,
                            self.children@,
                            theta,
                            idx as int,
                            fuel,
                        ) =~= seq![idx]);
                        assert(log0 + full =~= visit.log());
                    }
                    return node.token;
                }
            }
        }
    }
}

/// A single byte in a tree of suffix tokens is its root.
proof fn lemma_byte_above(tokens: Seq<Seq<u8>>, s: Set<int>, root: int, c: int)
    requires
        lexicon::vocab_error(tokens) is None,
        component::component(numbering::parents(tokens), s, root),
        s.contains(c),
        0 <= c < lexicon::canon(tokens).len(),
        lexicon::token(tokens, c).len() < 2,
    ensures
        forall|x: int| #[trigger] s.contains(x) ==> forest::below(numbering::parents(tokens), x, c),
{
    let par = numbering::parents(tokens);
    assert(par[c] == -1);
    assert(forest::below(par, c, root));
}

/// Intervals of children are not empty.
proof fn lemma_start_below_end(tokens: Seq<Seq<u8>>, v: int, c: int)
    requires
        lexicon::vocab_error(tokens) is None,
        0 <= v < lexicon::canon(tokens).len(),
        numbering::parents(tokens)[v] == c,
        c >= 0,
    ensures
        suffixes::valid(tokens, v).start <= suffixes::valid(tokens, v).end,
{
    assert(lexicon::token(tokens, v).len() >= 2);
    suffixes::lemma_interval_nonempty(tokens, v);
}

/// The test of a child reads the history at the length of its parent.
proof fn lemma_child_test(
    tokens: Seq<Seq<u8>>,
    text: Seq<u8>,
    tau_text: Seq<u8>,
    dfs: Seq<u32>,
    c: int,
    v: int,
)
    requires
        lexicon::vocab_error(tokens) is None,
        text.len() > 0,
        history(tokens, dfs, text.drop_last()),
        automaton::ends_with(text, tau_text),
        suffixes::suffix_set(tokens, tau_text).contains(v),
        numbering::parents(tokens)[v] == c,
        0 <= c < lexicon::canon(tokens).len(),
        lexicon::token(tokens, c).len() <= text.len(),
    ensures
        suffixes::valid(tokens, v).holds(dfs[text.len() - lexicon::token(tokens, c).len()])
            <==> forest::below(numbering::parents(tokens), last_id(tokens, text), v),
{
    assert(lexicon::token(tokens, v).len() >= 2);
    numbering::lemma_components(tokens, v);
    suffixes::lemma_ends_trans(text, tau_text, lexicon::token(tokens, v));
    lemma_test(tokens, text, dfs, v);
}

} // verus!
