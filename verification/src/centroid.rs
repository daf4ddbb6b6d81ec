//! The tree of the tokens that end one token, and the centroids of its components.

use vstd::prelude::*;

use crate::component;
use crate::entry::INVALID_ID;
use crate::forest;
use crate::lexicon;
use crate::listing;
use crate::numbering;
use crate::suffixes;
use crate::utils;
use crate::utils::{sort_pairs, FromU32};
use crate::vocab::TokenTableBuilder;

verus! {

/// The child lists of the tree of the tokens in `members`.
pub struct SuffixTree<'a> {
    pub table: &'a TokenTableBuilder,
    /// Where the children of a member begin in `ch_list`.
    pub ch_start: Vec<u32>,
    /// Where the children of a member end in `ch_list`.
    pub ch_end: Vec<u32>,
    /// The children, those of one member in the order of their valid intervals.
    pub ch_list: Vec<u32>,
    /// The tokens in the tree.
    pub members: Ghost<Set<int>>,
}

impl<'a> SuffixTree<'a> {
    /// The parents in the successor forest.
    pub open spec fn par(&self) -> Seq<int> {
        numbering::parents(self.table.vocab@)
    }

    /// Whether the list of the children of `c` is complete and sorted.
    pub open spec fn lists(&self, c: int) -> bool {
        let lo = self.ch_start@[c] as int;
        let hi = self.ch_end@[c] as int;
        &&& 0 <= c < self.par().len()
        &&& lo <= hi <= self.ch_list@.len()
        &&& forall|j: int|
            lo <= j < hi ==> self.members@.contains((#[trigger] self.ch_list@[j]) as int)
                && self.par()[self.ch_list@[j] as int] == c
        &&& forall|v: int| #[trigger]
            self.members@.contains(v) && self.par()[v] == c ==> exists|j: int|
                lo <= j < hi && #[trigger] self.ch_list@[j] == v
        &&& forall|i: int, j: int|
            lo <= i < j < hi ==> suffixes::valid(
                self.table.vocab@,
                (#[trigger] self.ch_list@[i]) as int,
            ).end <= suffixes::valid(
                self.table.vocab@,
                (#[trigger] self.ch_list@[j]) as int,
            ).start
    }

    pub open spec fn wf(&self) -> bool {
        &&& self.table.wf()
        &&& self.ch_start@.len() == self.par().len()
        &&& self.ch_end@.len() == self.par().len()
        &&& self.par().len() == lexicon::canon(self.table.vocab@).len()
        &&& forest::forest(self.par())
        &&& self.par().len() <= u32::MAX
        &&& forall|c: int| #[trigger] self.members@.contains(c) ==> self.lists(c)
    }

    /// Whether exactly those members that lie in `k` are left of what hangs together with `k`.
    pub open spec fn left(&self, removed: Seq<bool>, k: Set<int>) -> bool {
        &&& removed.len() == self.par().len()
        &&& k.subset_of(self.members@)
        &&& forall|x: int| #[trigger] k.contains(x) ==> !removed[x]
        &&& forall|v: int| #[trigger]
            self.members@.contains(v) && k.contains(self.par()[v]) && !removed[v] ==> k.contains(v)
        &&& forall|v: int| #[trigger]
            k.contains(v) && 0 <= self.par()[v] && !removed[self.par()[v]] ==> k.contains(
                self.par()[v],
            )
    }

    /// The parent of a token, or `INVALID_ID` for a single byte.
    pub(crate) fn parent(&self, v: u32) -> (p: u32)
        requires
            self.wf(),
            v < self.par().len(),
        ensures
            self.par()[v as int] == -1 <==> p == INVALID_ID,
            p != INVALID_ID ==> p == self.par()[v as int] && p < v,
    {
        let vi: usize = usize::from_u32(v);
        proof {
            self.table.lemma_stored(v as int);
        }
        if self.table.pre[vi] == INVALID_ID {
            INVALID_ID
        } else {
            self.table.suc[vi]
        }
    }

    /// Two children at different places of one list differ.
    pub proof fn lemma_distinct(&self, c: int, i: int, j: int)
        requires
            self.wf(),
            self.members@.contains(c),
            self.ch_start@[c] <= i < j < self.ch_end@[c],
        ensures
            self.ch_list@[i] != self.ch_list@[j],
    {
        let tokens = self.table.vocab@;
        let v = self.ch_list@[i] as int;
        assert(self.lists(c));
        assert(self.members@.contains(v) && self.members@.contains(self.ch_list@[j] as int));
        assert(self.lists(v));
        if lexicon::token(tokens, v).len() >= 2 {
            suffixes::lemma_interval_nonempty(tokens, v);
        } else {
            assert(self.par()[v] == -1);
        }
    }
}

/// What the search for centroids writes into, reused from one component to the next.
pub struct Scratch {
    /// Tokens already taken as centroids.
    pub removed: Vec<bool>,
    /// The members of the current component, breadth first.
    pub order: Vec<u32>,
    /// The place in `order` that the member at a place was found from, `INVALID_ID` for the first.
    pub from: Vec<u32>,
    /// The number of members found through the one at a place, itself included.
    pub size: Vec<u32>,
    /// The size of the largest part found through the member at a place.
    pub best_child: Vec<u32>,
}

/// The places in `from`, with -1 for the first member.
pub open spec fn places(from: Seq<u32>) -> Seq<int> {
    Seq::new(
        from.len(),
        |a: int|
            if a == 0 {
                -1
            } else {
                from[a] as int
            },
    )
}

/// Different members are no more than the component has.
proof fn lemma_order_len(order: Seq<u32>, k: Set<int>)
    requires
        order.no_duplicates(),
        k.finite(),
        forall|a: int| 0 <= a < order.len() ==> k.contains((#[trigger] order[a]) as int),
    ensures
        order.len() <= k.len(),
{
    let f = |x: u32| x as int;
    let ids = order.map_values(f);
    assert(ids.no_duplicates());
    ids.unique_seq_to_set();
    let set = ids.to_set();
    assert forall|x: int| set.contains(x) implies k.contains(x) by {
        let a = choose|a: int| 0 <= a < ids.len() && ids[a] == x;
        assert(order[a] == x);
    }
    vstd::set_lib::lemma_len_subset(set, k);
}

/// Whether the list holds `x`.
spec fn listed(order: Seq<u32>, x: int) -> bool {
    exists|a: int| 0 <= a < order.len() && #[trigger] order[a] == x
}

/// Whether the list holds the neighbours of the members before place `n`.
spec fn passed(par: Seq<int>, k: Set<int>, order: Seq<u32>, n: int) -> bool {
    forall|b: int, y: int|
        0 <= b < n && #[trigger] k.contains(y) && listing::adjacent(
            par,
            (#[trigger] order[b]) as int,
            y,
        ) ==> listed(order, y)
}

/// With the neighbours of all that is listed, the top of the component is listed.
proof fn lemma_top_listed(par: Seq<int>, k: Set<int>, top: int, order: Seq<u32>, x: int)
    requires
        component::component(par, k, top),
        passed(par, k, order, order.len() as int),
        k.contains(x),
        listed(order, x),
    ensures
        listed(order, top),
    decreases x,
{
    if x != top {
        let b = choose|b: int| 0 <= b < order.len() && #[trigger] order[b] == x;
        assert(k.contains(component::up(par, x)));
        assert(-1 <= par[x] < x);
        assert(listing::adjacent(par, order[b] as int, par[x]));
        lemma_top_listed(par, k, top, order, par[x]);
    }
}

/// With the neighbours of all that is listed, every member is listed.
proof fn lemma_all_listed(par: Seq<int>, k: Set<int>, top: int, order: Seq<u32>, x: int)
    requires
        component::component(par, k, top),
        passed(par, k, order, order.len() as int),
        listed(order, top),
        k.contains(x),
    ensures
        listed(order, x),
    decreases x,
{
    if x != top {
        assert(k.contains(component::up(par, x)));
        assert(-1 <= par[x] < x);
        lemma_all_listed(par, k, top, order, par[x]);
        let b = choose|b: int| 0 <= b < order.len() && #[trigger] order[b] == par[x];
        assert(listing::adjacent(par, order[b] as int, x));
    }
}

/// Whether the list is the beginning of a listing, found from the members before place `n`.
spec fn begun(
    tokens: Seq<Seq<u8>>,
    k: Set<int>,
    entry: int,
    order: Seq<u32>,
    thread: Seq<int>,
    n: int,
) -> bool {
    &&& listing::threaded(numbering::parents(tokens), order, thread)
    &&& order[0] == entry
    &&& order.len() <= k.len()
    &&& forall|a: int| 0 <= a < order.len() ==> k.contains((#[trigger] order[a]) as int)
    &&& forall|a: int| 0 <= a < order.len() ==> #[trigger] thread[a] < n
    &&& forall|a: int, b: int|
        1 <= a < b < order.len() ==> #[trigger] listing::found_before(tokens, order, thread, a, b)
}

/// A neighbour of the member at place `i` that is not listed yet goes to the end.
proof fn lemma_begun_push(
    tokens: Seq<Seq<u8>>,
    k: Set<int>,
    top: int,
    entry: int,
    order: Seq<u32>,
    thread: Seq<int>,
    i: int,
    w: u32,
)
    requires
        component::component(numbering::parents(tokens), k, top),
        begun(tokens, k, entry, order, thread, i + 1),
        0 <= i < order.len(),
        k.contains(w as int),
        listing::adjacent(numbering::parents(tokens), order[i] as int, w as int),
        i > 0 ==> order[thread[i]] != w,
        forall|a: int|
            1 <= a < order.len() && #[trigger] thread[a] == i ==> order[a] != w
                && listing::comes_before(tokens, order[i] as int, order[a] as int, w as int),
    ensures
        begun(tokens, k, entry, order.push(w), thread.push(i), i + 1),
{
    let par = numbering::parents(tokens);
    let order2 = order.push(w);
    let thread2 = thread.push(i);
    assert forall|q: int| 0 <= q < order.len() implies 0 <= (#[trigger] order[q]) < par.len() by {
        assert(k.contains(order[q] as int));
    }
    assert forall|a: int| 0 <= a < order.len() implies order[a] != w by {
        if order[a] == w {
            if par[w as int] == order[i] {
                listing::lemma_found_from(par, order, thread, a, i);
            } else {
                listing::lemma_found_from(par, order, thread, i, a);
            }
        }
    }
    assert(order2.no_duplicates());
    assert forall|a: int| 1 <= a < order2.len() implies 0 <= #[trigger] thread2[a] < a
        && listing::adjacent(par, order2[thread2[a]] as int, order2[a] as int) by {
        if a < order.len() {
            assert(0 <= thread[a] < a);
        }
    }
    assert forall|a: int| 0 <= a < order2.len() implies k.contains((#[trigger] order2[a]) as int) by {
        if a < order.len() {
            assert(order2[a] == order[a]);
        }
    }
    assert forall|a: int, b: int| 1 <= a < b < order2.len() implies #[trigger] listing::found_before(
        tokens,
        order2,
        thread2,
        a,
        b,
    ) by {
        assert(0 <= thread[a] < a);
        assert(thread2[a] == thread[a] && order2[a] == order[a]);
        assert(order2[thread[a]] == order[thread[a]]);
        if b < order.len() {
            assert(listing::found_before(tokens, order, thread, a, b));
        }
    }
    lemma_order_len(order2, k);
}

/// Longer lists hold what shorter ones hold.
proof fn lemma_passed_push(par: Seq<int>, k: Set<int>, order: Seq<u32>, n: int, w: u32)
    requires
        passed(par, k, order, n),
        n <= order.len(),
    ensures
        passed(par, k, order.push(w), n),
        forall|x: int| #[trigger] listed(order, x) ==> listed(order.push(w), x),
        listed(order.push(w), w as int),
{
    let order2 = order.push(w);
    assert(order2[order.len() as int] == w);
    assert forall|x: int| #[trigger] listed(order, x) implies listed(order2, x) by {
        let a = choose|a: int| 0 <= a < order.len() && #[trigger] order[a] == x;
        assert(order2[a] == x);
    }
    assert forall|b: int, y: int|
        0 <= b < n && #[trigger] k.contains(y) && listing::adjacent(
            par,
            (#[trigger] order2[b]) as int,
            y,
        ) implies listed(order2, y) by {
        assert(order2[b] == order[b]);
        assert(listed(order, y));
    }
}

/// Lists the members of a component breadth first, starting at `entry`.
#[verifier::spinoff_prover]
#[verifier::rlimit(60)]
fn collect(
    tree: &SuffixTree,
    removed: &Vec<bool>,
    order: &mut Vec<u32>,
    from: &mut Vec<u32>,
    entry: u32,
    k: Ghost<Set<int>>,
    top: Ghost<int>,
)
    requires
        tree.wf(),
        tree.left(removed@, k@),
        component::component(tree.par(), k@, top@),
        k@.contains(entry as int),
    ensures
        listing::listing(
            tree.table.vocab@,
            k@,
            entry as int,
            final(order)@,
            places(final(from)@),
        ),
        forall|a: int| 1 <= a < final(from)@.len() ==> (#[trigger] final(from)@[a]) < a,
{
    let ghost tokens = tree.table.vocab@;
    let ghost par = tree.par();
    order.clear();
    from.clear();
    order.push(entry);
    from.push(INVALID_ID);
    let ghost mut thread: Seq<int> = seq![-1];
    let mut i: usize = 0;
    proof {
        lemma_order_len(order@, k@);
        lemma_component_small(tree, k@);
    }
    while i < order.len()
        invariant
            k@.len() <= u32::MAX,
            tree.wf(),
            tree.left(removed@, k@),
            component::component(tree.par(), k@, top@),
            tokens == tree.table.vocab@,
            par == tree.par(),
            begun(tokens, k@, entry as int, order@, thread, i as int),
            passed(par, k@, order@, i as int),
            i <= order@.len(),
            thread =~= places(from@),
        decreases k@.len() - i,
    {
        let v: u32 = order[i];
        let vi: usize = usize::from_u32(v);
        assert(k@.contains(v as int));
        assert(tree.members@.contains(v as int));
        assert(tree.lists(v as int));
        let mut came_from: u32 = INVALID_ID;
        if i > 0 {
            assert(0 <= thread[i as int] < i);
            came_from = order[usize::from_u32(from[i])];
        }
        let p: u32 = tree.parent(v);
        if p != INVALID_ID && p != came_from && !removed[usize::from_u32(p)] {
            proof {
                assert(k@.contains(par[v as int]));
                lemma_begun_push(
                    tokens,
                    k@,
                    top@,
                    entry as int,
                    order@,
                    thread,
                    i as int,
                    p,
                );
                lemma_passed_push(par, k@, order@, i as int, p);
            }
            order.push(p);
            from.push(i as u32);
            proof {
                thread = thread.push(i as int);
            }
        }
        proof {
            assert(k@.contains(par[v as int]) ==> listed(order@, par[v as int])) by {
                if p == came_from && p != INVALID_ID {
                    assert(order@[thread[i as int]] == p);
                }
            }
        }
        let begin: usize = usize::from_u32(tree.ch_start[vi]);
        let end: usize = usize::from_u32(tree.ch_end[vi]);
        let mut j: usize = begin;
        while j < end
            invariant
                k@.len() <= u32::MAX,
                tree.wf(),
                tree.left(removed@, k@),
                component::component(tree.par(), k@, top@),
                tokens == tree.table.vocab@,
                par == tree.par(),
                k@.contains(v as int),
                tree.members@.contains(v as int),
                tree.lists(v as int),
                begin == tree.ch_start@[v as int],
                end == tree.ch_end@[v as int],
                begin <= j <= end,
                begun(tokens, k@, entry as int, order@, thread, i + 1),
                passed(par, k@, order@, i as int),
                i < order@.len(),
                order@[i as int] == v,
                thread =~= places(from@),
                i == 0 ==> came_from == INVALID_ID,
                i > 0 ==> came_from == order@[thread[i as int]],
                k@.contains(par[v as int]) ==> listed(order@, par[v as int]),
                forall|a: int|
                    1 <= a < order@.len() && #[trigger] thread[a] == i ==> order@[a] == par[v as int]
                        || exists|q: int|
                        begin <= q < j && #[trigger] tree.ch_list@[q] == order@[a],
                forall|q: int|
                    begin <= q < j && k@.contains((#[trigger] tree.ch_list@[q]) as int)
                        ==> listed(order@, tree.ch_list@[q] as int),
            decreases end - j,
        {
            let w: u32 = tree.ch_list[j];
            assert(tree.members@.contains(w as int) && par[w as int] == v);
            assert(tree.lists(w as int));
            assert(-1 <= par[w as int] < w);
            assert(-1 <= par[v as int] < v);
            let ghost before = order@;
            let ghost before_thread = thread;
            if w != came_from && !removed[usize::from_u32(w)] {
                proof {
                    assert(k@.contains(w as int));
                    assert forall|a: int|
                        1 <= a < order@.len() && #[trigger] thread[a] == i implies order@[a] != w
                        && listing::comes_before(tokens, v as int, order@[a] as int, w as int) by {
                        if order@[a] != par[v as int] {
                            let q = choose|q: int|
                                begin <= q < j && #[trigger] tree.ch_list@[q] == order@[a];
                            tree.lemma_distinct(v as int, q, j as int);
                        }
                    }
                    lemma_begun_push(
                        tokens,
                        k@,
                        top@,
                        entry as int,
                        order@,
                        thread,
                        i as int,
                        w,
                    );
                    lemma_passed_push(par, k@, order@, i as int, w);
                }
                order.push(w);
                from.push(i as u32);
                proof {
                    thread = thread.push(i as int);
                }
            } else {
                proof {
                    if k@.contains(w as int) {
                        assert(order@[thread[i as int]] == w);
                    }
                }
            }
            proof {
                assert forall|a: int|
                    1 <= a < order@.len() && #[trigger] thread[a] == i implies order@[a]
                    == par[v as int] || exists|q: int|
                    begin <= q < j + 1 && #[trigger] tree.ch_list@[q] == order@[a] by {
                    if a < before.len() {
                        assert(before_thread[a] == i);
                        assert(before[a] == order@[a]);
                        if order@[a] != par[v as int] {
                            let q = choose|q: int|
                                begin <= q < j && #[trigger] tree.ch_list@[q] == before[a];
                            assert(tree.ch_list@[q] == order@[a]);
                        }
                    } else {
                        assert(tree.ch_list@[j as int] == order@[a]);
                    }
                }
            }
            j += 1;
        }
        proof {
            assert forall|b: int, y: int|
                0 <= b < i + 1 && #[trigger] k@.contains(y) && listing::adjacent(
                    par,
                    (#[trigger] order@[b]) as int,
                    y,
                ) implies listed(order@, y) by {
                if b == i && par[y] == v {
                    assert(tree.members@.contains(y) && tree.par()[y] == v);
                    let q = choose|q: int| begin <= q < end && #[trigger] tree.ch_list@[q] == y;
                    assert(listed(order@, tree.ch_list@[q] as int));
                }
            }
        }
        i += 1;
    }
    proof {
        assert(order@[0] == entry);
        assert(listed(order@, entry as int));
        lemma_top_listed(par, k@, top@, order@, entry as int);
        assert forall|x: int| #[trigger] k@.contains(x) implies exists|a: int|
            0 <= a < order@.len() && #[trigger] order@[a] == x by {
            lemma_all_listed(par, k@, top@, order@, x);
        }
        assert forall|a: int| 1 <= a < from@.len() implies (#[trigger] from@[a]) < a by {
            assert(0 <= thread[a] < a);
        }
    }
}

/// Sums up what was found through each member, from the last member to the first.
fn weigh(from: &Vec<u32>, size: &mut Vec<u32>, best_child: &mut Vec<u32>)
    requires
        0 < from@.len() <= u32::MAX,
        forall|a: int| 1 <= a < from@.len() ==> (#[trigger] from@[a]) < a,
    ensures
        final(size)@.len() == from@.len(),
        final(best_child)@.len() == from@.len(),
        forall|a: int|
            0 <= a < from@.len() ==> (#[trigger] final(size)@[a]) == forest::size(places(from@), a),
        forall|a: int|
            0 <= a < from@.len() ==> (#[trigger] final(best_child)@[a]) == forest::heaviest(
                places(from@),
                a,
                a,
            ),
{
    let ghost thread = places(from@);
    size.clear();
    best_child.clear();
    let mut i: usize = 0;
    while i < from.len()
        invariant
            i <= from@.len(),
            size@.len() == i,
            best_child@.len() == i,
            forall|a: int| 0 <= a < i ==> #[trigger] size@[a] == 1,
            forall|a: int| 0 <= a < i ==> #[trigger] best_child@[a] == 0,
        decreases from.len() - i,
    {
        size.push(1);
        best_child.push(0);
        i += 1;
    }
    proof {
        assert forall|a: int| 0 <= a < thread.len() implies -1 <= #[trigger] thread[a] < a by {}
    }
    let mut n: usize = from.len() - 1;
    while n > 0
        invariant
            0 <= n < from@.len() <= u32::MAX,
            thread == places(from@),
            forest::forest(thread),
            forall|a: int| 1 <= a < from@.len() ==> (#[trigger] from@[a]) < a,
            size@.len() == from@.len(),
            best_child@.len() == from@.len(),
            forall|a: int|
                0 <= a < from@.len() ==> (#[trigger] size@[a]) == 1 + forest::after(
                    thread,
                    a,
                    n as int,
                ),
            forall|a: int|
                0 <= a < from@.len() ==> (#[trigger] best_child@[a]) == forest::heaviest(
                    thread,
                    a,
                    n as int,
                ),
        decreases n,
    {
        let p: usize = usize::from_u32(from[n]);
        let s: u32 = size[n];
        proof {
            assert(thread[n as int] == p);
            assert(s == forest::size(thread, n as int));
            forest::lemma_after_bound(thread, p as int, n - 1);
        }
        size.set(p, size[p] + s);
        if s > best_child[p] {
            best_child.set(p, s);
        }
        n -= 1;
    }
    proof {
        assert forall|a: int| 0 <= a < from@.len() implies (#[trigger] size@[a]) == forest::size(
            thread,
            a,
        ) by {
            forest::lemma_children_later(thread, a, 0);
        }
        assert forall|a: int| 0 <= a < from@.len() implies (#[trigger] best_child@[a])
            == forest::heaviest(thread, a, a) by {
            forest::lemma_children_later(thread, a, 0);
        }
    }
}

/// A component has no more members than there are tokens.
proof fn lemma_component_small(tree: &SuffixTree, k: Set<int>)
    requires
        tree.wf(),
        k.finite(),
        k.subset_of(tree.members@),
    ensures
        k.len() <= u32::MAX,
{
    let range = vstd::set_lib::set_int_range(0, tree.par().len() as int);
    vstd::set_lib::lemma_int_range(0, tree.par().len() as int);
    assert forall|x: int| k.contains(x) implies range.contains(x) by {
        assert(tree.lists(x));
    }
    vstd::set_lib::lemma_len_subset(k, range);
}

impl Scratch {
    pub open spec fn wf(&self, n: int) -> bool {
        self.removed@.len() == n
    }

    /// Returns the centroid of a component, i.e. the member whose removal minimizes the largest
    /// remaining piece. Of two such members it is the one listed first.
    pub(crate) fn find_centroid(
        &mut self,
        tree: &SuffixTree,
        entry: u32,
        k: Ghost<Set<int>>,
        top: Ghost<int>,
    ) -> (c: u32)
        requires
            tree.wf(),
            old(self).wf(tree.par().len() as int),
            tree.left(old(self).removed@, k@),
            component::component(tree.par(), k@, top@),
            k@.contains(entry as int),
        ensures
            final(self).wf(tree.par().len() as int),
            final(self).removed@ == old(self).removed@,
            listing::listing(
                tree.table.vocab@,
                k@,
                entry as int,
                final(self).order@,
                places(final(self).from@),
            ),
            listing::first_best(tree.par(), k@, final(self).order@, c as int),
    {
        collect(tree, &self.removed, &mut self.order, &mut self.from, entry, k, top);
        let ghost tokens = tree.table.vocab@;
        let ghost par = tree.par();
        let ghost thread = places(self.from@);
        proof {
            lemma_component_small(tree, k@);
            listing::lemma_listing_len(tokens, k@, entry as int, self.order@, thread);
        }
        weigh(&self.from, &mut self.size, &mut self.best_child);
        let total: u32 = self.order.len() as u32;
        let mut best: u32 = entry;
        let mut best_piece: u32 = u32::MAX;
        let ghost mut at: int = 0;
        let mut i: usize = 0;
        while i < self.order.len()
            invariant
                i <= self.order@.len(),
                0 < self.order@.len() <= u32::MAX,
                component::component(par, k@, top@),
                par == numbering::parents(tokens),
                listing::listing(tokens, k@, entry as int, self.order@, thread),
                thread == places(self.from@),
                self.order@.len() == thread.len(),
                self.size@.len() == thread.len(),
                self.best_child@.len() == thread.len(),
                self.removed@ == old(self).removed@,
                total == self.order@.len(),
                forall|a: int|
                    0 <= a < thread.len() ==> (#[trigger] self.size@[a]) == forest::size(thread, a),
                forall|a: int|
                    0 <= a < thread.len() ==> (#[trigger] self.best_child@[a]) == forest::heaviest(
                        thread,
                        a,
                        a,
                    ),
                i == 0 ==> best_piece == u32::MAX,
                i > 0 ==> 0 <= at < i && self.order@[at] == best && best_piece == listing::weight(
                    thread,
                    at,
                ),
                forall|b: int| 0 <= b < i ==> #[trigger] listing::weight(thread, b) >= best_piece,
                forall|b: int| 0 <= b < at ==> #[trigger] listing::weight(thread, b) > best_piece,
            decreases self.order.len() - i,
        {
            proof {
                listing::lemma_weight(
                    tokens,
                    k@,
                    top@,
                    entry as int,
                    self.order@,
                    thread,
                    i as int,
                    0,
                );
            }
            let above: u32 = total - self.size[i];
            let below: u32 = self.best_child[i];
            let piece: u32 = if below > above {
                below
            } else {
                above
            };
            assert(piece == listing::weight(thread, i as int));
            if piece < best_piece {
                best_piece = piece;
                best = self.order[i];
                proof {
                    at = i as int;
                }
            }
            i += 1;
        }
        proof {
            assert(self.order@[at] == best);
            assert forall|x: int, n: int| k@.contains(x) && #[trigger] component::split_within(
                par,
                k@,
                x,
                n,
            ) implies component::split_within(par, k@, best as int, n) by {
                let a = choose|a: int| 0 <= a < self.order@.len() && #[trigger] self.order@[a] == x;
                listing::lemma_weight(
                    tokens,
                    k@,
                    top@,
                    entry as int,
                    self.order@,
                    thread,
                    a,
                    n,
                );
                listing::lemma_weight(
                    tokens,
                    k@,
                    top@,
                    entry as int,
                    self.order@,
                    thread,
                    at,
                    n,
                );
            }
            assert(component::best_split(par, k@, best as int));
            assert forall|b: int| 0 <= b < at implies !component::best_split(
                par,
                k@,
                (#[trigger] self.order@[b]) as int,
            ) by {
                let n = best_piece as int;
                listing::lemma_weight(
                    tokens,
                    k@,
                    top@,
                    entry as int,
                    self.order@,
                    thread,
                    at,
                    n,
                );
                listing::lemma_weight(
                    tokens,
                    k@,
                    top@,
                    entry as int,
                    self.order@,
                    thread,
                    b,
                    n,
                );
                assert(listing::weight(thread, b) > best_piece);
                assert(component::split_within(par, k@, best as int, n));
            }
        }
        best
    }
}

/// Parent and begin of the valid interval of a token, as one number.
spec fn sort_key(tokens: Seq<Seq<u8>>, v: int) -> int {
    numbering::parents(tokens)[v] * 0x1_0000_0000 + suffixes::valid(tokens, v).start
}

/// Whether the pairs are the members with a parent, by parent and interval.
spec fn sorted_members(tokens: Seq<Seq<u8>>, members: Set<int>, pairs: Seq<(u64, u32)>) -> bool {
    &&& forall|i: int|
        0 <= i < pairs.len() ==> {
            let v = (#[trigger] pairs[i]).1 as int;
            &&& members.contains(v)
            &&& numbering::parents(tokens)[v] >= 0
            &&& pairs[i].0 == sort_key(tokens, v)
        }
    &&& forall|v: int| #[trigger]
        members.contains(v) && numbering::parents(tokens)[v] >= 0 ==> exists|i: int|
            0 <= i < pairs.len() && (#[trigger] pairs[i]).1 == v
    &&& pairs.no_duplicates()
    &&& utils::sorted_pairs(pairs)
}

/// The order of the pairs is that of parents and, for one parent, that of the intervals.
proof fn lemma_pair_order(
    tokens: Seq<Seq<u8>>,
    members: Set<int>,
    pairs: Seq<(u64, u32)>,
    i: int,
    j: int,
)
    requires
        lexicon::vocab_error(tokens) is None,
        forall|v: int| #[trigger]
            members.contains(v) ==> 0 <= v < lexicon::canon(tokens).len(),
        sorted_members(tokens, members, pairs),
        0 <= i < j < pairs.len(),
    ensures
        ({
            let v = pairs[i].1 as int;
            let w = pairs[j].1 as int;
            &&& numbering::parents(tokens)[v] <= numbering::parents(tokens)[w]
            &&& numbering::parents(tokens)[v] == numbering::parents(tokens)[w] ==> suffixes::valid(
                tokens,
                v,
            ).end <= suffixes::valid(tokens, w).start
        }),
{
    let v = pairs[i].1 as int;
    let w = pairs[j].1 as int;
    let par = numbering::parents(tokens);
    assert(members.contains(v));
    assert(members.contains(w));
    assert(utils::pair_le(pairs[i], pairs[j]));
    assert(v != w) by {
        if v == w {
            assert(pairs[i] == pairs[j]);
        }
    }
    if par[v] == par[w] {
        assert(lexicon::token(tokens, v).len() >= 2);
        assert(lexicon::token(tokens, w).len() >= 2);
        suffixes::law_sibling_intervals_disjoint(tokens, v, w);
        suffixes::lemma_interval_nonempty(tokens, v);
        suffixes::lemma_interval_nonempty(tokens, w);
    }
}

impl<'a> SuffixTree<'a> {
    /// Whether the tables can hold any tree.
    pub open spec fn ready(&self) -> bool {
        &&& self.table.wf()
        &&& self.ch_start@.len() == self.par().len()
        &&& self.ch_end@.len() == self.par().len()
    }

    /// Pairs each member that has a parent with its key, and sorts them.
    fn sort_members(&self, list: &Vec<u32>, members: Ghost<Set<int>>) -> (pairs: Vec<(u64, u32)>)
        requires
            self.ready(),
            list@.no_duplicates(),
            forall|i: int|
                0 <= i < list@.len() ==> members@.contains((#[trigger] list@[i]) as int),
            forall|v: int| #[trigger]
                members@.contains(v) ==> 0 <= v < lexicon::canon(self.table.vocab@).len()
                    && exists|i: int| 0 <= i < list@.len() && #[trigger] list@[i] == v,
        ensures
            sorted_members(self.table.vocab@, members@, pairs@),
            pairs@.len() <= list@.len(),
    {
        let ghost tokens = self.table.vocab@;
        let ghost par = self.par();
        let mut pairs: Vec<(u64, u32)> = Vec::new();
        let mut i: usize = 0;
        while i < list.len()
            invariant
                i <= list@.len(),
                self.ready(),
                tokens == self.table.vocab@,
                par == self.par(),
                list@.no_duplicates(),
                forall|a: int|
                    0 <= a < list@.len() ==> members@.contains((#[trigger] list@[a]) as int),
                forall|v: int| #[trigger]
                    members@.contains(v) ==> 0 <= v < lexicon::canon(tokens).len(),
                pairs@.len() <= i,
                forall|a: int|
                    0 <= a < pairs@.len() ==> {
                        let v = (#[trigger] pairs@[a]).1;
                        &&& list@.take(i as int).contains(v)
                        &&& par[v as int] >= 0
                        &&& pairs@[a].0 == sort_key(tokens, v as int)
                    },
                forall|a: int|
                    0 <= a < i && par[(#[trigger] list@[a]) as int] >= 0 ==> exists|b: int|
                        0 <= b < pairs@.len() && (#[trigger] pairs@[b]).1 == list@[a],
                pairs@.no_duplicates(),
            decreases list.len() - i,
        {
            let v: u32 = list[i];
            let vi: usize = usize::from_u32(v);
            let ghost before = pairs@;
            assert(members@.contains(list@[i as int] as int));
            proof {
                self.table.lemma_stored(v as int);
                numbering::lemma_forest(tokens);
                assert(self.table.search@[v as int] == numbering::search_of(tokens, v as int));
            }
            if self.table.pre[vi] != INVALID_ID {
                let parent: u64 = self.table.suc[vi] as u64;
                let start: u64 = self.table.search[vi].valid.start as u64;
                pairs.push((parent * 0x1_0000_0000 + start, v));
            }
            proof {
                let head = list@.take(i as int);
                let next = list@.take(i + 1);
                assert(next[i as int] == v);
                assert forall|a: int| 0 <= a < pairs@.len() implies ({
                    let w = (#[trigger] pairs@[a]).1;
                    &&& next.contains(w)
                    &&& par[w as int] >= 0
                    &&& pairs@[a].0 == sort_key(tokens, w as int)
                }) by {
                    if a < before.len() {
                        assert(before[a] == pairs@[a]);
                        let q = choose|q: int| 0 <= q < head.len() && head[q] == before[a].1;
                        assert(next[q] == pairs@[a].1);
                    }
                }
                assert forall|a: int| 0 <= a < i + 1 && par[(#[trigger] list@[a]) as int]
                    >= 0 implies exists|b: int|
                    0 <= b < pairs@.len() && (#[trigger] pairs@[b]).1 == list@[a] by {
                    if a < i {
                        let b = choose|b: int|
                            0 <= b < before.len() && (#[trigger] before[b]).1 == list@[a];
                        assert(pairs@[b].1 == list@[a]);
                    } else {
                        assert(pairs@[pairs@.len() - 1].1 == list@[a]);
                    }
                }
                assert forall|a: int, b: int|
                    0 <= a < pairs@.len() && 0 <= b < pairs@.len() && a != b implies pairs@[a]
                    != pairs@[b] by {
                    if pairs@.len() > before.len() && (a == before.len() || b == before.len()) {
                        let c = if a == before.len() {
                            b
                        } else {
                            a
                        };
                        assert(head.contains(before[c].1));
                        let q = choose|q: int| 0 <= q < head.len() && head[q] == before[c].1;
                        assert(list@[q] != list@[i as int]);
                    }
                }
            }
            i += 1;
        }
        proof {
            assert(list@.take(i as int) =~= list@);
        }
        let ghost unsorted = pairs@;
        sort_pairs(&mut pairs);
        proof {
            utils::lemma_same_elements(unsorted, pairs@);
            assert forall|a: int| 0 <= a < pairs@.len() implies ({
                let v = (#[trigger] pairs@[a]).1 as int;
                &&& members@.contains(v)
                &&& par[v] >= 0
                &&& pairs@[a].0 == sort_key(tokens, v)
            }) by {
                assert(pairs@.contains(pairs@[a]));
                let b = choose|b: int| 0 <= b < unsorted.len() && unsorted[b] == pairs@[a];
                assert(list@.contains(unsorted[b].1));
                let q = choose|q: int| 0 <= q < list@.len() && list@[q] == unsorted[b].1;
                assert(members@.contains(list@[q] as int));
            }
            assert forall|v: int| #[trigger] members@.contains(v) && par[v] >= 0 implies exists|
                a: int,
            |
                0 <= a < pairs@.len() && (#[trigger] pairs@[a]).1 == v by {
                let q = choose|q: int| 0 <= q < list@.len() && #[trigger] list@[q] == v;
                let b = choose|b: int| 0 <= b < unsorted.len() && (#[trigger] unsorted[b]).1
                    == list@[q];
                assert(unsorted.contains(unsorted[b]));
                let a = choose|a: int| 0 <= a < pairs@.len() && pairs@[a] == unsorted[b];
                assert(pairs@[a].1 == v);
            }
        }
        pairs
    }

    /// Makes this the tree of the given members.
    #[verifier::spinoff_prover]
    #[verifier::rlimit(60)]
    pub(crate) fn build_local(&mut self, list: &Vec<u32>, members: Ghost<Set<int>>)
        requires
            old(self).ready(),
            list@.no_duplicates(),
            list@.len() <= u32::MAX,
            forall|i: int|
                0 <= i < list@.len() ==> members@.contains((#[trigger] list@[i]) as int),
            forall|v: int| #[trigger]
                members@.contains(v) ==> 0 <= v < lexicon::canon(old(self).table.vocab@).len()
                    && exists|i: int| 0 <= i < list@.len() && #[trigger] list@[i] == v,
            forall|v: int| #[trigger]
                members@.contains(v) && numbering::parents(old(self).table.vocab@)[v] >= 0
                    ==> members@.contains(numbering::parents(old(self).table.vocab@)[v]),
        ensures
            final(self).wf(),
            final(self).table == old(self).table,
            final(self).members@ == members@,
    {
        let ghost tokens = self.table.vocab@;
        let ghost par = self.par();
        proof {
            numbering::lemma_forest(tokens);
        }
        let pairs: Vec<(u64, u32)> = self.sort_members(list, members);
        self.members = members;
        self.ch_list.clear();
        let mut i: usize = 0;
        while i < list.len()
            invariant
                i <= list@.len(),
                self.ready(),
                par == self.par(),
                par.len() == lexicon::canon(tokens).len(),
                self.table == old(self).table,
                self.members == members,
                self.ch_list@.len() == 0,
                forall|v: int| #[trigger]
                    members@.contains(v) ==> 0 <= v < lexicon::canon(tokens).len(),
                forall|a: int|
                    0 <= a < list@.len() ==> members@.contains((#[trigger] list@[a]) as int),
                forall|a: int|
                    0 <= a < i ==> self.ch_start@[(#[trigger] list@[a]) as int] == 0
                        && self.ch_end@[list@[a] as int] == 0,
            decreases list.len() - i,
        {
            let v: usize = usize::from_u32(list[i]);
            assert(members@.contains(list@[i as int] as int));
            self.ch_start.set(v, 0);
            self.ch_end.set(v, 0);
            i += 1;
        }
        proof {
            assert forall|c: int| #[trigger] members@.contains(c) implies self.ch_start@[c] == 0
                && self.ch_end@[c] == 0 by {
                let a = choose|a: int| 0 <= a < list@.len() && #[trigger] list@[a] == c;
                assert(self.ch_start@[list@[a] as int] == 0);
            }
        }
        let mut n: usize = 0;
        while n < pairs.len()
            invariant
                n <= pairs@.len(),
                pairs@.len() <= u32::MAX,
                self.ready(),
                tokens == self.table.vocab@,
                lexicon::vocab_error(tokens) is None,
                par == self.par(),
                forest::forest(par),
                par.len() == lexicon::canon(tokens).len(),
                self.table == old(self).table,
                self.members == members,
                sorted_members(tokens, members@, pairs@),
                forall|v: int| #[trigger]
                    members@.contains(v) ==> 0 <= v < lexicon::canon(tokens).len(),
                forall|v: int| #[trigger]
                    members@.contains(v) && par[v] >= 0 ==> members@.contains(par[v]),
                self.ch_list@.len() == n,
                forall|q: int| 0 <= q < n ==> #[trigger] self.ch_list@[q] == pairs@[q].1,
                forall|c: int| #[trigger]
                    members@.contains(c) ==> self.ch_start@[c] <= self.ch_end@[c] <= n,
                forall|c: int, q: int|
                    #![trigger members@.contains(c), pairs@[q]]
                    members@.contains(c) && 0 <= q < n ==> (par[pairs@[q].1 as int] == c
                        <==> self.ch_start@[c] <= q < self.ch_end@[c]),
            decreases pairs.len() - n,
        {
            let v: u32 = pairs[n].1;
            let vi: usize = usize::from_u32(v);
            assert(members@.contains(pairs@[n as int].1 as int));
            proof {
                self.table.lemma_stored(v as int);
            }
            let c: u32 = self.table.suc[vi];
            let ci: usize = usize::from_u32(c);
            assert(members@.contains(c as int));
            let mut first: bool = true;
            if n > 0 {
                let w: u32 = pairs[n - 1].1;
                assert(members@.contains(pairs@[n - 1].1 as int));
                proof {
                    self.table.lemma_stored(w as int);
                }
                first = self.table.suc[usize::from_u32(w)] != c;
                assert(first == (par[w as int] != c));
            }
            let ghost before = *self;
            proof {
                assert forall|q: int| 0 <= q < n && par[(#[trigger] pairs@[q]).1 as int]
                    == c implies !first by {
                    lemma_pair_order(tokens, members@, pairs@, q, n as int);
                    if q < n - 1 {
                        lemma_pair_order(tokens, members@, pairs@, q, n - 1);
                    }
                    lemma_pair_order(tokens, members@, pairs@, n - 1, n as int);
                }
                if !first {
                    assert(par[pairs@[n - 1].1 as int] == c);
                }
            }
            if first {
                self.ch_start.set(ci, n as u32);
            }
            self.ch_end.set(ci, n as u32 + 1);
            self.ch_list.push(v);
            proof {
                assert forall|d: int, q: int|
                    #![trigger members@.contains(d), pairs@[q]]
                    members@.contains(d) && 0 <= q < n + 1 implies (par[pairs@[q].1 as int] == d
                    <==> self.ch_start@[d] <= q < self.ch_end@[d]) by {
                    if q < n {
                        assert(par[pairs@[q].1 as int] == d <==> before.ch_start@[d] <= q
                            < before.ch_end@[d]);
                    }
                }
            }
            n += 1;
        }
        proof {
            assert forall|c: int| #[trigger] self.members@.contains(c) implies self.lists(c) by {
                let lo = self.ch_start@[c] as int;
                let hi = self.ch_end@[c] as int;
                assert forall|j: int| lo <= j < hi implies self.members@.contains(
                    (#[trigger] self.ch_list@[j]) as int,
                ) && self.par()[self.ch_list@[j] as int] == c by {
                    assert(members@.contains(c));
                    assert(members@.contains(pairs@[j].1 as int));
                }
                assert forall|v: int| #[trigger] self.members@.contains(v) && self.par()[v]
                    == c implies exists|j: int|
                    lo <= j < hi && #[trigger] self.ch_list@[j] == v by {
                    let j = choose|j: int| 0 <= j < pairs@.len() && (#[trigger] pairs@[j]).1 == v;
                    assert(members@.contains(c));
                    assert(self.ch_list@[j] == v);
                }
                assert forall|i: int, j: int| lo <= i < j < hi implies suffixes::valid(
                    self.table.vocab@,
                    (#[trigger] self.ch_list@[i]) as int,
                ).end <= suffixes::valid(
                    self.table.vocab@,
                    (#[trigger] self.ch_list@[j]) as int,
                ).start by {
                    assert(members@.contains(c));
                    assert(pairs@[i].1 == self.ch_list@[i]);
                    assert(pairs@[j].1 == self.ch_list@[j]);
                    lemma_pair_order(tokens, members@, pairs@, i, j);
                }
            }
        }
    }
}

} // verus!
