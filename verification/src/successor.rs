//! The successor forest and the last token of a text.
//!
//! The parent of a canonical token is the right component of its last merge. While a text is
//! merged, its last part climbs this forest from the last byte up to the last token. The main
//! result, [`theorem_last_token`], says when a given token lies on that path, in terms of the last
//! token of a shorter text.

use vstd::prelude::*;

use crate::merge;
use crate::merge::Ranks;

verus! {

/// Whether `u` is `x` or an ancestor of `x` in the successor forest.
pub open spec fn in_subtree(ranks: Ranks, x: Seq<u8>, u: Seq<u8>) -> bool
    decreases x.len(),
{
    u == x || (x.len() >= 2 && merge::suc(ranks, x).len() < x.len() && in_subtree(
        ranks,
        merge::suc(ranks, x),
        u,
    ))
}

/// The child of `u` on the path from `u` down to `x`, where `x` lies strictly below `u`.
pub open spec fn branch(ranks: Ranks, u: Seq<u8>, x: Seq<u8>) -> Seq<u8>
    decreases x.len(),
{
    if x.len() < 2 || merge::suc(ranks, x).len() >= x.len() || merge::suc(ranks, x) == u {
        x
    } else {
        branch(ranks, u, merge::suc(ranks, x))
    }
}

/// The condition under which `t` is the last part of some state of a text that ends with `t`,
/// where `h` is the last token of that text without its final `suc(t)`.
pub open spec fn follows(ranks: Ranks, h: Seq<u8>, t: Seq<u8>) -> bool {
    &&& in_subtree(ranks, h, merge::pre(ranks, t))
    &&& h == merge::pre(ranks, t) || ranks[branch(ranks, merge::pre(ranks, t), h)] > ranks[t]
}

/// Whether `t` is the last part of some state of `s`.
pub open spec fn ends(ranks: Ranks, s: Seq<u8>, t: Seq<u8>) -> bool {
    exists|k: nat| #[trigger] merge::state(ranks, s, k).last() == t
}

/// Whether every pair that can be merged ranks after `x`.
pub open spec fn all_above(ranks: Ranks, p: Seq<Seq<u8>>, x: u32) -> bool {
    forall|j: int| #[trigger] merge::mergeable(ranks, p, j) ==> merge::pair_priority(ranks, p, j) > x
}

/// The subtree relation is a relation between suffixes.
pub proof fn lemma_subtree_suffix(ranks: Ranks, x: Seq<u8>, u: Seq<u8>)
    requires
        in_subtree(ranks, x, u),
        merge::canonical(ranks, x),
    ensures
        merge::canonical(ranks, u),
        u.len() <= x.len(),
        u.len() == x.len() ==> u == x,
        x.skip(x.len() - u.len()) == u,
    decreases x.len(),
{
    if u != x {
        merge::lemma_canonical_split(ranks, x);
        let y = merge::suc(ranks, x);
        lemma_subtree_suffix(ranks, y, u);
        assert(x.skip(x.len() - u.len()) =~= y.skip(y.len() - u.len()));
    } else {
        assert(x.skip(0) =~= x);
    }
}

/// Below `u` is below the parent of `u`.
pub proof fn lemma_subtree_parent(ranks: Ranks, x: Seq<u8>, u: Seq<u8>)
    requires
        in_subtree(ranks, x, u),
        merge::canonical(ranks, u),
        u.len() >= 2,
    ensures
        in_subtree(ranks, x, merge::suc(ranks, u)),
    decreases x.len(),
{
    merge::lemma_canonical_split(ranks, u);
    if u != x {
        lemma_subtree_parent(ranks, merge::suc(ranks, x), u);
    } else {
        assert(in_subtree(ranks, merge::suc(ranks, x), merge::suc(ranks, u)));
    }
}

/// The subtree relation is transitive.
pub proof fn lemma_subtree_trans(ranks: Ranks, x: Seq<u8>, y: Seq<u8>, u: Seq<u8>)
    requires
        in_subtree(ranks, x, y),
        in_subtree(ranks, y, u),
    ensures
        in_subtree(ranks, x, u),
    decreases x.len(),
{
    if x != y {
        lemma_subtree_trans(ranks, merge::suc(ranks, x), y, u);
    }
}

/// The ancestors of one token form a path: the longer of two lies below the shorter.
pub proof fn lemma_subtree_path(ranks: Ranks, x: Seq<u8>, u: Seq<u8>, v: Seq<u8>)
    requires
        merge::canonical(ranks, x),
        in_subtree(ranks, x, u),
        in_subtree(ranks, x, v),
        u.len() <= v.len(),
    ensures
        in_subtree(ranks, v, u),
    decreases x.len(),
{
    lemma_subtree_suffix(ranks, x, u);
    lemma_subtree_suffix(ranks, x, v);
    if v != x {
        merge::lemma_canonical_split(ranks, x);
        lemma_subtree_path(ranks, merge::suc(ranks, x), u, v);
    }
}

/// A proper descendant lies in the subtree of exactly one child.
pub proof fn lemma_branch(ranks: Ranks, u: Seq<u8>, x: Seq<u8>)
    requires
        in_subtree(ranks, x, u),
        x != u,
        merge::canonical(ranks, x),
    ensures
        ({
            let c = branch(ranks, u, x);
            &&& in_subtree(ranks, x, c)
            &&& merge::canonical(ranks, c)
            &&& c.len() >= 2
            &&& merge::suc(ranks, c) == u
        }),
    decreases x.len(),
{
    merge::lemma_canonical_split(ranks, x);
    if merge::suc(ranks, x) != u {
        lemma_branch(ranks, u, merge::suc(ranks, x));
    }
}

pub proof fn lemma_branch_unique(ranks: Ranks, u: Seq<u8>, x: Seq<u8>, c: Seq<u8>)
    requires
        merge::canonical(ranks, x),
        in_subtree(ranks, x, c),
        c.len() >= 2,
        merge::suc(ranks, c) == u,
    ensures
        branch(ranks, u, x) == c,
        in_subtree(ranks, x, u),
        x != u,
    decreases x.len(),
{
    lemma_subtree_suffix(ranks, x, c);
    merge::lemma_canonical_split(ranks, c);
    lemma_subtree_parent(ranks, x, c);
    if x != c {
        merge::lemma_canonical_split(ranks, x);
        lemma_branch_unique(ranks, u, merge::suc(ranks, x), c);
        lemma_subtree_suffix(ranks, merge::suc(ranks, x), c);
    }
}

/// What one step does to the last part.
proof fn lemma_step_last(ranks: Ranks, p: Seq<Seq<u8>>)
    requires
        merge::reached(ranks, p),
        merge::has_next(ranks, p),
    ensures
        ({
            let n = p.len() as int;
            let c = merge::step(ranks, p).last();
            &&& merge::next_of(ranks, p) < n - 2 ==> c == p.last()
            &&& merge::next_of(ranks, p) == n - 2 ==> {
                &&& c == p[n - 2] + p[n - 1]
                &&& merge::canonical(ranks, c)
                &&& c.len() >= 2
                &&& merge::pre(ranks, c) == p[n - 2]
                &&& merge::suc(ranks, c) == p[n - 1]
                &&& ranks[c] == merge::pair_priority(ranks, p, n - 2)
            }
            &&& merge::next_of(ranks, p) <= n - 2
        }),
{
    let n = p.len() as int;
    merge::lemma_step(ranks, p);
    if merge::next_of(ranks, p) == n - 2 {
        merge::lemma_block(ranks, p, n - 2, n);
        assert(p.subrange(n - 2, n) =~= seq![p[n - 2], p[n - 1]]);
        merge::lemma_reached_pair(ranks, p[n - 2], p[n - 1]);
    }
}

/// In a proper vocabulary later merges never rank before earlier ones.
proof fn lemma_above_step(ranks: Ranks, p: Seq<Seq<u8>>, x: u32)
    requires
        merge::proper(ranks),
        merge::reached(ranks, p),
        all_above(ranks, p, x),
    ensures
        all_above(ranks, merge::step(ranks, p), x),
{
    merge::lemma_step(ranks, p);
    merge::lemma_reached_step(ranks, p);
    if merge::has_next(ranks, p) {
        let i = merge::next_of(ranks, p);
        let q = merge::step(ranks, p);
        let m = p[i] + p[i + 1];
        assert(q[i] == m);
        assert(merge::mergeable(ranks, p, i));
        assert forall|j: int| #[trigger] merge::mergeable(ranks, q, j) implies merge::pair_priority(ranks, q, j)
            > x by {
            if j + 1 < i {
                assert(merge::mergeable(ranks, p, j));
            } else if j > i {
                assert(merge::mergeable(ranks, p, j + 1));
            } else {
                merge::lemma_block(ranks, q, j, j + 2);
                assert(q.subrange(j, j + 2) =~= seq![q[j], q[j + 1]]);
                merge::lemma_reached_pair(ranks, q[j], q[j + 1]);
                assert(merge::canonical(ranks, q[j] + q[j + 1]));
            }
        }
    }
}

/// A state of a canonical token that still has several parts merges next at a rank of at most the
/// token's own.
proof fn lemma_canonical_next(ranks: Ranks, q: Seq<u8>, r: Seq<Seq<u8>>)
    requires
        merge::proper(ranks),
        merge::canonical(ranks, q),
        merge::reached(ranks, r),
        merge::flat(r) == q,
        r.len() >= 2,
    ensures
        merge::has_next(ranks, r),
        merge::pair_priority(ranks, r, merge::next_of(ranks, r)) <= ranks[q],
{
    merge::lemma_one_reached(ranks, q);
    merge::lemma_flat_one(q);
    merge::lemma_reached_order(ranks, r, seq![q]);
    merge::lemma_next(ranks, r);
    if merge::pair_priority(ranks, r, merge::next_of(ranks, r)) > ranks[q] {
        assert(all_above(ranks, r, ranks[q])) by {
            assert forall|j: int| #[trigger] merge::mergeable(ranks, r, j) implies merge::pair_priority(
                ranks,
                r,
                j,
            ) > ranks[q] by {
                assert(merge::is_next(ranks, r, merge::next_of(ranks, r)));
            }
        }
        lemma_never_above(ranks, q, r);
    }
}

proof fn lemma_never_above(ranks: Ranks, q: Seq<u8>, r: Seq<Seq<u8>>)
    requires
        merge::proper(ranks),
        merge::canonical(ranks, q),
        merge::reached(ranks, r),
        merge::flat(r) == q,
        r.len() >= 2,
    ensures
        !all_above(ranks, r, ranks[q]),
    decreases r.len(),
{
    if r.len() == 2 {
        merge::lemma_parts_nonempty(ranks, r);
        assert(r[0].len() > 0 && r[1].len() > 0);
        assert(r =~= seq![r[0], r[1]]);
        merge::lemma_flat_two(r[0], r[1]);
        merge::lemma_canonical_split(ranks, q);
        assert(merge::mergeable(ranks, r, 0));
    } else {
        merge::lemma_one_reached(ranks, q);
        merge::lemma_flat_one(q);
        merge::lemma_reached_order(ranks, r, seq![q]);
        merge::lemma_step(ranks, r);
        merge::lemma_reached_step(ranks, r);
        if all_above(ranks, r, ranks[q]) {
            lemma_above_step(ranks, r, ranks[q]);
        }
        lemma_never_above(ranks, q, merge::step(ranks, r));
    }
}

proof fn lemma_state_reached(ranks: Ranks, s: Seq<u8>, k: nat)
    ensures
        merge::reached(ranks, merge::state(ranks, s, k)),
        merge::flat(merge::state(ranks, s, k)) == s,
        s.len() > 0 ==> merge::state(ranks, s, k).len() > 0,
{
    merge::lemma_state_flat(ranks, s, k);
    merge::lemma_state_len(ranks, s, k);
    assert(merge::state(ranks, merge::flat(merge::state(ranks, s, k)), k) == merge::state(ranks, s, k));
}

/// A state that ends with `t` was entered by the last merge of `t`.
proof fn lemma_enter(ranks: Ranks, s: Seq<u8>, t: Seq<u8>, k: nat) -> (y: Seq<Seq<u8>>)
    requires
        s.len() > 0,
        merge::state(ranks, s, k).last() == t,
        t.len() >= 2,
    ensures
        merge::reached(ranks, y),
        merge::flat(y) == s,
        y.len() >= 2,
        merge::canonical(ranks, t),
        y[y.len() - 2] == merge::pre(ranks, t),
        y.last() == merge::suc(ranks, t),
        merge::has_next(ranks, y),
        merge::next_of(ranks, y) == y.len() - 2,
        ranks[t] == merge::pair_priority(ranks, y, y.len() - 2),
    decreases k,
{
    if k == 0 {
        assert(merge::atoms(s).last().len() == 1);
        arbitrary()
    } else {
        let p = merge::state(ranks, s, (k - 1) as nat);
        lemma_state_reached(ranks, s, (k - 1) as nat);
        merge::lemma_step(ranks, p);
        if p.last() == t {
            lemma_enter(ranks, s, t, (k - 1) as nat)
        } else {
            lemma_step_last(ranks, p);
            p
        }
    }
}

/// Every last part of a state is an ancestor of the last token.
proof fn lemma_last_part_above(ranks: Ranks, s: Seq<u8>, k: nat)
    requires
        s.len() > 0,
    ensures
        in_subtree(ranks, merge::last_token(ranks, s), merge::state(ranks, s, k).last()),
    decreases s.len() - k,
{
    let p = merge::state(ranks, s, k);
    lemma_state_reached(ranks, s, k);
    if !merge::has_next(ranks, p) {
        merge::lemma_reached_final(ranks, p);
    } else if k >= s.len() {
        merge::lemma_state_len(ranks, s, k);
    } else {
        merge::lemma_step(ranks, p);
        lemma_last_part_above(ranks, s, k + 1);
        lemma_step_last(ranks, p);
        assert(merge::state(ranks, s, k + 1) == merge::step(ranks, p));
        if merge::next_of(ranks, p) == p.len() - 2 {
            lemma_subtree_parent(ranks, merge::last_token(ranks, s), merge::step(ranks, p).last());
        }
    }
}

/// Every ancestor of a last part is a last part.
proof fn lemma_above_last_part(ranks: Ranks, s: Seq<u8>, x: Seq<u8>, t: Seq<u8>)
    requires
        s.len() > 0,
        ends(ranks, s, x),
        in_subtree(ranks, x, t),
    ensures
        ends(ranks, s, t),
    decreases x.len(),
{
    if x != t {
        let k = choose|k: nat| #[trigger] merge::state(ranks, s, k).last() == x;
        let y = lemma_enter(ranks, s, x, k);
        let j = choose|j: nat| #[trigger] merge::state(ranks, merge::flat(y), j) == y;
        assert(merge::state(ranks, s, j).last() == merge::suc(ranks, x));
        lemma_above_last_part(ranks, s, merge::suc(ranks, x), t);
    }
}

/// The last parts of the states of a text are exactly the ancestors of its last token.
pub proof fn lemma_ends(ranks: Ranks, s: Seq<u8>, t: Seq<u8>)
    requires
        s.len() > 0,
    ensures
        ends(ranks, s, t) <==> in_subtree(ranks, merge::last_token(ranks, s), t),
{
    if ends(ranks, s, t) {
        let k = choose|k: nat| #[trigger] merge::state(ranks, s, k).last() == t;
        lemma_last_part_above(ranks, s, k);
    }
    if in_subtree(ranks, merge::last_token(ranks, s), t) {
        assert(merge::state(ranks, s, s.len()).last() == merge::last_token(ranks, s));
        lemma_above_last_part(ranks, s, merge::last_token(ranks, s), t);
    }
}

proof fn lemma_reached_ends(ranks: Ranks, p: Seq<Seq<u8>>)
    requires
        merge::reached(ranks, p),
        merge::flat(p).len() > 0,
    ensures
        ends(ranks, merge::flat(p), p.last()),
        in_subtree(ranks, merge::last_token(ranks, merge::flat(p)), p.last()),
{
    let k = choose|k: nat| #[trigger] merge::state(ranks, merge::flat(p), k) == p;
    assert(merge::state(ranks, merge::flat(p), k).last() == p.last());
    lemma_ends(ranks, merge::flat(p), p.last());
}

/// Where all pairs of a state rank after `x`, the last part is left only by a merge after `x`.
proof fn lemma_leave_above(ranks: Ranks, p: Seq<Seq<u8>>, x: u32)
    requires
        merge::proper(ranks),
        merge::reached(ranks, p),
        p.len() > 0,
        all_above(ranks, p, x),
        merge::last_token(ranks, merge::flat(p)) != p.last(),
    ensures
        ranks[branch(ranks, p.last(), merge::last_token(ranks, merge::flat(p)))] > x,
    decreases p.len(),
{
    let h = merge::last_token(ranks, merge::flat(p));
    merge::lemma_parts_nonempty(ranks, p);
    assert(p[p.len() - 1].len() > 0);
    merge::lemma_flat_cut(p, p.len() - 1);
    merge::lemma_flat_push(p.drop_last(), p.last());
    assert(p =~= p.drop_last().push(p.last()));
    if !merge::has_next(ranks, p) {
        merge::lemma_reached_final(ranks, p);
    } else {
        let q = merge::step(ranks, p);
        merge::lemma_step(ranks, p);
        merge::lemma_reached_step(ranks, p);
        lemma_above_step(ranks, p, x);
        lemma_step_last(ranks, p);
        if merge::next_of(ranks, p) < p.len() - 2 {
            lemma_leave_above(ranks, q, x);
        } else {
            lemma_reached_ends(ranks, q);
            merge::lemma_tokenize_back(ranks, merge::flat(p));
            lemma_branch_unique(ranks, p.last(), h, q.last());
            assert(merge::mergeable(ranks, p, p.len() - 2));
        }
    }
}

proof fn lemma_follows_if(ranks: Ranks, s: Seq<u8>, t: Seq<u8>)
    requires
        merge::proper(ranks),
        t.len() >= 2,
        s.len() > 0,
        ends(ranks, s, t),
    ensures
        merge::suc(ranks, t).len() < s.len(),
        follows(ranks, merge::last_token(ranks, merge::chop(s, merge::suc(ranks, t).len())), t),
{
    let k = choose|k: nat| #[trigger] merge::state(ranks, s, k).last() == t;
    let y = lemma_enter(ranks, s, t, k);
    let n = y.len() as int;
    let l = y.subrange(0, n - 1);
    let w = merge::chop(s, merge::suc(ranks, t).len());
    merge::lemma_block(ranks, y, 0, n - 1);
    merge::lemma_flat_push(l, y.last());
    assert(y =~= l.push(y.last()));
    assert(w =~= merge::flat(l));
    assert(l.last() == merge::pre(ranks, t));
    merge::lemma_parts_nonempty(ranks, l);
    assert(l[n - 2].len() > 0);
    merge::lemma_flat_push(l.drop_last(), l.last());
    assert(l =~= l.drop_last().push(l.last()));
    lemma_reached_ends(ranks, l);
    merge::lemma_next(ranks, y);
    assert(all_above(ranks, l, ranks[t])) by {
        assert forall|j: int| #[trigger] merge::mergeable(ranks, l, j) implies merge::pair_priority(ranks, l, j)
            > ranks[t] by {
            assert(merge::mergeable(ranks, y, j));
            assert(merge::is_next(ranks, y, n - 2));
        }
    }
    if merge::last_token(ranks, w) != merge::pre(ranks, t) {
        lemma_leave_above(ranks, l, ranks[t]);
    }
}

/// The joint run: as long as the left part of the text has not passed `a`, the cut before `suc(t)`
/// can only be closed by the last merge of `t`.
#[verifier::spinoff_prover]
#[verifier::rlimit(60)]
proof fn lemma_join(
    ranks: Ranks,
    t: Seq<u8>,
    a: Seq<Seq<u8>>,
    l: Seq<Seq<u8>>,
    r: Seq<Seq<u8>>,
)
    requires
        merge::proper(ranks),
        merge::canonical(ranks, t),
        t.len() >= 2,
        merge::reached(ranks, a),
        a.len() > 0,
        a.last() == merge::pre(ranks, t),
        all_above(ranks, a, ranks[t]),
        merge::reached(ranks, l),
        merge::flat(l) == merge::flat(a),
        l.len() >= a.len(),
        merge::reached(ranks, r),
        merge::flat(r) == merge::suc(ranks, t),
        merge::reached(ranks, l + r),
    ensures
        ends(ranks, merge::flat(l + r), t),
    decreases l.len() + r.len(),
{
    let p = l + r;
    let u = merge::pre(ranks, t);
    let v = merge::suc(ranks, t);
    let nl = l.len() as int;
    let n = p.len() as int;
    merge::lemma_canonical_split(ranks, t);
    merge::lemma_flat_add(l, r);
    merge::lemma_reached_order(ranks, l, a);
    merge::lemma_one_reached(ranks, v);
    merge::lemma_flat_one(v);
    assert(r.len() > 0) by {
        if r.len() == 0 {
            assert(merge::flat(r).len() == 0);
        }
    }
    if r.len() == 1 {
        merge::lemma_reached_order(ranks, r, seq![v]);
    } else {
        lemma_canonical_next(ranks, v, r);
        merge::lemma_next(ranks, r);
        assert(merge::mergeable(ranks, r, merge::next_of(ranks, r)));
    }
    assert(merge::canonical(ranks, t));
    // A pair to the right of the cut, or at it, ranks at most as `t`.
    if l == a {
        let m = if r.len() == 1 {
            nl - 1
        } else {
            nl + merge::next_of(ranks, r)
        };
        if r.len() == 1 {
            assert(p[nl - 1] == u && p[nl] == v);
        } else {
            let x = merge::next_of(ranks, r);
            assert(p[nl + x] == r[x] && p[nl + x + 1] == r[x + 1]);
        }
        assert(merge::mergeable(ranks, p, m));
        assert(merge::pair_priority(ranks, p, m) <= ranks[t]);
    } else {
        let x = choose|x: int| merge::mergeable(ranks, l, x);
        assert(merge::mergeable(ranks, p, x));
    }
    merge::lemma_step(ranks, p);
    merge::lemma_reached_step(ranks, p);
    let i = merge::next_of(ranks, p);
    let o = merge::step(ranks, p);
    if i < nl - 1 {
        if l == a {
            assert(merge::mergeable(ranks, a, i));
            assert(merge::pair_priority(ranks, a, i) == merge::pair_priority(ranks, p, i));
            assert(false);
        }
        merge::lemma_next_in_block(ranks, p, 0, nl);
        assert(p.subrange(0, nl) =~= l);
        merge::lemma_step(ranks, l);
        merge::lemma_reached_step(ranks, l);
        assert(o =~= merge::step(ranks, l) + r);
        lemma_join(ranks, t, a, merge::step(ranks, l), r);
    } else if i > nl - 1 {
        merge::lemma_next_in_block(ranks, p, nl, n);
        assert(p.subrange(nl, n) =~= r);
        merge::lemma_step(ranks, r);
        merge::lemma_reached_step(ranks, r);
        assert(o =~= l + merge::step(ranks, r));
        lemma_join(ranks, t, a, l, merge::step(ranks, r));
    } else {
        lemma_close(ranks, t, a, l, r);
    }
}

/// The case of [`lemma_join`] in which the next merge closes the cut.
#[verifier::spinoff_prover]
#[verifier::rlimit(60)]
proof fn lemma_close(
    ranks: Ranks,
    t: Seq<u8>,
    a: Seq<Seq<u8>>,
    l: Seq<Seq<u8>>,
    r: Seq<Seq<u8>>,
)
    requires
        merge::canonical(ranks, t),
        t.len() >= 2,
        merge::reached(ranks, a),
        a.len() > 0,
        a.last() == merge::pre(ranks, t),
        merge::reached(ranks, l),
        merge::flat(l) == merge::flat(a),
        l.len() >= a.len(),
        merge::reached(ranks, r),
        merge::flat(r) == merge::suc(ranks, t),
        r.len() > 0,
        merge::reached(ranks, l + r),
        merge::has_next(ranks, l + r),
        merge::next_of(ranks, l + r) == l.len() - 1,
    ensures
        ends(ranks, merge::flat(l + r), t),
{
    let p = l + r;
    let u = merge::pre(ranks, t);
    let v = merge::suc(ranks, t);
    let n = p.len() as int;
    merge::lemma_canonical_split(ranks, t);
    let j = merge::lemma_cut_earlier(ranks, l, a, a.len() - 1);
    let l2 = l.skip(j);
    assert(a.skip(a.len() - 1) =~= seq![u]);
    merge::lemma_flat_one(u);
    assert(merge::flat(l2) == u);
    assert(l2.len() > 0) by {
        if l2.len() == 0 {
            assert(merge::flat(l2).len() == 0);
        }
    }
    let b = p.subrange(j, n);
    assert(b =~= l2 + r);
    merge::lemma_flat_add(l2, r);
    merge::lemma_block(ranks, p, j, n);
    merge::lemma_next_in_block(ranks, p, j, n);
    merge::lemma_step(ranks, b);
    merge::lemma_step(ranks, p);
    merge::lemma_reached_step(ranks, b);
    let c = merge::step(ranks, b);
    let m = l2.len() - 1;
    merge::lemma_parts_nonempty(ranks, b);
    assert(b[m].len() > 0 && b[m + 1].len() > 0);
    if c.len() >= 2 {
        merge::lemma_flat_two(u, v);
        let i = merge::lemma_cut_earlier(ranks, c, seq![u, v], 1);
        assert(seq![u, v].take(1) =~= seq![u]);
        assert(merge::flat(c.take(i)) == u);
        if i <= m {
            assert(c.take(i) =~= l2.take(i));
            merge::lemma_flat_cut(l2, i);
            merge::lemma_flat_cut(l2.skip(i), m - i);
            assert(l2.skip(i).skip(m - i) =~= seq![b[m]]);
            merge::lemma_flat_one(b[m]);
        } else {
            merge::lemma_flat_cut(c.take(i), m + 1);
            assert(c.take(i).take(m + 1) =~= l2.drop_last().push(b[m] + b[m + 1]));
            merge::lemma_flat_push(l2.drop_last(), b[m] + b[m + 1]);
            merge::lemma_flat_push(l2.drop_last(), b[m]);
            assert(l2 =~= l2.drop_last().push(b[m]));
        }
        assert(false);
    }
    assert(l2.len() == 1 && r.len() == 1);
    assert(l2 =~= seq![l2[0]]);
    assert(r =~= seq![r[0]]);
    merge::lemma_flat_one(l2[0]);
    merge::lemma_flat_one(r[0]);
    assert(merge::step(ranks, p).last() == t);
    merge::lemma_reached_step(ranks, p);
    let k = choose|k: nat| #[trigger] merge::state(ranks, merge::flat(merge::step(ranks, p)), k) == merge::step(ranks, p);
    assert(merge::state(ranks, merge::flat(p), k).last() == t);
}

proof fn lemma_ends_if(ranks: Ranks, s: Seq<u8>, t: Seq<u8>)
    requires
        merge::proper(ranks),
        merge::canonical(ranks, t),
        t.len() >= 2,
        t.len() <= s.len(),
        s.skip(s.len() - t.len()) == t,
        follows(ranks, merge::last_token(ranks, merge::chop(s, merge::suc(ranks, t).len())), t),
    ensures
        ends(ranks, s, t),
{
    let u = merge::pre(ranks, t);
    let v = merge::suc(ranks, t);
    let w = merge::chop(s, v.len());
    merge::lemma_canonical_split(ranks, t);
    let h = merge::last_token(ranks, w);
    merge::lemma_tokenize_back(ranks, w);
    merge::lemma_tokenize(ranks, w);
    let a = if h == u {
        merge::tokenize(ranks, w)
    } else {
        lemma_branch(ranks, u, h);
        let c = branch(ranks, u, h);
        lemma_ends(ranks, w, c);
        let k = choose|k: nat| #[trigger] merge::state(ranks, w, k).last() == c;
        lemma_enter(ranks, w, c, k)
    };
    if h == u {
        assert(all_above(ranks, a, ranks[t]));
    } else {
        merge::lemma_next(ranks, a);
        assert forall|j: int| #[trigger] merge::mergeable(ranks, a, j) implies merge::pair_priority(ranks, a, j)
            > ranks[t] by {
            assert(merge::is_next(ranks, a, a.len() - 2));
        }
    }
    let l = merge::atoms(w);
    let r = merge::atoms(v);
    lemma_state_reached(ranks, w, 0);
    lemma_state_reached(ranks, v, 0);
    lemma_state_reached(ranks, s, 0);
    assert(s =~= w + v) by {
        assert forall|i: int| w.len() <= i < s.len() implies s[i] == v[i - w.len()] by {
            let d = s.len() - t.len();
            assert(s[i] == s.skip(d)[i - d]);
            assert(t[i - d] == (u + v)[i - d]);
        }
    }
    assert(l + r =~= merge::atoms(s));
    merge::lemma_flat_add(l, r);
    lemma_reached_len(ranks, a);
    lemma_join(ranks, t, a, l, r);
}

proof fn lemma_reached_len(ranks: Ranks, p: Seq<Seq<u8>>)
    requires
        merge::reached(ranks, p),
    ensures
        p.len() <= merge::flat(p).len(),
{
    let k = choose|k: nat| #[trigger] merge::state(ranks, merge::flat(p), k) == p;
    merge::lemma_state_len(ranks, merge::flat(p), k);
}

/// Let `t` be a canonical token of two or more bytes that the text `s` ends with. Then `t` is the
/// last token of `s` or one of its ancestors in the successor forest, exactly when the last token
/// of `s` without `suc(t)` lies in the subtree of `pre(t)`, and on the way down from `pre(t)` first
/// passes a token that ranks after `t`, if any.
pub proof fn theorem_last_token(ranks: Ranks, s: Seq<u8>, t: Seq<u8>)
    requires
        merge::proper(ranks),
        merge::canonical(ranks, t),
        t.len() >= 2,
        t.len() <= s.len(),
        s.skip(s.len() - t.len()) == t,
    ensures
        in_subtree(ranks, merge::last_token(ranks, s), t) <==> follows(
            ranks,
            merge::last_token(ranks, merge::chop(s, merge::suc(ranks, t).len())),
            t,
        ),
{
    lemma_ends(ranks, s, t);
    if ends(ranks, s, t) {
        lemma_follows_if(ranks, s, t);
    }
    if follows(ranks, merge::last_token(ranks, merge::chop(s, merge::suc(ranks, t).len())), t) {
        lemma_ends_if(ranks, s, t);
    }
}

} // verus!
