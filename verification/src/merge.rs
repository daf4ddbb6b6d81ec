//! Standard byte pair encoding, as a mathematical model.
//!
//! A text is cut into parts. It starts as one part per byte, and as long as some two neighbouring
//! parts form a vocabulary entry, the pair whose entry has the smallest rank is replaced by that
//! entry, the leftmost such pair first. [`tokenize`] is the final state.

use vstd::prelude::*;

verus! {

/// The vocabulary: each byte string with its rank.
pub type Ranks = Map<Seq<u8>, u32>;

/// The text that a sequence of parts spells.
pub open spec fn flat(parts: Seq<Seq<u8>>) -> Seq<u8>
    decreases parts.len(),
{
    if parts.len() == 0 {
        Seq::empty()
    } else {
        flat(parts.drop_last()) + parts.last()
    }
}

/// The initial state: one part per byte.
pub open spec fn atoms(s: Seq<u8>) -> Seq<Seq<u8>> {
    Seq::new(s.len(), |i: int| seq![s[i]])
}

/// Whether parts `i` and `i + 1` form a vocabulary entry.
pub open spec fn mergeable(ranks: Ranks, parts: Seq<Seq<u8>>, i: int) -> bool {
    0 <= i < parts.len() - 1 && ranks.contains_key(parts[i] + parts[i + 1])
}

/// The rank of the entry that parts `i` and `i + 1` form.
pub open spec fn pair_priority(ranks: Ranks, parts: Seq<Seq<u8>>, i: int) -> u32 {
    ranks[parts[i] + parts[i + 1]]
}

/// Whether the pair at `i` is merged next: the smallest rank, and the leftmost of that rank.
pub open spec fn is_next(ranks: Ranks, parts: Seq<Seq<u8>>, i: int) -> bool {
    &&& mergeable(ranks, parts, i)
    &&& forall|j: int| #[trigger]
        mergeable(ranks, parts, j) ==> pair_priority(ranks, parts, i) < pair_priority(
            ranks,
            parts,
            j,
        ) || (pair_priority(ranks, parts, i) == pair_priority(ranks, parts, j) && i <= j)
}

/// Whether any pair can be merged.
pub open spec fn has_next(ranks: Ranks, parts: Seq<Seq<u8>>) -> bool {
    exists|i: int| mergeable(ranks, parts, i)
}

/// The pair that is merged next.
pub open spec fn next_of(ranks: Ranks, parts: Seq<Seq<u8>>) -> int {
    choose|i: int| is_next(ranks, parts, i)
}

/// The parts after the pair at `i` became one part.
pub open spec fn merge_at(parts: Seq<Seq<u8>>, i: int) -> Seq<Seq<u8>> {
    parts.update(i, parts[i] + parts[i + 1]).remove(i + 1)
}

/// One merge, or the same parts when no pair can be merged.
pub open spec fn step(ranks: Ranks, parts: Seq<Seq<u8>>) -> Seq<Seq<u8>> {
    if has_next(ranks, parts) {
        merge_at(parts, next_of(ranks, parts))
    } else {
        parts
    }
}

/// The state after `k` steps from the single bytes of `s`.
pub open spec fn state(ranks: Ranks, s: Seq<u8>, k: nat) -> Seq<Seq<u8>>
    decreases k,
{
    if k == 0 {
        atoms(s)
    } else {
        step(ranks, state(ranks, s, (k - 1) as nat))
    }
}

/// The tokens of `s`: the state in which no pair can be merged any more.
pub open spec fn tokenize(ranks: Ranks, s: Seq<u8>) -> Seq<Seq<u8>> {
    state(ranks, s, s.len())
}

/// Whether `t` is the only token of its own text.
pub open spec fn canonical(ranks: Ranks, t: Seq<u8>) -> bool {
    t.len() > 0 && tokenize(ranks, t) == seq![t]
}

/// The left component of the last merge that forms `t`.
pub open spec fn pre(ranks: Ranks, t: Seq<u8>) -> Seq<u8> {
    state(ranks, t, (t.len() - 2) as nat)[0]
}

/// The right component of the last merge that forms `t`.
pub open spec fn suc(ranks: Ranks, t: Seq<u8>) -> Seq<u8> {
    state(ranks, t, (t.len() - 2) as nat)[1]
}

/// Whether every canonical entry ranks strictly after both components of its last merge.
pub open spec fn proper(ranks: Ranks) -> bool {
    forall|t: Seq<u8>|
        t.len() >= 2 && #[trigger] canonical(ranks, t) ==> ranks[pre(ranks, t)] < ranks[t]
            && ranks[suc(ranks, t)] < ranks[t]
}

/// Whether every single byte is an entry.
pub open spec fn has_bytes(ranks: Ranks) -> bool {
    forall|b: u8| #[trigger] ranks.contains_key(seq![b])
}

/// Whether distinct entries have distinct ranks.
pub open spec fn distinct_ranks(ranks: Ranks) -> bool {
    forall|a: Seq<u8>, b: Seq<u8>|
        #![trigger ranks[a], ranks[b]]
        ranks.contains_key(a) && ranks.contains_key(b) && ranks[a] == ranks[b] ==> a == b
}

/// Whether `parts` is a state on the way from the single bytes of its text.
pub open spec fn reached(ranks: Ranks, parts: Seq<Seq<u8>>) -> bool {
    exists|k: nat| #[trigger] state(ranks, flat(parts), k) == parts
}

pub proof fn lemma_flat_add(a: Seq<Seq<u8>>, b: Seq<Seq<u8>>)
    ensures
        flat(a + b) == flat(a) + flat(b),
    decreases b.len(),
{
    if b.len() == 0 {
        assert(a + b =~= a);
        assert(flat(a) + flat(b) =~= flat(a));
    } else {
        assert((a + b).drop_last() =~= a + b.drop_last());
        lemma_flat_add(a, b.drop_last());
        assert(flat(a + b) =~= flat(a) + flat(b));
    }
}

pub proof fn lemma_flat_one(t: Seq<u8>)
    ensures
        flat(seq![t]) == t,
{
    assert(seq![t].drop_last() =~= Seq::<Seq<u8>>::empty());
    reveal_with_fuel(flat, 2);
    assert(flat(seq![t]) =~= t);
}

pub proof fn lemma_flat_two(u: Seq<u8>, v: Seq<u8>)
    ensures
        flat(seq![u, v]) == u + v,
{
    assert(seq![u, v] =~= seq![u] + seq![v]);
    lemma_flat_add(seq![u], seq![v]);
    lemma_flat_one(u);
    lemma_flat_one(v);
}

pub proof fn lemma_flat_push(a: Seq<Seq<u8>>, t: Seq<u8>)
    ensures
        flat(a.push(t)) == flat(a) + t,
{
    assert(a.push(t).drop_last() =~= a);
}

pub proof fn lemma_flat_atoms(s: Seq<u8>)
    ensures
        flat(atoms(s)) == s,
    decreases s.len(),
{
    if s.len() > 0 {
        assert(atoms(s).drop_last() =~= atoms(s.drop_last()));
        lemma_flat_atoms(s.drop_last());
        assert(flat(atoms(s)) =~= s);
    } else {
        assert(flat(atoms(s)) =~= s);
    }
}

/// Cutting a sequence of parts at `i` cuts its text.
pub proof fn lemma_flat_cut(p: Seq<Seq<u8>>, i: int)
    requires
        0 <= i <= p.len(),
    ensures
        flat(p) == flat(p.take(i)) + flat(p.skip(i)),
{
    assert(p =~= p.take(i) + p.skip(i));
    lemma_flat_add(p.take(i), p.skip(i));
}

pub proof fn lemma_merge_at(p: Seq<Seq<u8>>, i: int)
    requires
        0 <= i < p.len() - 1,
    ensures
        merge_at(p, i).len() == p.len() - 1,
        merge_at(p, i) == p.take(i) + seq![p[i] + p[i + 1]] + p.skip(i + 2),
        flat(merge_at(p, i)) == flat(p),
{
    let m = seq![p[i] + p[i + 1]];
    assert(merge_at(p, i) =~= p.take(i) + m + p.skip(i + 2));
    assert(p =~= p.take(i) + seq![p[i], p[i + 1]] + p.skip(i + 2));
    lemma_flat_add(p.take(i) + m, p.skip(i + 2));
    lemma_flat_add(p.take(i), m);
    lemma_flat_add(p.take(i) + seq![p[i], p[i + 1]], p.skip(i + 2));
    lemma_flat_add(p.take(i), seq![p[i], p[i + 1]]);
    lemma_flat_one(p[i] + p[i + 1]);
    lemma_flat_two(p[i], p[i + 1]);
}

proof fn lemma_min_below(ranks: Ranks, p: Seq<Seq<u8>>, n: int) -> (i: int)
    requires
        exists|j: int| 0 <= j < n && mergeable(ranks, p, j),
    ensures
        0 <= i < n,
        mergeable(ranks, p, i),
        forall|j: int|
            #![trigger mergeable(ranks, p, j)]
            j < n && mergeable(ranks, p, j) ==> pair_priority(ranks, p, i) < pair_priority(ranks, p, j) || (
            pair_priority(ranks, p, i) == pair_priority(ranks, p, j) && i <= j),
    decreases n,
{
    if exists|j: int| 0 <= j < n - 1 && mergeable(ranks, p, j) {
        let i = lemma_min_below(ranks, p, n - 1);
        if mergeable(ranks, p, n - 1) && pair_priority(ranks, p, n - 1) < pair_priority(
            ranks,
            p,
            i,
        ) {
            n - 1
        } else {
            i
        }
    } else {
        n - 1
    }
}

/// When some pair can be merged, exactly one pair is next.
pub proof fn lemma_next(ranks: Ranks, p: Seq<Seq<u8>>)
    ensures
        has_next(ranks, p) ==> is_next(ranks, p, next_of(ranks, p)),
        forall|i: int| #[trigger] is_next(ranks, p, i) ==> i == next_of(ranks, p),
{
    if has_next(ranks, p) {
        let j = choose|j: int| mergeable(ranks, p, j);
        assert(0 <= j < p.len() && mergeable(ranks, p, j));
        let i = lemma_min_below(ranks, p, p.len() as int);
        assert(is_next(ranks, p, i));
    }
    assert forall|i: int| #[trigger] is_next(ranks, p, i) implies i == next_of(ranks, p) by {
        let n = next_of(ranks, p);
        assert(is_next(ranks, p, n));
        assert(mergeable(ranks, p, n));
        assert(mergeable(ranks, p, i));
    }
}

/// What one step does.
pub proof fn lemma_step(ranks: Ranks, p: Seq<Seq<u8>>)
    ensures
        flat(step(ranks, p)) == flat(p),
        has_next(ranks, p) ==> {
            let i = next_of(ranks, p);
            &&& is_next(ranks, p, i)
            &&& 0 <= i < p.len() - 1
            &&& step(ranks, p) == merge_at(p, i)
            &&& step(ranks, p).len() == p.len() - 1
        },
        !has_next(ranks, p) ==> step(ranks, p) == p,
{
    lemma_next(ranks, p);
    if has_next(ranks, p) {
        lemma_merge_at(p, next_of(ranks, p));
    }
}

pub proof fn lemma_state_flat(ranks: Ranks, s: Seq<u8>, k: nat)
    ensures
        flat(state(ranks, s, k)) == s,
    decreases k,
{
    if k == 0 {
        lemma_flat_atoms(s);
    } else {
        lemma_state_flat(ranks, s, (k - 1) as nat);
        lemma_step(ranks, state(ranks, s, (k - 1) as nat));
    }
}

/// A state has lost one part per step, or it is final.
pub proof fn lemma_state_len(ranks: Ranks, s: Seq<u8>, k: nat)
    ensures
        s.len() - k <= state(ranks, s, k).len() <= s.len(),
        s.len() > 0 ==> state(ranks, s, k).len() > 0,
        state(ranks, s, k).len() == s.len() - k || !has_next(ranks, state(ranks, s, k)),
        state(ranks, s, k) == state(ranks, s, (s.len() - state(ranks, s, k).len()) as nat),
    decreases k,
{
    if k > 0 {
        let p = state(ranks, s, (k - 1) as nat);
        lemma_state_len(ranks, s, (k - 1) as nat);
        lemma_step(ranks, p);
        if has_next(ranks, p) {
            let j = (s.len() - p.len()) as nat;
            assert(state(ranks, s, j) == p);
            assert(state(ranks, s, (j + 1) as nat) == step(ranks, p));
        }
    }
}

/// The last state is final.
pub proof fn lemma_tokenize(ranks: Ranks, s: Seq<u8>)
    ensures
        !has_next(ranks, tokenize(ranks, s)),
        flat(tokenize(ranks, s)) == s,
        reached(ranks, tokenize(ranks, s)),
        s.len() > 0 ==> tokenize(ranks, s).len() > 0,
{
    lemma_state_len(ranks, s, s.len());
    lemma_state_flat(ranks, s, s.len());
    let p = tokenize(ranks, s);
    assert(state(ranks, flat(p), s.len()) == p);
    if p.len() == 0 {
        assert forall|i: int| !mergeable(ranks, p, i) by {}
    }
}

/// A state is determined by its text and its number of parts.
pub proof fn lemma_reached_index(ranks: Ranks, p: Seq<Seq<u8>>)
    requires
        reached(ranks, p),
    ensures
        p.len() <= flat(p).len(),
        p == state(ranks, flat(p), (flat(p).len() - p.len()) as nat),
{
    let k = choose|k: nat| #[trigger] state(ranks, flat(p), k) == p;
    lemma_state_len(ranks, flat(p), k);
}

/// The next state is a state too.
pub proof fn lemma_reached_step(ranks: Ranks, p: Seq<Seq<u8>>)
    requires
        reached(ranks, p),
    ensures
        reached(ranks, step(ranks, p)),
{
    let k = choose|k: nat| #[trigger] state(ranks, flat(p), k) == p;
    lemma_step(ranks, p);
    assert(state(ranks, flat(step(ranks, p)), (k + 1) as nat) == step(ranks, p));
}

/// Of two states of one text, the one with more parts comes first.
pub proof fn lemma_reached_order(ranks: Ranks, p: Seq<Seq<u8>>, q: Seq<Seq<u8>>)
    requires
        reached(ranks, p),
        reached(ranks, q),
        flat(p) == flat(q),
    ensures
        p.len() == q.len() ==> p == q,
        p.len() > q.len() ==> has_next(ranks, p),
{
    lemma_reached_index(ranks, p);
    lemma_reached_index(ranks, q);
    if p.len() > q.len() && !has_next(ranks, p) {
        lemma_final_stays(
            ranks,
            flat(p),
            (flat(p).len() - p.len()) as nat,
            (flat(p).len() - q.len()) as nat,
        );
    }
}

proof fn lemma_final_stays(ranks: Ranks, s: Seq<u8>, j: nat, k: nat)
    requires
        j <= k,
        !has_next(ranks, state(ranks, s, j)),
    ensures
        state(ranks, s, k) == state(ranks, s, j),
    decreases k,
{
    if j < k {
        lemma_final_stays(ranks, s, j, (k - 1) as nat);
    }
}

/// A final state is the tokenization of its text.
pub proof fn lemma_reached_final(ranks: Ranks, p: Seq<Seq<u8>>)
    requires
        reached(ranks, p),
        !has_next(ranks, p),
    ensures
        tokenize(ranks, flat(p)) == p,
{
    lemma_tokenize(ranks, flat(p));
    lemma_reached_order(ranks, p, tokenize(ranks, flat(p)));
    lemma_reached_order(ranks, tokenize(ranks, flat(p)), p);
}

proof fn lemma_block_of_state(ranks: Ranks, s: Seq<u8>, k: nat, lo: int, hi: int)
    requires
        0 <= lo <= hi <= state(ranks, s, k).len(),
    ensures
        reached(ranks, state(ranks, s, k).subrange(lo, hi)),
    decreases k,
{
    let p = state(ranks, s, k);
    let y = p.subrange(lo, hi);
    if k == 0 {
        let t = s.subrange(lo, hi);
        assert(y =~= atoms(t));
        lemma_flat_atoms(t);
        assert(state(ranks, flat(y), 0) == y);
    } else {
        let o = state(ranks, s, (k - 1) as nat);
        lemma_step(ranks, o);
        if !has_next(ranks, o) {
            lemma_block_of_state(ranks, s, (k - 1) as nat, lo, hi);
        } else {
            let i = next_of(ranks, o);
            if i < lo {
                lemma_block_of_state(ranks, s, (k - 1) as nat, lo + 1, hi + 1);
                assert(o.subrange(lo + 1, hi + 1) =~= y);
            } else if i >= hi {
                lemma_block_of_state(ranks, s, (k - 1) as nat, lo, hi);
                assert(o.subrange(lo, hi) =~= y);
            } else {
                lemma_block_of_state(ranks, s, (k - 1) as nat, lo, hi + 1);
                let x = o.subrange(lo, hi + 1);
                lemma_next_in_block(ranks, o, lo, hi + 1);
                lemma_next(ranks, x);
                assert(merge_at(x, i - lo) =~= y);
                assert(has_next(ranks, x));
                assert(step(ranks, x) == y);
                lemma_reached_step(ranks, x);
            }
        }
    }
}

/// When the next pair lies inside a block, it is next in the block too.
pub proof fn lemma_next_in_block(ranks: Ranks, p: Seq<Seq<u8>>, lo: int, hi: int)
    requires
        0 <= lo <= hi <= p.len(),
        has_next(ranks, p),
        lo <= next_of(ranks, p) < hi - 1,
    ensures
        is_next(ranks, p.subrange(lo, hi), next_of(ranks, p) - lo),
        next_of(ranks, p.subrange(lo, hi)) == next_of(ranks, p) - lo,
        has_next(ranks, p.subrange(lo, hi)),
        step(ranks, p.subrange(lo, hi)) == merge_at(p.subrange(lo, hi), next_of(ranks, p) - lo),
{
    let x = p.subrange(lo, hi);
    let i = next_of(ranks, p);
    lemma_next(ranks, p);
    assert(mergeable(ranks, x, i - lo));
    assert forall|j: int| #[trigger] mergeable(ranks, x, j) implies pair_priority(ranks, x, i - lo)
        < pair_priority(ranks, x, j) || (pair_priority(ranks, x, i - lo) == pair_priority(
        ranks,
        x,
        j,
    ) && i - lo <= j) by {
        assert(mergeable(ranks, p, j + lo));
    }
    lemma_next(ranks, x);
}

/// Any run of neighbouring parts of a state is itself a state of its own text.
pub proof fn lemma_block(ranks: Ranks, p: Seq<Seq<u8>>, lo: int, hi: int)
    requires
        reached(ranks, p),
        0 <= lo <= hi <= p.len(),
    ensures
        reached(ranks, p.subrange(lo, hi)),
{
    let k = choose|k: nat| #[trigger] state(ranks, flat(p), k) == p;
    lemma_block_of_state(ranks, flat(p), k, lo, hi);
}

/// Any run of neighbouring parts of a final state is final.
pub proof fn lemma_block_final(ranks: Ranks, p: Seq<Seq<u8>>, lo: int, hi: int)
    requires
        !has_next(ranks, p),
        0 <= lo <= hi <= p.len(),
    ensures
        !has_next(ranks, p.subrange(lo, hi)),
{
    if has_next(ranks, p.subrange(lo, hi)) {
        let i = choose|i: int| mergeable(ranks, p.subrange(lo, hi), i);
        assert(mergeable(ranks, p, i + lo));
    }
}

/// No part of a state is empty.
pub proof fn lemma_parts_nonempty(ranks: Ranks, p: Seq<Seq<u8>>)
    requires
        reached(ranks, p),
    ensures
        forall|i: int| 0 <= i < p.len() ==> #[trigger] p[i].len() > 0,
{
    let k = choose|k: nat| #[trigger] state(ranks, flat(p), k) == p;
    lemma_state_parts_nonempty(ranks, flat(p), k);
}

proof fn lemma_state_parts_nonempty(ranks: Ranks, s: Seq<u8>, k: nat)
    ensures
        forall|i: int|
            0 <= i < state(ranks, s, k).len() ==> #[trigger] state(ranks, s, k)[i].len() > 0,
    decreases k,
{
    if k > 0 {
        let o = state(ranks, s, (k - 1) as nat);
        lemma_state_parts_nonempty(ranks, s, (k - 1) as nat);
        lemma_step(ranks, o);
        if has_next(ranks, o) {
            let m = next_of(ranks, o);
            assert forall|i: int| 0 <= i < merge_at(o, m).len() implies #[trigger] merge_at(
                o,
                m,
            )[i].len() > 0 by {
                if i < m {
                    assert(merge_at(o, m)[i] == o[i]);
                } else if i == m {
                    assert(merge_at(o, m)[i] == o[m] + o[m + 1]);
                } else {
                    assert(merge_at(o, m)[i] == o[i + 1]);
                }
            }
        }
    }
}

/// A one-part state is a canonical token.
pub proof fn lemma_reached_one(ranks: Ranks, t: Seq<u8>)
    requires
        reached(ranks, seq![t]),
    ensures
        canonical(ranks, t),
{
    lemma_flat_one(t);
    lemma_parts_nonempty(ranks, seq![t]);
    assert(seq![t][0].len() > 0);
    assert forall|i: int| !mergeable(ranks, seq![t], i) by {}
    lemma_reached_final(ranks, seq![t]);
}

/// A canonical token is a one-part state.
pub proof fn lemma_one_reached(ranks: Ranks, t: Seq<u8>)
    requires
        canonical(ranks, t),
    ensures
        reached(ranks, seq![t]),
{
    lemma_flat_one(t);
    lemma_tokenize(ranks, t);
}

/// A single byte is canonical.
pub proof fn lemma_byte_canonical(ranks: Ranks, t: Seq<u8>)
    requires
        t.len() == 1,
    ensures
        canonical(ranks, t),
{
    assert(atoms(t)[0] =~= t);
    assert(atoms(t) =~= seq![t]);
    lemma_flat_one(t);
    assert(state(ranks, flat(seq![t]), 0) == seq![t]);
    lemma_reached_one(ranks, t);
}

/// Two neighbouring parts that form an entry are the canonical components of that entry.
pub proof fn lemma_reached_pair(ranks: Ranks, u: Seq<u8>, v: Seq<u8>)
    requires
        reached(ranks, seq![u, v]),
        ranks.contains_key(u + v),
    ensures
        canonical(ranks, u + v),
        (u + v).len() >= 2,
        u.len() > 0,
        v.len() > 0,
        pre(ranks, u + v) == u,
        suc(ranks, u + v) == v,
{
    let p = seq![u, v];
    lemma_flat_two(u, v);
    lemma_parts_nonempty(ranks, p);
    assert(p[0].len() > 0 && p[1].len() > 0);
    lemma_reached_index(ranks, p);
    assert(mergeable(ranks, p, 0));
    lemma_step(ranks, p);
    assert(merge_at(p, 0) =~= seq![u + v]);
    lemma_reached_step(ranks, p);
    lemma_reached_one(ranks, u + v);
}

/// A canonical token of two or more bytes is an entry whose components are canonical tokens.
pub proof fn lemma_canonical_split(ranks: Ranks, t: Seq<u8>)
    requires
        canonical(ranks, t),
        t.len() >= 2,
    ensures
        ranks.contains_key(t),
        reached(ranks, seq![pre(ranks, t), suc(ranks, t)]),
        t == pre(ranks, t) + suc(ranks, t),
        0 < pre(ranks, t).len() < t.len(),
        0 < suc(ranks, t).len() < t.len(),
        canonical(ranks, pre(ranks, t)),
        canonical(ranks, suc(ranks, t)),
{
    let k = (t.len() - 2) as nat;
    let p = state(ranks, t, k);
    lemma_state_len(ranks, t, k);
    if !has_next(ranks, p) {
        lemma_final_stays(ranks, t, k, t.len());
    }
    assert(p =~= seq![p[0], p[1]]);
    let (u, v) = (p[0], p[1]);
    lemma_state_flat(ranks, t, k);
    lemma_flat_two(u, v);
    assert(state(ranks, flat(p), k) == p);
    lemma_parts_nonempty(ranks, p);
    assert(p[0].len() > 0 && p[1].len() > 0);
    let i = choose|i: int| mergeable(ranks, p, i);
    assert(i == 0);
    lemma_block(ranks, p, 0, 1);
    lemma_block(ranks, p, 1, 2);
    assert(p.subrange(0, 1) =~= seq![u]);
    assert(p.subrange(1, 2) =~= seq![v]);
    lemma_reached_one(ranks, u);
    lemma_reached_one(ranks, v);
}

/// Where every byte is an entry, so is every canonical token.
pub proof fn lemma_canonical_entry(ranks: Ranks, t: Seq<u8>)
    requires
        canonical(ranks, t),
        has_bytes(ranks),
    ensures
        ranks.contains_key(t),
{
    if t.len() == 1 {
        assert(t =~= seq![t[0]]);
        assert(ranks.contains_key(seq![t[0]]));
    } else {
        lemma_canonical_split(ranks, t);
    }
}

/// A cut between two parts of a state is a cut between two parts of every earlier state.
pub proof fn lemma_cut_earlier(ranks: Ranks, p: Seq<Seq<u8>>, q: Seq<Seq<u8>>, j: int) -> (i: int)
    requires
        reached(ranks, p),
        reached(ranks, q),
        flat(p) == flat(q),
        p.len() >= q.len(),
        0 <= j <= q.len(),
    ensures
        0 <= i <= p.len(),
        flat(p.take(i)) == flat(q.take(j)),
        flat(p.skip(i)) == flat(q.skip(j)),
    decreases p.len(),
{
    lemma_reached_order(ranks, p, q);
    if p.len() == q.len() {
        j
    } else {
        let o = step(ranks, p);
        lemma_step(ranks, p);
        lemma_reached_step(ranks, p);
        let i = lemma_cut_earlier(ranks, o, q, j);
        let m = next_of(ranks, p);
        lemma_flat_cut(o, i);
        if i <= m {
            assert(o.take(i) =~= p.take(i));
            lemma_flat_cut(p, i);
            lemma_flat_tail(p.take(i), p.skip(i), o.skip(i));
            i
        } else {
            lemma_flat_cut(p, i + 1);
            assert(o.skip(i) =~= p.skip(i + 1));
            lemma_flat_head(p.take(i + 1), o.take(i), o.skip(i));
            i + 1
        }
    }
}

proof fn lemma_flat_tail(a: Seq<Seq<u8>>, b: Seq<Seq<u8>>, c: Seq<Seq<u8>>)
    requires
        flat(a) + flat(b) == flat(a) + flat(c),
    ensures
        flat(b) == flat(c),
{
    let n = flat(a).len() as int;
    assert(flat(b) =~= (flat(a) + flat(b)).skip(n));
    assert(flat(c) =~= (flat(a) + flat(c)).skip(n));
}

proof fn lemma_flat_head(a: Seq<Seq<u8>>, b: Seq<Seq<u8>>, c: Seq<Seq<u8>>)
    requires
        flat(a) + flat(c) == flat(b) + flat(c),
    ensures
        flat(a) == flat(b),
{
    let n = (flat(a) + flat(c)).len() - flat(c).len();
    assert(flat(a) =~= (flat(a) + flat(c)).take(n));
    assert(flat(b) =~= (flat(b) + flat(c)).take(n));
}

/// The last token of `s`.
pub open spec fn last_token(ranks: Ranks, s: Seq<u8>) -> Seq<u8> {
    tokenize(ranks, s).last()
}

/// `s` without its last `n` bytes.
pub open spec fn chop(s: Seq<u8>, n: nat) -> Seq<u8> {
    s.take(s.len() - n)
}

/// The tokens of a text are those of the text before its last token, followed by that token.
pub proof fn lemma_tokenize_back(ranks: Ranks, s: Seq<u8>)
    requires
        s.len() > 0,
    ensures
        ({
            let t = last_token(ranks, s);
            &&& canonical(ranks, t)
            &&& 0 < t.len() <= s.len()
            &&& s == chop(s, t.len()) + t
            &&& tokenize(ranks, s) == tokenize(ranks, chop(s, t.len())).push(t)
        }),
{
    let p = tokenize(ranks, s);
    let n = p.len() as int;
    let t = p.last();
    lemma_tokenize(ranks, s);
    lemma_block(ranks, p, n - 1, n);
    lemma_block(ranks, p, 0, n - 1);
    lemma_block_final(ranks, p, 0, n - 1);
    assert(p.subrange(n - 1, n) =~= seq![t]);
    assert(p.subrange(0, n - 1) =~= p.drop_last());
    lemma_reached_one(ranks, t);
    lemma_reached_final(ranks, p.drop_last());
    assert(s == flat(p.drop_last()) + t);
    assert(chop(s, t.len()) =~= flat(p.drop_last()));
    assert(p =~= p.drop_last().push(t));
}

} // verus!
