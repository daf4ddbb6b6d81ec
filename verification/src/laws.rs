//! What holds of the tokenizer as a whole.

use vstd::prelude::*;

use crate::acceptance;
use crate::bpe;
use crate::component;
use crate::encoding;
use crate::entry::INVALID_ID;
use crate::forest;
use crate::index;
use crate::lexicon;
use crate::merge;
use crate::merge::Ranks;
use crate::numbering;
use crate::promises;
use crate::search;
use crate::specials;
use crate::successor;
use crate::suffixes;
use crate::sufsuc;
use crate::sufsuc::{CentroidSearchTree, CentroidSearchTreeChild, CentroidSearchTreeNode};

verus! {

/// The canonical entries of a vocabulary.
pub open spec fn canonical_part(ranks: Ranks) -> Ranks {
    ranks.restrict(Set::new(|t: Seq<u8>| merge::canonical(ranks, t)))
}

/// Dropping the entries that are not canonical changes no tokenization.
pub proof fn law_dropped_entries_change_nothing(ranks: Ranks, s: Seq<u8>)
    ensures
        merge::tokenize(canonical_part(ranks), s) == merge::tokenize(ranks, s),
{
    lemma_same_state(ranks, s, s.len());
}

proof fn lemma_same_state(ranks: Ranks, s: Seq<u8>, k: nat)
    ensures
        merge::state(canonical_part(ranks), s, k) == merge::state(ranks, s, k),
    decreases k,
{
    if k > 0 {
        lemma_same_state(ranks, s, (k - 1) as nat);
        let p = merge::state(ranks, s, (k - 1) as nat);
        merge::lemma_state_flat(ranks, s, (k - 1) as nat);
        assert(merge::reached(ranks, p));
        lemma_same_step(ranks, p);
    }
}

/// Every merge makes a canonical part, so the next merge is the same with and without the entries
/// that are not canonical.
proof fn lemma_same_step(ranks: Ranks, p: Seq<Seq<u8>>)
    requires
        merge::reached(ranks, p),
    ensures
        merge::step(canonical_part(ranks), p) == merge::step(ranks, p),
{
    let part = canonical_part(ranks);
    assert forall|j: int| #[trigger] merge::mergeable(part, p, j) implies merge::mergeable(
        ranks,
        p,
        j,
    ) && merge::pair_priority(part, p, j) == merge::pair_priority(ranks, p, j) by {}
    if merge::has_next(ranks, p) {
        let i = merge::next_of(ranks, p);
        merge::lemma_step(ranks, p);
        merge::lemma_reached_step(ranks, p);
        let q = merge::step(ranks, p);
        merge::lemma_block(ranks, q, i, i + 1);
        merge::lemma_merge_at(p, i);
        let t = p[i] + p[i + 1];
        assert(q[i] == t);
        assert(q.subrange(i, i + 1) =~= seq![t]);
        merge::lemma_reached_one(ranks, t);
        assert(merge::mergeable(part, p, i));
        assert(merge::is_next(part, p, i));
        merge::lemma_next(part, p);
    } else {
        if merge::has_next(part, p) {
            let j = choose|j: int| merge::mergeable(part, p, j);
            assert(merge::mergeable(ranks, p, j));
        }
    }
}

/// The bytes that an id stands for.
pub open spec fn bytes_of_id(
    tokens: Seq<Seq<u8>>,
    specials: Seq<(Seq<u8>, u32)>,
    id: u32,
) -> Seq<u8> {
    if id < tokens.len() {
        tokens[id as int]
    } else {
        let j = choose|j: int| 0 <= j < specials.len() && (#[trigger] specials[j]).1 == id;
        specials[j].0
    }
}

/// The bytes that a list of ids stands for.
pub open spec fn decoded(
    tokens: Seq<Seq<u8>>,
    specials: Seq<(Seq<u8>, u32)>,
    ids: Seq<u32>,
) -> Seq<u8> {
    merge::flat(ids.map_values(|id: u32| bytes_of_id(tokens, specials, id)))
}

proof fn lemma_decoded_add(
    tokens: Seq<Seq<u8>>,
    specials: Seq<(Seq<u8>, u32)>,
    a: Seq<u32>,
    b: Seq<u32>,
)
    ensures
        decoded(tokens, specials, a + b) == decoded(tokens, specials, a) + decoded(
            tokens,
            specials,
            b,
        ),
{
    let f = |id: u32| bytes_of_id(tokens, specials, id);
    assert((a + b).map_values(f) =~= a.map_values(f) + b.map_values(f));
    merge::lemma_flat_add(a.map_values(f), b.map_values(f));
}

proof fn lemma_decoded_bpe(tokens: Seq<Seq<u8>>, specials: Seq<(Seq<u8>, u32)>, text: Seq<u8>)
    requires
        lexicon::vocab_error(tokens) is None,
    ensures
        decoded(tokens, specials, encoding::bpe(tokens, text)) == text,
    decreases text.len(),
{
    let ranks = lexicon::rank_map(tokens);
    lexicon::lemma_accepted(tokens);
    if text.len() == 0 {
        assert(text =~= Seq::<u8>::empty());
        encoding::lemma_bpe_empty(tokens);
        assert(decoded(tokens, specials, Seq::empty()) =~= text);
    } else {
        merge::lemma_tokenize_back(ranks, text);
        let t = merge::last_token(ranks, text);
        let rest = merge::chop(text, t.len());
        lemma_decoded_bpe(tokens, specials, rest);
        lexicon::lemma_rank_map(tokens);
        merge::lemma_canonical_entry(ranks, t);
        let r = ranks[t];
        assert(tokens[r as int] == t);
        let f = |id: u32| bytes_of_id(tokens, specials, id);
        let head = encoding::bpe(tokens, rest);
        assert(encoding::bpe(tokens, text) =~= head.push(r));
        assert(head.push(r).map_values(f) =~= head.map_values(f).push(t));
        merge::lemma_flat_push(head.map_values(f), t);
    }
}

/// What a text is encoded as stands for the text.
pub proof fn law_encoding_keeps_the_text(
    tokens: Seq<Seq<u8>>,
    specials: Seq<(Seq<u8>, u32)>,
    text: Seq<u8>,
)
    requires
        lexicon::vocab_error(tokens) is None,
        encoding::isolated(tokens, specials),
        encoding::own_ids(tokens, specials),
    ensures
        decoded(tokens, specials, encoding::encoded(tokens, specials, text)) == text,
    decreases text.len(),
{
    if exists|e: int, j: int| encoding::first_special(specials, text, e, j) {
        let (e, j) = choose|e: int, j: int| encoding::first_special(specials, text, e, j);
        encoding::lemma_encoded_special(tokens, specials, text, e, j);
        let t = specials[j].0;
        let id = specials[j].1;
        let before = text.take(e - t.len());
        let after = text.skip(e);
        law_encoding_keeps_the_text(tokens, specials, after);
        lemma_decoded_bpe(tokens, specials, before);
        let a = encoding::bpe(tokens, before);
        let b = encoding::encoded(tokens, specials, after);
        lemma_decoded_add(tokens, specials, a.push(id), b);
        assert(a.push(id) =~= a + seq![id]);
        lemma_decoded_add(tokens, specials, a, seq![id]);
        lemma_special_bytes(tokens, specials, j);
        let f = |x: u32| bytes_of_id(tokens, specials, x);
        assert(seq![id].map_values(f) =~= seq![t]);
        merge::lemma_flat_one(t);
        assert(text.take(e).skip(e - t.len()) == t);
        assert(text =~= before + t + after);
    } else {
        lemma_decoded_bpe(tokens, specials, text);
    }
}

/// The id of a special token stands for its bytes.
proof fn lemma_special_bytes(tokens: Seq<Seq<u8>>, specials: Seq<(Seq<u8>, u32)>, j: int)
    requires
        encoding::own_ids(tokens, specials),
        0 <= j < specials.len(),
    ensures
        bytes_of_id(tokens, specials, specials[j].1) == specials[j].0,
{
    let i = choose|i: int| 0 <= i < specials.len() && (#[trigger] specials[i]).1 == specials[j].1;
    assert(0 <= i < specials.len() && specials[i].1 == specials[j].1);
}

/// The tokens that pass the test against the last tokens of a text form one path: of two of them,
/// the longer one lies below the shorter one.
pub proof fn law_passing_tokens_form_a_path(
    tokens: Seq<Seq<u8>>,
    text: Seq<u8>,
    t: int,
    u: int,
)
    requires
        lexicon::vocab_error(tokens) is None,
        suffixes::suffix_set(tokens, text).contains(t),
        suffixes::suffix_set(tokens, text).contains(u),
        text.len() > 0,
        lexicon::token(tokens, u).len() <= lexicon::token(tokens, t).len(),
        lexicon::token(tokens, t).len() >= 2 ==> successor::follows(
            lexicon::rank_map(tokens),
            merge::last_token(
                lexicon::rank_map(tokens),
                merge::chop(
                    text,
                    merge::suc(lexicon::rank_map(tokens), lexicon::token(tokens, t)).len(),
                ),
            ),
            lexicon::token(tokens, t),
        ),
        lexicon::token(tokens, u).len() >= 2 ==> successor::follows(
            lexicon::rank_map(tokens),
            merge::last_token(
                lexicon::rank_map(tokens),
                merge::chop(
                    text,
                    merge::suc(lexicon::rank_map(tokens), lexicon::token(tokens, u)).len(),
                ),
            ),
            lexicon::token(tokens, u),
        ),
    ensures
        successor::in_subtree(
            lexicon::rank_map(tokens),
            lexicon::token(tokens, t),
            lexicon::token(tokens, u),
        ),
{
    let ranks = lexicon::rank_map(tokens);
    let last = merge::last_token(ranks, text);
    suffixes::lemma_last_number(tokens, text);
    lemma_above_last(tokens, text, t);
    lemma_above_last(tokens, text, u);
    successor::lemma_subtree_path(
        ranks,
        last,
        lexicon::token(tokens, u),
        lexicon::token(tokens, t),
    );
}

proof fn lemma_above_last(tokens: Seq<Seq<u8>>, text: Seq<u8>, t: int)
    requires
        lexicon::vocab_error(tokens) is None,
        suffixes::suffix_set(tokens, text).contains(t),
        text.len() > 0,
        lexicon::token(tokens, t).len() >= 2 ==> successor::follows(
            lexicon::rank_map(tokens),
            merge::last_token(
                lexicon::rank_map(tokens),
                merge::chop(
                    text,
                    merge::suc(lexicon::rank_map(tokens), lexicon::token(tokens, t)).len(),
                ),
            ),
            lexicon::token(tokens, t),
        ),
    ensures
        successor::in_subtree(
            lexicon::rank_map(tokens),
            merge::last_token(lexicon::rank_map(tokens), text),
            lexicon::token(tokens, t),
        ),
{
    let ranks = lexicon::rank_map(tokens);
    lexicon::lemma_accepted(tokens);
    lexicon::lemma_canon(tokens);
    let b = lexicon::token(tokens, t);
    if b.len() >= 2 {
        successor::theorem_last_token(ranks, text, b);
    } else {
        suffixes::lemma_last_number(tokens, text);
        suffixes::lemma_suffix_tree(tokens, text);
        suffixes::lemma_byte_id(tokens, text.last());
        let root = suffixes::byte_id(tokens, text.last());
        assert(b.len() > 0);
        assert(b =~= seq![text.last()]);
        numbering::lemma_same_token(tokens, t, root);
        numbering::lemma_below(tokens, search::last_id(tokens, text), t);
    }
}

/// The subtree of a token is exactly the interval from its entry to its exit timestamp.
pub proof fn law_subtree_is_an_interval(tokens: Seq<Seq<u8>>, x: int, u: int)
    requires
        lexicon::vocab_error(tokens) is None,
        0 <= x < lexicon::canon(tokens).len(),
        0 <= u < lexicon::canon(tokens).len(),
    ensures
        successor::in_subtree(
            lexicon::rank_map(tokens),
            lexicon::token(tokens, x),
            lexicon::token(tokens, u),
        ) <==> numbering::timestamp(tokens, u) <= numbering::timestamp(tokens, x)
            < numbering::exit_time(tokens, u),
{
    numbering::lemma_forest(tokens);
    numbering::lemma_below(tokens, x, u);
    forest::lemma_below(numbering::parents(tokens), x, u);
}

/// Whether node `b` is the node above `a` or below one of its children.
pub open spec fn next_node(
    nodes: Seq<CentroidSearchTreeNode>,
    children: Seq<CentroidSearchTreeChild>,
    a: int,
    b: int,
) -> bool {
    ||| nodes[a].up_component != INVALID_ID && nodes[a].up_component == b
    ||| exists|j: int|
        {
            &&& nodes[a].child_start <= j < nodes[a].child_start + nodes[a].child_len
            &&& (#[trigger] children[j]).node != INVALID_ID
            &&& children[j].node == b
        }
}

/// Whether node `b` is `n` steps away from node `a`.
pub open spec fn leads(
    nodes: Seq<CentroidSearchTreeNode>,
    children: Seq<CentroidSearchTreeChild>,
    a: int,
    b: int,
    n: nat,
) -> bool
    decreases n,
{
    if n == 0 {
        a == b
    } else {
        exists|c: int| #[trigger]
            next_node(nodes, children, a, c) && leads(nodes, children, c, b, (n - 1) as nat)
    }
}

/// Whether node `b` can be reached from node `a`.
pub open spec fn reaches(
    nodes: Seq<CentroidSearchTreeNode>,
    children: Seq<CentroidSearchTreeChild>,
    a: int,
    b: int,
) -> bool {
    exists|n: nat| leads(nodes, children, a, b, n)
}

/// The piece of a component that the search goes on with at the next node.
proof fn lemma_next_piece(
    tokens: Seq<Seq<u8>>,
    s: Set<int>,
    tree: &CentroidSearchTree,
    idx: int,
    k: Set<int>,
    top: int,
    b: int,
) -> (r: (Set<int>, int))
    requires
        sufsuc::searches(tokens, s, tree.nodes@, tree.children@, idx, k),
        component::component(numbering::parents(tokens), k, top),
        next_node(tree.nodes@, tree.children@, idx, b),
    ensures
        sufsuc::searches(tokens, s, tree.nodes@, tree.children@, b, r.0),
        component::component(numbering::parents(tokens), r.0, r.1),
        2 * r.0.len() <= k.len(),
        k.len() > 0,
        r.0.subset_of(k),
        !r.0.contains(tree.nodes@[idx].token as int),
        is_piece(tokens, tree, idx, k, b, r.0),
{
    let par = numbering::parents(tokens);
    let node = tree.nodes@[idx];
    let c = node.token as int;
    assert(forest::below(par, c, c));
    if node.up_component != INVALID_ID && node.up_component == b {
        let above = component::piece_above(par, k, c);
        component::lemma_pieces(par, k, c);
        if c == top {
            assert forall|x: int| !above.contains(x) by {
                if above.contains(x) {
                    assert(k.contains(x));
                }
            }
            assert(above =~= Set::empty());
        }
        component::lemma_component_above(par, k, top, c);
        (above, top)
    } else {
        let j = choose|j: int|
            {
                &&& node.child_start <= j < node.child_start + node.child_len
                &&& (#[trigger] tree.children@[j]).node != INVALID_ID
                &&& tree.children@[j].node == b
            };
        let v = tree.children@[j].token@;
        assert(k.contains(v));
        assert(par[v] == c);
        component::lemma_component_below(par, k, top, v);
        let below = component::piece_below(par, k, v);
        if below.contains(c) {
            forest::lemma_below_in(par, c, v);
        }
        assert(child_piece(tokens, tree, idx, k, b, below, j));
        (below, v)
    }
}

/// What can be reached holds members of the component.
proof fn lemma_leads_member(
    tokens: Seq<Seq<u8>>,
    s: Set<int>,
    tree: &CentroidSearchTree,
    idx: int,
    k: Set<int>,
    top: int,
    b: int,
    n: nat,
)
    requires
        sufsuc::searches(tokens, s, tree.nodes@, tree.children@, idx, k),
        component::component(numbering::parents(tokens), k, top),
        leads(tree.nodes@, tree.children@, idx, b, n),
    ensures
        0 <= b < tree.nodes@.len(),
        k.contains(tree.nodes@[b].token as int),
    decreases n,
{
    if n > 0 {
        let c = choose|c: int| #[trigger]
            next_node(tree.nodes@, tree.children@, idx, c) && leads(
                tree.nodes@,
                tree.children@,
                c,
                b,
                (n - 1) as nat,
            );
        let (piece, t) = lemma_next_piece(tokens, s, tree, idx, k, top, c);
        lemma_leads_member(tokens, s, tree, c, piece, t, b, (n - 1) as nat);
    }
}

/// Every member of the component can be reached.
proof fn lemma_member_reached(
    tokens: Seq<Seq<u8>>,
    s: Set<int>,
    tree: &CentroidSearchTree,
    idx: int,
    k: Set<int>,
    top: int,
    x: int,
) -> (r: (int, nat))
    requires
        lexicon::vocab_error(tokens) is None,
        tree.nodes@.len() <= u32::MAX,
        sufsuc::searches(tokens, s, tree.nodes@, tree.children@, idx, k),
        component::component(numbering::parents(tokens), k, top),
        k.subset_of(s),
        k.contains(x),
    ensures
        leads(tree.nodes@, tree.children@, idx, r.0, r.1),
        0 <= r.0 < tree.nodes@.len(),
        tree.nodes@[r.0].token == x,
    decreases k.len(),
{
    let par = numbering::parents(tokens);
    let node = tree.nodes@[idx];
    let c = node.token as int;
    if x == c {
        (idx, 0)
    } else {
        component::lemma_pieces(par, k, c);
        let b = if forest::below(par, x, c) {
            forest::lemma_toward(par, c, x);
            let v = forest::toward(par, c, x);
            assert(forest::below(par, c, c));
            assert(-1 <= par[v] < v);
            assert(forest::below(par, v, c));
            component::lemma_below_trans(par, v, c, top);
            component::lemma_between(par, k, top, x, v);
            assert(s.contains(v) && par[v] == c);
            let j = choose|j: int|
                node.child_start <= j < node.child_start + node.child_len && (
                #[trigger] tree.children@[j]).token@ == v;
            let below = component::piece_below(par, k, v);
            assert(sufsuc::searches(
                tokens,
                s,
                tree.nodes@,
                tree.children@,
                tree.children@[j].node as int,
                below,
            ));
            component::lemma_component_below(par, k, top, v);
            assert(below.contains(x));
            assert(next_node(tree.nodes@, tree.children@, idx, tree.children@[j].node as int));
            let (b, n) = lemma_member_reached(
                tokens,
                s,
                tree,
                tree.children@[j].node as int,
                below,
                v,
                x,
            );
            (b, n, tree.children@[j].node as int)
        } else {
            let above = component::piece_above(par, k, c);
            assert(above.contains(x));
            assert(c != top);
            assert(sufsuc::searches(
                tokens,
                s,
                tree.nodes@,
                tree.children@,
                node.up_component as int,
                above,
            ));
            component::lemma_component_above(par, k, top, c);
            assert(next_node(tree.nodes@, tree.children@, idx, node.up_component as int));
            let (b, n) = lemma_member_reached(
                tokens,
                s,
                tree,
                node.up_component as int,
                above,
                top,
                x,
            );
            (b, n, node.up_component as int)
        };
        assert(next_node(tree.nodes@, tree.children@, idx, b.2) && leads(
            tree.nodes@,
            tree.children@,
            b.2,
            b.0,
            b.1,
        ));
        (b.0, (b.1 + 1) as nat)
    }
}

/// No member of the component is held twice.
proof fn lemma_member_once(
    tokens: Seq<Seq<u8>>,
    s: Set<int>,
    tree: &CentroidSearchTree,
    idx: int,
    k: Set<int>,
    top: int,
    b1: int,
    n1: nat,
    b2: int,
    n2: nat,
)
    requires
        lexicon::vocab_error(tokens) is None,
        sufsuc::searches(tokens, s, tree.nodes@, tree.children@, idx, k),
        component::component(numbering::parents(tokens), k, top),
        leads(tree.nodes@, tree.children@, idx, b1, n1),
        leads(tree.nodes@, tree.children@, idx, b2, n2),
        tree.nodes@[b1].token == tree.nodes@[b2].token,
    ensures
        b1 == b2,
    decreases n1,
{
    if n1 == 0 || n2 == 0 {
        if n1 > 0 {
            let c1 = choose|d: int| #[trigger]
                next_node(tree.nodes@, tree.children@, idx, d) && leads(
                    tree.nodes@,
                    tree.children@,
                    d,
                    b1,
                    (n1 - 1) as nat,
                );
            let (p1, t1) = lemma_next_piece(tokens, s, tree, idx, k, top, c1);
            lemma_leads_member(tokens, s, tree, c1, p1, t1, b1, (n1 - 1) as nat);
        }
        if n2 > 0 {
            let c2 = choose|d: int| #[trigger]
                next_node(tree.nodes@, tree.children@, idx, d) && leads(
                    tree.nodes@,
                    tree.children@,
                    d,
                    b2,
                    (n2 - 1) as nat,
                );
            let (p2, t2) = lemma_next_piece(tokens, s, tree, idx, k, top, c2);
            lemma_leads_member(tokens, s, tree, c2, p2, t2, b2, (n2 - 1) as nat);
        }
    } else {
        let c1 = choose|d: int| #[trigger]
            next_node(tree.nodes@, tree.children@, idx, d) && leads(
                tree.nodes@,
                tree.children@,
                d,
                b1,
                (n1 - 1) as nat,
            );
        let c2 = choose|d: int| #[trigger]
            next_node(tree.nodes@, tree.children@, idx, d) && leads(
                tree.nodes@,
                tree.children@,
                d,
                b2,
                (n2 - 1) as nat,
            );
        let (p1, t1) = lemma_next_piece(tokens, s, tree, idx, k, top, c1);
        let (p2, t2) = lemma_next_piece(tokens, s, tree, idx, k, top, c2);
        lemma_leads_member(tokens, s, tree, c1, p1, t1, b1, (n1 - 1) as nat);
        lemma_leads_member(tokens, s, tree, c2, p2, t2, b2, (n2 - 1) as nat);
        let x = tree.nodes@[b1].token as int;
        lemma_same_piece(tokens, s, tree, idx, k, c1, p1, c2, p2, x);
        lemma_member_once(tokens, s, tree, c1, p1, t1, b1, (n1 - 1) as nat, b2, (n2 - 1) as nat);
    }
}

/// Pieces with a common member are the same piece, searched by the same node.
proof fn lemma_same_piece(
    tokens: Seq<Seq<u8>>,
    s: Set<int>,
    tree: &CentroidSearchTree,
    idx: int,
    k: Set<int>,
    c1: int,
    p1: Set<int>,
    c2: int,
    p2: Set<int>,
    x: int,
)
    requires
        lexicon::vocab_error(tokens) is None,
        sufsuc::searches(tokens, s, tree.nodes@, tree.children@, idx, k),
        forall|y: int| #[trigger] k.contains(y) ==> 0 <= y < numbering::parents(tokens).len(),
        p1.subset_of(k),
        p1.contains(x),
        p2.contains(x),
        is_piece(tokens, tree, idx, k, c1, p1),
        is_piece(tokens, tree, idx, k, c2, p2),
    ensures
        c1 == c2,
        p1 == p2,
{
    let par = numbering::parents(tokens);
    let node = tree.nodes@[idx];
    let c = node.token as int;
    numbering::lemma_forest(tokens);
    assert(k.contains(x));
    let up1 = p1 == component::piece_above(par, k, c) && c1 == node.up_component;
    let up2 = p2 == component::piece_above(par, k, c) && c2 == node.up_component;
    if !up1 {
        let j = choose|j: int| child_piece(tokens, tree, idx, k, c1, p1, j);
        lemma_child_below(tokens, s, tree, idx, k, x, j);
        if !up2 {
            let i = choose|i: int| child_piece(tokens, tree, idx, k, c2, p2, i);
            lemma_child_below(tokens, s, tree, idx, k, x, i);
            let v = tree.children@[j].token@;
            let w = tree.children@[i].token@;
            component::lemma_siblings_apart(par, x, v, w);
            assert(lexicon::token(tokens, v).len() >= 2);
            suffixes::lemma_interval_nonempty(tokens, v);
            if i < j {
                assert(tree.children@[i].valid.end <= tree.children@[j].valid.start);
            } else if j < i {
                assert(tree.children@[j].valid.end <= tree.children@[i].valid.start);
            }
        }
    } else if !up2 {
        let i = choose|i: int| child_piece(tokens, tree, idx, k, c2, p2, i);
        lemma_child_below(tokens, s, tree, idx, k, x, i);
    }
}

/// What is below a child of a node is below the node.
proof fn lemma_child_below(
    tokens: Seq<Seq<u8>>,
    s: Set<int>,
    tree: &CentroidSearchTree,
    idx: int,
    k: Set<int>,
    x: int,
    j: int,
)
    requires
        lexicon::vocab_error(tokens) is None,
        sufsuc::searches(tokens, s, tree.nodes@, tree.children@, idx, k),
        tree.nodes@[idx].child_start <= j < tree.nodes@[idx].child_start
            + tree.nodes@[idx].child_len,
        forest::below(numbering::parents(tokens), x, tree.children@[j].token@),
    ensures
        ({
            let v = tree.children@[j].token@;
            &&& forest::below(numbering::parents(tokens), x, tree.nodes@[idx].token as int)
            &&& 0 <= v < numbering::parents(tokens).len()
            &&& numbering::parents(tokens)[v] == tree.nodes@[idx].token
            &&& tree.children@[j].valid == suffixes::valid(tokens, v)
        }),
{
    let par = numbering::parents(tokens);
    let v = tree.children@[j].token@;
    let c = tree.nodes@[idx].token as int;
    numbering::lemma_forest(tokens);
    assert(par[v] == c);
    assert(-1 <= par[v] < v);
    assert(forest::below(par, c, c));
    assert(forest::below(par, v, c));
    component::lemma_below_trans(par, x, v, c);
}

spec fn child_piece(
    tokens: Seq<Seq<u8>>,
    tree: &CentroidSearchTree,
    idx: int,
    k: Set<int>,
    b: int,
    p: Set<int>,
    j: int,
) -> bool {
    &&& tree.nodes@[idx].child_start <= j < tree.nodes@[idx].child_start
        + tree.nodes@[idx].child_len
    &&& p == component::piece_below(numbering::parents(tokens), k, tree.children@[j].token@)
    &&& b == tree.children@[j].node
}

spec fn is_piece(
    tokens: Seq<Seq<u8>>,
    tree: &CentroidSearchTree,
    idx: int,
    k: Set<int>,
    b: int,
    p: Set<int>,
) -> bool {
    ||| p == component::piece_above(numbering::parents(tokens), k, tree.nodes@[idx].token as int)
        && b == tree.nodes@[idx].up_component
    ||| exists|j: int| child_piece(tokens, tree, idx, k, b, p, j)
}

/// The search tree of a token holds every token that ends it, and each of them once.
pub proof fn law_each_suffix_once(tokens: Seq<Seq<u8>>, tree: CentroidSearchTree, tau: int)
    requires
        tree.wf(tokens),
        0 <= tau < lexicon::canon(tokens).len(),
    ensures
        ({
            let s = suffixes::suffix_set(tokens, lexicon::token(tokens, tau));
            let root = tree.roots@[numbering::timestamp(tokens, tau)] as int;
            &&& forall|b: int| #[trigger]
                reaches(tree.nodes@, tree.children@, root, b) ==> 0 <= b < tree.nodes@.len()
                    && s.contains(tree.nodes@[b].token as int)
            &&& forall|x: int| #[trigger]
                s.contains(x) ==> exists|b: int| #[trigger]
                    reaches(tree.nodes@, tree.children@, root, b) && tree.nodes@[b].token == x
            &&& forall|a: int, b: int| #[trigger]
                reaches(tree.nodes@, tree.children@, root, a) && #[trigger] reaches(
                    tree.nodes@,
                    tree.children@,
                    root,
                    b,
                ) && tree.nodes@[a].token == tree.nodes@[b].token ==> a == b
        }),
{
    let text = lexicon::token(tokens, tau);
    let s = suffixes::suffix_set(tokens, text);
    let root = tree.roots@[numbering::timestamp(tokens, tau)] as int;
    let nodes = tree.nodes@;
    let children = tree.children@;
    lexicon::lemma_accepted(tokens);
    lexicon::lemma_canon(tokens);
    assert(text.len() > 0);
    suffixes::lemma_suffix_tree(tokens, text);
    let top = suffixes::byte_id(tokens, text.last());
    assert(tree.root_ok(tokens, tau));
    assert forall|b: int| #[trigger] reaches(nodes, children, root, b) implies 0 <= b < nodes.len()
        && s.contains(nodes[b].token as int) by {
        let n = choose|n: nat| leads(nodes, children, root, b, n);
        lemma_leads_member(tokens, s, &tree, root, s, top, b, n);
    }
    assert forall|x: int| #[trigger] s.contains(x) implies exists|b: int| #[trigger]
        reaches(nodes, children, root, b) && nodes[b].token == x by {
        let (b, n) = lemma_member_reached(tokens, s, &tree, root, s, top, x);
        assert(leads(nodes, children, root, b, n));
        assert(reaches(nodes, children, root, b) && nodes[b].token == x);
    }
    assert forall|a: int, b: int| #[trigger]
        reaches(nodes, children, root, a) && #[trigger] reaches(nodes, children, root, b)
            && nodes[a].token == nodes[b].token implies a == b by {
        let m = choose|m: nat| leads(nodes, children, root, a, m);
        let n = choose|n: nat| leads(nodes, children, root, b, n);
        lemma_member_once(tokens, s, &tree, root, s, top, a, m, b, n);
    }
}

/// The children of every node are sorted by their intervals, which do not overlap.
pub proof fn law_children_sorted_and_disjoint(
    tokens: Seq<Seq<u8>>,
    tree: CentroidSearchTree,
    b: int,
)
    requires
        tree.wf(tokens),
        0 <= b < tree.nodes@.len(),
    ensures
        forall|i: int, j: int|
            tree.nodes@[b].child_start <= i < j < tree.nodes@[b].child_start
                + tree.nodes@[b].child_len ==> (#[trigger] tree.children@[i]).valid.end <= (
            #[trigger] tree.children@[j]).valid.start,
{
    assert(tree.node_ok(tokens, b));
}

/// The slices of the nodes lie in the order of the nodes, without a gap, and cover the children.
pub proof fn law_slices_cover_children(tree: CentroidSearchTree, i: int)
    requires
        tree.closed_arenas(),
        0 <= i < tree.nodes@.len(),
    ensures
        i == 0 ==> tree.nodes@[i].child_start == 0,
        tree.nodes@[i].child_start + tree.nodes@[i].child_len == if i + 1 < tree.nodes@.len() {
            tree.nodes@[i + 1].child_start as int
        } else {
            tree.children@.len() as int
        },
{
    let nodes = tree.nodes@;
    assert(sufsuc::follows(nodes, i));
    assert(nodes.take(i + 1).drop_last() =~= nodes.take(i));
    if i + 1 < nodes.len() {
        assert(sufsuc::follows(nodes, i + 1));
    } else {
        assert(nodes.take(i + 1) =~= nodes);
    }
}

/// The search trees hold one node for each token that ends a canonical token, and one child for
/// each of them but the last byte.
pub proof fn law_arena_sizes(tokens: Seq<Seq<u8>>, tree: CentroidSearchTree)
    requires
        tree.wf(tokens),
    ensures
        tree.nodes@.len() == sufsuc::suffix_total(tokens, lexicon::canon(tokens).len() as int),
        tree.children@.len() + lexicon::canon(tokens).len() == tree.nodes@.len(),
{
}

/// A search visits few nodes: with `n` nodes visited, the tree holds at least `2^(n - 1)` tokens.
pub proof fn law_search_is_short(
    tokens: Seq<Seq<u8>>,
    tree: CentroidSearchTree,
    text: Seq<u8>,
    tau: int,
)
    requires
        tree.wf(tokens),
        text.len() > 0,
        encoding::longest_token(tokens, text, tau),
    ensures
        tree.search_trail(tokens, text, tau).len() > 0,
        vstd::arithmetic::power2::pow2(
            (tree.search_trail(tokens, text, tau).len() - 1) as nat,
        ) <= suffixes::suffix_set(tokens, lexicon::token(tokens, tau)).len()
            <= lexicon::token(tokens, tau).len(),
{
    let t = lexicon::token(tokens, tau);
    let s = suffixes::suffix_set(tokens, t);
    lexicon::lemma_accepted(tokens);
    lexicon::lemma_canon(tokens);
    assert(t.len() > 0);
    suffixes::lemma_suffix_tree(tokens, t);
    suffixes::lemma_suffix_count(tokens, t);
    suffixes::lemma_last_number(tokens, text);
    let theta = search::last_id(tokens, text);
    assert(suffixes::suffix_set(tokens, text).contains(theta));
    suffixes::lemma_ends_nested(text, t, lexicon::token(tokens, theta));
    assert(tree.root_ok(tokens, tau));
    lemma_trail_short(
        tokens,
        s,
        &tree,
        tree.roots@[numbering::timestamp(tokens, tau)] as int,
        s,
        suffixes::byte_id(tokens, t.last()),
        theta,
        s.len(),
    );
}

proof fn lemma_trail_short(
    tokens: Seq<Seq<u8>>,
    s: Set<int>,
    tree: &CentroidSearchTree,
    idx: int,
    k: Set<int>,
    top: int,
    theta: int,
    fuel: nat,
)
    requires
        lexicon::vocab_error(tokens) is None,
        tree.nodes@.len() <= u32::MAX,
        sufsuc::searches(tokens, s, tree.nodes@, tree.children@, idx, k),
        component::component(numbering::parents(tokens), k, top),
        k.subset_of(s),
        k.contains(theta),
        k.len() <= fuel,
    ensures
        ({
            let trail = search::trail(tokens, tree.nodes@, tree.children@, theta, idx, fuel);
            &&& trail.len() > 0
            &&& vstd::arithmetic::power2::pow2((trail.len() - 1) as nat) <= k.len()
        }),
    decreases fuel,
{
    let par = numbering::parents(tokens);
    let node = tree.nodes@[idx];
    let c = node.token as int;
    let trail = search::trail(tokens, tree.nodes@, tree.children@, theta, idx, fuel);
    if theta == c {
        assert(trail.len() == 1);
        vstd::arithmetic::power2::lemma2_to64();
    } else {
        component::lemma_pieces(par, k, c);
        let next = if forest::below(par, theta, c) {
            search::child_node(node, tree.children@, forest::toward(par, c, theta))
        } else {
            node.up_component as int
        };
        let rest = search::trail(
            tokens,
            tree.nodes@,
            tree.children@,
            theta,
            next,
            (fuel - 1) as nat,
        );
        assert(trail =~= seq![idx as u32] + rest);
        if forest::below(par, theta, c) {
            forest::lemma_toward(par, c, theta);
            let v = forest::toward(par, c, theta);
            assert(forest::below(par, c, c));
            assert(-1 <= par[v] < v);
            assert(forest::below(par, v, c));
            component::lemma_below_trans(par, v, c, top);
            component::lemma_between(par, k, top, theta, v);
            assert(s.contains(v) && par[v] == c);
            let j = choose|j: int|
                node.child_start <= j < node.child_start + node.child_len && (
                #[trigger] tree.children@[j]).token@ == v;
            let below = component::piece_below(par, k, v);
            assert(next == tree.children@[j].node);
            assert(sufsuc::searches(tokens, s, tree.nodes@, tree.children@, next, below));
            component::lemma_component_below(par, k, top, v);
            lemma_trail_short(tokens, s, tree, next, below, v, theta, (fuel - 1) as nat);
        } else {
            let above = component::piece_above(par, k, c);
            assert(above.contains(theta));
            assert(c != top);
            assert(sufsuc::searches(tokens, s, tree.nodes@, tree.children@, next, above));
            component::lemma_component_above(par, k, top, c);
            lemma_trail_short(tokens, s, tree, next, above, top, theta, (fuel - 1) as nat);
        }
        vstd::arithmetic::power2::lemma_pow2_unfold(rest.len());
    }
}

/// Whether a list of nodes goes from one node to the next, from `first` to a node of token `theta`.
pub open spec fn path_to(
    tree: &CentroidSearchTree,
    path: Seq<u32>,
    first: int,
    theta: int,
) -> bool {
    &&& path.len() > 0
    &&& path[0] == first
    &&& tree.nodes@[path.last() as int].token == theta
    &&& forall|i: int|
        0 <= i < path.len() - 1 ==> #[trigger] next_node(
            tree.nodes@,
            tree.children@,
            path[i] as int,
            path[i + 1] as int,
        )
}

/// A search goes from node to node, from the root of the longest token that ends the text to the
/// node of the last token of the text.
pub proof fn law_search_ends_at_last_token(
    tokens: Seq<Seq<u8>>,
    tree: CentroidSearchTree,
    text: Seq<u8>,
    tau: int,
    ids: Seq<u32>,
) -> (theta: int)
    requires
        tree.wf(tokens),
        text.len() > 0,
        encoding::longest_token(tokens, text, tau),
        promises::standard(tokens, text, ids),
    ensures
        ids.len() > 0,
        0 <= theta < lexicon::canon(tokens).len(),
        lexicon::token(tokens, theta) == tokens[ids.last() as int],
        path_to(
            &tree,
            tree.search_trail(tokens, text, tau),
            tree.roots@[numbering::timestamp(tokens, tau)] as int,
            theta,
        ),
{
    let ranks = lexicon::rank_map(tokens);
    let t = lexicon::token(tokens, tau);
    let s = suffixes::suffix_set(tokens, t);
    lexicon::lemma_accepted(tokens);
    lexicon::lemma_canon(tokens);
    assert(t.len() > 0);
    suffixes::lemma_suffix_tree(tokens, t);
    suffixes::lemma_last_number(tokens, text);
    let theta = search::last_id(tokens, text);
    assert(suffixes::suffix_set(tokens, text).contains(theta));
    suffixes::lemma_ends_nested(text, t, lexicon::token(tokens, theta));
    assert(tree.root_ok(tokens, tau));
    let run = choose|run: Seq<Seq<Seq<u8>>>| #[trigger]
        promises::merge_run(tokens, text, run) && promises::positions_of(tokens, run.last(), ids);
    promises::lemma_run_is(tokens, text, run);
    merge::lemma_tokenize(ranks, text);
    assert(ids[ids.len() - 1] < tokens.len());
    lemma_trail_path(
        tokens,
        s,
        &tree,
        tree.roots@[numbering::timestamp(tokens, tau)] as int,
        s,
        suffixes::byte_id(tokens, t.last()),
        theta,
        s.len(),
    );
    theta
}

proof fn lemma_trail_path(
    tokens: Seq<Seq<u8>>,
    s: Set<int>,
    tree: &CentroidSearchTree,
    idx: int,
    k: Set<int>,
    top: int,
    theta: int,
    fuel: nat,
)
    requires
        lexicon::vocab_error(tokens) is None,
        tree.nodes@.len() <= u32::MAX,
        sufsuc::searches(tokens, s, tree.nodes@, tree.children@, idx, k),
        component::component(numbering::parents(tokens), k, top),
        k.subset_of(s),
        k.contains(theta),
        k.len() <= fuel,
    ensures
        path_to(
            tree,
            search::trail(tokens, tree.nodes@, tree.children@, theta, idx, fuel),
            idx,
            theta,
        ),
    decreases fuel,
{
    let par = numbering::parents(tokens);
    let node = tree.nodes@[idx];
    let c = node.token as int;
    let trail = search::trail(tokens, tree.nodes@, tree.children@, theta, idx, fuel);
    if theta != c {
        component::lemma_pieces(par, k, c);
        let next = if forest::below(par, theta, c) {
            search::child_node(node, tree.children@, forest::toward(par, c, theta))
        } else {
            node.up_component as int
        };
        let rest = search::trail(
            tokens,
            tree.nodes@,
            tree.children@,
            theta,
            next,
            (fuel - 1) as nat,
        );
        assert(trail =~= seq![idx as u32] + rest);
        if forest::below(par, theta, c) {
            forest::lemma_toward(par, c, theta);
            let v = forest::toward(par, c, theta);
            assert(forest::below(par, c, c));
            assert(-1 <= par[v] < v);
            assert(forest::below(par, v, c));
            component::lemma_below_trans(par, v, c, top);
            component::lemma_between(par, k, top, theta, v);
            assert(s.contains(v) && par[v] == c);
            let j = choose|j: int|
                node.child_start <= j < node.child_start + node.child_len && (
                #[trigger] tree.children@[j]).token@ == v;
            let below = component::piece_below(par, k, v);
            assert(next == tree.children@[j].node);
            assert(sufsuc::searches(tokens, s, tree.nodes@, tree.children@, next, below));
            component::lemma_component_below(par, k, top, v);
            lemma_trail_path(tokens, s, tree, next, below, v, theta, (fuel - 1) as nat);
            assert(next_node(tree.nodes@, tree.children@, idx, next));
        } else {
            let above = component::piece_above(par, k, c);
            assert(above.contains(theta));
            assert(c != top);
            assert(sufsuc::searches(tokens, s, tree.nodes@, tree.children@, next, above));
            component::lemma_component_above(par, k, top, c);
            lemma_trail_path(tokens, s, tree, next, above, top, theta, (fuel - 1) as nat);
            assert(next_node(tree.nodes@, tree.children@, idx, next));
        }
        assert forall|i: int| 0 <= i < trail.len() - 1 implies #[trigger] next_node(
            tree.nodes@,
            tree.children@,
            trail[i] as int,
            trail[i + 1] as int,
        ) by {
            if i > 0 {
                let h = i - 1;
                assert(trail[i] == rest[h] && trail[i + 1] == rest[h + 1]);
                assert(next_node(
                    tree.nodes@,
                    tree.children@,
                    rest[h] as int,
                    rest[h + 1] as int,
                ));
            }
        }
        assert(trail.last() == rest.last());
    }
}

/// The last byte of a text takes no search exactly if the longest token that ends the text and that
/// merging makes is its last token.
pub proof fn law_search_only_where_needed(
    tokens: Seq<Seq<u8>>,
    tree: CentroidSearchTree,
    text: Seq<u8>,
    t: Seq<u8>,
    ids: Seq<u32>,
)
    requires
        tree.wf(tokens),
        text.len() > 0,
        promises::standard(tokens, text, ids),
        acceptance::self_made(tokens, t),
        promises::stands_at(text, t, text.len() - t.len()),
        forall|u: Seq<u8>|
            acceptance::self_made(tokens, u) && #[trigger] promises::stands_at(
                text,
                u,
                text.len() - u.len(),
            ) ==> u.len() <= t.len(),
    ensures
        ids.len() > 0,
        bpe::step_visits(tree, tokens, text).len() == 0 <==> t == tokens[ids.last() as int],
{
    let ranks = lexicon::rank_map(tokens);
    lexicon::lemma_accepted(tokens);
    lexicon::lemma_canon(tokens);
    acceptance::lemma_self_made(tokens, t);
    let tau = lexicon::lemma_token_of(tokens, t);
    assert(text.subrange(text.len() - t.len(), text.len() as int) =~= text.skip(
        text.len() - t.len(),
    ));
    assert forall|x: int| #[trigger]
        suffixes::suffix_set(tokens, text).contains(x) implies lexicon::token(tokens, x).len()
        <= lexicon::token(tokens, tau).len() by {
        let u = lexicon::token(tokens, x);
        acceptance::lemma_self_made(tokens, u);
        assert(text.subrange(text.len() - u.len(), text.len() as int) =~= text.skip(
            text.len() - u.len(),
        ));
        assert(promises::stands_at(text, u, text.len() - u.len()));
    }
    assert(encoding::longest_token(tokens, text, tau));
    bpe::lemma_longest_id(tokens, text, tau);
    let theta = law_search_ends_at_last_token(tokens, tree, text, tau, ids);
    suffixes::lemma_last_number(tokens, text);
    let run = choose|run: Seq<Seq<Seq<u8>>>| #[trigger]
        promises::merge_run(tokens, text, run) && promises::positions_of(tokens, run.last(), ids);
    promises::lemma_run_is(tokens, text, run);
    assert(ids[ids.len() - 1] < tokens.len());
    let last = search::last_id(tokens, text);
    assert(lexicon::token(tokens, last) == tokens[ids.last() as int]);
    if t == tokens[ids.last() as int] {
        assert(lexicon::token(tokens, tau) == lexicon::token(tokens, last));
    }
}

/// The visits for the chunks of a corpus add up.
pub proof fn law_corpus_visits_add_up(
    tree: CentroidSearchTree,
    tokens: Seq<Seq<u8>>,
    specials: Seq<(Seq<u8>, u32)>,
    a: Seq<Seq<u8>>,
    b: Seq<Seq<u8>>,
)
    ensures
        bpe::corpus_visits(tree, tokens, specials, a + b, (a + b).len() as int)
            == bpe::corpus_visits(tree, tokens, specials, a, a.len() as int) + bpe::corpus_visits(
            tree,
            tokens,
            specials,
            b,
            b.len() as int,
        ),
        forall|chunk: Seq<u8>|
            bpe::corpus_visits(tree, tokens, specials, seq![chunk], 1)
                == #[trigger] bpe::chunk_visits(tree, tokens, specials, chunk),
{
    lemma_corpus_visits(tree, tokens, specials, a, b, b.len() as int);
    assert(b.take(b.len() as int) =~= b);
    assert forall|chunk: Seq<u8>|
        bpe::corpus_visits(tree, tokens, specials, seq![chunk], 1) == #[trigger] bpe::chunk_visits(
            tree,
            tokens,
            specials,
            chunk,
        ) by {
        assert(bpe::corpus_visits(tree, tokens, specials, seq![chunk], 0) =~= Seq::empty());
        assert(bpe::corpus_visits(tree, tokens, specials, seq![chunk], 1) =~= bpe::chunk_visits(
            tree,
            tokens,
            specials,
            chunk,
        ));
    }
}

proof fn lemma_corpus_visits(
    tree: CentroidSearchTree,
    tokens: Seq<Seq<u8>>,
    specials: Seq<(Seq<u8>, u32)>,
    a: Seq<Seq<u8>>,
    b: Seq<Seq<u8>>,
    n: int,
)
    requires
        0 <= n <= b.len(),
    ensures
        bpe::corpus_visits(tree, tokens, specials, a + b, a.len() + n) == bpe::corpus_visits(
            tree,
            tokens,
            specials,
            a,
            a.len() as int,
        ) + bpe::corpus_visits(tree, tokens, specials, b, n),
    decreases n,
{
    let whole = bpe::corpus_visits(tree, tokens, specials, a + b, a.len() + n);
    let first = bpe::corpus_visits(tree, tokens, specials, a, a.len() as int);
    if n == 0 {
        lemma_corpus_prefix(tree, tokens, specials, a, a + b, a.len() as int);
        assert(whole =~= first + bpe::corpus_visits(tree, tokens, specials, b, 0));
    } else {
        lemma_corpus_visits(tree, tokens, specials, a, b, n - 1);
        assert((a + b)[a.len() + n - 1] == b[n - 1]);
        assert(whole =~= first + bpe::corpus_visits(tree, tokens, specials, b, n));
    }
}

proof fn lemma_corpus_prefix(
    tree: CentroidSearchTree,
    tokens: Seq<Seq<u8>>,
    specials: Seq<(Seq<u8>, u32)>,
    a: Seq<Seq<u8>>,
    b: Seq<Seq<u8>>,
    n: int,
)
    requires
        0 <= n <= a.len(),
        a.is_prefix_of(b),
    ensures
        bpe::corpus_visits(tree, tokens, specials, b, n) == bpe::corpus_visits(
            tree,
            tokens,
            specials,
            a,
            n,
        ),
    decreases n,
{
    if n > 0 {
        lemma_corpus_prefix(tree, tokens, specials, a, b, n - 1);
        assert(a[n - 1] == b[n - 1]);
    }
}

/// A chunk is looked up first; of what is not found there, the visits for the text up to the special
/// token that ends first come before those for the text behind it, and where no special token
/// stands every byte has its visits.
pub proof fn law_chunk_visits(
    tree: CentroidSearchTree,
    tokens: Seq<Seq<u8>>,
    specials: Seq<(Seq<u8>, u32)>,
    chunk: Seq<u8>,
)
    requires
        lexicon::vocab_error(tokens) is None,
        specials::specials_error(tokens, specials) is None,
    ensures
        index::find(tokens, specials, chunk) is Some ==> bpe::chunk_visits(
            tree,
            tokens,
            specials,
            chunk,
        ).len() == 0,
        index::find(tokens, specials, chunk) is None && chunk.len() > 0 ==> bpe::chunk_visits(
            tree,
            tokens,
            specials,
            chunk,
        ) == bpe::text_visits(tree, tokens, specials, chunk),
        forall|p: int, j: int| #[trigger]
            promises::ends_first(specials, chunk, p, j) ==> bpe::text_visits(
                tree,
                tokens,
                specials,
                chunk,
            ) == bpe::prefix_visits(tree, tokens, chunk, p + specials[j].0.len() - 1)
                + bpe::text_visits(
                tree,
                tokens,
                specials,
                chunk.skip(p + specials[j].0.len()),
            ),
        (forall|p: int, j: int| !(#[trigger] promises::special_at(specials, chunk, p, j)))
            ==> bpe::text_visits(tree, tokens, specials, chunk) == bpe::prefix_visits(
            tree,
            tokens,
            chunk,
            chunk.len() as int,
        ),
{
    specials::law_accepted_specials(tokens, specials);
    assert forall|p: int, j: int| #[trigger] promises::ends_first(
        specials,
        chunk,
        p,
        j,
    ) implies bpe::text_visits(tree, tokens, specials, chunk) == bpe::prefix_visits(
        tree,
        tokens,
        chunk,
        p + specials[j].0.len() - 1,
    ) + bpe::text_visits(tree, tokens, specials, chunk.skip(p + specials[j].0.len())) by {
        promises::lemma_first(specials, chunk, p, j);
        bpe::lemma_text_visits_special(
            tree,
            tokens,
            specials,
            chunk,
            p + specials[j].0.len(),
            j,
        );
    }
    if forall|p: int, j: int| !(#[trigger] promises::special_at(specials, chunk, p, j)) {
        assert forall|e: int, j: int| !(#[trigger] encoding::first_special(
            specials,
            chunk,
            e,
            j,
        )) by {
            if encoding::first_special(specials, chunk, e, j) {
                promises::lemma_ends_stands(chunk, specials[j].0, e);
                assert(0 < specials[j].0.len());
                assert(promises::special_at(specials, chunk, e - specials[j].0.len(), j));
            }
        }
    }
}

/// How often a number is in a list is its count in the multiset of the list.
proof fn lemma_times(list: Seq<u32>, x: u32)
    ensures
        search::times(list, x as int) == list.to_multiset().count(x),
        list.to_multiset().count(x) <= list.len(),
    decreases list.len(),
{
    broadcast use vstd::seq_lib::group_to_multiset_ensures;

    if list.len() > 0 {
        lemma_times(list.drop_last(), x);
        assert(list =~= list.drop_last().push(list.last()));
    }
}

/// With a corpus, the nodes that encoding it visits more often come before those that it visits
/// less often, and nodes that it visits equally often keep their order.
pub proof fn law_most_visited_first(
    prior: CentroidSearchTree,
    now: CentroidSearchTree,
    tokens: Seq<Seq<u8>>,
    specials: Seq<(Seq<u8>, u32)>,
    corpus: Seq<Seq<u8>>,
) -> (order: Seq<int>)
    requires
        bpe::laid_out(prior, now, tokens, specials, corpus),
        prior.nodes@.len() <= u32::MAX,
        bpe::corpus_visits(prior, tokens, specials, corpus, corpus.len() as int).len() <= u64::MAX,
    ensures
        order.len() == prior.nodes@.len(),
        now.nodes@.len() == prior.nodes@.len(),
        order.no_duplicates(),
        forall|i: int| 0 <= i < order.len() ==> 0 <= #[trigger] order[i] < prior.nodes@.len(),
        forall|i: int|
            0 <= i < order.len() ==> (#[trigger] now.nodes@[i]).token
                == prior.nodes@[order[i]].token && now.nodes@[i].search
                == prior.nodes@[order[i]].search,
        ({
            let visits = bpe::corpus_visits(
                prior,
                tokens,
                specials,
                corpus,
                corpus.len() as int,
            ).to_multiset();
            forall|i: int, j: int|
                0 <= i < j < order.len() ==> visits.count((#[trigger] order[i]) as u32)
                    > visits.count((#[trigger] order[j]) as u32) || (visits.count(order[i] as u32)
                    == visits.count(order[j] as u32) && order[i] < order[j])
        }),
{
    let visits = bpe::corpus_visits(prior, tokens, specials, corpus, corpus.len() as int);
    let (counts, order) = choose|counts: Seq<u64>, order: Seq<int>|
        {
            &&& counts.len() == prior.nodes@.len()
            &&& search::counted(counts, visits)
            &&& #[trigger] sufsuc::by_counts(counts, order)
            &&& now.reordered(&prior, order)
        };
    assert forall|i: int| 0 <= i < order.len() implies (#[trigger] now.nodes@[i]).token
        == prior.nodes@[order[i]].token && now.nodes@[i].search == prior.nodes@[order[i]].search by {
        assert(now.moved(&prior, order, i));
    }
    assert forall|i: int| 0 <= i < order.len() implies counts[#[trigger] order[i]]
        == visits.to_multiset().count(order[i] as u32) by {
        lemma_times(visits, order[i] as u32);
    }
    order
}

/// Without a corpus the search trees lie in the order of the tokens that they belong to. With one,
/// such trees are laid out by how often encoding the corpus visits their nodes, the most visited
/// ones first.
pub proof fn law_layout(
    trees: CentroidSearchTree,
    tokens: Seq<Seq<u8>>,
    specials: Seq<(Seq<u8>, u32)>,
    corpus: Seq<Seq<u8>>,
) -> (prior: CentroidSearchTree)
    requires
        bpe::made_for(trees, tokens, specials, corpus),
    ensures
        prior.wf(tokens),
        forall|tau: int, sigma: int|
            #![trigger numbering::timestamp(tokens, tau), numbering::timestamp(tokens, sigma)]
            0 <= tau < sigma < lexicon::canon(tokens).len() ==> prior.roots@[numbering::timestamp(
                tokens,
                tau,
            )] < prior.roots@[numbering::timestamp(tokens, sigma)],
        corpus.len() == 0 ==> trees == prior,
        corpus.len() > 0 ==> bpe::laid_out(prior, trees, tokens, specials, corpus),
{
    let prior = if corpus.len() == 0 {
        trees
    } else {
        choose|prior: CentroidSearchTree|
            {
                &&& prior.wf(tokens)
                &&& prior.token_order(tokens)
                &&& #[trigger] bpe::laid_out(prior, trees, tokens, specials, corpus)
            }
    };
    lexicon::lemma_accepted(tokens);
    lexicon::lemma_canon(tokens);
    assert forall|tau: int, sigma: int|
        #![trigger numbering::timestamp(tokens, tau), numbering::timestamp(tokens, sigma)]
        0 <= tau < sigma < lexicon::canon(tokens).len() implies prior.roots@[numbering::timestamp(
        tokens,
        tau,
    )] < prior.roots@[numbering::timestamp(tokens, sigma)] by {
        assert(prior.in_turn(tokens, tau));
        assert(prior.in_turn(tokens, sigma));
        lemma_suffix_total(tokens, tau, sigma);
    }
    prior
}

proof fn lemma_suffix_total(tokens: Seq<Seq<u8>>, tau: int, sigma: int)
    requires
        lexicon::vocab_error(tokens) is None,
        0 <= tau < sigma <= lexicon::canon(tokens).len(),
    ensures
        sufsuc::suffix_total(tokens, tau) < sufsuc::suffix_total(tokens, sigma),
    decreases sigma,
{
    lexicon::lemma_accepted(tokens);
    lexicon::lemma_canon(tokens);
    let t = lexicon::token(tokens, sigma - 1);
    assert(t.len() > 0);
    suffixes::lemma_suffix_tree(tokens, t);
    if tau < sigma - 1 {
        lemma_suffix_total(tokens, tau, sigma - 1);
    }
}

/// The canonical tokens are exactly those that merging makes, in the order of the list.
pub proof fn law_canonical_tokens(tokens: Seq<Seq<u8>>)
    requires
        lexicon::vocab_error(tokens) is None,
    ensures
        forall|i: int|
            0 <= i < lexicon::canon(tokens).len() ==> 0 <= #[trigger] lexicon::canon(tokens)[i]
                < tokens.len() && acceptance::self_made(tokens, tokens[lexicon::canon(tokens)[i]]),
        forall|i: int, j: int|
            0 <= i < j < lexicon::canon(tokens).len() ==> #[trigger] lexicon::canon(tokens)[i]
                < #[trigger] lexicon::canon(tokens)[j],
        forall|p: int|
            0 <= p < tokens.len() && acceptance::self_made(tokens, #[trigger] tokens[p])
                ==> lexicon::canon(tokens).contains(p),
{
    lexicon::lemma_accepted(tokens);
    lexicon::lemma_canon(tokens);
    lexicon::lemma_canon_upto(tokens, tokens.len() as int);
    assert forall|i: int| 0 <= i < lexicon::canon(tokens).len() implies 0
        <= #[trigger] lexicon::canon(tokens)[i] < tokens.len() && acceptance::self_made(
        tokens,
        tokens[lexicon::canon(tokens)[i]],
    ) by {
        acceptance::lemma_self_made(tokens, tokens[lexicon::canon(tokens)[i]]);
    }
    assert forall|p: int|
        0 <= p < tokens.len() && acceptance::self_made(
            tokens,
            #[trigger] tokens[p],
        ) implies lexicon::canon(tokens).contains(p) by {
        acceptance::lemma_self_made(tokens, tokens[p]);
    }
}

/// A lookup finds the id of the special token with the given bytes, or the rank of the token with
/// the given bytes if merging makes it, of every key that is long or free of the padding byte, and
/// nothing else.
pub proof fn law_lookup(
    tokens: Seq<Seq<u8>>,
    specials: Seq<(Seq<u8>, u32)>,
    key: Seq<u8>,
    id: u32,
)
    requires
        lexicon::vocab_error(tokens) is None,
        specials::specials_error(tokens, specials) is None,
    ensures
        index::find(tokens, specials, key) == Some(id) <==> (key.len() > 8 || !key.contains(
            0xF5u8,
        )) && (specials.contains((key, id)) || (id < tokens.len() && tokens[id as int] == key
            && acceptance::self_made(tokens, key))),
{
    lexicon::lemma_accepted(tokens);
    lexicon::lemma_rank_map(tokens);
    acceptance::lemma_self_made(tokens, key);
    specials::law_accepted_specials(tokens, specials);
    if acceptance::self_made(tokens, key) {
        merge::lemma_canonical_entry(lexicon::rank_map(tokens), key);
        let i = lexicon::lemma_token_of(tokens, key);
        assert forall|j: int| 0 <= j < specials.len() implies (#[trigger] specials[j]).0 != key by {
            if specials[j].0 == key {
                assert(key.skip(0) =~= key);
                encoding::lemma_occurs_end(key, key);
                assert(!encoding::occurs(specials[j].0, lexicon::token(tokens, i)));
            }
        }
    }
    lemma_special_lookup(specials, key);
    if specials.contains((key, id)) {
        let j = choose|j: int| 0 <= j < specials.len() && specials[j] == (key, id);
        assert(specials[j].0 == key);
        let x = choose|x: int|
            0 <= x < specials.len() && (#[trigger] specials[x]).0 == key && index::special_id(
                specials,
                key,
            ) == Some(specials[x].1);
        if x != j {
            assert(key.skip(0) =~= key);
            encoding::lemma_occurs_end(key, key);
            assert(!encoding::occurs(specials[x].0, specials[j].0));
        }
    }
    if index::special_id(specials, key) is Some {
        let x = choose|x: int|
            0 <= x < specials.len() && (#[trigger] specials[x]).0 == key && index::special_id(
                specials,
                key,
            ) == Some(specials[x].1);
        assert(specials[x] == (key, specials[x].1));
    }
}

/// The lookup among the special tokens finds one of those with the given bytes.
proof fn lemma_special_lookup(specials: Seq<(Seq<u8>, u32)>, key: Seq<u8>)
    ensures
        index::special_id(specials, key) is Some <==> exists|x: int|
            0 <= x < specials.len() && (#[trigger] specials[x]).0 == key,
        index::special_id(specials, key) is Some ==> exists|x: int|
            0 <= x < specials.len() && (#[trigger] specials[x]).0 == key && index::special_id(
                specials,
                key,
            ) == Some(specials[x].1),
    decreases specials.len(),
{
    if specials.len() > 0 {
        let n = specials.len() - 1;
        let rest = specials.drop_last();
        lemma_special_lookup(rest, key);
        if specials[n].0 != key {
            if exists|x: int| 0 <= x < specials.len() && (#[trigger] specials[x]).0 == key {
                let x = choose|x: int| 0 <= x < specials.len() && (#[trigger] specials[x]).0 == key;
                assert(rest[x].0 == key);
            }
            if index::special_id(rest, key) is Some {
                let x = choose|x: int|
                    0 <= x < rest.len() && (#[trigger] rest[x]).0 == key && index::special_id(
                        rest,
                        key,
                    ) == Some(rest[x].1);
                assert(specials[x].0 == key);
            }
        }
    }
}

/// The stored components of a canonical token are the parts that merging makes it of in the last
/// step.
pub proof fn law_components(tokens: Seq<Seq<u8>>, i: int)
    requires
        lexicon::vocab_error(tokens) is None,
        0 <= i < lexicon::canon(tokens).len(),
        lexicon::token(tokens, i).len() >= 2,
    ensures
        acceptance::made_of(
            tokens,
            lexicon::token(tokens, i),
            lexicon::token(tokens, numbering::pre_id(tokens, i)),
            lexicon::token(tokens, numbering::suc_id(tokens, i)),
        ),
{
    lexicon::lemma_accepted(tokens);
    lexicon::lemma_canon(tokens);
    numbering::lemma_components(tokens, i);
    acceptance::lemma_made_of(
        tokens,
        lexicon::token(tokens, i),
        lexicon::token(tokens, numbering::pre_id(tokens, i)),
        lexicon::token(tokens, numbering::suc_id(tokens, i)),
    );
}

/// The nodes of a component lie behind that of its centroid: those of the pieces below in the order
/// of the children, and then those of the piece above.
pub proof fn law_pieces_lie_in_order(
    tokens: Seq<Seq<u8>>,
    s: Set<int>,
    tree: CentroidSearchTree,
    idx: int,
    k: Set<int>,
    top: int,
    entry: int,
    i: int,
    j: int,
)
    requires
        lexicon::vocab_error(tokens) is None,
        component::component(numbering::parents(tokens), k, top),
        sufsuc::placed(tokens, s, tree.nodes@, tree.children@, idx, k, entry),
        tree.nodes@[idx].child_start <= i < j < tree.nodes@[idx].child_start
            + tree.nodes@[idx].child_len,
        k.contains(tree.children@[i].token@),
        k.contains(tree.children@[j].token@),
    ensures
        idx < tree.children@[i].node < tree.children@[j].node,
        component::piece_above(
            numbering::parents(tokens),
            k,
            tree.nodes@[idx].token as int,
        ).len() > 0 ==> tree.children@[j].node < tree.nodes@[idx].up_component,
{
    let par = numbering::parents(tokens);
    let children = tree.children@;
    let node = tree.nodes@[idx];
    let c = node.token as int;
    let lo = node.child_start as int;
    let x = children[i].token@;
    let y = children[j].token@;
    let a = sufsuc::below_children(par, k, children, lo, i);
    let b = sufsuc::below_children(par, k, children, lo, j);
    let all = component::piece_below(par, k, c);
    component::lemma_pieces(par, k, c);
    vstd::set_lib::lemma_set_subset_finite(k, a);
    vstd::set_lib::lemma_set_subset_finite(k, b);
    assert(forest::below(par, x, x) && forest::below(par, y, y));
    assert(b.contains(x));
    assert forall|h: int| lo <= h < i implies !forest::below(
        par,
        x,
        (#[trigger] children[h]).token@,
    ) by {
        if forest::below(par, x, children[h].token@) {
            component::lemma_siblings_apart(par, x, children[h].token@, x);
            lemma_kids_differ(tokens, s, children, lo, lo + node.child_len, c, h, i);
        }
    }
    assert forall|h: int| lo <= h < j implies !forest::below(
        par,
        y,
        (#[trigger] children[h]).token@,
    ) by {
        if forest::below(par, y, children[h].token@) {
            component::lemma_siblings_apart(par, y, children[h].token@, y);
            lemma_kids_differ(tokens, s, children, lo, lo + node.child_len, c, h, j);
        }
    }
    assert(!a.contains(x));
    assert(!b.contains(y));
    assert forall|z: int| a.contains(z) implies b.contains(z) by {
        let h = choose|h: int|
            lo <= h < i && forest::below(par, z, (#[trigger] children[h]).token@);
        assert(forest::below(par, z, children[h].token@));
    }
    assert(a.subset_of(b.remove(x)));
    vstd::set_lib::lemma_len_subset(a, b.remove(x));
    assert forall|z: int| b.contains(z) implies all.contains(z) && z != c && z != y by {
        let h = choose|h: int|
            lo <= h < j && forest::below(par, z, (#[trigger] children[h]).token@);
        let v = children[h].token@;
        assert(par[v] == c);
        assert(-1 <= par[v] < v);
        assert(forest::below(par, c, c));
        assert(forest::below(par, v, c));
        component::lemma_below_trans(par, z, v, c);
        forest::lemma_below_in(par, z, v);
    }
    assert(forest::below(par, c, c));
    assert(-1 <= par[y] < y);
    assert(forest::below(par, y, c));
    assert(all.contains(c) && all.contains(y));
    assert(b.subset_of(all.remove(c).remove(y)));
    vstd::set_lib::lemma_len_subset(b, all.remove(c).remove(y));
}

/// Two children of one node differ.
proof fn lemma_kids_differ(
    tokens: Seq<Seq<u8>>,
    s: Set<int>,
    children: Seq<CentroidSearchTreeChild>,
    lo: int,
    hi: int,
    c: int,
    h: int,
    i: int,
)
    requires
        lexicon::vocab_error(tokens) is None,
        sufsuc::kids_ok(tokens, s, children, lo, hi, c),
        0 <= c,
        lo <= h < i < hi,
    ensures
        children[h].token@ != children[i].token@,
{
    let v = children[h].token@;
    assert(children[h].valid.end <= children[i].valid.start);
    numbering::lemma_forest(tokens);
    lexicon::lemma_accepted(tokens);
    lexicon::lemma_canon(tokens);
    if lexicon::token(tokens, v).len() >= 2 {
        suffixes::lemma_interval_nonempty(tokens, v);
    } else {
        assert(numbering::parents(tokens)[v] == -1);
    }
}

} // verus!
