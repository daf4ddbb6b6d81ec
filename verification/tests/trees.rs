use daachorse::DoubleArrayAhoCorasickBuilder;

use daac_bpe::entry::{StateEntry, INVALID_ID};
use daac_bpe::error::Error;
use daac_bpe::index::PAD;
use daac_bpe::sufsuc::CentroidSearchTree;
use daac_bpe::vocab::TokenTableBuilder;

/// A xorshift generator.
struct Rng(u64);

impl Rng {
    fn next(&mut self) -> u64 {
        self.0 ^= self.0 << 13;
        self.0 ^= self.0 >> 7;
        self.0 ^= self.0 << 17;
        self.0
    }

    fn below(&mut self, n: usize) -> usize {
        usize::try_from(self.next() % u64::try_from(n).unwrap()).unwrap()
    }
}

/// A small proper vocabulary consisting of all 256 single bytes plus random merges over a tiny
/// alphabet that deliberately holds `PAD`.
fn sample_vocabulary(seed: u64) -> Vec<Vec<u8>> {
    let alphabet = [b'a', b'b', PAD];
    let mut rng = Rng(seed.wrapping_mul(0x9E37_79B9_7F4A_7C15) | 1);
    let mut vocab: Vec<Vec<u8>> = (0u8..=255).map(|b| vec![b]).collect();
    let mut grown: Vec<Vec<u8>> = alphabet.iter().map(|&b| vec![b]).collect();
    for _ in 0..40 {
        let x = grown[rng.below(grown.len())].clone();
        let y = grown[rng.below(grown.len())].clone();
        let mut merged = x;
        merged.extend_from_slice(&y);
        if merged.len() > 12 || vocab.contains(&merged) {
            continue;
        }
        vocab.push(merged.clone());
        grown.push(merged);
    }
    // Growing merges does not by itself keep the dictionary proper, so drop the entries the builder
    // rejects and retry.
    loop {
        match TokenTableBuilder::new(&vocab) {
            Ok(_) => return vocab,
            Err(Error::NotProper { token, .. }) => vocab.retain(|t| *t != token),
            Err(e) => panic!("unexpected build error: {}", e.message()),
        }
    }
}

/// Builds the automaton and the centroid search trees for `vocab`.
fn build_trees(vocab: &[Vec<u8>]) -> (TokenTableBuilder, CentroidSearchTree) {
    let table = TokenTableBuilder::new(vocab).unwrap();
    let k = u32::try_from(table.len()).unwrap();
    let patterns = (0..k).map(|i| (table.token_bytes(i).to_vec(), table.to_entry(i)));
    let pma = DoubleArrayAhoCorasickBuilder::new()
        .build_with_values::<_, _, StateEntry>(patterns)
        .unwrap();
    let tree = CentroidSearchTree::build(&table, &pma);
    (table, tree)
}

/// The nodes reachable from `root`, following both the upward component and the child components.
fn reachable(tree: &CentroidSearchTree, root: u32) -> Vec<u32> {
    let mut seen = vec![root];
    let mut i = 0;
    while i < seen.len() {
        let node = tree.nodes[usize::try_from(seen[i]).unwrap()];
        i += 1;
        let start = usize::try_from(node.child_start).unwrap();
        let end = start + usize::try_from(node.child_len).unwrap();
        let mut next: Vec<u32> = tree.children[start..end]
            .iter()
            .map(|child| child.node)
            .collect();
        next.push(node.up_component);
        for candidate in next {
            if candidate != INVALID_ID && !seen.contains(&candidate) {
                seen.push(candidate);
            }
        }
    }
    seen
}

/// Asserts that the children of every centroid in `tree` are sorted by the start of their valid
/// interval and pairwise disjoint, returning how many sibling pairs it compared.
fn count_checked_sibling_pairs(tree: &CentroidSearchTree) -> usize {
    let mut checked = 0;
    for node in &tree.nodes {
        let start = usize::try_from(node.child_start).unwrap();
        let end = start + usize::try_from(node.child_len).unwrap();
        for pair in tree.children[start..end].windows(2) {
            assert!(pair[0].valid.end <= pair[1].valid.start);
            checked += 1;
        }
    }
    checked
}

fn check_sibling_order(seeds: u64) -> usize {
    let mut checked = 0;
    for seed in 1..=seeds {
        let (_, tree) = build_trees(&sample_vocabulary(seed));
        checked += count_checked_sibling_pairs(&tree);
    }
    checked
}

/// Asserts that the tree of `tau` holds each of its suffix tokens exactly once, returning 1 when the
/// tree was large enough to be interesting.
fn check_one_tree(table: &TokenTableBuilder, tree: &CentroidSearchTree, tau: u32) -> usize {
    let bytes = table.token_bytes(tau);
    let k = u32::try_from(table.len()).unwrap();
    // The canonical tokens that are suffixes, by brute force.
    let want = (0..k)
        .filter(|&other| bytes.ends_with(table.token_bytes(other)))
        .count();

    let root = tree.roots[usize::try_from(table.dfs_in[usize::try_from(tau).unwrap()]).unwrap()];
    let mut tokens: Vec<u32> = reachable(tree, root)
        .iter()
        .map(|&i| tree.nodes[usize::try_from(i).unwrap()].token)
        .collect();
    tokens.sort_unstable();
    let reached = tokens.len();
    tokens.dedup();
    assert_eq!(tokens.len(), reached);
    assert_eq!(tokens.len(), want);
    usize::from(want > 2)
}

fn check_tree_membership(seeds: u64) -> usize {
    let mut checked = 0;
    for seed in 1..=seeds {
        let (table, tree) = build_trees(&sample_vocabulary(seed));
        for tau in 0..u32::try_from(table.len()).unwrap() {
            checked += check_one_tree(&table, &tree, tau);
        }
    }
    checked
}

/// The descent binary-searches the children of a centroid, so they must be sorted by the start of
/// their valid interval. Sibling intervals are mutually exclusive, so they must also be disjoint.
#[test]
fn centroid_children_are_sorted_and_disjoint() {
    let checked = check_sibling_order(4);
    assert!(checked > 0);
}

/// Decomposing the tree of the suffix tokens must place every one of its nodes in exactly one
/// component, so each suffix token appears exactly once in the tree reachable from that root.
#[test]
fn each_centroid_tree_holds_every_suffix_token_once() {
    let checked = check_tree_membership(4);
    assert!(checked > 0);
}

/// The largest number of nodes that a search from `idx` can visit.
fn height(tree: &CentroidSearchTree, idx: u32) -> u32 {
    if idx == INVALID_ID {
        return 0;
    }
    let node = tree.nodes[usize::try_from(idx).unwrap()];
    let start = usize::try_from(node.child_start).unwrap();
    let end = start + usize::try_from(node.child_len).unwrap();
    let mut best = height(tree, node.up_component);
    for child in &tree.children[start..end] {
        best = best.max(height(tree, child.node));
    }
    best + 1
}

/// With `n` nodes on a way down, a tree holds at least `2^(n - 1)` tokens.
#[test]
fn centroid_trees_are_low() {
    let mut vocab: Vec<Vec<u8>> = (0u8..=255).map(|b| vec![b]).collect();
    for e in 1..=6 {
        vocab.push(vec![b'a'; 1 << e]);
    }
    let (table, tree) = build_trees(&vocab);
    for tau in 0..u32::try_from(table.len()).unwrap() {
        let root = tree.roots[usize::try_from(table.dfs_in[tau as usize]).unwrap()];
        let n = u32::try_from(reachable(&tree, root).len()).unwrap();
        assert!(1u32 << (height(&tree, root) - 1) <= n);
    }
}

/// The subtree of a token in the successor forest is the interval between its timestamps.
#[test]
fn subtrees_are_intervals() {
    for seed in 1..=4 {
        let table = TokenTableBuilder::new(&sample_vocabulary(seed)).unwrap();
        let k = table.len();
        let mut stamps = table.dfs_in.clone();
        stamps.sort_unstable();
        assert_eq!(stamps, (0..u32::try_from(k).unwrap()).collect::<Vec<_>>());
        for x in 0..k {
            let mut ancestors = vec![];
            let mut a = u32::try_from(x).unwrap();
            loop {
                ancestors.push(a);
                if table.is_atomic(a) {
                    break;
                }
                a = table.suc[usize::try_from(a).unwrap()];
            }
            for u in 0..k {
                let inside = table.dfs_in[u] <= table.dfs_in[x] && table.dfs_in[x] < table.dfs_out[u];
                assert_eq!(inside, ancestors.contains(&u32::try_from(u).unwrap()));
            }
        }
    }
}

/// The tables of a small vocabulary, value by value.
#[test]
fn tables_of_a_small_vocabulary() {
    let mut vocab: Vec<Vec<u8>> = (0u8..=255).map(|b| vec![b]).collect();
    vocab.push(b"ab".to_vec());
    vocab.push(b"abc".to_vec());
    // Never made of its own bytes, so it is dropped.
    vocab.push(b"xyz".to_vec());
    vocab.push(b"bc".to_vec());
    let table = TokenTableBuilder::new(&vocab).unwrap();
    assert_eq!(table.len(), 259);
    assert_eq!(table.token_bytes(256), b"ab");
    assert_eq!(table.token_bytes(257), b"abc");
    assert_eq!(table.token_bytes(258), b"bc");
    assert_eq!(table.rank[258], 259);
    assert!(table.is_atomic(u32::from(b'a')));
    assert!(!table.is_atomic(257));
    assert_eq!(table.pre[257], 256);
    assert_eq!(table.suc[257], u32::from(b'c'));
    let entry = table.to_entry(257);
    assert_eq!(entry.len, 3);
    assert_eq!(entry.suc_len, 1);
    assert_eq!(entry.dfs_in_tau, table.dfs_in[257]);
    assert_eq!(entry.valid.start, table.dfs_in[256]);
    assert_eq!(entry.valid.end, table.dfs_out[256]);
    assert!(!entry.is_special());
    // The children of `c` are "bc" and "abc"; the one with the larger rank comes first.
    assert_eq!(table.dfs_in[258], table.dfs_in[usize::from(b'c')] + 1);
    assert_eq!(table.dfs_in[257], table.dfs_in[usize::from(b'c')] + 2);
    let dfs_in = table.dfs_in.clone();
    let runtime = table.finish();
    assert_eq!(runtime.dfs_in, dfs_in);
    let inverse = runtime.dfs_in_inv[usize::try_from(dfs_in[258]).unwrap()];
    assert_eq!((inverse.rank, inverse.len), (259, 2));
}

#[test]
fn special_payloads_are_told_apart() {
    let entry = StateEntry::special(70_000, 13);
    assert!(entry.is_special());
    assert_eq!(entry.special_id(), 70_000);
    assert_eq!(entry.len, 13);
    assert_eq!(entry.suc_len, 0);
}

/// Reordering the arenas keeps every tree, and puts the most visited nodes first.
#[test]
fn reordering_keeps_the_trees() {
    let (table, mut tree) = build_trees(&sample_vocabulary(2));
    let n = tree.nodes.len();
    let tokens: Vec<u32> = tree.nodes.iter().map(|node| node.token).collect();
    let counts: Vec<u64> = (0..n).map(|i| u64::try_from(i * 7 % 11).unwrap()).collect();
    tree.reorder_by_counts(&counts);
    let mut order: Vec<usize> = (0..n).collect();
    order.sort_by_key(|&i| core::cmp::Reverse(counts[i]));
    let expected: Vec<u32> = order.iter().map(|&i| tokens[i]).collect();
    let found: Vec<u32> = tree.nodes.iter().map(|node| node.token).collect();
    assert_eq!(found, expected);
    count_checked_sibling_pairs(&tree);
    for tau in 0..u32::try_from(table.len()).unwrap() {
        check_one_tree(&table, &tree, tau);
    }
}

/// The last token that standard merging makes of a text.
fn last_token(vocab: &[Vec<u8>], text: &[u8]) -> Vec<u8> {
    let rank = |b: &[u8]| vocab.iter().position(|t| t == b);
    let mut parts: Vec<Vec<u8>> = text.iter().map(|&b| vec![b]).collect();
    while let Some((_, i)) = (1..parts.len())
        .filter_map(|i| rank(&[&parts[i - 1][..], &parts[i][..]].concat()).map(|r| (r, i - 1)))
        .min()
    {
        let right = parts.remove(i + 1);
        parts[i].extend_from_slice(&right);
    }
    parts.pop().unwrap()
}

/// The suffix tokens of a text whose interval holds the timestamp of the last token before their
/// right component are the last token of the text and its ancestors, which form one path.
#[test]
fn passing_tokens_form_a_path() {
    let vocab = sample_vocabulary(3);
    let table = TokenTableBuilder::new(&vocab).unwrap();
    let k = u32::try_from(table.len()).unwrap();
    let id = |bytes: &[u8]| (0..k).find(|&i| table.token_bytes(i) == bytes).unwrap();
    let mut rng = Rng(99);
    for _ in 0..40 {
        let n = 1 + rng.below(24);
        let text: Vec<u8> = (0..n).map(|_| [b'a', b'b', PAD][rng.below(3)]).collect();
        let mut passing: Vec<u32> = (0..k)
            .filter(|&t| text.ends_with(table.token_bytes(t)))
            .filter(|&t| {
                let entry = table.to_entry(t);
                entry.suc_len == 0 || {
                    let before = &text[..n - usize::from(entry.suc_len)];
                    let last = id(&last_token(&vocab, before));
                    entry.valid.contains(table.dfs_in[usize::try_from(last).unwrap()])
                }
            })
            .collect();
        let mut path = vec![];
        let mut t = id(&last_token(&vocab, &text));
        loop {
            path.push(t);
            if table.is_atomic(t) {
                break;
            }
            t = table.suc[usize::try_from(t).unwrap()];
        }
        passing.sort_unstable();
        path.sort_unstable();
        assert_eq!(passing, path);
    }
}

/// The tree of a chain of three tokens: the middle one, then the one below it, then the one above.
#[test]
fn a_chain_is_laid_out_in_preorder() {
    let mut vocab: Vec<Vec<u8>> = (0u8..=255).map(|b| vec![b]).collect();
    vocab.push(b"bc".to_vec());
    vocab.push(b"abc".to_vec());
    let (table, tree) = build_trees(&vocab);
    // One node per byte, two for "bc" and three for "abc".
    assert_eq!(tree.nodes.len(), 256 + 2 + 3);
    assert_eq!(tree.children.len(), 1 + 2);
    let root = tree.roots[usize::try_from(table.dfs_in[257]).unwrap()];
    assert_eq!(root, 258);
    let nodes = &tree.nodes[258..261];
    let tokens: Vec<u32> = nodes.iter().map(|node| node.token).collect();
    assert_eq!(tokens, [256, 257, 99]);
    let up: Vec<u32> = nodes.iter().map(|node| node.up_component).collect();
    assert_eq!(up, [260, INVALID_ID, INVALID_ID]);
    let starts: Vec<u32> = nodes.iter().map(|node| node.child_start).collect();
    assert_eq!(starts, [1, 2, 2]);
    let lens: Vec<u32> = nodes.iter().map(|node| node.child_len).collect();
    assert_eq!(lens, [1, 0, 1]);
    assert_eq!(tree.children[1].node, 259);
    assert_eq!(tree.children[2].node, INVALID_ID);
}

/// Asserts that the slices of the nodes follow each other and cover the children, and that every
/// node holds what a search reads of its token.
fn check_arenas(table: &TokenTableBuilder, tree: &CentroidSearchTree) {
    let mut next = 0;
    for node in &tree.nodes {
        assert_eq!(node.child_start, next);
        next += node.child_len;
        let want = table.search[usize::try_from(node.token).unwrap()];
        assert_eq!(node.search, want);
    }
    assert_eq!(usize::try_from(next).unwrap(), tree.children.len());
}

/// The arenas hold one node for each suffix token of each token, and one child for each of them but
/// the last byte. The trees lie in the order of the tokens.
#[test]
fn arenas_hold_nothing_else() {
    for seed in 1..=6 {
        let (table, mut tree) = build_trees(&sample_vocabulary(seed));
        let k = u32::try_from(table.len()).unwrap();
        let mut total = 0u32;
        for tau in 0..k {
            let stamp = usize::try_from(table.dfs_in[usize::try_from(tau).unwrap()]).unwrap();
            assert_eq!(tree.roots[stamp], total);
            let bytes = table.token_bytes(tau);
            let suffixes = (0..k).filter(|&t| bytes.ends_with(table.token_bytes(t))).count();
            total += u32::try_from(suffixes).unwrap();
        }
        assert_eq!(tree.nodes.len(), usize::try_from(total).unwrap());
        assert_eq!(tree.children.len(), usize::try_from(total - k).unwrap());
        check_arenas(&table, &tree);
        let counts: Vec<u64> = (0..u64::from(total)).map(|i| i * 5 % 7).collect();
        tree.reorder_by_counts(&counts);
        assert_eq!(tree.nodes.len(), usize::try_from(total).unwrap());
        check_arenas(&table, &tree);
    }
}

/// The piece above a centroid is listed from the centroid's parent, which wins a tie.
#[test]
fn ties_go_to_the_member_listed_first() {
    let mut vocab: Vec<Vec<u8>> = (0u8..=255).map(|b| vec![b]).collect();
    for text in ["ba", "cba", "dcba", "edcba", "fedcba"] {
        vocab.push(text.as_bytes().to_vec());
    }
    let (table, tree) = build_trees(&vocab);
    let root = tree.roots[usize::try_from(table.dfs_in[260]).unwrap()];
    assert_eq!(root, 256 + 2 + 3 + 4 + 5);
    let nodes = &tree.nodes[270..276];
    let tokens: Vec<u32> = nodes.iter().map(|node| node.token).collect();
    // "cba" before "dcba" from the top, and "ba" before "a" from below.
    assert_eq!(tokens, [257, 259, 260, 258, 256, 97]);
    let up: Vec<u32> = nodes.iter().map(|node| node.up_component).collect();
    assert_eq!(up, [274, 273, INVALID_ID, INVALID_ID, 275, INVALID_ID]);
    let down: Vec<Vec<u32>> = nodes
        .iter()
        .map(|node| {
            let start = usize::try_from(node.child_start).unwrap();
            let end = start + usize::try_from(node.child_len).unwrap();
            tree.children[start..end].iter().map(|child| child.node).collect()
        })
        .collect();
    let nowhere = vec![INVALID_ID];
    assert_eq!(
        down,
        [vec![271], vec![272], vec![], nowhere.clone(), nowhere.clone(), nowhere]
    );
}

/// The neighbours of `v` among `left`: its parent, then its children by interval.
fn neighbours(table: &TokenTableBuilder, left: &[u32], v: u32) -> Vec<u32> {
    let parent = |x: u32| table.suc[usize::try_from(x).unwrap()];
    let mut list: Vec<u32> = left.iter().copied().filter(|&x| parent(v) == x).collect();
    let mut children: Vec<u32> = left.iter().copied().filter(|&x| parent(x) == v).collect();
    children.sort_by_key(|&x| table.search[usize::try_from(x).unwrap()].valid.start);
    list.extend(children);
    list
}

/// What hangs together with `entry` among `left`, breadth first.
fn listed_from(table: &TokenTableBuilder, left: &[u32], entry: u32) -> Vec<u32> {
    let mut list = vec![entry];
    let mut i = 0;
    while i < list.len() {
        for x in neighbours(table, left, list[i]) {
            if !list.contains(&x) {
                list.push(x);
            }
        }
        i += 1;
    }
    list
}

/// The tokens of the nodes of a component in the order in which they are laid out.
fn layout(table: &TokenTableBuilder, left: &[u32], entry: u32) -> Vec<u32> {
    let members = listed_from(table, left, entry);
    let without = |c: u32| -> Vec<u32> { members.iter().copied().filter(|&x| x != c).collect() };
    let largest = |c: u32| {
        let rest = without(c);
        rest.iter()
            .map(|&x| listed_from(table, &rest, x).len())
            .max()
            .unwrap_or(0)
    };
    // min_by_key takes the first of equal members.
    let c = members.iter().copied().min_by_key(|&x| largest(x)).unwrap();
    let rest = without(c);
    let mut out = vec![c];
    let around = neighbours(table, &members, c);
    let up = table.suc[usize::try_from(c).unwrap()];
    for &x in around.iter().filter(|&&x| x != up) {
        out.extend(layout(table, &rest, x));
    }
    if around.contains(&up) {
        out.extend(layout(table, &rest, up));
    }
    out
}

/// Every tree is laid out as splitting by brute force lays it out.
#[test]
fn trees_are_laid_out_in_the_order_of_the_splits() {
    let mut large = 0;
    for seed in 1..=6 {
        let (table, tree) = build_trees(&sample_vocabulary(seed));
        let k = u32::try_from(table.len()).unwrap();
        let mut expected = vec![];
        for tau in 0..k {
            let bytes = table.token_bytes(tau);
            let mut suffixes: Vec<u32> = (0..k)
                .filter(|&t| bytes.ends_with(table.token_bytes(t)))
                .collect();
            suffixes.sort_by_key(|&t| table.token_bytes(t).len());
            large += usize::from(suffixes.len() > 3);
            expected.extend(layout(&table, &suffixes, suffixes[0]));
        }
        let found: Vec<u32> = tree.nodes.iter().map(|node| node.token).collect();
        assert_eq!(found, expected);
    }
    assert!(large > 10);
}
