//! The Huffman tree: greedy construction and code-path extraction.

use vstd::prelude::*;
use vstd::multiset::Multiset;
use vstd::seq_lib::lemma_multiset_commutative;
use vstd::arithmetic::power2::{pow2, lemma_pow2_unfold};

verus! {

broadcast use vstd::seq_lib::group_to_multiset_ensures;

/// A Huffman tree node: a branch owning two children, or a leaf holding one
/// symbol. The number on each node is its combined frequency.
pub enum Tree {
    Branch(Box<Tree>, u64, Box<Tree>),
    Leaf(char, u64),
}

/// The combined frequency stored on the root node of `t`.
pub open spec fn node_weight(t: Tree) -> u64 {
    match t {
        Tree::Branch(_, w, _) => w,
        Tree::Leaf(_, w) => w,
    }
}

/// The symbols on the leaves of `t`, left to right.
pub open spec fn leaf_syms(t: Tree) -> Seq<char>
    decreases t,
{
    match t {
        Tree::Branch(l, _, r) => leaf_syms(*l) + leaf_syms(*r),
        Tree::Leaf(c, _) => seq![c],
    }
}

/// The height of `t`: a leaf has height zero.
pub open spec fn height(t: Tree) -> nat
    decreases t,
{
    match t {
        Tree::Branch(l, _, r) => 1 + if height(*l) >= height(*r) {
            height(*l)
        } else {
            height(*r)
        },
        Tree::Leaf(_, _) => 0,
    }
}

/// The root-to-leaf bit path of every leaf under `t`, with `prefix` already
/// walked: left appends a zero bit, right a one bit.
pub open spec fn paths(t: Tree, prefix: Seq<bool>) -> Seq<(char, Seq<bool>)>
    decreases t,
{
    match t {
        Tree::Branch(l, _, r) => paths(*l, prefix.push(false)) + paths(*r, prefix.push(true)),
        Tree::Leaf(c, _) => seq![(c, prefix)],
    }
}

/// Every tree holds at least one leaf.
pub proof fn lemma_leaf_syms_nonempty(t: Tree)
    ensures
        leaf_syms(t).len() >= 1,
    decreases t,
{
    match t {
        Tree::Branch(l, _, r) => {
            lemma_leaf_syms_nonempty(*l);
            lemma_leaf_syms_nonempty(*r);
        },
        Tree::Leaf(_, _) => {},
    }
}

/// A tree's height stays below its number of leaves.
pub proof fn lemma_height_lt_leaves(t: Tree)
    ensures
        height(t) < leaf_syms(t).len(),
    decreases t,
{
    match t {
        Tree::Branch(l, _, r) => {
            lemma_height_lt_leaves(*l);
            lemma_height_lt_leaves(*r);
        },
        Tree::Leaf(_, _) => {},
    }
}

/// The extracted paths carry the leaf symbols in leaf order, and each path's
/// length lies between the prefix length and the prefix length plus the height.
pub proof fn lemma_paths_basic(t: Tree, prefix: Seq<bool>)
    ensures
        paths(t, prefix).len() == leaf_syms(t).len(),
        forall|i: int|
            0 <= i < paths(t, prefix).len() ==> (#[trigger] paths(t, prefix)[i]).0 == leaf_syms(
                t,
            )[i],
        forall|i: int|
            0 <= i < paths(t, prefix).len() ==> prefix.len() <= (#[trigger] paths(
                t,
                prefix,
            )[i]).1.len() <= prefix.len() + height(t),
        t is Branch ==> forall|i: int|
            0 <= i < paths(t, prefix).len() ==> (#[trigger] paths(t, prefix)[i]).1.len()
                >= prefix.len() + 1,
    decreases t,
{
    match t {
        Tree::Branch(l, _, r) => {
            lemma_paths_basic(*l, prefix.push(false));
            lemma_paths_basic(*r, prefix.push(true));
        },
        Tree::Leaf(_, _) => {},
    }
}

/// The Kraft weight of a sequence of code paths at scale `pow2(d)`: the sum
/// over the entries of `pow2(d - pathLength)`.
pub open spec fn kpsum(s: Seq<(char, Seq<bool>)>, d: nat) -> nat
    decreases s.len(),
{
    if s.len() == 0 {
        0
    } else {
        kpsum(s.drop_last(), d) + pow2((d - s.last().1.len()) as nat)
    }
}

/// The Kraft weight distributes over concatenation.
pub proof fn lemma_kpsum_concat(a: Seq<(char, Seq<bool>)>, b: Seq<(char, Seq<bool>)>, d: nat)
    ensures
        kpsum(a + b, d) == kpsum(a, d) + kpsum(b, d),
    decreases b.len(),
{
    if b.len() == 0 {
        assert(a + b =~= a);
    } else {
        lemma_kpsum_concat(a, b.drop_last(), d);
        assert((a + b).drop_last() =~= a + b.drop_last());
        assert((a + b).last() == b.last());
    }
}

/// The Kraft equality: the paths of a whole tree exhaust their scale exactly.
/// A full binary tree's code lengths `l_i` satisfy `sum 2^(d - l_i) == 2^(d - p)`
/// when the walk starts from a prefix of length `p`.
pub proof fn lemma_kraft(t: Tree, prefix: Seq<bool>, d: nat)
    requires
        prefix.len() + height(t) <= d,
    ensures
        kpsum(paths(t, prefix), d) == pow2((d - prefix.len()) as nat),
    decreases t,
{
    match t {
        Tree::Branch(l, _, r) => {
            let pl = paths(*l, prefix.push(false));
            let pr = paths(*r, prefix.push(true));
            assert(height(t) == 1 + if height(*l) >= height(*r) {
                height(*l)
            } else {
                height(*r)
            });
            lemma_kraft(*l, prefix.push(false), d);
            lemma_kraft(*r, prefix.push(true), d);
            lemma_kpsum_concat(pl, pr, d);
            assert(paths(t, prefix) == pl + pr);
            lemma_pow2_unfold((d - prefix.len()) as nat);
            assert((d - prefix.push(false).len()) as nat == ((d - prefix.len()) as nat - 1)
                as nat);
            assert(kpsum(paths(t, prefix), d) == pow2(((d - prefix.len()) as nat - 1) as nat)
                + pow2(((d - prefix.len()) as nat - 1) as nat));
            assert(kpsum(paths(t, prefix), d) == pow2((d - prefix.len()) as nat));
        },
        Tree::Leaf(c, _) => {
            assert(paths(t, prefix) =~= seq![(c, prefix)]);
            assert(paths(t, prefix).drop_last() =~= Seq::<(char, Seq<bool>)>::empty());
            assert(paths(t, prefix).last().1 == prefix);
            assert(kpsum(Seq::<(char, Seq<bool>)>::empty(), d) == 0);
            assert(kpsum(paths(t, prefix), d) == pow2((d - prefix.len()) as nat));
        },
    }
}

/// The (symbol, frequency) pairs on the leaves of `t`, left to right.
pub open spec fn leaf_pairs(t: Tree) -> Seq<(char, u64)>
    decreases t,
{
    match t {
        Tree::Branch(l, _, r) => leaf_pairs(*l) + leaf_pairs(*r),
        Tree::Leaf(c, w) => seq![(c, w)],
    }
}

/// Every branch of the tree carries exactly the sum of its two children's
/// combined frequencies.
pub open spec fn well_formed(t: Tree) -> bool
    decreases t,
{
    match t {
        Tree::Branch(l, w, r) => w == node_weight(*l) + node_weight(*r) && well_formed(*l)
            && well_formed(*r),
        Tree::Leaf(_, _) => true,
    }
}

/// The sum of the counts of a frequency table.
pub open spec fn counts_sum(s: Seq<(char, u16)>) -> nat
    decreases s.len(),
{
    if s.len() == 0 {
        0
    } else {
        counts_sum(s.drop_last()) + s.last().1 as nat
    }
}

/// The counts sum to at most the table length times the counter maximum.
pub proof fn lemma_counts_sum_bound(s: Seq<(char, u16)>)
    ensures
        counts_sum(s) <= s.len() * 0xffff,
    decreases s.len(),
{
    if s.len() > 0 {
        lemma_counts_sum_bound(s.drop_last());
        assert((s.len() - 1) * 0xffff + 0xffff == s.len() * 0xffff) by (nonlinear_arith);
    }
}

/// The frequency table's entries, widened to leaf pairs.
pub open spec fn pairs_of(s: Seq<(char, u16)>) -> Seq<(char, u64)> {
    s.map_values(|p: (char, u16)| (p.0, p.1 as u64))
}

/// One starting leaf per table entry, in table order.
pub open spec fn leaves_of(s: Seq<(char, u16)>) -> Seq<Tree>
    decreases s.len(),
{
    if s.len() == 0 {
        Seq::empty()
    } else {
        leaves_of(s.drop_last()).push(Tree::Leaf(s.last().0, s.last().1 as u64))
    }
}

/// The position of the first tree of minimal combined frequency in the
/// worklist.
pub open spec fn min_weight_index(s: Seq<Tree>) -> int
    recommends
        s.len() > 0,
    decreases s.len(),
{
    if s.len() <= 1 {
        0
    } else {
        let m = min_weight_index(s.drop_last());
        if node_weight(s.last()) < node_weight(s[m]) {
            s.len() - 1
        } else {
            m
        }
    }
}

/// One greedy step: removes the two first-minimal trees from the worklist
/// and pushes their combined parent at the back.
pub open spec fn combine_step(s: Seq<Tree>) -> Seq<Tree>
    recommends
        s.len() >= 2,
{
    let m1 = min_weight_index(s);
    let a = s[m1];
    let s1 = s.remove(m1);
    let m2 = min_weight_index(s1);
    let b = s1[m2];
    s1.remove(m2).push(
        Tree::Branch(Box::new(a), (node_weight(a) + node_weight(b)) as u64, Box::new(b)),
    )
}

/// What the greedy builder leaves of a worklist after at most `n` steps.
pub open spec fn build_huffman_n(s: Seq<Tree>, n: nat) -> Tree
    decreases n,
{
    if n == 0 || s.len() <= 1 {
        s[0]
    } else {
        build_huffman_n(combine_step(s), (n - 1) as nat)
    }
}

/// The tree the greedy builder grows out of a worklist: it repeatedly
/// combines the two first-minimal trees until one root remains.
pub open spec fn build_huffman(s: Seq<Tree>) -> Tree {
    build_huffman_n(s, s.len())
}

/// Every tree of the worklist is well formed.
pub open spec fn all_well_formed(s: Seq<Tree>) -> bool {
    forall|k: int| 0 <= k < s.len() ==> well_formed(#[trigger] s[k])
}

/// The symbols on the leaves of a whole worklist of trees, in order.
pub open spec fn syms_concat(s: Seq<Tree>) -> Seq<char>
    decreases s.len(),
{
    if s.len() == 0 {
        Seq::empty()
    } else {
        syms_concat(s.drop_last()) + leaf_syms(s.last())
    }
}

/// The combined frequencies of a worklist of trees.
pub open spec fn weights_sum(s: Seq<Tree>) -> nat
    decreases s.len(),
{
    if s.len() == 0 {
        0
    } else {
        weights_sum(s.drop_last()) + node_weight(s.last()) as nat
    }
}

/// The leaf pairs of a whole worklist of trees, in order.
pub open spec fn pairs_concat(s: Seq<Tree>) -> Seq<(char, u64)>
    decreases s.len(),
{
    if s.len() == 0 {
        Seq::empty()
    } else {
        pairs_concat(s.drop_last()) + leaf_pairs(s.last())
    }
}

/// Removing one tree from a worklist removes exactly its leaf symbols and
/// leaf pairs (as multisets) and its weight.
pub proof fn lemma_worklist_remove(s: Seq<Tree>, i: int)
    requires
        0 <= i < s.len(),
    ensures
        syms_concat(s).to_multiset() == syms_concat(s.remove(i)).to_multiset().add(
            leaf_syms(s[i]).to_multiset(),
        ),
        pairs_concat(s).to_multiset() == pairs_concat(s.remove(i)).to_multiset().add(
            leaf_pairs(s[i]).to_multiset(),
        ),
        weights_sum(s) == weights_sum(s.remove(i)) + node_weight(s[i]),
    decreases s.len(),
{
    if i == s.len() - 1 {
        assert(s.remove(i) =~= s.drop_last());
        lemma_multiset_commutative(syms_concat(s.drop_last()), leaf_syms(s.last()));
        lemma_multiset_commutative(pairs_concat(s.drop_last()), leaf_pairs(s.last()));
    } else {
        let d = s.drop_last();
        lemma_worklist_remove(d, i);
        assert(s.remove(i).drop_last() =~= d.remove(i));
        assert(s.remove(i).last() == s.last());
        lemma_multiset_commutative(syms_concat(d), leaf_syms(s.last()));
        lemma_multiset_commutative(syms_concat(d.remove(i)), leaf_syms(s.last()));
        assert(syms_concat(s).to_multiset() == syms_concat(d).to_multiset().add(
            leaf_syms(s.last()).to_multiset(),
        ));
        assert(syms_concat(s.remove(i)).to_multiset() == syms_concat(d.remove(i)).to_multiset().add(
            leaf_syms(s.last()).to_multiset(),
        ));
        lemma_multiset_commutative(pairs_concat(d), leaf_pairs(s.last()));
        lemma_multiset_commutative(pairs_concat(d.remove(i)), leaf_pairs(s.last()));
        assert(pairs_concat(s).to_multiset() == pairs_concat(d).to_multiset().add(
            leaf_pairs(s.last()).to_multiset(),
        ));
        assert(pairs_concat(s.remove(i)).to_multiset() == pairs_concat(
            d.remove(i),
        ).to_multiset().add(leaf_pairs(s.last()).to_multiset()));
    }
}

impl Tree {
    /// The combined frequency stored on this node.
    pub fn extract_val(&self) -> (r: u64)
        ensures
            r == node_weight(*self),
    {
        match *self {
            Tree::Branch(_, val, _) => val,
            Tree::Leaf(_, val) => val,
        }
    }
}

/// Takes ownership of two trees and returns a parent node of both, whose
/// combined frequency is the sum of theirs.
pub fn create_node_of_2_mins(left: Tree, right: Tree) -> (r: Tree)
    requires
        node_weight(left) + node_weight(right) <= u64::MAX,
    ensures
        r == Tree::Branch(Box::new(left), (node_weight(left) + node_weight(right)) as u64, Box::new(right)),
        leaf_syms(r) == leaf_syms(left) + leaf_syms(right),
        leaf_pairs(r) == leaf_pairs(left) + leaf_pairs(right),
        node_weight(r) == node_weight(left) + node_weight(right),
        well_formed(left) && well_formed(right) ==> well_formed(r),
{
    let sum_of_freq = left.extract_val() + right.extract_val();
    Tree::Branch(Box::new(left), sum_of_freq, Box::new(right))
}

/// The symbol of one frequency-table entry.
fn key_at(v: &Vec<(char, u16)>, i: usize) -> (r: char)
    requires
        i < v@.len(),
    ensures
        r == v@[i as int].0,
{
    v[i].0
}

/// Position of the first tree of minimal combined frequency in the worklist.
fn find_min(nodes: &Vec<Tree>) -> (r: usize)
    requires
        nodes@.len() > 0,
    ensures
        r < nodes@.len(),
        r as int == min_weight_index(nodes@),
        forall|k: int|
            0 <= k < nodes@.len() ==> node_weight(nodes@[r as int]) <= node_weight(
                #[trigger] nodes@[k],
            ),
{
    let mut best: usize = 0;
    let mut j: usize = 1;
    proof {
        assert(nodes@.take(1).len() == 1);
        assert(min_weight_index(nodes@.take(1)) == 0);
    }
    while j < nodes.len()
        invariant
            best < j <= nodes@.len(),
            best as int == min_weight_index(nodes@.take(j as int)),
            forall|k: int|
                0 <= k < j ==> node_weight(nodes@[best as int]) <= node_weight(
                    #[trigger] nodes@[k],
                ),
        decreases nodes@.len() - j,
    {
        proof {
            let t = nodes@.take(j as int + 1);
            assert(t.drop_last() =~= nodes@.take(j as int));
            assert(t.last() == nodes@[j as int]);
            assert(t[best as int] == nodes@[best as int]);
        }
        if nodes[j].extract_val() < nodes[best].extract_val() {
            best = j;
        }
        j = j + 1;
    }
    proof {
        assert(nodes@.take(nodes@.len() as int) =~= nodes@);
    }
    best
}

/// Builds the Huffman tree: seeds one leaf per table entry, then repeatedly
/// removes the two least-frequent trees from the worklist (ties broken by
/// position, earliest first) and pushes their combined parent, until one
/// root owning the whole structure remains.
///
/// The result is exactly the tree `build_huffman` grows from the seeded
/// leaves; in particular its leaves carry the table's (symbol, count) pairs
/// as a multiset, every branch holds the sum of its children, and the root
/// holds the sum of all counts.
#[verifier::rlimit(50)]
pub fn create_tree(freq_vec: Vec<(char, u16)>) -> (r: Tree)
    requires
        freq_vec@.len() > 0,
        freq_vec@.len() <= 0xffff_ffff,
    ensures
        r == build_huffman(leaves_of(freq_vec@)),
        leaf_pairs(r).to_multiset() == pairs_of(freq_vec@).to_multiset(),
        leaf_syms(r).to_multiset() == freq_vec@.map_values(|p: (char, u16)| p.0).to_multiset(),
        well_formed(r),
        node_weight(r) == counts_sum(freq_vec@),
{
    let ghost fv = freq_vec@;
    let ghost keys = fv.map_values(|p: (char, u16)| p.0);
    let ghost pairs = pairs_of(fv);
    let ghost seed = leaves_of(fv);
    let mut nodes: Vec<Tree> = Vec::new();
    let mut i: usize = 0;
    while i < freq_vec.len()
        invariant
            i <= fv.len(),
            fv == freq_vec@,
            fv.len() <= 0xffff_ffff,
            nodes@.len() == i,
            keys == fv.map_values(|p: (char, u16)| p.0),
            pairs == pairs_of(fv),
            seed == leaves_of(fv),
            nodes@ =~= leaves_of(fv.take(i as int)),
            syms_concat(nodes@) =~= keys.take(i as int),
            pairs_concat(nodes@) =~= pairs.take(i as int),
            weights_sum(nodes@) == counts_sum(fv.take(i as int)),
            all_well_formed(nodes@),
        decreases fv.len() - i,
    {
        let ghost n0 = nodes@;
        let c = key_at(&freq_vec, i);
        let f = freq_vec[i].1;
        nodes.push(Tree::Leaf(c, f as u64));
        proof {
            assert(nodes@.drop_last() =~= n0);
            assert(nodes@.last() == Tree::Leaf(c, f as u64));
            assert(fv.take(i as int + 1).drop_last() =~= fv.take(i as int));
            assert(fv.take(i as int + 1).last() == fv[i as int]);
            assert(nodes@ =~= leaves_of(fv.take(i as int + 1)));
            assert(syms_concat(nodes@) =~= keys.take(i as int + 1));
            assert(pairs_concat(nodes@) =~= pairs.take(i as int + 1));
        }
        i = i + 1;
    }
    proof {
        assert(keys.take(keys.len() as int) =~= keys);
        assert(pairs.take(pairs.len() as int) =~= pairs);
        assert(seed.take(seed.len() as int) =~= seed);
        assert(fv.take(fv.len() as int) =~= fv);
        lemma_counts_sum_bound(fv);
        assert(fv.len() * 0xffff <= (0xffff_ffff as nat) * 0xffff) by (nonlinear_arith)
            requires
                fv.len() <= 0xffff_ffff,
        ;
    }
    while nodes.len() > 1
        invariant
            nodes@.len() >= 1,
            fv == freq_vec@,
            keys == fv.map_values(|p: (char, u16)| p.0),
            pairs == pairs_of(fv),
            seed == leaves_of(fv),
            build_huffman(seed) == build_huffman_n(nodes@, nodes@.len()),
            syms_concat(nodes@).to_multiset() == keys.to_multiset(),
            pairs_concat(nodes@).to_multiset() == pairs.to_multiset(),
            weights_sum(nodes@) == counts_sum(fv),
            counts_sum(fv) <= 0xffff_ffff * 0xffff,
            all_well_formed(nodes@),
        decreases nodes@.len(),
    {
        let ghost s0 = nodes@;
        let m1 = find_min(&nodes);
        proof {
            lemma_worklist_remove(nodes@, m1 as int);
        }
        let left = nodes.remove(m1);
        let ghost s1 = nodes@;
        proof {
            assert(all_well_formed(s1)) by {
                assert forall|k: int| 0 <= k < s1.len() implies well_formed(#[trigger] s1[k]) by {
                    if k < m1 {
                        assert(s1[k] == s0[k]);
                    } else {
                        assert(s1[k] == s0[k + 1]);
                    }
                }
            }
        }
        let m2 = find_min(&nodes);
        proof {
            lemma_worklist_remove(nodes@, m2 as int);
        }
        let right = nodes.remove(m2);
        let ghost s2 = nodes@;
        proof {
            assert(all_well_formed(s2)) by {
                assert forall|k: int| 0 <= k < s2.len() implies well_formed(#[trigger] s2[k]) by {
                    if k < m2 {
                        assert(s2[k] == s1[k]);
                    } else {
                        assert(s2[k] == s1[k + 1]);
                    }
                }
            }
            assert(weights_sum(s0) == weights_sum(s2) + node_weight(right) + node_weight(left));
        }
        let newnode = create_node_of_2_mins(left, right);
        nodes.push(newnode);
        proof {
            assert(nodes@.drop_last() =~= s2);
            assert(nodes@.last() == newnode);
            lemma_multiset_commutative(leaf_syms(left), leaf_syms(right));
            lemma_multiset_commutative(syms_concat(s2), leaf_syms(newnode));
            assert(syms_concat(nodes@) == syms_concat(s2) + leaf_syms(newnode));
            assert(syms_concat(nodes@).to_multiset() =~= syms_concat(s0).to_multiset());
            lemma_multiset_commutative(leaf_pairs(left), leaf_pairs(right));
            lemma_multiset_commutative(pairs_concat(s2), leaf_pairs(newnode));
            assert(pairs_concat(nodes@) == pairs_concat(s2) + leaf_pairs(newnode));
            assert(pairs_concat(nodes@).to_multiset() =~= pairs_concat(s0).to_multiset());
            assert(well_formed(newnode));
            assert(all_well_formed(nodes@)) by {
                assert forall|k: int| 0 <= k < nodes@.len() implies well_formed(
                    #[trigger] nodes@[k],
                ) by {
                    if k < s2.len() {
                        assert(nodes@[k] == s2[k]);
                    } else {
                        assert(nodes@[k] == newnode);
                    }
                }
            }
            assert(nodes@ =~= combine_step(s0));
            assert(build_huffman_n(s0, s0.len()) == build_huffman_n(
                combine_step(s0),
                (s0.len() - 1) as nat,
            ));
            assert(nodes@.len() == (s0.len() - 1) as nat);
        }
    }
    let ghost sfinal = nodes@;
    let root = nodes.remove(0);
    proof {
        lemma_worklist_remove(sfinal, 0);
        assert(sfinal.remove(0) =~= Seq::<Tree>::empty());
        assert(syms_concat(Seq::<Tree>::empty()).to_multiset() =~= Multiset::<char>::empty());
        assert(leaf_syms(root).to_multiset() =~= syms_concat(sfinal).to_multiset());
        assert(pairs_concat(Seq::<Tree>::empty()).to_multiset() =~= Multiset::<
            (char, u64),
        >::empty());
        assert(leaf_pairs(root).to_multiset() =~= pairs_concat(sfinal).to_multiset());
        assert(node_weight(root) == counts_sum(fv));
        assert(well_formed(root));
        assert(build_huffman_n(sfinal, sfinal.len()) == root);
    }
    root
}

/// Walks the tree depth-first and records the accumulated left/right bit
/// path of every leaf symbol, left as zero and right as one.
pub fn build_code_map(tree: &Tree) -> (r: Vec<(char, Vec<bool>)>)
    ensures
        code_map_abs(r@) == paths(*tree, Seq::<bool>::empty()),
{
    let mut code_map: Vec<(char, Vec<bool>)> = Vec::new();
    let path: Vec<bool> = Vec::new();
    proof {
        assert(path@ =~= Seq::<bool>::empty());
    }
    build_code_map_rec(tree, path, &mut code_map);
    proof {
        assert(code_map_abs(code_map@) =~= paths(*tree, Seq::<bool>::empty()));
    }
    code_map
}

/// The mathematical content of an executable code map: each entry's bit
/// vector read as a bit sequence.
pub open spec fn code_map_abs(s: Seq<(char, Vec<bool>)>) -> Seq<(char, Seq<bool>)> {
    s.map_values(|p: (char, Vec<bool>)| (p.0, p.1@))
}

/// A fresh copy of a bit vector.
pub fn clone_bits(v: &Vec<bool>) -> (r: Vec<bool>)
    ensures
        r@ == v@,
{
    let mut r: Vec<bool> = Vec::new();
    let mut i: usize = 0;
    while i < v.len()
        invariant
            i <= v@.len(),
            r@ =~= v@.take(i as int),
        decreases v@.len() - i,
    {
        r.push(v[i]);
        i = i + 1;
    }
    proof {
        assert(v@.take(v@.len() as int) =~= v@);
    }
    r
}

/// Recursive worker for `build_code_map`: appends the paths under `tree`,
/// each continuing the already-walked `path`.
fn build_code_map_rec(tree: &Tree, path: Vec<bool>, map: &mut Vec<(char, Vec<bool>)>)
    ensures
        code_map_abs(final(map)@) == code_map_abs(old(map)@) + paths(*tree, path@),
    decreases *tree,
{
    match tree {
        Tree::Leaf(ch, _) => {
            map.push((*ch, path));
            proof {
                assert(code_map_abs(map@) =~= code_map_abs(old(map)@) + paths(*tree, path@));
            }
        },
        Tree::Branch(left, _, right) => {
            let ghost m0 = map@;
            let mut left_path = clone_bits(&path);
            left_path.push(false);
            build_code_map_rec(&**left, left_path, map);
            let mut right_path = path;
            right_path.push(true);
            build_code_map_rec(&**right, right_path, map);
            proof {
                assert(code_map_abs(map@) =~= code_map_abs(m0) + paths(*tree, path@));
            }
        },
    }
}

} // verus!
