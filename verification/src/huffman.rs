//! The beginnings of a canonical-frequency-tree (Huffman-style) pathway.
//!
//! This pathway is not a working alternative algorithm: no wire format is
//! defined for it, and its entry points accept any input and emit nothing.
//! The supported protocol is the LZW codec in [`crate::lzw`]. Its building
//! blocks are verified, though: frequency counting, the bottom-up
//! construction of the frequency tree in a safe index-based arena, and the
//! prefix-code assignment read off the tree.

use std::collections::HashMap;

use vstd::multiset::Multiset;
use vstd::prelude::*;

use crate::shared::read_u8;
use crate::shared::CodecError;

verus! {

broadcast use
    vstd::std_specs::hash::group_hash_axioms,
    vstd::multiset::group_multiset_axioms,
;

/// A symbol together with how often it occurs in the input.
#[derive(Debug, PartialEq, Eq, Structural)]
pub struct Stat {
    /// The occurrence count.
    pub freq: u32,
    /// The symbol counted.
    pub sym: u8,
}

impl PartialOrd for Stat {
    /// Orders by frequency alone, ignoring the symbol.
    fn partial_cmp(&self, other: &Self) -> (r: Option<core::cmp::Ordering>) {
        if self.freq < other.freq {
            Some(core::cmp::Ordering::Less)
        } else if self.freq == other.freq {
            Some(core::cmp::Ordering::Equal)
        } else {
            Some(core::cmp::Ordering::Greater)
        }
    }
}

impl vstd::std_specs::cmp::PartialOrdSpecImpl for Stat {
    open spec fn obeys_partial_cmp_spec() -> bool {
        true
    }

    open spec fn partial_cmp_spec(&self, other: &Self) -> Option<core::cmp::Ordering> {
        if self.freq < other.freq {
            Some(core::cmp::Ordering::Less)
        } else if self.freq == other.freq {
            Some(core::cmp::Ordering::Equal)
        } else {
            Some(core::cmp::Ordering::Greater)
        }
    }
}

/// A node of a frequency tree held in an index-based arena: an inner node
/// references its children by arena index, a leaf carries one counted
/// symbol.
#[derive(Debug, PartialEq, Eq, Structural)]
pub enum Tree {
    /// An inner node: the combined frequency and the arena indices of the
    /// two subtrees.
    Node { freq: u32, left: usize, right: usize },
    /// A leaf: one symbol and its frequency.
    Leaf(Stat),
}

impl Tree {
    /// The frequency of the root of this (sub)tree.
    pub open spec fn spec_freq(self) -> u32 {
        match self {
            Tree::Node { freq, .. } => freq,
            Tree::Leaf(stat) => stat.freq,
        }
    }

    /// Returns the frequency of the root of this (sub)tree.
    pub fn freq(&self) -> (r: u32)
        ensures
            r == self.spec_freq(),
    {
        match self {
            Tree::Node { freq, .. } => *freq,
            Tree::Leaf(stat) => stat.freq,
        }
    }
}

/// Pushes the given element into the vector and returns the inserted-to
/// index.
pub fn ins<T>(vec: &mut Vec<T>, el: T) -> (r: usize)
    ensures
        final(vec)@ == old(vec)@.push(el),
        r == old(vec)@.len(),
{
    let index = vec.len();
    vec.push(el);
    index
}

/// How many times the byte `b` occurs in `s`.
pub open spec fn count_of(s: Seq<u8>, b: u8) -> nat
    decreases s.len(),
{
    if s.len() == 0 {
        0
    } else {
        count_of(s.drop_last(), b) + if s.last() == b {
            1nat
        } else {
            0nat
        }
    }
}

proof fn lemma_count_of_le_len(s: Seq<u8>, b: u8)
    ensures
        count_of(s, b) <= s.len(),
    decreases s.len(),
{
    if s.len() > 0 {
        lemma_count_of_le_len(s.drop_last(), b);
    }
}

/// Counts how often each byte occurs in the input. A byte is a key of the
/// result exactly when it occurs at all.
pub fn freq_map_from_reader(src: &Vec<u8>) -> (r: HashMap<u8, u32>)
    requires
        src@.len() <= u32::MAX,
    ensures
        forall|b: u8| r@.contains_key(b) <==> count_of(src@, b) > 0,
        forall|b: u8| r@.contains_key(b) ==> r@[b] == count_of(src@, b),
{
    let mut map: HashMap<u8, u32> = HashMap::new();
    let mut i: usize = 0;
    while i < src.len()
        invariant
            src@.len() <= u32::MAX,
            i <= src@.len(),
            forall|b: u8| map@.contains_key(b) <==> count_of(src@.take(i as int), b) > 0,
            forall|b: u8| map@.contains_key(b) ==> map@[b] == count_of(src@.take(i as int), b),
        decreases src@.len() - i,
    {
        let b = match read_u8(src, i) {
            Some(b) => b,
            None => { return map; },
        };
        let c: u32 = match map.get(&b) {
            Some(v) => *v,
            None => 0,
        };
        proof {
            lemma_count_of_le_len(src@.take(i as int), b);
            assert forall|x: u8| #[trigger]
                count_of(src@.take(i + 1), x) == count_of(src@.take(i as int), x) + if x == b {
                    1nat
                } else {
                    0nat
                } by {
                assert(src@.take(i + 1).drop_last() =~= src@.take(i as int));
                assert(src@.take(i + 1).last() == src@[i as int]);
            }
        }
        map.insert(b, c + 1);
        i += 1;
    }
    proof {
        assert(src@.take(src@.len() as int) =~= src@);
    }
    map
}

// ---------------------------------------------------------------------------
// The tree arena model.
//
// A frequency tree lives in a growable arena of tagged nodes. Children are
// always inserted before their parent, so every inner node references
// strictly smaller indices and the root is the last entry.
// ---------------------------------------------------------------------------

/// Well-formedness of the subtree rooted at arena index `i`: indices are in
/// bounds and decrease towards the leaves, and every inner node carries the
/// sum of its children's frequencies.
pub open spec fn subtree_wf(arena: Seq<Tree>, i: int) -> bool
    decreases i,
{
    &&& 0 <= i < arena.len()
    &&& match arena[i] {
        Tree::Leaf(_) => true,
        Tree::Node { freq, left, right } => {
            &&& 0 <= left < i
            &&& 0 <= right < i
            &&& subtree_wf(arena, left as int)
            &&& subtree_wf(arena, right as int)
            &&& freq == arena[left as int].spec_freq() + arena[right as int].spec_freq()
        },
    }
}

/// The multiset of symbols at the leaves of the subtree rooted at `i`.
pub open spec fn leaf_syms(arena: Seq<Tree>, i: int) -> Multiset<u8>
    decreases i,
{
    if 0 <= i < arena.len() {
        match arena[i] {
            Tree::Leaf(stat) => Multiset::singleton(stat.sym),
            Tree::Node { left, right, .. } => {
                if 0 <= left < i && 0 <= right < i {
                    leaf_syms(arena, left as int).add(leaf_syms(arena, right as int))
                } else {
                    Multiset::empty()
                }
            },
        }
    } else {
        Multiset::empty()
    }
}

/// The prefix code of symbol `b` in the subtree rooted at `i`: the path from
/// the root to the leaf holding `b`, `false` for left and `true` for right.
pub open spec fn code_in(arena: Seq<Tree>, i: int, b: u8) -> Seq<bool>
    decreases i,
{
    if 0 <= i < arena.len() {
        match arena[i] {
            Tree::Leaf(_) => Seq::empty(),
            Tree::Node { left, right, .. } => {
                if 0 <= left < i && 0 <= right < i {
                    if leaf_syms(arena, left as int).count(b) > 0 {
                        seq![false] + code_in(arena, left as int, b)
                    } else {
                        seq![true] + code_in(arena, right as int, b)
                    }
                } else {
                    Seq::empty()
                }
            },
        }
    } else {
        Seq::empty()
    }
}

/// The multiset of symbols at the leaves of all queued subtrees.
pub open spec fn queue_syms(arena: Seq<Tree>, q: Seq<usize>) -> Multiset<u8>
    decreases q.len(),
{
    if q.len() == 0 {
        Multiset::empty()
    } else {
        queue_syms(arena, q.drop_last()).add(leaf_syms(arena, q.last() as int))
    }
}

/// The summed root frequencies of all queued subtrees.
pub open spec fn queue_freq_sum(arena: Seq<Tree>, q: Seq<usize>) -> int
    decreases q.len(),
{
    if q.len() == 0 {
        0
    } else {
        queue_freq_sum(arena, q.drop_last()) + arena[q.last() as int].spec_freq()
    }
}

/// The summed frequencies of the map entries for bytes below `n`.
pub open spec fn freq_sum_below(m: Map<u8, u32>, n: int) -> int
    decreases n,
{
    if n <= 0 {
        0
    } else {
        freq_sum_below(m, n - 1) + if m.contains_key((n - 1) as u8) {
            m[(n - 1) as u8] as int
        } else {
            0
        }
    }
}

/// The summed frequencies of all map entries.
pub open spec fn freq_sum(m: Map<u8, u32>) -> int {
    freq_sum_below(m, 256)
}

/// Appending to the arena does not change an existing subtree.
proof fn lemma_subtree_push(arena: Seq<Tree>, t: Tree, i: int)
    requires
        0 <= i < arena.len(),
    ensures
        subtree_wf(arena, i) ==> subtree_wf(arena.push(t), i),
        leaf_syms(arena.push(t), i) == leaf_syms(arena, i),
    decreases i,
{
    assert(arena.push(t)[i] == arena[i]);
    match arena[i] {
        Tree::Node { left, right, .. } => {
            if 0 <= left < i && 0 <= right < i {
                lemma_subtree_push(arena, t, left as int);
                lemma_subtree_push(arena, t, right as int);
            }
        },
        Tree::Leaf(_) => {},
    }
}

/// Appending to the arena changes neither the queued symbols nor the queued
/// frequency sum.
proof fn lemma_queue_push_arena(arena: Seq<Tree>, t: Tree, q: Seq<usize>)
    requires
        forall|k: int| 0 <= k < q.len() ==> (#[trigger] q[k] as int) < arena.len(),
    ensures
        queue_syms(arena.push(t), q) == queue_syms(arena, q),
        queue_freq_sum(arena.push(t), q) == queue_freq_sum(arena, q),
    decreases q.len(),
{
    if q.len() > 0 {
        assert(forall|k: int|
            0 <= k < q.drop_last().len() ==> (#[trigger] q.drop_last()[k] as int) < arena.len());
        lemma_queue_push_arena(arena, t, q.drop_last());
        assert((q[q.len() - 1] as int) < arena.len());
        lemma_subtree_push(arena, t, q.last() as int);
        assert(arena.push(t)[q.last() as int] == arena[q.last() as int]);
    }
}

/// Taking the queue element at `i` out splits the queued symbols and the
/// queued frequency sum accordingly.
proof fn lemma_queue_remove(arena: Seq<Tree>, q: Seq<usize>, i: int)
    requires
        0 <= i < q.len(),
    ensures
        queue_syms(arena, q) =~= queue_syms(arena, q.remove(i)).add(
            leaf_syms(arena, q[i] as int),
        ),
        queue_freq_sum(arena, q) == queue_freq_sum(arena, q.remove(i)) + arena[
            q[i] as int
        ].spec_freq(),
    decreases q.len(),
{
    if i == q.len() - 1 {
        assert(q.remove(i) =~= q.drop_last());
    } else {
        assert(q.remove(i).drop_last() =~= q.drop_last().remove(i));
        assert(q.remove(i).last() == q.last());
        assert(q.drop_last()[i] == q[i]);
        lemma_queue_remove(arena, q.drop_last(), i);
    }
}

/// The queued frequency sum is never negative.
proof fn lemma_queue_freq_sum_nonneg(arena: Seq<Tree>, q: Seq<usize>)
    ensures
        queue_freq_sum(arena, q) >= 0,
    decreases q.len(),
{
    if q.len() > 0 {
        lemma_queue_freq_sum_nonneg(arena, q.drop_last());
    }
}

/// Returns the position in `queue` of a subtree with minimal root frequency
/// (the earliest such position, for a deterministic merge order).
fn min_index(arena: &Vec<Tree>, queue: &Vec<usize>) -> (r: usize)
    requires
        queue@.len() >= 1,
        forall|k: int| 0 <= k < queue@.len() ==> (#[trigger] queue@[k] as int) < arena@.len(),
    ensures
        r < queue@.len(),
{
    let mut best: usize = 0;
    let mut j: usize = 1;
    while j < queue.len()
        invariant
            1 <= j <= queue@.len(),
            best < queue@.len(),
            forall|k: int| 0 <= k < queue@.len() ==> (#[trigger] queue@[k] as int) < arena@.len(),
        decreases queue@.len() - j,
    {
        let qj = queue[j];
        let qb = queue[best];
        if arena[qj].freq() < arena[qb].freq() {
            best = j;
        }
        j += 1;
    }
    best
}

/// Builds a frequency tree bottom-up: all symbols enter as leaves, then the
/// two lowest-frequency subtrees are merged until one root remains. The root
/// ends up at the last arena index, every leaf carries its mapped frequency,
/// and every symbol of the map appears at exactly one leaf.
#[verifier::rlimit(50)]
fn tree_from_freq_map(map: HashMap<u8, u32>) -> (arena: Vec<Tree>)
    requires
        exists|x: u8| map@.contains_key(x),
        freq_sum(map@) <= u32::MAX,
    ensures
        arena@.len() >= 1,
        subtree_wf(arena@, arena@.len() - 1),
        forall|x: u8|
            #![trigger leaf_syms(arena@, arena@.len() - 1).count(x)]
            leaf_syms(arena@, arena@.len() - 1).count(x) == if map@.contains_key(x) {
                1nat
            } else {
                0nat
            },
        forall|k: int|
            0 <= k < arena@.len() ==> match #[trigger] arena@[k] {
                Tree::Leaf(stat) => map@.contains_key(stat.sym) && stat.freq == map@[stat.sym],
                Tree::Node { .. } => true,
            },
{
    let ghost m = map@;
    let mut arena: Vec<Tree> = Vec::new();
    let mut queue: Vec<usize> = Vec::new();
    let mut b: usize = 0;
    while b < 256
        invariant
            b <= 256,
            arena@.len() == queue@.len(),
            forall|k: int|
                0 <= k < queue@.len() ==> (#[trigger] queue@[k] as int) < arena@.len()
                    && subtree_wf(arena@, queue@[k] as int),
            forall|x: u8|
                #![trigger queue_syms(arena@, queue@).count(x)]
                queue_syms(arena@, queue@).count(x) == if (x as int) < b as int
                    && m.contains_key(x) {
                    1nat
                } else {
                    0nat
                },
            queue_freq_sum(arena@, queue@) == freq_sum_below(m, b as int),
            forall|k: int|
                0 <= k < arena@.len() ==> match #[trigger] arena@[k] {
                    Tree::Leaf(stat) => m.contains_key(stat.sym) && stat.freq == m[stat.sym],
                    Tree::Node { .. } => true,
                },
            queue@.len() > 0 ==> queue@.last() as int == arena@.len() - 1,
            m == map@,
        decreases 256 - b,
    {
        match map.get(&(b as u8)) {
            Some(f) => {
                let ghost arena0 = arena@;
                let ghost queue0 = queue@;
                let leaf = Tree::Leaf(Stat { freq: *f, sym: b as u8 });
                let idx = ins(&mut arena, leaf);
                queue.push(idx);
                proof {
                    lemma_queue_push_arena(arena0, leaf, queue0);
                    assert forall|k: int| 0 <= k < queue@.len() implies (#[trigger] queue@[
                        k
                    ] as int) < arena@.len() && subtree_wf(arena@, queue@[k] as int) by {
                        if k < queue0.len() {
                            assert(queue@[k] == queue0[k]);
                            lemma_subtree_push(arena0, leaf, queue0[k] as int);
                        } else {
                            assert(queue@[k] == idx);
                        }
                    }
                    assert(queue@.drop_last() =~= queue0);
                    assert(leaf_syms(arena@, idx as int) =~= Multiset::singleton(b as u8));
                    assert(m.contains_key(b as u8));
                    assert forall|x: u8|
                        #![trigger queue_syms(arena@, queue@).count(x)]
                        queue_syms(arena@, queue@).count(x) == if (x as int) < (b + 1) as int
                            && m.contains_key(x) {
                            1nat
                        } else {
                            0nat
                        } by {
                        assert(queue@.drop_last() == queue0);
                        assert(queue@.last() == idx);
                        assert(queue_syms(arena@, queue@).count(x) == queue_syms(arena0, queue0)
                            .count(x) + Multiset::singleton(b as u8).count(x));
                        assert((b as u8) as int == b as int);
                    }
                }
            },
            None => {
                proof {
                    assert(!m.contains_key(b as u8));
                }
            },
        }
        b += 1;
    }
    proof {
        let x = choose|x: u8| m.contains_key(x);
        assert(queue_syms(arena@, queue@).count(x) == 1);
        assert(queue@.len() > 0);
    }
    while queue.len() >= 2
        invariant
            queue@.len() >= 1,
            forall|k: int|
                0 <= k < queue@.len() ==> (#[trigger] queue@[k] as int) < arena@.len()
                    && subtree_wf(arena@, queue@[k] as int),
            forall|x: u8|
                #![trigger queue_syms(arena@, queue@).count(x)]
                queue_syms(arena@, queue@).count(x) == if m.contains_key(x) {
                    1nat
                } else {
                    0nat
                },
            queue_freq_sum(arena@, queue@) == freq_sum(m),
            freq_sum(m) <= u32::MAX,
            forall|k: int|
                0 <= k < arena@.len() ==> match #[trigger] arena@[k] {
                    Tree::Leaf(stat) => m.contains_key(stat.sym) && stat.freq == m[stat.sym],
                    Tree::Node { .. } => true,
                },
            queue@.last() as int == arena@.len() - 1,
        decreases queue@.len(),
    {
        let ghost q0 = queue@;
        let fst_i = min_index(&arena, &queue);
        let fst = queue.remove(fst_i);
        proof {
            lemma_queue_remove(arena@, q0, fst_i as int);
            lemma_queue_freq_sum_nonneg(arena@, queue@);
        }
        let ghost q1 = queue@;
        let snd_i = min_index(&arena, &queue);
        let snd = queue.remove(snd_i);
        proof {
            lemma_queue_remove(arena@, q1, snd_i as int);
            lemma_queue_freq_sum_nonneg(arena@, queue@);
        }
        let ghost q2 = queue@;
        let ghost arena0 = arena@;
        let freq = arena[fst].freq() + arena[snd].freq();
        let node = Tree::Node { freq, left: fst, right: snd };
        let idx = ins(&mut arena, node);
        queue.push(idx);
        proof {
            lemma_queue_push_arena(arena0, node, q2);
            assert forall|k: int| 0 <= k < queue@.len() implies (#[trigger] queue@[k] as int)
                < arena@.len() && subtree_wf(arena@, queue@[k] as int) by {
                if k < q2.len() {
                    assert(queue@[k] == q2[k]);
                    lemma_subtree_push(arena0, node, q2[k] as int);
                } else {
                    assert(queue@[k] == idx);
                    lemma_subtree_push(arena0, node, fst as int);
                    lemma_subtree_push(arena0, node, snd as int);
                }
            }
            lemma_subtree_push(arena0, node, fst as int);
            lemma_subtree_push(arena0, node, snd as int);
            assert(queue@.drop_last() =~= q2);
            assert(leaf_syms(arena@, idx as int) =~= leaf_syms(arena0, fst as int).add(
                leaf_syms(arena0, snd as int),
            ));
            assert forall|x: u8|
                #![trigger queue_syms(arena@, queue@).count(x)]
                queue_syms(arena@, queue@).count(x) == if m.contains_key(x) {
                1nat
            } else {
                0nat
            } by {
                assert(queue_syms(arena0, q0).count(x) == queue_syms(arena0, q1).add(
                    leaf_syms(arena0, fst as int),
                ).count(x));
                assert(queue_syms(arena0, q1).count(x) == queue_syms(arena0, q2).add(
                    leaf_syms(arena0, snd as int),
                ).count(x));
            }
        }
    }
    proof {
        let root = queue@.last() as int;
        assert(queue@.drop_last() =~= Seq::<usize>::empty());
        assert(queue_syms(arena@, Seq::<usize>::empty()) == Multiset::<u8>::empty());
        assert(queue_syms(arena@, queue@) == queue_syms(arena@, queue@.drop_last()).add(
            leaf_syms(arena@, root),
        ));
        assert forall|x: u8|
            #![trigger leaf_syms(arena@, arena@.len() - 1).count(x)]
            leaf_syms(arena@, arena@.len() - 1).count(x) == if m.contains_key(
            x,
        ) {
            1nat
        } else {
            0nat
        } by {
            assert(queue_syms(arena@, queue@).count(x) == Multiset::<u8>::empty().count(x)
                + leaf_syms(arena@, root).count(x));
        }
    }
    arena
}

/// A fresh copy of a bit vector.
fn clone_bools(v: &Vec<bool>) -> (r: Vec<bool>)
    ensures
        r@ == v@,
{
    let mut r: Vec<bool> = Vec::new();
    let mut i: usize = 0;
    while i < v.len()
        invariant
            i <= v@.len(),
            r@ == v@.take(i as int),
        decreases v@.len() - i,
    {
        r.push(v[i]);
        proof {
            assert(v@.take(i + 1) =~= v@.take(i as int).push(v@[i as int]));
        }
        i += 1;
    }
    proof {
        assert(v@.take(v@.len() as int) =~= v@);
    }
    r
}

/// Walks the subtree at `i` and records, for every leaf symbol below it, the
/// accumulated path `vec` extended by the branch directions down to the
/// leaf.
fn go(i: usize, arena: &Vec<Tree>, map: &mut HashMap<u8, Vec<bool>>, vec: Vec<bool>)
    requires
        subtree_wf(arena@, i as int),
        forall|x: u8|
            #![trigger leaf_syms(arena@, i as int).count(x)]
            leaf_syms(arena@, i as int).count(x) <= 1,
    ensures
        forall|x: u8|
            #![trigger final(map)@.contains_key(x)]
            final(map)@.contains_key(x) <==> (old(map)@.contains_key(x) || leaf_syms(
                arena@,
                i as int,
            ).count(x) > 0),
        forall|x: u8|
            #![trigger leaf_syms(arena@, i as int).count(x)]
            leaf_syms(arena@, i as int).count(x) > 0 ==> final(map)@.contains_key(x) && final(map)@[x]@ == vec@ + code_in(arena@, i as int, x),
        forall|x: u8|
            #![trigger old(map)@[x]]
            leaf_syms(arena@, i as int).count(x) == 0 && old(map)@.contains_key(x) ==> final(map)@[x] == old(map)@[x],
    decreases i,
{
    match &arena[i] {
        Tree::Node { left, right, .. } => {
            let l = *left;
            let r = *right;
            proof {
                assert(subtree_wf(arena@, l as int));
                assert(subtree_wf(arena@, r as int));
                assert forall|x: u8|
                    #![trigger leaf_syms(arena@, l as int).count(x)]
                    leaf_syms(arena@, l as int).count(x) <= 1 by {
                    assert(leaf_syms(arena@, i as int).count(x) == leaf_syms(arena@, l as int)
                        .count(x) + leaf_syms(arena@, r as int).count(x));
                }
                assert forall|x: u8|
                    #![trigger leaf_syms(arena@, r as int).count(x)]
                    leaf_syms(arena@, r as int).count(x) <= 1 by {
                    assert(leaf_syms(arena@, i as int).count(x) == leaf_syms(arena@, l as int)
                        .count(x) + leaf_syms(arena@, r as int).count(x));
                }
            }
            let mut left_vec = clone_bools(&vec);
            left_vec.push(false);
            go(l, arena, map, left_vec);
            let mut right_vec = vec;
            right_vec.push(true);
            go(r, arena, map, right_vec);
            proof {
                assert forall|x: u8|
                    #![trigger leaf_syms(arena@, i as int).count(x)]
                    leaf_syms(arena@, i as int).count(x) > 0 implies map@.contains_key(x)
                    && map@[x]@ == vec@ + code_in(arena@, i as int, x) by {
                    assert(leaf_syms(arena@, i as int).count(x) == leaf_syms(arena@, l as int)
                        .count(x) + leaf_syms(arena@, r as int).count(x));
                    if leaf_syms(arena@, l as int).count(x) > 0 {
                        assert(leaf_syms(arena@, r as int).count(x) == 0);
                        assert(code_in(arena@, i as int, x) == seq![false] + code_in(
                            arena@,
                            l as int,
                            x,
                        ));
                        assert(vec@.push(false) =~= vec@ + seq![false]);
                        assert((vec@ + seq![false]) + code_in(arena@, l as int, x) =~= vec@ + (
                        seq![false] + code_in(arena@, l as int, x)));
                    } else {
                        assert(leaf_syms(arena@, r as int).count(x) > 0);
                        assert(code_in(arena@, i as int, x) == seq![true] + code_in(
                            arena@,
                            r as int,
                            x,
                        ));
                        assert(vec@.push(true) =~= vec@ + seq![true]);
                        assert((vec@ + seq![true]) + code_in(arena@, r as int, x) =~= vec@ + (
                        seq![true] + code_in(arena@, r as int, x)));
                    }
                }
                assert forall|x: u8|
                    #![trigger map@.contains_key(x)]
                    map@.contains_key(x) <==> (old(map)@.contains_key(x) || leaf_syms(
                        arena@,
                        i as int,
                    ).count(x) > 0) by {
                    assert(leaf_syms(arena@, i as int).count(x) == leaf_syms(arena@, l as int)
                        .count(x) + leaf_syms(arena@, r as int).count(x));
                }
                assert forall|x: u8|
                    #![trigger old(map)@[x]]
                    leaf_syms(arena@, i as int).count(x) == 0 && old(map)@.contains_key(
                        x,
                    ) implies map@[x] == old(map)@[x] by {
                    assert(leaf_syms(arena@, i as int).count(x) == leaf_syms(arena@, l as int)
                        .count(x) + leaf_syms(arena@, r as int).count(x));
                }
            }
        },
        Tree::Leaf(stat) => {
            let sym = stat.sym;
            map.insert(sym, vec);
            proof {
                assert(leaf_syms(arena@, i as int) =~= Multiset::singleton(sym));
                assert forall|x: u8|
                    #![trigger leaf_syms(arena@, i as int).count(x)]
                    leaf_syms(arena@, i as int).count(x) > 0 implies map@.contains_key(x)
                    && map@[x]@ == vec@ + code_in(arena@, i as int, x) by {
                    assert(x == sym);
                    assert(vec@ + Seq::<bool>::empty() =~= vec@);
                }
            }
        },
    }
}

/// Assigns each leaf symbol of the tree its prefix code: the root-to-leaf
/// path, `false` for a left branch and `true` for a right branch.
fn code_map_from_tree(size_hint: usize, arena: &Vec<Tree>) -> (r: HashMap<u8, Vec<bool>>)
    requires
        arena@.len() >= 1,
        subtree_wf(arena@, arena@.len() - 1),
        forall|x: u8|
            #![trigger leaf_syms(arena@, arena@.len() - 1).count(x)]
            leaf_syms(arena@, arena@.len() - 1).count(x) <= 1,
    ensures
        forall|x: u8|
            #![trigger r@.contains_key(x)]
            r@.contains_key(x) <==> leaf_syms(arena@, arena@.len() - 1).count(x) > 0,
        forall|x: u8|
            #![trigger r@[x]]
            r@.contains_key(x) ==> r@[x]@ == code_in(arena@, arena@.len() - 1, x),
{
    let mut map: HashMap<u8, Vec<bool>> = HashMap::with_capacity(size_hint);
    let root = arena.len() - 1;
    go(root, arena, &mut map, Vec::new());
    proof {
        assert forall|x: u8| #![trigger map@[x]] map@.contains_key(x) implies map@[x]@ == code_in(
            arena@,
            arena@.len() - 1,
            x,
        ) by {
            assert(Seq::<bool>::empty() + code_in(arena@, arena@.len() - 1, x) =~= code_in(
                arena@,
                arena@.len() - 1,
                x,
            ));
        }
    }
    map
}

/// The summed per-byte occurrence counts for bytes below `n`.
spec fn count_sum_below(s: Seq<u8>, n: int) -> int
    decreases n,
{
    if n <= 0 {
        0
    } else {
        count_sum_below(s, n - 1) + count_of(s, (n - 1) as u8)
    }
}

proof fn lemma_count_sum_step(s: Seq<u8>, n: int)
    requires
        s.len() > 0,
        0 <= n <= 256,
    ensures
        count_sum_below(s, n) == count_sum_below(s.drop_last(), n) + if (s.last() as int) < n {
            1int
        } else {
            0int
        },
    decreases n,
{
    if n > 0 {
        lemma_count_sum_step(s, n - 1);
        assert(((n - 1) as u8) as int == n - 1);
    }
}

proof fn lemma_count_sum_empty(s: Seq<u8>, n: int)
    requires
        s.len() == 0,
        0 <= n,
    ensures
        count_sum_below(s, n) == 0,
    decreases n,
{
    if n > 0 {
        lemma_count_sum_empty(s, n - 1);
    }
}

/// The per-byte occurrence counts sum to the input length.
proof fn lemma_count_sum_total(s: Seq<u8>)
    ensures
        count_sum_below(s, 256) == s.len(),
    decreases s.len(),
{
    if s.len() > 0 {
        lemma_count_sum_total(s.drop_last());
        lemma_count_sum_step(s, 256);
    } else {
        lemma_count_sum_empty(s, 256);
    }
}

/// A frequency map built by counting agrees with the occurrence-count sums.
proof fn lemma_freq_sum_agree(m: Map<u8, u32>, s: Seq<u8>, n: int)
    requires
        0 <= n <= 256,
        forall|x: u8| #![trigger m.contains_key(x)] m.contains_key(x) <==> count_of(s, x) > 0,
        forall|x: u8| #![trigger m[x]] m.contains_key(x) ==> m[x] == count_of(s, x),
    ensures
        freq_sum_below(m, n) == count_sum_below(s, n),
    decreases n,
{
    if n > 0 {
        lemma_freq_sum_agree(m, s, n - 1);
        assert(m.contains_key((n - 1) as u8) <==> count_of(s, (n - 1) as u8) > 0);
    }
}

/// Prefix-freeness of the code assignment: in a tree whose leaves hold
/// pairwise distinct symbols, the code of one symbol is never a prefix of
/// the code of another. Two codes diverge at the node where the two leaves
/// part ways.
pub proof fn lemma_prefix_free(arena: Seq<Tree>, i: int, x: u8, y: u8)
    requires
        subtree_wf(arena, i),
        forall|z: u8| #![trigger leaf_syms(arena, i).count(z)] leaf_syms(arena, i).count(z) <= 1,
        leaf_syms(arena, i).count(x) > 0,
        leaf_syms(arena, i).count(y) > 0,
        x != y,
    ensures
        !code_in(arena, i, x).is_prefix_of(code_in(arena, i, y)),
    decreases i,
{
    match arena[i] {
        Tree::Leaf(stat) => {
            assert(x == stat.sym && y == stat.sym);
        },
        Tree::Node { left, right, .. } => {
            let l = left as int;
            let r = right as int;
            assert(leaf_syms(arena, i).count(x) == leaf_syms(arena, l).count(x) + leaf_syms(
                arena,
                r,
            ).count(x));
            assert(leaf_syms(arena, i).count(y) == leaf_syms(arena, l).count(y) + leaf_syms(
                arena,
                r,
            ).count(y));
            assert forall|z: u8|
                #![trigger leaf_syms(arena, l).count(z)]
                leaf_syms(arena, l).count(z) <= 1 by {
                assert(leaf_syms(arena, i).count(z) == leaf_syms(arena, l).count(z) + leaf_syms(
                    arena,
                    r,
                ).count(z));
            }
            assert forall|z: u8|
                #![trigger leaf_syms(arena, r).count(z)]
                leaf_syms(arena, r).count(z) <= 1 by {
                assert(leaf_syms(arena, i).count(z) == leaf_syms(arena, l).count(z) + leaf_syms(
                    arena,
                    r,
                ).count(z));
            }
            let px = code_in(arena, i, x);
            let py = code_in(arena, i, y);
            if leaf_syms(arena, l).count(x) > 0 && leaf_syms(arena, l).count(y) > 0 {
                lemma_prefix_free(arena, l, x, y);
                let cx = code_in(arena, l, x);
                let cy = code_in(arena, l, y);
                if px.is_prefix_of(py) {
                    assert forall|j: int| 0 <= j < cx.len() implies cx[j] == cy[j] by {
                        assert(px[j + 1] == py.subrange(0, px.len() as int)[j + 1]);
                    }
                    assert(cx =~= cy.subrange(0, cx.len() as int));
                }
            } else if leaf_syms(arena, l).count(x) == 0 && leaf_syms(arena, l).count(y) == 0 {
                lemma_prefix_free(arena, r, x, y);
                let cx = code_in(arena, r, x);
                let cy = code_in(arena, r, y);
                if px.is_prefix_of(py) {
                    assert forall|j: int| 0 <= j < cx.len() implies cx[j] == cy[j] by {
                        assert(px[j + 1] == py.subrange(0, px.len() as int)[j + 1]);
                    }
                    assert(cx =~= cy.subrange(0, cx.len() as int));
                }
            } else {
                // The two leaves part ways here: the first bits differ.
                if px.is_prefix_of(py) {
                    assert(px[0] == py.subrange(0, px.len() as int)[0]);
                }
            }
        },
    }
}

/// Derives the prefix-code table for the given input: counts the byte
/// frequencies, builds the frequency tree, and walks it. A byte has a code
/// exactly when it occurs in the input.
pub fn code_map_from_reader(reader: &Vec<u8>) -> (r: HashMap<u8, Vec<bool>>)
    requires
        reader@.len() >= 1,
        reader@.len() <= u32::MAX,
    ensures
        forall|x: u8|
            #![trigger r@.contains_key(x)]
            r@.contains_key(x) <==> count_of(reader@, x) > 0,
{
    let freq_map = freq_map_from_reader(reader);
    let ghost fm = freq_map@;
    let freq_map_len = freq_map.len();
    proof {
        assert(count_of(reader@, reader@.last()) > 0);
        assert(fm.contains_key(reader@.last()));
        lemma_freq_sum_agree(fm, reader@, 256);
        lemma_count_sum_total(reader@);
    }
    let tree_arena = tree_from_freq_map(freq_map);
    code_map_from_tree(freq_map_len, &tree_arena)
}

/// The canonical-frequency-tree encode entry point. No code assignment is
/// part of the supported protocol, so it accepts any input and emits
/// nothing.
pub fn enc(_src: &Vec<u8>) -> (r: Result<Vec<u8>, CodecError>)
    ensures
        r is Ok,
        r->Ok_0@ == Seq::<u8>::empty(),
{
    Ok(Vec::new())
}

/// The canonical-frequency-tree decode entry point. The mirror of [`enc`]:
/// it accepts any input and emits nothing.
pub fn dec(_src: &Vec<u8>) -> (r: Result<Vec<u8>, CodecError>)
    ensures
        r is Ok,
        r->Ok_0@ == Seq::<u8>::empty(),
{
    Ok(Vec::new())
}

} // verus!
