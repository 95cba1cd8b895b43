//! Frequency collection, weight scaling, tree construction and encoding.

use vstd::prelude::*;

verus! {

use vstd::arithmetic::div_mod::lemma_fundamental_div_mod;
use vstd::arithmetic::power2::pow2;
use vstd::arithmetic::power2::lemma_pow2_adds;
use vstd::arithmetic::power2::lemma_pow2_pos;
use vstd::arithmetic::power2::lemma2_to64;
use crate::bitfile::BitFile;
use crate::header::output_counts;

/// The end-of-stream sentinel symbol, the first value past the 256 byte
/// values. Its code marks the point where a decoder must stop.
pub const END_OF_STREAM: usize = 256;

/// How many times byte `b` occurs in `s`.
pub open spec fn count_of(s: Seq<u8>, b: u8) -> nat
    decreases s.len(),
{
    if s.len() == 0 {
        0
    } else {
        count_of(s.drop_last(), b) + (if s.last() == b { 1nat } else { 0nat })
    }
}

/// The largest value in a sequence of counts (0 for an empty sequence).
pub open spec fn max_count(s: Seq<u64>) -> u64
    decreases s.len(),
{
    if s.len() == 0 {
        0
    } else if s.last() > max_count(s.drop_last()) {
        s.last()
    } else {
        max_count(s.drop_last())
    }
}

/// The divisor that maps raw counts into the 8-bit weight domain.
pub open spec fn divisor_of(m: u64) -> int {
    m as int / 255 + 1
}

/// One raw count scaled down: zero stays zero, and a nonzero count never
/// rounds below 1.
pub open spec fn scaled_weight(c: u64, d: int) -> int {
    if c == 0 {
        0
    } else if c as int / d == 0 {
        1
    } else {
        c as int / d
    }
}

/// The full 257-entry weight table derived from 256 raw counts: empty
/// input substitutes weight 1 for byte value 0, and the end-of-stream
/// symbol always has weight 1.
pub open spec fn spec_weights(counts: Seq<u64>) -> Seq<u8> {
    Seq::new(
        257,
        |s: int|
            if s == 256 {
                1u8
            } else if max_count(counts) == 0 {
                if s == 0 {
                    1u8
                } else {
                    0u8
                }
            } else {
                scaled_weight(counts[s], divisor_of(max_count(counts))) as u8
            },
    )
}

/// No byte occurs more often than the input is long.
pub proof fn lemma_count_le(s: Seq<u8>, b: u8)
    ensures
        count_of(s, b) <= s.len(),
    decreases s.len(),
{
    if s.len() > 0 {
        lemma_count_le(s.drop_last(), b);
    }
}

/// A byte that stands in the input occurs at least once.
pub proof fn lemma_count_occurs(s: Seq<u8>, i: int)
    requires
        0 <= i < s.len(),
    ensures
        count_of(s, s[i]) >= 1,
    decreases s.len(),
{
    if i == s.len() - 1 {
    } else {
        lemma_count_occurs(s.drop_last(), i);
    }
}

/// Every entry is bounded by the maximum.
proof fn lemma_max_count_ge(s: Seq<u64>, i: int)
    requires
        0 <= i < s.len(),
    ensures
        s[i] <= max_count(s),
    decreases s.len(),
{
    if i < s.len() - 1 {
        lemma_max_count_ge(s.drop_last(), i);
    }
}

/// A count at most the maximum scales to at most 254.
proof fn lemma_scale_bound(c: u64, m: u64)
    requires
        c <= m,
        m >= 1,
    ensures
        0 <= c as int / divisor_of(m) <= 254,
        divisor_of(m) >= 1,
{
    let d = divisor_of(m);
    lemma_fundamental_div_mod(m as int, 255);
    assert(255 * d == 255 * (m as int / 255) + 255) by (nonlinear_arith)
        requires
            d == m as int / 255 + 1,
    ;
    assert(m < 255 * d);
    lemma_fundamental_div_mod(c as int, d);
    let q = c as int / d;
    let r = c as int % d;
    assert(0 <= r < d);
    assert(q >= 0) by (nonlinear_arith)
        requires
            c as int == d * q + r,
            0 <= r < d,
            c >= 0,
            d >= 1,
    ;
    if q >= 255 {
        assert(d * q >= d * 255) by (nonlinear_arith)
            requires
                q >= 255,
                d >= 1,
        ;
        assert(false);
    }
}

/// Count the occurrences of every byte value in the input.
pub fn count_bytes(input: &Vec<u8>) -> (counts: Vec<u64>)
    ensures
        counts@.len() == 256,
        forall|b: int| 0 <= b < 256 ==> counts@[b] as nat == count_of(input@, b as u8),
{
    let mut counts: Vec<u64> = Vec::new();
    let mut j: usize = 0;
    while j < 256
        invariant
            counts@.len() == j,
            j <= 256,
            forall|b: int| 0 <= b < j ==> counts@[b] == 0,
        decreases 256 - j,
    {
        counts.push(0);
        j = j + 1;
    }
    let mut i: usize = 0;
    while i < input.len()
        invariant
            counts@.len() == 256,
            i <= input@.len(),
            forall|b: int| 0 <= b < 256 ==> counts@[b] as nat == count_of(
                input@.take(i as int),
                b as u8,
            ),
        decreases input@.len() - i,
    {
        let b = input[i];
        proof {
            lemma_count_le(input@.take(i as int), b);
        }
        let c = counts[b as usize];
        counts.set(b as usize, c + 1);
        proof {
            assert(input@.take(i + 1).drop_last() =~= input@.take(i as int));
            assert(input@.take(i + 1).last() == input@[i as int]);
            assert forall|bb: int| 0 <= bb < 256 implies counts@[bb] as nat == count_of(
                input@.take(i + 1),
                bb as u8,
            ) by {}
        }
        i = i + 1;
    }
    proof {
        assert(input@.take(input@.len() as int) =~= input@);
    }
    counts
}

/// Scale 256 raw counts into the 8-bit weight domain and append the
/// end-of-stream weight.
pub fn scale_counts(counts: &Vec<u64>) -> (weights: Vec<u8>)
    requires
        counts@.len() == 256,
    ensures
        weights@ == spec_weights(counts@),
        weights@.len() == 257,
        weights@[256] == 1,
{
    let mut max: u64 = 0;
    let mut i: usize = 0;
    while i < 256
        invariant
            counts@.len() == 256,
            i <= 256,
            max == max_count(counts@.take(i as int)),
        decreases 256 - i,
    {
        proof {
            assert(counts@.take(i + 1).drop_last() =~= counts@.take(i as int));
        }
        if counts[i] > max {
            max = counts[i];
        }
        i = i + 1;
    }
    proof {
        assert(counts@.take(256) =~= counts@);
    }
    let mut weights: Vec<u8> = Vec::new();
    if max == 0 {
        weights.push(1);
        let mut s: usize = 1;
        while s < 256
            invariant
                counts@.len() == 256,
                1 <= s <= 256,
                weights@.len() == s,
                max_count(counts@) == 0,
                forall|t: int| 0 <= t < s ==> weights@[t] == spec_weights(counts@)[t],
            decreases 256 - s,
        {
            weights.push(0);
            s = s + 1;
        }
    } else {
        let divisor = max / 255 + 1;
        let mut s: usize = 0;
        while s < 256
            invariant
                counts@.len() == 256,
                s <= 256,
                weights@.len() == s,
                max == max_count(counts@),
                max != 0,
                divisor == divisor_of(max),
                forall|t: int| 0 <= t < s ==> weights@[t] == spec_weights(counts@)[t],
            decreases 256 - s,
        {
            proof {
                lemma_max_count_ge(counts@, s as int);
                lemma_scale_bound(counts@[s as int], max);
            }
            let c = counts[s];
            let w: u8 = if c == 0 {
                0
            } else {
                let q = c / divisor;
                if q == 0 {
                    1
                } else {
                    q as u8
                }
            };
            weights.push(w);
            s = s + 1;
        }
    }
    weights.push(1);
    proof {
        assert(weights@ =~= spec_weights(counts@));
    }
    weights
}

/// A node of the Huffman tree arena: its weight, its two children (as
/// arena indices), and a diagnostic copy of the weight taken when the
/// node is merged away.
pub struct TreeNode {
    pub count: u32,
    pub saved_count: u32,
    pub child_0: usize,
    pub child_1: usize,
}

/// Whether leaf symbol `s` lies in the subtree rooted at arena index
/// `n`. Indices at most 256 are leaves; an internal node's children are
/// always below it.
pub open spec fn in_subtree(nodes: Seq<TreeNode>, n: int, s: int) -> bool
    decreases n,
{
    if n <= 256 {
        s == n
    } else if nodes[n].child_0 < n && nodes[n].child_1 < n {
        in_subtree(nodes, nodes[n].child_0 as int, s) || in_subtree(
            nodes,
            nodes[n].child_1 as int,
            s,
        )
    } else {
        false
    }
}

/// The sum of the weights of the first `n` arena entries.
pub open spec fn sum_counts(nodes: Seq<TreeNode>, n: int) -> int
    decreases n,
{
    if n <= 0 {
        0
    } else {
        sum_counts(nodes, n - 1) + nodes[n - 1].count
    }
}

/// How many of the first `n` arena entries are active (nonzero weight).
pub open spec fn num_active(nodes: Seq<TreeNode>, n: int) -> int
    decreases n,
{
    if n <= 0 {
        0
    } else {
        num_active(nodes, n - 1) + (if nodes[n - 1].count != 0 {
            1int
        } else {
            0int
        })
    }
}

/// The two lowest-weight active nodes among the first `upto` entries,
/// scanned in ascending index order with strict comparisons, so that
/// ties go to the lowest index.
pub open spec fn scan_mins(nodes: Seq<TreeNode>, upto: int) -> (Option<int>, Option<int>)
    decreases upto,
{
    if upto <= 0 {
        (None::<int>, None::<int>)
    } else {
        let prev = scan_mins(nodes, upto - 1);
        let i = upto - 1;
        if nodes[i].count == 0 {
            prev
        } else {
            match prev.0 {
                None => (Some(i), prev.1),
                Some(a) => if nodes[i].count < nodes[a].count {
                    (Some(i), Some(a))
                } else {
                    match prev.1 {
                        None => (Some(a), Some(i)),
                        Some(b) => if nodes[i].count < nodes[b].count {
                            (Some(a), Some(i))
                        } else {
                            (Some(a), Some(b))
                        },
                    }
                },
            }
        }
    }
}

/// The arena after merging the nodes at `m1` and `m2` into a fresh
/// internal node at `next_free`, the merged nodes keeping their weight
/// in the diagnostic field.
pub open spec fn merge_step(nodes: Seq<TreeNode>, next_free: int, m1: int, m2: int) -> Seq<
    TreeNode,
> {
    nodes.update(
        next_free,
        TreeNode {
            count: (nodes[m1].count + nodes[m2].count) as u32,
            saved_count: 0,
            child_0: m1 as usize,
            child_1: m2 as usize,
        },
    ).update(
        m1,
        TreeNode {
            count: 0,
            saved_count: nodes[m1].count,
            child_0: nodes[m1].child_0,
            child_1: nodes[m1].child_1,
        },
    ).update(
        m2,
        TreeNode {
            count: 0,
            saved_count: nodes[m2].count,
            child_0: nodes[m2].child_0,
            child_1: nodes[m2].child_1,
        },
    )
}

/// The greedy merge loop, run to completion from allocation index
/// `next_free`: the final arena and the root's index.
pub open spec fn build_from(nodes: Seq<TreeNode>, next_free: int) -> (Seq<TreeNode>, int)
    decreases 514 - next_free,
{
    let mins = scan_mins(nodes, next_free);
    if mins.1 is None || next_free < 0 || next_free >= 514 {
        (nodes, next_free - 1)
    } else {
        build_from(merge_step(nodes, next_free, mins.0->Some_0, mins.1->Some_0), next_free + 1)
    }
}

/// An option over arena indices, as the spec-level scan sees it.
pub open spec fn lift_idx(o: Option<usize>) -> Option<int> {
    match o {
        None => None::<int>,
        Some(v) => Some(v as int),
    }
}

/// Two arenas that agree on their child links up to `n` have the same
/// subtrees there.
proof fn lemma_subtree_frame(nodes1: Seq<TreeNode>, nodes2: Seq<TreeNode>, n: int, s: int)
    requires
        forall|j: int|
            0 <= j <= n ==> nodes1[j].child_0 == nodes2[j].child_0 && nodes1[j].child_1
                == nodes2[j].child_1,
    ensures
        in_subtree(nodes1, n, s) == in_subtree(nodes2, n, s),
    decreases n,
{
    if n > 256 && nodes1[n].child_0 < n && nodes1[n].child_1 < n {
        lemma_subtree_frame(nodes1, nodes2, nodes1[n].child_0 as int, s);
        lemma_subtree_frame(nodes1, nodes2, nodes1[n].child_1 as int, s);
    }
}

proof fn lemma_sum_frame(nodes1: Seq<TreeNode>, nodes2: Seq<TreeNode>, n: int)
    requires
        forall|j: int| 0 <= j < n ==> nodes1[j].count == nodes2[j].count,
    ensures
        sum_counts(nodes1, n) == sum_counts(nodes2, n),
        num_active(nodes1, n) == num_active(nodes2, n),
    decreases n,
{
    if n > 0 {
        lemma_sum_frame(nodes1, nodes2, n - 1);
    }
}

/// Changing one entry changes the prefix sums by exactly its deltas.
proof fn lemma_sum_update(nodes1: Seq<TreeNode>, nodes2: Seq<TreeNode>, n: int, t: int)
    requires
        0 <= t < n,
        forall|j: int| 0 <= j < n && j != t ==> nodes1[j].count == nodes2[j].count,
    ensures
        sum_counts(nodes2, n) == sum_counts(nodes1, n) - nodes1[t].count + nodes2[t].count,
        num_active(nodes2, n) == num_active(nodes1, n) - (if nodes1[t].count != 0 {
            1int
        } else {
            0int
        }) + (if nodes2[t].count != 0 {
            1int
        } else {
            0int
        }),
    decreases n,
{
    if t == n - 1 {
        lemma_sum_frame(nodes1, nodes2, n - 1);
    } else {
        lemma_sum_update(nodes1, nodes2, n - 1, t);
    }
}

/// All weights are nonnegative, so a prefix sum dominates each entry.
proof fn lemma_sum_single(nodes: Seq<TreeNode>, n: int, i: int)
    requires
        0 <= i < n,
    ensures
        sum_counts(nodes, n) >= nodes[i].count,
        sum_counts(nodes, n) >= 0,
    decreases n,
{
    if n > 0 {
        if i == n - 1 {
            lemma_sum_nonneg(nodes, n - 1);
        } else {
            lemma_sum_single(nodes, n - 1, i);
        }
    }
}

proof fn lemma_sum_nonneg(nodes: Seq<TreeNode>, n: int)
    ensures
        sum_counts(nodes, n) >= 0,
    decreases n,
{
    if n > 0 {
        lemma_sum_nonneg(nodes, n - 1);
    }
}

/// A prefix sum dominates any two distinct entries together.
proof fn lemma_sum_pair(nodes: Seq<TreeNode>, n: int, i: int, j: int)
    requires
        0 <= i < j < n,
    ensures
        sum_counts(nodes, n) >= nodes[i].count + nodes[j].count,
    decreases n,
{
    if j == n - 1 {
        lemma_sum_single(nodes, n - 1, i);
    } else {
        lemma_sum_pair(nodes, n - 1, i, j);
    }
}

/// Two distinct active entries witness an active count of at least two.
proof fn lemma_num_active_pair(nodes: Seq<TreeNode>, n: int, i: int, j: int)
    requires
        0 <= i < j < n,
        nodes[i].count != 0,
        nodes[j].count != 0,
    ensures
        num_active(nodes, n) >= 2,
    decreases n,
{
    if j == n - 1 {
        lemma_num_active_single(nodes, n - 1, i);
    } else {
        lemma_num_active_pair(nodes, n - 1, i, j);
    }
}

proof fn lemma_num_active_single(nodes: Seq<TreeNode>, n: int, i: int)
    requires
        0 <= i < n,
        nodes[i].count != 0,
    ensures
        num_active(nodes, n) >= 1,
    decreases n,
{
    if i < n - 1 {
        lemma_num_active_single(nodes, n - 1, i);
    } else {
        lemma_num_active_nonneg(nodes, n - 1);
    }
}

proof fn lemma_num_active_nonneg(nodes: Seq<TreeNode>, n: int)
    ensures
        0 <= num_active(nodes, n),
        n >= 0 ==> num_active(nodes, n) <= n,
    decreases n,
{
    if n > 0 {
        lemma_num_active_nonneg(nodes, n - 1);
    }
}

/// When every active entry below `n` is one single index, at most one
/// entry is active.
proof fn lemma_num_active_le_one(nodes: Seq<TreeNode>, n: int, m: int)
    requires
        forall|t: int| 0 <= t < n && nodes[t].count != 0 ==> t == m,
    ensures
        num_active(nodes, n) <= 1,
    decreases n,
{
    if n > 0 {
        if n - 1 == m {
            lemma_num_active_le_one_none(nodes, n - 1, m);
        } else {
            lemma_num_active_le_one(nodes, n - 1, m);
        }
    }
}

proof fn lemma_num_active_le_one_none(nodes: Seq<TreeNode>, n: int, m: int)
    requires
        forall|t: int| 0 <= t < n && nodes[t].count != 0 ==> t == m,
        m >= n,
    ensures
        num_active(nodes, n) == 0,
    decreases n,
{
    if n > 0 {
        lemma_num_active_le_one_none(nodes, n - 1, m);
    }
}

/// Build the Huffman tree over the leaf weights in entries 0..=256:
/// repeatedly merge the two active nodes of least weight (ties broken by
/// lowest index, scanned in ascending order) into a fresh internal node,
/// until a single active node — the root — remains. Returns the root's
/// index. The subtree below the root holds exactly the symbols whose
/// weight was nonzero.
pub fn build_tree(nodes: &mut Vec<TreeNode>) -> (root: usize)
    requires
        old(nodes)@.len() == 514,
        forall|j: int| 257 <= j < 514 ==> old(nodes)@[j].count == 0,
        sum_counts(old(nodes)@, 257) <= 65535,
        exists|i: int, j: int|
            0 <= i < j < 257 && old(nodes)@[i].count != 0 && old(nodes)@[j].count != 0,
    ensures
        final(nodes)@.len() == 514,
        257 <= root < 513,
        forall|j: int|
            257 <= j <= root ==> (final(nodes)@[j].child_0 as int) < j && (
            final(nodes)@[j].child_1 as int) < j,
        forall|s: int|
            in_subtree(final(nodes)@, root as int, s) ==> 0 <= s < 257 && old(
                nodes,
            )@[s].count != 0,
        forall|s: int|
            0 <= s < 257 && old(nodes)@[s].count != 0 ==> in_subtree(
                final(nodes)@,
                root as int,
                s,
            ),
        ({
            let br = build_from(old(nodes)@, 257);
            root == br.1 && final(nodes)@ == br.0.update(
                br.1,
                TreeNode {
                    count: br.0[br.1].count,
                    saved_count: br.0[br.1].count,
                    child_0: br.0[br.1].child_0,
                    child_1: br.0[br.1].child_1,
                },
            )
        }),
{
    let ghost a0 = num_active(old(nodes)@, 257);
    proof {
        let (i, j) = choose|i: int, j: int|
            0 <= i < j < 257 && old(nodes)@[i].count != 0 && old(nodes)@[j].count != 0;
        lemma_num_active_pair(old(nodes)@, 257, i, j);
        lemma_num_active_nonneg(old(nodes)@, 257);
        assert forall|s: int| 0 <= s < 257 && old(nodes)@[s].count != 0 implies exists|a: int|
            0 <= a < 257 && nodes@[a].count != 0 && in_subtree(nodes@, a, s) by {
            assert(in_subtree(nodes@, s, s));
            assert(0 <= s < 257 && nodes@[s].count != 0 && in_subtree(nodes@, s, s));
        }
    }
    let mut next_free: usize = 257;
    loop
        invariant
            nodes@.len() == 514,
            257 <= next_free <= 513,
            a0 == num_active(old(nodes)@, 257),
            2 <= a0 <= 257,
            sum_counts(old(nodes)@, 257) <= 65535,
            exists|i: int, j: int|
                0 <= i < j < 257 && old(nodes)@[i].count != 0 && old(nodes)@[j].count != 0,
            forall|s: int|
                0 <= s < 257 ==> nodes@[s].count == old(nodes)@[s].count || nodes@[s].count
                    == 0,
            forall|j: int|
                257 <= j < next_free ==> (nodes@[j].child_0 as int) < j && (
                nodes@[j].child_1 as int) < j,
            forall|j: int, s: int|
                257 <= j < next_free && in_subtree(nodes@, j, s) ==> 0 <= s < 257 && old(
                    nodes,
                )@[s].count != 0,
            forall|s: int|
                0 <= s < 257 && old(nodes)@[s].count != 0 ==> exists|a: int|
                    0 <= a < next_free && nodes@[a].count != 0 && in_subtree(nodes@, a, s),
            num_active(nodes@, next_free as int) + next_free == a0 + 257,
            sum_counts(nodes@, next_free as int) <= 65535,
            forall|j: int| next_free <= j < 514 ==> nodes@[j].count == 0,
            next_free > 257 ==> nodes@[next_free - 1].count != 0,
            build_from(nodes@, next_free as int) == build_from(old(nodes)@, 257),
        ensures
            nodes@.len() == 514,
            258 <= next_free <= 513,
            forall|j: int|
                257 <= j < next_free ==> (nodes@[j].child_0 as int) < j && (
                nodes@[j].child_1 as int) < j,
            forall|s: int|
                in_subtree(nodes@, next_free - 1, s) ==> 0 <= s < 257 && old(
                    nodes,
                )@[s].count != 0,
            forall|s: int|
                0 <= s < 257 && old(nodes)@[s].count != 0 ==> in_subtree(
                    nodes@,
                    next_free - 1,
                    s,
                ),
            build_from(old(nodes)@, 257) == (nodes@, next_free as int - 1),
        decreases 514 - next_free,
    {
        let mut min_1: Option<usize> = None;
        let mut min_2: Option<usize> = None;
        let mut i: usize = 0;
        while i < next_free
            invariant
                nodes@.len() == 514,
                257 <= next_free <= 513,
                i <= next_free,
                min_1 is None ==> min_2 is None && forall|t: int|
                    0 <= t < i ==> nodes@[t].count == 0,
                min_1 matches Some(m1) ==> m1 < i && nodes@[m1 as int].count != 0,
                min_2 matches Some(m2) ==> min_1 is Some && m2 < i && nodes@[m2 as int].count
                    != 0 && m2 != min_1->Some_0,
                min_1 is Some && min_2 is None ==> forall|t: int|
                    0 <= t < i && nodes@[t].count != 0 ==> t == min_1->Some_0,
                lift_idx(min_1) == scan_mins(nodes@, i as int).0,
                lift_idx(min_2) == scan_mins(nodes@, i as int).1,
            decreases next_free - i,
        {
            if nodes[i].count != 0 {
                match min_1 {
                    None => {
                        min_1 = Some(i);
                    },
                    Some(m1) => {
                        if nodes[i].count < nodes[m1].count {
                            min_2 = min_1;
                            min_1 = Some(i);
                        } else {
                            match min_2 {
                                None => {
                                    min_2 = Some(i);
                                },
                                Some(m2) => {
                                    if nodes[i].count < nodes[m2].count {
                                        min_2 = Some(i);
                                    }
                                },
                            }
                        }
                    },
                }
            }
            i = i + 1;
        }
        let m2 = match min_2 {
            None => {
                proof {
                    // some symbol has nonzero weight, so some node is active
                    let (pi, pj) = choose|pi: int, pj: int|
                        0 <= pi < pj < 257 && old(nodes)@[pi].count != 0 && old(
                            nodes,
                        )@[pj].count != 0;
                    assert(0 <= pi < 257 && old(nodes)@[pi].count != 0);
                    assert(exists|a: int|
                        0 <= a < next_free && nodes@[a].count != 0 && in_subtree(
                            nodes@,
                            a,
                            pi,
                        ));
                    let a = choose|a: int|
                        0 <= a < next_free && nodes@[a].count != 0 && in_subtree(nodes@, a, pi);
                    lemma_num_active_single(nodes@, next_free as int, a);
                    // and the scan saw at most one active node
                    let m1v = min_1->Some_0 as int;
                    lemma_num_active_le_one(nodes@, next_free as int, m1v);
                    assert(num_active(nodes@, next_free as int) == 1);
                    assert(next_free > 257);
                    assert(nodes@[next_free - 1].count != 0);
                    assert(m1v == next_free - 1);
                    assert forall|s: int|
                        0 <= s < 257 && old(nodes)@[s].count != 0 implies in_subtree(
                        nodes@,
                        next_free - 1,
                        s,
                    ) by {
                        assert(exists|w: int|
                            0 <= w < next_free && nodes@[w].count != 0 && in_subtree(
                                nodes@,
                                w,
                                s,
                            ));
                        let w = choose|w: int|
                            0 <= w < next_free && nodes@[w].count != 0 && in_subtree(
                                nodes@,
                                w,
                                s,
                            );
                        assert(w == next_free - 1);
                    }
                    assert(scan_mins(nodes@, next_free as int).1 is None);
                    assert(build_from(nodes@, next_free as int) == (
                        nodes@,
                        next_free as int - 1,
                    ));
                    if next_free - 1 > 256 {
                    } else {
                        // a leaf root would leave the other nonzero symbol unreachable
                        assert(in_subtree(nodes@, next_free - 1, pi));
                        assert(in_subtree(nodes@, next_free - 1, pj));
                        assert(false);
                    }
                }
                break ;
            },
            Some(m2) => m2,
        };
        let m1 = match min_1 {
            None => {
                proof {
                    assert(false);
                }
                0
            },
            Some(m1) => m1,
        };
        let ghost pre = nodes@;
        let c1 = nodes[m1].count;
        let c2 = nodes[m2].count;
        proof {
            if m1 < m2 {
                lemma_sum_pair(pre, next_free as int, m1 as int, m2 as int);
            } else {
                lemma_sum_pair(pre, next_free as int, m2 as int, m1 as int);
            }
            lemma_num_active_pair(
                pre,
                next_free as int,
                if m1 < m2 {
                    m1 as int
                } else {
                    m2 as int
                },
                if m1 < m2 {
                    m2 as int
                } else {
                    m1 as int
                },
            );
            lemma_sum_nonneg(pre, next_free as int);
        }
        nodes.set(
            next_free,
            TreeNode { count: c1 + c2, saved_count: 0, child_0: m1, child_1: m2 },
        );
        let n1 = TreeNode {
            count: 0,
            saved_count: c1,
            child_0: nodes[m1].child_0,
            child_1: nodes[m1].child_1,
        };
        nodes.set(m1, n1);
        let n2 = TreeNode {
            count: 0,
            saved_count: c2,
            child_0: nodes[m2].child_0,
            child_1: nodes[m2].child_1,
        };
        nodes.set(m2, n2);
        proof {
            let cur = nodes@;
            let nf = next_free as int;
            // prefix counts: one addition at nf, two removals at m1, m2
            let step_a = pre.update(nf, TreeNode { count: (c1 + c2) as u32, saved_count: 0, child_0: m1, child_1: m2 });
            let step_b = step_a.update(m1 as int, n1);
            assert(cur =~= step_b.update(m2 as int, n2));
            assert(scan_mins(pre, nf) == (Some(m1 as int), Some(m2 as int)));
            assert(merge_step(pre, nf, m1 as int, m2 as int) =~= cur);
            assert(build_from(pre, nf) == build_from(cur, nf + 1));
            lemma_sum_frame(pre, step_a, nf);
            lemma_sum_update(step_a, step_b, nf, m1 as int);
            lemma_sum_update(step_b, cur, nf, m2 as int);
            assert(sum_counts(cur, nf + 1) == sum_counts(cur, nf) + (c1 + c2));
            assert(num_active(cur, nf + 1) == num_active(cur, nf) + 1);
            assert(sum_counts(cur, nf + 1) <= 65535);
            assert(num_active(cur, nf + 1) + (next_free + 1) == a0 + 257);
            // child links are unchanged everywhere below nf
            assert(forall|j: int|
                0 <= j < 514 && j != nf ==> cur[j].child_0 == pre[j].child_0 && cur[j].child_1
                    == pre[j].child_1);
            // subtrees of existing internal nodes are unchanged
            assert forall|j: int, s: int| 257 <= j < nf + 1 && in_subtree(cur, j, s) implies 0 <= s
                < 257 && old(nodes)@[s].count != 0 by {
                if j < nf {
                    lemma_subtree_frame(cur, pre, j, s);
                } else {
                    assert(in_subtree(cur, m1 as int, s) || in_subtree(cur, m2 as int, s));
                    if in_subtree(cur, m1 as int, s) {
                        lemma_subtree_frame(cur, pre, m1 as int, s);
                        if m1 <= 256 {
                            assert(s == m1 as int);
                        }
                    } else {
                        lemma_subtree_frame(cur, pre, m2 as int, s);
                        if m2 <= 256 {
                            assert(s == m2 as int);
                        }
                    }
                }
            }
            // every nonzero-weight symbol is still reachable from an active node
            assert forall|s: int| 0 <= s < 257 && old(nodes)@[s].count != 0 implies exists|a: int|
                0 <= a < nf + 1 && cur[a].count != 0 && in_subtree(cur, a, s) by {
                let a = choose|a: int|
                    0 <= a < nf && pre[a].count != 0 && in_subtree(pre, a, s);
                if a == m1 as int || a == m2 as int {
                    lemma_subtree_frame(pre, cur, a, s);
                    assert(in_subtree(cur, nf, s));
                    assert(cur[nf].count != 0);
                } else {
                    lemma_subtree_frame(pre, cur, a, s);
                    assert(cur[a].count != 0 && in_subtree(cur, a, s));
                }
            }
        }
        next_free = next_free + 1;
    }
    // a single active node remains: the last one created, the root;
    // record its weight in the diagnostic field
    let ghost tdone = nodes@;
    let root = next_free - 1;
    let rc = nodes[root].count;
    let n_root = TreeNode {
        count: rc,
        saved_count: rc,
        child_0: nodes[root].child_0,
        child_1: nodes[root].child_1,
    };
    nodes.set(root, n_root);
    proof {
        assert(nodes@ =~= tdone.update(
            root as int,
            TreeNode {
                count: tdone[root as int].count,
                saved_count: tdone[root as int].count,
                child_0: tdone[root as int].child_0,
                child_1: tdone[root as int].child_1,
            },
        ));
        assert(forall|j: int|
            0 <= j < 514 ==> nodes@[j].child_0 == tdone[j].child_0 && nodes@[j].child_1
                == tdone[j].child_1);
        assert forall|s: int| in_subtree(nodes@, root as int, s) implies 0 <= s < 257 && old(
            nodes,
        )@[s].count != 0 by {
            lemma_subtree_frame(nodes@, tdone, root as int, s);
        }
        assert forall|s: int| 0 <= s < 257 && old(nodes)@[s].count != 0 implies in_subtree(
            nodes@,
            root as int,
            s,
        ) by {
            lemma_subtree_frame(tdone, nodes@, root as int, s);
        }
    }
    root
}

/// The code assigned to a symbol: its bit pattern, first-descent bit
/// first; the pattern's length is the code length.
pub struct Code {
    pub bits: Vec<bool>,
}

/// The bit patterns of a code table, one entry per symbol.
pub open spec fn view_codes(codes: Seq<Option<Code>>) -> Seq<Option<Seq<bool>>> {
    Seq::new(
        codes.len(),
        |i: int|
            match codes[i] {
                Some(c) => Some(c.bits@),
                None => None::<Seq<bool>>,
            },
    )
}

/// Every (symbol, code) pair the tree walk below node `n` records, in
/// visit order, when the accumulated pattern so far is `p`.
pub open spec fn code_records(nodes: Seq<TreeNode>, n: int, p: Seq<bool>) -> Seq<(int, Seq<bool>)>
    decreases n,
{
    if n <= 256 {
        seq![(n, p)]
    } else if nodes[n].child_0 < n && nodes[n].child_1 < n {
        code_records(nodes, nodes[n].child_0 as int, p.push(false)) + code_records(
            nodes,
            nodes[n].child_1 as int,
            p.push(true),
        )
    } else {
        Seq::empty()
    }
}

/// A table after recording each pair in order (later writes win).
pub open spec fn apply_records(
    tbl: Seq<Option<Seq<bool>>>,
    recs: Seq<(int, Seq<bool>)>,
) -> Seq<Option<Seq<bool>>>
    decreases recs.len(),
{
    if recs.len() == 0 {
        tbl
    } else {
        apply_records(tbl, recs.drop_last()).update(recs.last().0, Some(recs.last().1))
    }
}

proof fn lemma_apply_len(tbl: Seq<Option<Seq<bool>>>, recs: Seq<(int, Seq<bool>)>)
    requires
        forall|i: int| 0 <= i < recs.len() ==> 0 <= (#[trigger] recs[i]).0 < tbl.len(),
    ensures
        apply_records(tbl, recs).len() == tbl.len(),
    decreases recs.len(),
{
    if recs.len() > 0 {
        let dl = recs.drop_last();
        assert forall|i: int| 0 <= i < dl.len() implies 0 <= (#[trigger] dl[i]).0 < tbl.len() by {
            assert(dl[i] == recs[i]);
        }
        lemma_apply_len(tbl, dl);
        assert(0 <= recs[recs.len() - 1].0 < tbl.len());
    }
}

proof fn lemma_apply_concat(
    tbl: Seq<Option<Seq<bool>>>,
    a: Seq<(int, Seq<bool>)>,
    b: Seq<(int, Seq<bool>)>,
)
    ensures
        apply_records(tbl, a + b) == apply_records(apply_records(tbl, a), b),
    decreases b.len(),
{
    if b.len() == 0 {
        assert(a + b =~= a);
    } else {
        assert((a + b).drop_last() =~= a + b.drop_last());
        assert((a + b).last() == b.last());
        lemma_apply_concat(tbl, a, b.drop_last());
    }
}

/// What the recorded pairs of a well-shaped subtree look like: symbols
/// are leaves of that subtree, every pattern extends the accumulated
/// prefix, patterns are bounded by the node index, and no recorded
/// pattern is a prefix of another.
proof fn lemma_records_props(nodes: Seq<TreeNode>, n: int, p: Seq<bool>)
    requires
        0 <= n < 514,
        forall|j: int|
            257 <= j <= n ==> (nodes[j].child_0 as int) < j && (nodes[j].child_1 as int) < j,
    ensures
        ({
            let recs = code_records(nodes, n, p);
            &&& forall|i: int| 0 <= i < recs.len() ==> 0 <= (#[trigger] recs[i]).0 <= 256
            &&& forall|i: int|
                0 <= i < recs.len() ==> (#[trigger] recs[i]).1.len() >= p.len() && recs[i].1.take(
                    p.len() as int,
                ) == p
            &&& forall|i: int| 0 <= i < recs.len() ==> (#[trigger] recs[i]).1.len() <= p.len() + n
            &&& (n > 256 ==> forall|i: int|
                0 <= i < recs.len() ==> (#[trigger] recs[i]).1.len() > p.len())
            &&& forall|i: int, j: int|
                0 <= i < recs.len() && 0 <= j < recs.len() && i != j ==> !(#[trigger] recs[i]).1.is_prefix_of(
                    (#[trigger] recs[j]).1,
                )
            &&& forall|s: int|
                (exists|i: int| 0 <= i < recs.len() && (#[trigger] recs[i]).0 == s) <==> in_subtree(
                    nodes,
                    n,
                    s,
                )
        }),
    decreases n,
{
    let recs = code_records(nodes, n, p);
    if n <= 256 {
        assert(recs =~= seq![(n, p)]);
        assert(p.take(p.len() as int) =~= p);
        assert forall|s: int| in_subtree(nodes, n, s) implies (exists|i: int|
            0 <= i < recs.len() && (#[trigger] recs[i]).0 == s) by {
            assert(recs[0].0 == s);
        }
    } else {
        let c0 = nodes[n].child_0 as int;
        let c1 = nodes[n].child_1 as int;
        let a = code_records(nodes, c0, p.push(false));
        let b = code_records(nodes, c1, p.push(true));
        lemma_records_props(nodes, c0, p.push(false));
        lemma_records_props(nodes, c1, p.push(true));
        assert(recs =~= a + b);
        assert forall|i: int| 0 <= i < recs.len() implies (#[trigger] recs[i]).1.len() >= p.len()
            + 1 && recs[i].1.take(p.len() as int) == p && recs[i].1[p.len() as int] == (i
            >= a.len()) && recs[i].1.len() <= p.len() + n && 0 <= recs[i].0 <= 256 by {
            let q = if i < a.len() {
                p.push(false)
            } else {
                p.push(true)
            };
            let r = recs[i].1;
            assert(r.take(q.len() as int) == q);
            assert(r.take(p.len() as int) =~= r.take(q.len() as int).take(p.len() as int));
            assert(q.take(p.len() as int) =~= p);
            assert(r[p.len() as int] == r.take(q.len() as int)[p.len() as int]);
        }
        assert forall|i: int, j: int|
            0 <= i < recs.len() && 0 <= j < recs.len() && i != j implies !(
        #[trigger] recs[i]).1.is_prefix_of((#[trigger] recs[j]).1) by {
            let ri = recs[i].1;
            let rj = recs[j].1;
            if (i < a.len()) == (j < a.len()) {
                // both in the same child: its own pairwise property
            } else {
                // opposite children: the patterns differ at position p.len()
                if ri.is_prefix_of(rj) {
                    assert(rj.take(ri.len() as int) == ri);
                    assert(rj[p.len() as int] == rj.take(ri.len() as int)[p.len() as int]);
                    assert(false);
                }
            }
        }
        assert forall|s: int| in_subtree(nodes, n, s) implies (exists|i: int|
            0 <= i < recs.len() && (#[trigger] recs[i]).0 == s) by {
            if in_subtree(nodes, c0, s) {
                assert(exists|i: int| 0 <= i < a.len() && (#[trigger] a[i]).0 == s);
                let i = choose|i: int| 0 <= i < a.len() && (#[trigger] a[i]).0 == s;
                assert(recs[i].0 == s);
            } else {
                assert(in_subtree(nodes, c1, s));
                assert(exists|i: int| 0 <= i < b.len() && (#[trigger] b[i]).0 == s);
                let i = choose|i: int| 0 <= i < b.len() && (#[trigger] b[i]).0 == s;
                assert(recs[a.len() + i] == b[i]);
                assert(recs[a.len() + i].0 == s);
            }
        }
        assert forall|s: int|
            (exists|i: int| 0 <= i < recs.len() && (#[trigger] recs[i]).0 == s) implies in_subtree(
            nodes,
            n,
            s,
        ) by {
            let i = choose|i: int| 0 <= i < recs.len() && (#[trigger] recs[i]).0 == s;
            if i < a.len() {
                assert((#[trigger] a[i]).0 == s);
                assert(exists|k: int| 0 <= k < a.len() && (#[trigger] a[k]).0 == s);
                assert(in_subtree(nodes, c0, s));
            } else {
                assert((#[trigger] b[i - a.len()]).0 == s);
                assert(exists|k: int| 0 <= k < b.len() && (#[trigger] b[k]).0 == s);
                assert(in_subtree(nodes, c1, s));
            }
        }
    }
}

/// Where an entry of the applied table comes from: a recorded pair for
/// that symbol, or the table as it stood before.
proof fn lemma_apply_entries(tbl: Seq<Option<Seq<bool>>>, recs: Seq<(int, Seq<bool>)>, s: int)
    requires
        tbl.len() == 257,
        0 <= s < 257,
        forall|i: int| 0 <= i < recs.len() ==> 0 <= (#[trigger] recs[i]).0 < 257,
    ensures
        (exists|i: int| 0 <= i < recs.len() && (#[trigger] recs[i]).0 == s) ==> apply_records(
            tbl,
            recs,
        )[s] is Some,
        !(exists|i: int| 0 <= i < recs.len() && (#[trigger] recs[i]).0 == s) ==> apply_records(
            tbl,
            recs,
        )[s] == tbl[s],
        forall|c: Seq<bool>|
            apply_records(tbl, recs)[s] == Some(c) ==> ((exists|i: int|
                0 <= i < recs.len() && #[trigger] recs[i] == (s, c)) || tbl[s] == Some(c)),
    decreases recs.len(),
{
    if recs.len() > 0 {
        let dl = recs.drop_last();
        lemma_apply_entries(tbl, dl, s);
        lemma_apply_len(tbl, dl);
        assert forall|i: int| 0 <= i < dl.len() implies 0 <= (#[trigger] dl[i]).0 < 257 by {
            assert(dl[i] == recs[i]);
        }
        let t1 = apply_records(tbl, dl);
        let t2 = apply_records(tbl, recs);
        if recs.last().0 == s {
            assert(t2[s] == Some(recs.last().1));
            assert((#[trigger] recs[recs.len() - 1]).0 == s);
            assert forall|c: Seq<bool>| t2[s] == Some(c) implies ((exists|i: int|
                0 <= i < recs.len() && #[trigger] recs[i] == (s, c)) || tbl[s] == Some(c)) by {
                assert(recs[recs.len() - 1] == (s, c));
            }
        } else {
            assert(t2[s] == t1[s]);
            if exists|i: int| 0 <= i < recs.len() && (#[trigger] recs[i]).0 == s {
                let i = choose|i: int| 0 <= i < recs.len() && (#[trigger] recs[i]).0 == s;
                assert(i < recs.len() - 1);
                assert((#[trigger] dl[i]).0 == s);
            }
            if exists|i: int| 0 <= i < dl.len() && (#[trigger] dl[i]).0 == s {
                let i = choose|i: int| 0 <= i < dl.len() && (#[trigger] dl[i]).0 == s;
                assert((#[trigger] recs[i]).0 == s);
            }
            assert forall|c: Seq<bool>| t2[s] == Some(c) implies ((exists|i: int|
                0 <= i < recs.len() && #[trigger] recs[i] == (s, c)) || tbl[s] == Some(c)) by {
                if exists|i: int| 0 <= i < dl.len() && #[trigger] dl[i] == (s, c) {
                    let i = choose|i: int| 0 <= i < dl.len() && #[trigger] dl[i] == (s, c);
                    assert(recs[i] == (s, c));
                }
            }
        }
    }
}

/// One term of the scaled Kraft sum: 2^(l - code length).
pub open spec fn entry_kraft(e: Option<Seq<bool>>, l: nat) -> int {
    match e {
        Some(c) => if c.len() <= l {
            pow2((l - c.len()) as nat) as int
        } else {
            0
        },
        None => 0,
    }
}

/// The Kraft sum of the first `n` table entries, scaled by 2^l: a bound
/// of 2^l means the plain Kraft sum is at most 1.
pub open spec fn table_kraft(tbl: Seq<Option<Seq<bool>>>, n: int, l: nat) -> int
    decreases n,
{
    if n <= 0 {
        0
    } else {
        table_kraft(tbl, n - 1, l) + entry_kraft(tbl[n - 1], l)
    }
}

/// The scaled Kraft sum of a sequence of recorded pairs.
pub open spec fn records_kraft(recs: Seq<(int, Seq<bool>)>, l: nat) -> int
    decreases recs.len(),
{
    if recs.len() == 0 {
        0
    } else {
        records_kraft(recs.drop_last(), l) + entry_kraft(Some(recs.last().1), l)
    }
}

proof fn lemma_records_kraft_concat(a: Seq<(int, Seq<bool>)>, b: Seq<(int, Seq<bool>)>, l: nat)
    ensures
        records_kraft(a + b, l) == records_kraft(a, l) + records_kraft(b, l),
    decreases b.len(),
{
    if b.len() == 0 {
        assert(a + b =~= a);
    } else {
        assert((a + b).drop_last() =~= a + b.drop_last());
        lemma_records_kraft_concat(a, b.drop_last(), l);
    }
}

/// The recorded pairs of a subtree at accumulated depth `p.len()`
/// contribute at most 2^(l - p.len()) to the scaled Kraft sum.
proof fn lemma_records_kraft_bound(nodes: Seq<TreeNode>, n: int, p: Seq<bool>, l: nat)
    requires
        0 <= n < 514,
        p.len() + n <= l,
        forall|j: int|
            257 <= j <= n ==> (nodes[j].child_0 as int) < j && (nodes[j].child_1 as int) < j,
    ensures
        0 <= records_kraft(code_records(nodes, n, p), l) <= pow2((l - p.len()) as nat),
    decreases n,
{
    lemma_pow2_pos((l - p.len()) as nat);
    if n <= 256 {
        let recs = code_records(nodes, n, p);
        assert(recs == seq![(n, p)]);
        assert(recs.last() == (n, p));
        assert(recs.drop_last() =~= Seq::<(int, Seq<bool>)>::empty());
        assert(records_kraft(recs, l) == records_kraft(Seq::<(int, Seq<bool>)>::empty(), l)
            + entry_kraft(Some(p), l));
        assert(records_kraft(recs, l) == entry_kraft(Some(p), l));
    } else {
        let c0 = nodes[n].child_0 as int;
        let c1 = nodes[n].child_1 as int;
        lemma_records_kraft_bound(nodes, c0, p.push(false), l);
        lemma_records_kraft_bound(nodes, c1, p.push(true), l);
        lemma_records_kraft_concat(
            code_records(nodes, c0, p.push(false)),
            code_records(nodes, c1, p.push(true)),
            l,
        );
        lemma_pow2_adds(1, (l - p.len() - 1) as nat);
        lemma2_to64();
    }
}

proof fn lemma_table_kraft_frame(t1: Seq<Option<Seq<bool>>>, t2: Seq<Option<Seq<bool>>>, n: int, l: nat)
    requires
        forall|j: int| 0 <= j < n ==> t1[j] == t2[j],
    ensures
        table_kraft(t1, n, l) == table_kraft(t2, n, l),
    decreases n,
{
    if n > 0 {
        lemma_table_kraft_frame(t1, t2, n - 1, l);
    }
}

proof fn lemma_table_kraft_update(
    t1: Seq<Option<Seq<bool>>>,
    t2: Seq<Option<Seq<bool>>>,
    n: int,
    s: int,
    l: nat,
)
    requires
        0 <= s < n,
        forall|j: int| 0 <= j < n && j != s ==> t1[j] == t2[j],
    ensures
        table_kraft(t2, n, l) == table_kraft(t1, n, l) - entry_kraft(t1[s], l) + entry_kraft(
            t2[s],
            l,
        ),
    decreases n,
{
    if s == n - 1 {
        lemma_table_kraft_frame(t1, t2, n - 1, l);
    } else {
        lemma_table_kraft_update(t1, t2, n - 1, s, l);
    }
}

proof fn lemma_entry_kraft_nonneg(e: Option<Seq<bool>>, l: nat)
    ensures
        entry_kraft(e, l) >= 0,
{
    if e is Some && e->Some_0.len() <= l {
        lemma_pow2_pos((l - e->Some_0.len()) as nat);
    }
}

/// Applying recorded pairs raises the table's scaled Kraft sum by at
/// most the pairs' own sum.
proof fn lemma_apply_kraft(tbl: Seq<Option<Seq<bool>>>, recs: Seq<(int, Seq<bool>)>, l: nat)
    requires
        tbl.len() == 257,
        forall|i: int| 0 <= i < recs.len() ==> 0 <= (#[trigger] recs[i]).0 < 257,
    ensures
        table_kraft(apply_records(tbl, recs), 257, l) <= table_kraft(tbl, 257, l) + records_kraft(
            recs,
            l,
        ),
    decreases recs.len(),
{
    if recs.len() > 0 {
        let dl = recs.drop_last();
        assert forall|i: int| 0 <= i < dl.len() implies 0 <= (#[trigger] dl[i]).0 < 257 by {
            assert(dl[i] == recs[i]);
        }
        lemma_apply_kraft(tbl, dl, l);
        lemma_apply_len(tbl, dl);
        let t1 = apply_records(tbl, dl);
        let s = recs.last().0;
        let t2 = t1.update(s, Some(recs.last().1));
        assert(0 <= s < 257);
        lemma_table_kraft_update(t1, t2, 257, s, l);
        lemma_entry_kraft_nonneg(t1[s], l);
        lemma_entry_kraft_nonneg(Some(recs.last().1), l);
    }
}

proof fn lemma_table_kraft_none(tbl: Seq<Option<Seq<bool>>>, n: int, l: nat)
    requires
        forall|j: int| 0 <= j < n ==> tbl[j] is None,
    ensures
        table_kraft(tbl, n, l) == 0,
    decreases n,
{
    if n > 0 {
        lemma_table_kraft_none(tbl, n - 1, l);
    }
}

/// Extend a code pattern by one bit into a fresh buffer.
fn extend_code(code_so_far: &Vec<bool>, bit: bool) -> (r: Vec<bool>)
    ensures
        r@ == code_so_far@.push(bit),
{
    let mut r: Vec<bool> = Vec::new();
    let mut i: usize = 0;
    while i < code_so_far.len()
        invariant
            i <= code_so_far@.len(),
            r@ == code_so_far@.take(i as int),
        decreases code_so_far@.len() - i,
    {
        r.push(code_so_far[i]);
        proof {
            assert(r@ =~= code_so_far@.take(i + 1));
        }
        i = i + 1;
    }
    proof {
        assert(code_so_far@.take(code_so_far@.len() as int) =~= code_so_far@);
    }
    r.push(bit);
    r
}

/// Walk the tree below `node`, assigning to every leaf the bit pattern
/// accumulated on the way down: 0 toward the first child, 1 toward the
/// second. Later visits of a leaf overwrite earlier ones.
pub fn convert_tree_to_code(
    nodes: &Vec<TreeNode>,
    codes: &mut Vec<Option<Code>>,
    code_so_far: &Vec<bool>,
    node: usize,
)
    requires
        nodes@.len() == 514,
        old(codes)@.len() == 257,
        node < 514,
        forall|j: int|
            257 <= j <= node ==> (nodes@[j].child_0 as int) < j && (nodes@[j].child_1 as int)
                < j,
    ensures
        final(codes)@.len() == 257,
        view_codes(final(codes)@) == apply_records(
            view_codes(old(codes)@),
            code_records(nodes@, node as int, code_so_far@),
        ),
    decreases node,
{
    if node <= 256 {
        let mut bits: Vec<bool> = Vec::new();
        let mut i: usize = 0;
        while i < code_so_far.len()
            invariant
                i <= code_so_far@.len(),
                bits@ == code_so_far@.take(i as int),
            decreases code_so_far@.len() - i,
        {
            bits.push(code_so_far[i]);
            proof {
                assert(bits@ =~= code_so_far@.take(i + 1));
            }
            i = i + 1;
        }
        proof {
            assert(code_so_far@.take(code_so_far@.len() as int) =~= code_so_far@);
        }
        codes.set(node, Some(Code { bits }));
        proof {
            let recs = code_records(nodes@, node as int, code_so_far@);
            assert(recs == seq![(node as int, code_so_far@)]);
            assert(recs.last() == (node as int, code_so_far@));
            assert(recs.drop_last() =~= Seq::<(int, Seq<bool>)>::empty());
            assert(apply_records(view_codes(old(codes)@), Seq::<(int, Seq<bool>)>::empty())
                == view_codes(old(codes)@));
            assert(apply_records(view_codes(old(codes)@), recs.drop_last()) == view_codes(
                old(codes)@,
            ));
            assert(apply_records(view_codes(old(codes)@), recs) == view_codes(
                old(codes)@,
            ).update(node as int, Some(code_so_far@)));
            assert(view_codes(codes@) =~= view_codes(old(codes)@).update(
                node as int,
                Some(code_so_far@),
            ));
        }
    } else {
        let c0 = nodes[node].child_0;
        let c1 = nodes[node].child_1;
        let p0 = extend_code(code_so_far, false);
        convert_tree_to_code(nodes, codes, &p0, c0);
        let ghost mid = codes@;
        let p1 = extend_code(code_so_far, true);
        convert_tree_to_code(nodes, codes, &p1, c1);
        proof {
            let a = code_records(nodes@, c0 as int, code_so_far@.push(false));
            let b = code_records(nodes@, c1 as int, code_so_far@.push(true));
            assert(code_records(nodes@, node as int, code_so_far@) == a + b);
            lemma_apply_concat(view_codes(old(codes)@), a, b);
            assert(view_codes(mid) == apply_records(view_codes(old(codes)@), a));
            assert(view_codes(codes@) == apply_records(view_codes(mid), b));
        }
    }
}

/// Weight scaling invariant: a symbol's scaled weight is zero exactly
/// when its raw count is zero (whenever any byte occurs at all), every
/// occurring symbol keeps a weight of at least 1, and no weight exceeds
/// 255.
pub proof fn lemma_weight_scaling_invariant(counts: Seq<u64>, s: int)
    requires
        counts.len() == 256,
        0 <= s < 256,
        max_count(counts) != 0,
    ensures
        counts[s] == 0 <==> spec_weights(counts)[s] == 0,
        counts[s] != 0 ==> spec_weights(counts)[s] >= 1,
        spec_weights(counts)[s] <= 255,
{
    lemma_max_count_ge(counts, s);
    lemma_scale_bound(counts[s], max_count(counts));
}

/// Some entry attains the maximum of a nonempty sequence.
proof fn lemma_max_count_witness(s: Seq<u64>)
    requires
        s.len() > 0,
    ensures
        exists|i: int| 0 <= i < s.len() && s[i] == max_count(s),
    decreases s.len(),
{
    if s.last() > max_count(s.drop_last()) {
        assert(s[s.len() - 1] == max_count(s));
    } else {
        if s.len() == 1 {
            assert(s[0] == max_count(s));
        } else {
            lemma_max_count_witness(s.drop_last());
            let i = choose|i: int| 0 <= i < s.len() - 1 && s.drop_last()[i] == max_count(
                s.drop_last(),
            );
            assert(s[i] == max_count(s));
        }
    }
}

/// Weights of at most 255 each sum to at most 255 per entry.
proof fn lemma_sum_le_255(nodes: Seq<TreeNode>, n: int)
    requires
        0 <= n,
        forall|j: int| 0 <= j < n ==> (#[trigger] nodes[j].count) <= 255,
    ensures
        sum_counts(nodes, n) <= 255 * n,
    decreases n,
{
    if n > 0 {
        lemma_sum_le_255(nodes, n - 1);
    }
}

/// A sound code table for a weight table: exactly the symbols of nonzero
/// weight are coded, every code is 1 to 512 bits long, no code is a
/// prefix of another, and the Kraft sum over all coded symbols — scaled
/// by 2^513 — stays within 2^513 (that is, the sum of 2^(-length) over
/// the coded symbols is at most 1).
pub open spec fn code_table_ok(w: Seq<u8>, tbl: Seq<Option<Seq<bool>>>) -> bool {
    &&& tbl.len() == 257
    &&& forall|s: int| 0 <= s < 257 ==> ((#[trigger] tbl[s]) is Some <==> w[s] != 0)
    &&& forall|s: int|
        0 <= s < 257 && tbl[s] is Some ==> 1 <= (#[trigger] tbl[s])->Some_0.len() <= 512
    &&& forall|s1: int, s2: int|
        0 <= s1 < 257 && 0 <= s2 < 257 && s1 != s2 && tbl[s1] is Some && tbl[s2] is Some
            ==> !((#[trigger] tbl[s1])->Some_0.is_prefix_of((#[trigger] tbl[s2])->Some_0))
    &&& table_kraft(tbl, 257, 513) <= pow2(513)
}

/// The fresh arena over a weight table: one leaf per symbol, the
/// internal slots clear.
pub open spec fn arena_init(w: Seq<u8>) -> Seq<TreeNode> {
    Seq::new(
        514,
        |j: int|
            TreeNode {
                count: if j < 257 {
                    w[j] as u32
                } else {
                    0u32
                },
                saved_count: 0,
                child_0: 0,
                child_1: 0,
            },
    )
}

/// The code table the greedy build determines for a weight table: run
/// the merge loop to completion, then record every leaf's path.
pub open spec fn spec_code_table(w: Seq<u8>) -> Seq<Option<Seq<bool>>> {
    let br = build_from(arena_init(w), 257);
    let ns = br.0.update(
        br.1,
        TreeNode {
            count: br.0[br.1].count,
            saved_count: br.0[br.1].count,
            child_0: br.0[br.1].child_0,
            child_1: br.0[br.1].child_1,
        },
    );
    apply_records(
        Seq::new(257, |j: int| None::<Seq<bool>>),
        code_records(ns, br.1, Seq::<bool>::empty()),
    )
}

/// Derive the code table for a weight table: build the tree, then walk
/// it. The result is exactly the table the greedy build determines;
/// every symbol with nonzero weight receives exactly one code, no code
/// is a prefix of another, and the Kraft inequality holds.
pub fn build_code_table(weights: &Vec<u8>) -> (codes: Vec<Option<Code>>)
    requires
        weights@.len() == 257,
        exists|i: int, j: int| 0 <= i < j < 257 && weights@[i] != 0 && weights@[j] != 0,
    ensures
        codes@.len() == 257,
        view_codes(codes@) == spec_code_table(weights@),
        code_table_ok(weights@, view_codes(codes@)),
{
    let mut nodes: Vec<TreeNode> = Vec::new();
    let mut s: usize = 0;
    while s < 257
        invariant
            weights@.len() == 257,
            s <= 257,
            nodes@.len() == s,
            forall|j: int|
                0 <= j < s ==> (#[trigger] nodes@[j]) == (TreeNode {
                    count: weights@[j] as u32,
                    saved_count: 0,
                    child_0: 0,
                    child_1: 0,
                }),
        decreases 257 - s,
    {
        nodes.push(TreeNode { count: weights[s] as u32, saved_count: 0, child_0: 0, child_1: 0 });
        s = s + 1;
    }
    while s < 514
        invariant
            weights@.len() == 257,
            257 <= s <= 514,
            nodes@.len() == s,
            forall|j: int|
                0 <= j < 257 ==> (#[trigger] nodes@[j]) == (TreeNode {
                    count: weights@[j] as u32,
                    saved_count: 0,
                    child_0: 0,
                    child_1: 0,
                }),
            forall|j: int|
                257 <= j < s ==> (#[trigger] nodes@[j]) == (TreeNode {
                    count: 0u32,
                    saved_count: 0,
                    child_0: 0,
                    child_1: 0,
                }),
        decreases 514 - s,
    {
        nodes.push(TreeNode { count: 0, saved_count: 0, child_0: 0, child_1: 0 });
        s = s + 1;
    }
    let ghost init = nodes@;
    proof {
        assert(init =~= arena_init(weights@));
        assert forall|j: int| 0 <= j < 257 implies (#[trigger] init[j].count) <= 255 by {}
        lemma_sum_le_255(init, 257);
        let (wi, wj) = choose|wi: int, wj: int|
            0 <= wi < wj < 257 && weights@[wi] != 0 && weights@[wj] != 0;
        assert(init[wi].count != 0 && init[wj].count != 0);
        assert(exists|a: int, b: int|
            0 <= a < b < 257 && init[a].count != 0 && init[b].count != 0);
    }
    let root = build_tree(&mut nodes);
    let mut codes: Vec<Option<Code>> = Vec::new();
    let mut t: usize = 0;
    while t < 257
        invariant
            t <= 257,
            codes@.len() == t,
            forall|j: int| 0 <= j < t ==> (#[trigger] codes@[j]) is None,
        decreases 257 - t,
    {
        codes.push(None);
        t = t + 1;
    }
    let ghost tbl0 = view_codes(codes@);
    let empty_code: Vec<bool> = Vec::new();
    convert_tree_to_code(&nodes, &mut codes, &empty_code, root);
    proof {
        let recs = code_records(nodes@, root as int, Seq::<bool>::empty());
        let tbl = view_codes(codes@);
        lemma_records_props(nodes@, root as int, Seq::<bool>::empty());
        assert(tbl == apply_records(tbl0, recs));
        assert(forall|j: int| 0 <= j < 257 ==> (#[trigger] tbl0[j]) is None);
        assert(tbl0 =~= Seq::new(257, |j: int| None::<Seq<bool>>));
        assert(tbl == spec_code_table(weights@));
        assert forall|s2: int| 0 <= s2 < 257 implies ((#[trigger] tbl[s2]) is Some <==> weights@[s2]
            != 0) by {
            lemma_apply_entries(tbl0, recs, s2);
            if weights@[s2] != 0 {
                assert(init[s2].count != 0);
                assert(in_subtree(nodes@, root as int, s2));
            }
            if tbl[s2] is Some {
                assert(tbl[s2] != tbl0[s2]);
                assert(exists|i: int| 0 <= i < recs.len() && (#[trigger] recs[i]).0 == s2);
                assert(in_subtree(nodes@, root as int, s2));
                assert(init[s2].count != 0);
            }
        }
        assert forall|s2: int| 0 <= s2 < 257 && tbl[s2] is Some implies 1 <= (
        #[trigger] tbl[s2])->Some_0.len() <= 512 by {
            lemma_apply_entries(tbl0, recs, s2);
            let c = tbl[s2]->Some_0;
            assert(tbl[s2] == Some(c));
            let i = choose|i: int| 0 <= i < recs.len() && #[trigger] recs[i] == (s2, c);
            assert(recs[i].1.len() > 0);
            assert(recs[i].1.len() <= root as int);
        }
        assert forall|s1: int, s2: int|
            0 <= s1 < 257 && 0 <= s2 < 257 && s1 != s2 && tbl[s1] is Some && tbl[s2]
                is Some implies !((#[trigger] tbl[s1])->Some_0.is_prefix_of(
            (#[trigger] tbl[s2])->Some_0)) by {
            lemma_apply_entries(tbl0, recs, s1);
            lemma_apply_entries(tbl0, recs, s2);
            let c1 = tbl[s1]->Some_0;
            let c2 = tbl[s2]->Some_0;
            assert(tbl[s1] == Some(c1));
            assert(tbl[s2] == Some(c2));
            let i = choose|i: int| 0 <= i < recs.len() && #[trigger] recs[i] == (s1, c1);
            let j = choose|j: int| 0 <= j < recs.len() && #[trigger] recs[j] == (s2, c2);
            assert(i != j);
        }
        lemma_records_kraft_bound(nodes@, root as int, Seq::<bool>::empty(), 513);
        lemma_apply_kraft(tbl0, recs, 513);
        lemma_table_kraft_none(tbl0, 257, 513);
    }
    codes
}

/// The payload bit stream: each input byte's code, in input order.
pub open spec fn payload_bits(tbl: Seq<Option<Seq<bool>>>, input: Seq<u8>) -> Seq<bool>
    decreases input.len(),
{
    if input.len() == 0 {
        Seq::empty()
    } else {
        payload_bits(tbl, input.drop_last()) + tbl[input.last() as int]->Some_0
    }
}

/// Write one symbol's code onto the bit channel.
fn output_code(output: &mut BitFile, code: &Code)
    requires
        old(output).wf_writer(),
    ensures
        final(output).wf_writer(),
        final(output).out_bits() == old(output).out_bits() + code.bits@,
{
    let mut j: usize = 0;
    while j < code.bits.len()
        invariant
            output.wf_writer(),
            j <= code.bits@.len(),
            output.out_bits() == old(output).out_bits() + code.bits@.take(j as int),
        decreases code.bits@.len() - j,
    {
        let bit: u8 = if code.bits[j] {
            1
        } else {
            0
        };
        output.output_bit(bit);
        proof {
            assert(output.out_bits() =~= old(output).out_bits() + code.bits@.take(j + 1));
        }
        j = j + 1;
    }
    proof {
        assert(code.bits@.take(code.bits@.len() as int) =~= code.bits@);
    }
}

/// Stream-encode the payload: every input byte's code in order, then
/// the end-of-stream code. Every input byte must be a coded symbol — a
/// byte without a code would contradict the frequency pass.
pub fn compress_data(input: &Vec<u8>, output: &mut BitFile, codes: &Vec<Option<Code>>)
    requires
        old(output).wf_writer(),
        codes@.len() == 257,
        forall|i: int| 0 <= i < input@.len() ==> codes@[(#[trigger] input@[i]) as int] is Some,
        codes@[256] is Some,
    ensures
        final(output).wf_writer(),
        final(output).out_bits() == old(output).out_bits() + payload_bits(
            view_codes(codes@),
            input@,
        ) + view_codes(codes@)[256]->Some_0,
{
    let ghost tbl = view_codes(codes@);
    let mut i: usize = 0;
    proof {
        assert(input@.take(0) =~= Seq::<u8>::empty());
    }
    while i < input.len()
        invariant
            output.wf_writer(),
            codes@.len() == 257,
            tbl == view_codes(codes@),
            forall|k: int| 0 <= k < input@.len() ==> codes@[(#[trigger] input@[k]) as int] is Some,
            i <= input@.len(),
            output.out_bits() == old(output).out_bits() + payload_bits(tbl, input@.take(i as int)),
        decreases input@.len() - i,
    {
        let b = input[i];
        let code = match &codes[b as usize] {
            Some(c) => c,
            None => {
                proof {
                    assert(false);
                }
                vstd::pervasive::unreached()
            },
        };
        output_code(output, code);
        proof {
            assert(input@.take(i + 1).drop_last() =~= input@.take(i as int));
            assert(input@.take(i + 1).last() == input@[i as int]);
            assert(tbl[input@[i as int] as int]->Some_0 == code.bits@);
        }
        i = i + 1;
    }
    proof {
        assert(input@.take(input@.len() as int) =~= input@);
    }
    let eos = match &codes[256] {
        Some(c) => c,
        None => {
            proof {
                assert(false);
            }
            vstd::pervasive::unreached()
        },
    };
    output_code(output, eos);
}

/// The weight table that the frequency and scaling passes derive from
/// an input.
pub open spec fn input_weights(input: Seq<u8>) -> Seq<u8> {
    spec_weights(Seq::new(256, |b: int| count_of(input, b as u8) as u64))
}

/// Compress a byte buffer: the serialized frequency model, then each
/// input byte's code, the end-of-stream code, and zero padding up to a
/// byte boundary. The code table is one soundly derived from the
/// weights (`code_table_ok`): prefix-free over exactly the occurring
/// symbols plus end-of-stream.
pub fn compress_file(input: &Vec<u8>) -> (out: Vec<u8>)
    ensures
        ({
            let w = input_weights(input@);
            let tbl = spec_code_table(w);
            &&& code_table_ok(w, tbl)
            &&& crate::bitfile::stream(out@) == crate::bitfile::stream(
                crate::header::header_bytes(w),
            ) + crate::bitfile::zero_pad(payload_bits(tbl, input@) + tbl[256]->Some_0)
        }),
{
    let counts = count_bytes(input);
    let weights = scale_counts(&counts);
    proof {
        assert(counts@ =~= Seq::new(256, |b: int| count_of(input@, b as u8) as u64));
        assert(weights@ == input_weights(input@));
        // two symbols always have nonzero weight: end-of-stream, and
        // either byte value 0 (empty input) or a byte attaining the
        // maximum count
        if max_count(counts@) == 0 {
            assert(weights@[0] != 0 && weights@[256] != 0);
            assert(0 <= 0 < 256 < 257);
        } else {
            lemma_max_count_witness(counts@);
            let i = choose|i: int| 0 <= i < 256 && counts@[i] == max_count(counts@);
            lemma_scale_bound(counts@[i], max_count(counts@));
            assert(weights@[i] != 0 && weights@[256] != 0);
        }
    }
    let mut output = BitFile::create();
    output_counts(&mut output, &weights);
    proof {
        crate::bitfile::lemma_writer_aligned(output);
    }
    let codes = build_code_table(&weights);
    proof {
        let tbl = view_codes(codes@);
        assert forall|k: int| 0 <= k < input@.len() implies codes@[(#[trigger] input@[k]) as int]
            is Some by {
            let b = input@[k];
            lemma_count_occurs(input@, k);
            assert(counts@[b as int] != 0);
            lemma_max_count_ge(counts@, b as int);
            lemma_scale_bound(counts@[b as int], max_count(counts@));
            assert(weights@[b as int] != 0);
            assert(tbl[b as int] is Some);
        }
        assert(view_codes(codes@)[256] is Some);
    }
    compress_data(input, &mut output, &codes);
    let ghost bits_full = output.out_bits();
    output.flush_bits();
    let out = output.into_bytes();
    proof {
        let w = input_weights(input@);
        let tbl = view_codes(codes@);
        let h = crate::bitfile::stream(crate::header::header_bytes(w));
        let rest = payload_bits(tbl, input@) + tbl[256]->Some_0;
        assert(bits_full == h + rest);
        assert(h.len() % 8 == 0) by {
            lemma_div8(crate::header::header_bytes(w).len() as int);
        }
        assert((h.len() + rest.len()) % 8 == rest.len() % 8) by (nonlinear_arith)
            requires
                h.len() % 8 == 0,
        ;
        assert(crate::bitfile::zero_pad(h + rest) =~= h + crate::bitfile::zero_pad(rest));
        assert(crate::bitfile::stream(out@) == crate::bitfile::zero_pad(bits_full));
        assert(code_table_ok(w, tbl) && crate::bitfile::stream(out@) == h
            + crate::bitfile::zero_pad(payload_bits(tbl, input@) + tbl[256]->Some_0));
    }
    out
}

/// (8a) % 8 == 0.
proof fn lemma_div8(a: int)
    by (nonlinear_arith)
    requires
        0 <= a,
    ensures
        (8 * a) % 8 == 0,
{
}

} // verus!
