//! Huffman codec: a per-chunk frequency model, a canonical prefix-code tree
//! built with a min-priority queue, and a binary header carrying the model.
//!
//! The tree is an arena of nodes addressed by index; children always come
//! before their parent, so walks terminate. The queue's tie-break order is
//! canonical: entries of equal weight keep insertion order, leaves are
//! seeded in ascending byte order, and a combined node is inserted after
//! every entry of weight less than or equal to its own.

use vstd::prelude::*;
use crate::endian::{be16, be32, be64, push_u16, push_u32, push_u64, read_u16, read_u32, read_u64};

verus! {

/// Occurrences of `b` in `s`.
pub open spec fn count_in(s: Seq<u8>, b: u8) -> nat
    decreases s.len(),
{
    if s.len() == 0 {
        0
    } else {
        count_in(s.drop_last(), b) + (if s.last() == b {
            1nat
        } else {
            0nat
        })
    }
}

/// A frequency table: keys strictly ascending.
pub open spec fn counts_wf(c: Seq<(u8, u32)>) -> bool {
    forall|i: int, j: int| #![trigger c[i], c[j]] 0 <= i < j < c.len() ==> c[i].0 < c[j].0
}

pub open spec fn has_key(c: Seq<(u8, u32)>, b: u8) -> bool {
    exists|k: int| 0 <= k < c.len() && (#[trigger] c[k]).0 == b
}

/// The table records exactly the bytes of `s`, each with its positive count.
pub open spec fn counts_match(c: Seq<(u8, u32)>, s: Seq<u8>) -> bool {
    &&& forall|k: int|
        0 <= k < c.len() ==> ((#[trigger] c[k]).1 == count_in(s, c[k].0) && c[k].1 >= 1)
    &&& forall|b: u8| count_in(s, b) >= 1 ==> has_key(c, b)
}

proof fn lemma_count_in_push(s: Seq<u8>, y: u8, b: u8)
    ensures
        count_in(s.push(y), b) == count_in(s, b) + (if y == b {
            1nat
        } else {
            0nat
        }),
{
    assert(s.push(y).drop_last() =~= s);
}

proof fn lemma_count_in_le(s: Seq<u8>, b: u8)
    ensures
        count_in(s, b) <= s.len(),
    decreases s.len(),
{
    if s.len() > 0 {
        lemma_count_in_le(s.drop_last(), b);
    }
}

/// Count every byte of a chunk, table keys ascending.
pub fn count_freqs(input: &[u8]) -> (c: Vec<(u8, u32)>)
    requires
        input@.len() < 0x1_0000_0000,
    ensures
        c@ == counts_of(input@),
        counts_wf(c@),
        counts_match(c@, input@),
        c@.len() <= 256,
        input@.len() >= 1 ==> c@.len() >= 1,
{
    let mut tally: Vec<u32> = Vec::new();
    let mut z: usize = 0;
    while z < 256
        invariant
            tally@.len() == z <= 256,
            forall|b: int| 0 <= b < z ==> tally@[b] == 0,
        decreases 256 - z,
    {
        tally.push(0);
        z = z + 1;
    }
    proof {
        assert forall|b: u8| tally@[b as int] == count_in(input@.take(0), b) by {
            assert(input@.take(0).len() == 0);
        }
    }
    let n = input.len();
    let mut i: usize = 0;
    while i < n
        invariant
            i <= n,
            n == input@.len() < 0x1_0000_0000,
            tally@.len() == 256,
            forall|b: u8| tally@[b as int] == count_in(input@.take(i as int), b),
        decreases n - i,
    {
        let by = input[i];
        let idx = by as usize;
        proof {
            lemma_count_in_le(input@.take(i as int), by);
        }
        let v = tally[idx];
        tally[idx] = v + 1;
        proof {
            assert forall|b: u8| tally@[b as int] == count_in(input@.take(i + 1), b) by {
                assert(input@.take(i + 1) =~= input@.take(i as int).push(input@[i as int]));
                lemma_count_in_push(input@.take(i as int), input@[i as int], b);
            }
        }
        i = i + 1;
    }
    proof {
        assert(input@.take(n as int) =~= input@);
    }
    let mut c: Vec<(u8, u32)> = Vec::new();
    let mut b: usize = 0;
    while b < 256
        invariant
            b <= 256,
            tally@.len() == 256,
            forall|y: u8| tally@[y as int] == count_in(input@, y),
            counts_wf(c@),
            c@.len() <= b,
            forall|k: int|
                0 <= k < c@.len() ==> ((#[trigger] c@[k]).0 < b && c@[k].1 == count_in(
                    input@,
                    c@[k].0,
                ) && c@[k].1 >= 1),
            forall|y: u8| y < b && #[trigger] count_in(input@, y) >= 1 ==> has_key(c@, y),
            counts_of(input@) == c@ + counts_from(input@, b as int),
        decreases 256 - b,
    {
        let t = tally[b];
        let ghost mid = c@;
        if t > 0 {
            let ghost pre = c@;
            c.push((b as u8, t));
            proof {
                assert forall|y: u8| y < b + 1 && count_in(input@, y) >= 1 implies has_key(
                    c@,
                    y,
                ) by {
                    if y < b {
                        let k = choose|k: int| 0 <= k < pre.len() && (#[trigger] pre[k]).0 == y;
                        assert(c@[k].0 == y);
                    } else {
                        assert(c@[c@.len() - 1].0 == y);
                    }
                }
            }
        }
        proof {
            if t > 0 {
                assert(counts_from(input@, b as int) == seq![(b as u8, t)] + counts_from(
                    input@,
                    b + 1,
                ));
                assert(mid + counts_from(input@, b as int) =~= c@ + counts_from(input@, b + 1));
            } else {
                assert(counts_from(input@, b as int) == counts_from(input@, b + 1));
            }
        }
        b = b + 1;
    }
    proof {
        assert(counts_from(input@, 256) == Seq::<(u8, u32)>::empty());
        assert(c@ + counts_from(input@, 256) =~= c@);
        if input@.len() >= 1 {
            lemma_count_in_first(input@, input@[0]);
            assert(count_in(input@, input@[0]) >= 1);
            assert(has_key(c@, input@[0]));
            let k = choose|k: int| 0 <= k < c@.len() && (#[trigger] c@[k]).0 == input@[0];
            assert(c@.len() >= 1);
        }
    }
    c
}

proof fn lemma_count_in_first(s: Seq<u8>, b: u8)
    requires
        s.len() >= 1,
        s[0] == b,
    ensures
        count_in(s, b) >= 1,
    decreases s.len(),
{
    if s.len() > 1 {
        lemma_count_in_first(s.drop_last(), b);
    }
}

/// One tree node: its aggregate weight and either a byte (leaf) or two
/// children by arena index.
pub struct Node {
    pub value: u64,
    pub content: NodeContent,
}

pub enum NodeContent {
    Byte(u8),
    Branches(usize, usize),
}

impl NodeContent {
    /// The byte of a leaf, or nothing for an internal node.
    pub fn byte(&self) -> (r: Option<u8>)
        ensures
            r == (match *self {
                NodeContent::Byte(b) => Some(b),
                NodeContent::Branches(..) => None::<u8>,
            }),
    {
        match self {
            NodeContent::Byte(byte) => Some(*byte),
            NodeContent::Branches(..) => None,
        }
    }
}

impl Node {
    /// A leaf node carrying `byte` with weight `value`.
    pub fn new(value: u32, byte: u8) -> (n: Self)
        ensures
            n == (Node { value: value as u64, content: NodeContent::Byte(byte) }),
    {
        Node { value: value as u64, content: NodeContent::Byte(byte) }
    }
}

/// A prefix-code tree: an arena of nodes, children before parents, and the
/// index of the root.
pub struct Tree {
    pub nodes: Vec<Node>,
    pub root: usize,
}

/// Children precede their parent in the arena.
pub open spec fn arena_wf(nodes: Seq<Node>) -> bool {
    forall|k: int|
        0 <= k < nodes.len() ==> ((#[trigger] nodes[k]).content matches NodeContent::Branches(
            l,
            r,
        ) ==> l < k && r < k)
}

/// Whether some leaf below `idx` carries byte `b`.
pub open spec fn tree_has(nodes: Seq<Node>, idx: int, b: u8) -> bool
    decreases idx
        when 0 <= idx < nodes.len() && arena_wf(nodes)
{
    match nodes[idx].content {
        NodeContent::Byte(x) => x == b,
        NodeContent::Branches(l, r) => tree_has(nodes, l as int, b) || tree_has(
            nodes,
            r as int,
            b,
        ),
    }
}

/// The path from `idx` down to the leftmost leaf carrying `b`: `false` for
/// the left child, `true` for the right.
pub open spec fn code_of(nodes: Seq<Node>, idx: int, b: u8) -> Option<Seq<bool>>
    decreases idx
        when 0 <= idx < nodes.len() && arena_wf(nodes)
{
    match nodes[idx].content {
        NodeContent::Byte(x) => if x == b {
            Some(Seq::<bool>::empty())
        } else {
            None
        },
        NodeContent::Branches(l, r) => match code_of(nodes, l as int, b) {
            Some(p) => Some(seq![false] + p),
            None => match code_of(nodes, r as int, b) {
                Some(p) => Some(seq![true] + p),
                None => None,
            },
        },
    }
}

/// Where a new entry of weight `w` goes: after every entry of weight at
/// most `w`, before the rest.
pub open spec fn ins_pos(q: Seq<(u64, usize)>, w: u64) -> int
    decreases q.len(),
{
    if q.len() == 0 {
        0
    } else if q[0].0 <= w {
        1 + ins_pos(q.skip(1), w)
    } else {
        0
    }
}

pub open spec fn insert_q(q: Seq<(u64, usize)>, e: (u64, usize)) -> Seq<(u64, usize)> {
    q.insert(ins_pos(q, e.0), e)
}

proof fn lemma_ins_pos_range(q: Seq<(u64, usize)>, w: u64)
    ensures
        0 <= ins_pos(q, w) <= q.len(),
    decreases q.len(),
{
    if q.len() > 0 && q[0].0 <= w {
        lemma_ins_pos_range(q.skip(1), w);
    }
}

/// The queue and arena after seeding the first `i` table entries as leaves.
pub open spec fn seed_state(counts: Seq<(u8, u32)>, i: int) -> (Seq<Node>, Seq<(u64, usize)>)
    decreases i,
{
    if i <= 0 {
        (Seq::<Node>::empty(), Seq::<(u64, usize)>::empty())
    } else {
        let (a, q) = seed_state(counts, i - 1);
        (
            a.push(Node { value: counts[i - 1].1 as u64, content: NodeContent::Byte(counts[i - 1].0) }),
            insert_q(q, (counts[i - 1].1 as u64, a.len() as usize)),
        )
    }
}

/// The queue and arena after `k` combining rounds: each pops the two
/// smallest entries and inserts their parent.
pub open spec fn combine_state(a0: Seq<Node>, q0: Seq<(u64, usize)>, k: int) -> (
    Seq<Node>,
    Seq<(u64, usize)>,
)
    decreases k,
{
    if k <= 0 {
        (a0, q0)
    } else {
        let (a, q) = combine_state(a0, q0, k - 1);
        if q.len() >= 2 {
            let w = (q[0].0 + q[1].0) as u64;
            (
                a.push(Node { value: w, content: NodeContent::Branches(q[0].1, q[1].1) }),
                insert_q(q.skip(2), (w, a.len() as usize)),
            )
        } else {
            (a, q)
        }
    }
}

/// The deterministic tree of a frequency table: arena and root index.
pub open spec fn spec_tree(counts: Seq<(u8, u32)>) -> (Seq<Node>, int)
    recommends
        counts.len() >= 1,
{
    let (a, q) = seed_state(counts, counts.len() as int);
    let (a2, q2) = combine_state(a, q, counts.len() - 1);
    (a2, q2[0].1 as int)
}

/// Sum of the weights in a queue.
pub open spec fn sum_q(q: Seq<(u64, usize)>) -> nat
    decreases q.len(),
{
    if q.len() == 0 {
        0
    } else {
        (q[0].0 + sum_q(q.skip(1))) as nat
    }
}

proof fn lemma_sum_insert_at(q: Seq<(u64, usize)>, p: int, e: (u64, usize))
    requires
        0 <= p <= q.len(),
    ensures
        sum_q(q.insert(p, e)) == sum_q(q) + e.0,
    decreases p,
{
    if p == 0 {
        assert(q.insert(0, e) =~= seq![e] + q);
        assert((seq![e] + q).skip(1) =~= q);
    } else {
        assert(q.insert(p, e).skip(1) =~= q.skip(1).insert(p - 1, e));
        lemma_sum_insert_at(q.skip(1), p - 1, e);
    }
}

/// The canonical frequency table of a chunk: one entry per occurring byte,
/// ascending, carrying its count.
pub open spec fn counts_from(s: Seq<u8>, b: int) -> Seq<(u8, u32)>
    decreases 256 - b,
{
    if b < 0 || b >= 256 {
        Seq::empty()
    } else if count_in(s, b as u8) >= 1 {
        seq![(b as u8, count_in(s, b as u8) as u32)] + counts_from(s, b + 1)
    } else {
        counts_from(s, b + 1)
    }
}

pub open spec fn counts_of(s: Seq<u8>) -> Seq<(u8, u32)> {
    counts_from(s, 0)
}

proof fn lemma_counts_from_keys(s: Seq<u8>, b: int)
    requires
        0 <= b <= 256,
        s.len() < 0x1_0000_0000,
    ensures
        forall|k: int|
            0 <= k < counts_from(s, b).len() ==> ({
                let e = #[trigger] counts_from(s, b)[k];
                &&& b <= e.0
                &&& e.1 == count_in(s, e.0)
                &&& e.1 >= 1
            }),
        forall|y: u8| b <= y && count_in(s, y) >= 1 ==> has_key(counts_from(s, b), y),
        counts_wf(counts_from(s, b)),
        counts_from(s, b).len() <= 256 - b,
    decreases 256 - b,
{
    if b < 256 {
        lemma_counts_from_keys(s, b + 1);
        lemma_count_in_le(s, b as u8);
        let tail = counts_from(s, b + 1);
        if count_in(s, b as u8) >= 1 {
            let c = counts_from(s, b);
            assert(c == seq![(b as u8, count_in(s, b as u8) as u32)] + tail);
            assert forall|y: u8| b <= y && count_in(s, y) >= 1 implies has_key(c, y) by {
                if y == b {
                    assert(c[0].0 == y);
                } else {
                    assert(has_key(tail, y));
                    let k = choose|k: int| 0 <= k < tail.len() && (#[trigger] tail[k]).0 == y;
                    assert(c[k + 1].0 == y);
                }
            }
        } else {
            assert forall|y: u8| b <= y && count_in(s, y) >= 1 implies has_key(
                counts_from(s, b),
                y,
            ) by {
                assert(y != b);
            }
        }
    }
}

/// The canonical table is sorted, complete and exact.
pub proof fn lemma_counts_of_props(s: Seq<u8>)
    requires
        s.len() < 0x1_0000_0000,
    ensures
        counts_wf(counts_of(s)),
        counts_match(counts_of(s), s),
        counts_of(s).len() <= 256,
        s.len() >= 1 ==> counts_of(s).len() >= 1,
{
    lemma_counts_from_keys(s, 0);
    if s.len() >= 1 {
        lemma_count_in_first(s, s[0]);
        assert(has_key(counts_of(s), s[0]));
        let k = choose|k: int| 0 <= k < counts_of(s).len() && (#[trigger] counts_of(s)[k]).0 == s[
            0
        ];
    }
}

/// `p` marks the boundary between the entries of weight at most `w` and
/// the rest, so it is the insertion point.
proof fn lemma_ins_pos_char(q: Seq<(u64, usize)>, w: u64, p: int)
    requires
        0 <= p <= q.len(),
        forall|k: int| 0 <= k < p ==> (#[trigger] q[k]).0 <= w,
        p < q.len() ==> q[p].0 > w,
    ensures
        ins_pos(q, w) == p,
    decreases q.len(),
{
    if q.len() > 0 && q[0].0 <= w {
        assert(p >= 1);
        lemma_ins_pos_char(q.skip(1), w, p - 1);
    }
}

/// Insert an entry behind every entry of weight at most its own.
fn queue_insert(q: &mut Vec<(u64, usize)>, e: (u64, usize))
    ensures
        final(q)@ == insert_q(old(q)@, e),
{
    let n = q.len();
    let mut p: usize = 0;
    while p < n && q[p].0 <= e.0
        invariant
            p <= n,
            n == q@.len(),
            forall|k: int| 0 <= k < p ==> (#[trigger] q@[k]).0 <= e.0,
        decreases n - p,
    {
        p = p + 1;
    }
    proof {
        lemma_ins_pos_char(q@, e.0, p as int);
    }
    q.insert(p, e);
}

impl Node {
    /// Build the canonical prefix tree from a non-empty frequency table:
    /// seed one leaf per entry in table order, then repeatedly merge the two
    /// front entries of the queue until one remains.
    pub fn new_tree(counts: &Vec<(u8, u32)>) -> (t: Tree)
        requires
            1 <= counts@.len() <= 256,
        ensures
            t.nodes@ == spec_tree(counts@).0,
            t.root as int == spec_tree(counts@).1,
    {
        let n = counts.len();
        let mut nodes: Vec<Node> = Vec::new();
        let mut queue: Vec<(u64, usize)> = Vec::new();
        let mut i: usize = 0;
        while i < n
            invariant
                i <= n,
                n == counts@.len() <= 256,
                nodes@ == seed_state(counts@, i as int).0,
                queue@ == seed_state(counts@, i as int).1,
                queue@.len() == i,
                sum_q(queue@) <= i * 0xFFFF_FFFF,
            decreases n - i,
        {
            let entry = counts[i];
            let idx = nodes.len();
            nodes.push(Node { value: entry.1 as u64, content: NodeContent::Byte(entry.0) });
            proof {
                lemma_ins_pos_range(queue@, entry.1 as u64);
                lemma_sum_insert_at(queue@, ins_pos(queue@, entry.1 as u64), (entry.1 as u64, idx));
            }
            queue_insert(&mut queue, (entry.1 as u64, idx));
            i = i + 1;
        }
        let ghost a0 = nodes@;
        let ghost q0 = queue@;
        let ghost mut steps: int = 0;
        while queue.len() > 1
            invariant
                n == counts@.len() <= 256,
                a0 == seed_state(counts@, n as int).0,
                q0 == seed_state(counts@, n as int).1,
                0 <= steps <= n - 1,
                nodes@ == combine_state(a0, q0, steps).0,
                queue@ == combine_state(a0, q0, steps).1,
                queue@.len() == n - steps,
                sum_q(queue@) == sum_q(q0) <= n * 0xFFFF_FFFF,
            decreases queue.len(),
        {
            let ghost qpre = queue@;
            let l = queue.remove(0);
            proof {
                assert(queue@ =~= qpre.skip(1));
            }
            let r = queue.remove(0);
            proof {
                assert(queue@ =~= qpre.skip(2));
                assert(sum_q(qpre) == qpre[0].0 + sum_q(qpre.skip(1)));
                assert(sum_q(qpre.skip(1)) == qpre.skip(1)[0].0 + sum_q(qpre.skip(1).skip(1)));
                assert(qpre.skip(1).skip(1) =~= qpre.skip(2));
            }
            let w = l.0 + r.0;
            let idx = nodes.len();
            nodes.push(Node { value: w, content: NodeContent::Branches(l.1, r.1) });
            proof {
                lemma_ins_pos_range(queue@, w);
                lemma_sum_insert_at(queue@, ins_pos(queue@, w), (w, idx));
            }
            queue_insert(&mut queue, (w, idx));
            proof {
                steps = steps + 1;
                assert(nodes@ == combine_state(a0, q0, steps).0);
                assert(queue@ == combine_state(a0, q0, steps).1);
            }
        }
        let root_entry = queue[0];
        proof {
            assert(steps == n - 1);
        }
        Tree { nodes, root: root_entry.1 }
    }
}

/// Whether some queue entry's subtree carries byte `b`.
pub open spec fn q_has(a: Seq<Node>, q: Seq<(u64, usize)>, b: u8) -> bool {
    exists|k: int|
        0 <= k < q.len() && (#[trigger] q[k]).1 < a.len() && tree_has(a, q[k].1 as int, b)
}

/// Growing the arena does not change what existing subtrees carry.
proof fn lemma_tree_has_push(nodes: Seq<Node>, nn: Node, idx: int, b: u8)
    requires
        arena_wf(nodes),
        arena_wf(nodes.push(nn)),
        0 <= idx < nodes.len(),
    ensures
        tree_has(nodes.push(nn), idx, b) == tree_has(nodes, idx, b),
    decreases idx,
{
    assert(nodes.push(nn)[idx] == nodes[idx]);
    match nodes[idx].content {
        NodeContent::Byte(x) => {},
        NodeContent::Branches(l, r) => {
            lemma_tree_has_push(nodes, nn, l as int, b);
            lemma_tree_has_push(nodes, nn, r as int, b);
        },
    }
}

proof fn lemma_seed_props(counts: Seq<(u8, u32)>, i: int)
    requires
        0 <= i <= counts.len() <= 256,
    ensures
        seed_state(counts, i).0.len() == i,
        seed_state(counts, i).1.len() == i,
        arena_wf(seed_state(counts, i).0),
        forall|m: int| 0 <= m < i ==> (#[trigger] seed_state(counts, i).1[m]).1 < i,
        forall|j: int|
            0 <= j < i ==> (#[trigger] seed_state(counts, i).0[j]).content == NodeContent::Byte(
                counts[j].0,
            ),
        sum_q(seed_state(counts, i).1) <= i * 0xFFFF_FFFF,
        forall|b: u8|
            has_key(counts.take(i), b) ==> q_has(seed_state(counts, i).0, seed_state(counts, i).1, b),
    decreases i,
{
    if i > 0 {
        lemma_seed_props(counts, i - 1);
        let a = seed_state(counts, i - 1).0;
        let q = seed_state(counts, i - 1).1;
        let leaf = Node {
            value: counts[i - 1].1 as u64,
            content: NodeContent::Byte(counts[i - 1].0),
        };
        let a2 = a.push(leaf);
        let e = (counts[i - 1].1 as u64, a.len() as usize);
        let p = ins_pos(q, e.0);
        lemma_ins_pos_range(q, e.0);
        let q2 = q.insert(p, e);
        assert(seed_state(counts, i).0 == a2);
        assert(seed_state(counts, i).1 == q2);
        assert(arena_wf(a2)) by {
            assert forall|k: int|
                0 <= k < a2.len() implies ((#[trigger] a2[k]).content
                matches NodeContent::Branches(l, r) ==> l < k && r < k) by {
                if k < a.len() {
                    assert(a2[k] == a[k]);
                }
            }
        }
        lemma_sum_insert_at(q, p, e);
        assert forall|m: int| 0 <= m < q2.len() implies (#[trigger] q2[m]).1 < i by {
            if m < p {
                assert(q2[m] == q[m]);
            } else if m == p {
                assert(q2[m] == e);
            } else {
                assert(q2[m] == q[m - 1]);
            }
        }
        assert forall|b: u8| has_key(counts.take(i), b) implies q_has(a2, q2, b) by {
            let k = choose|k: int|
                0 <= k < counts.take(i).len() && (#[trigger] counts.take(i)[k]).0 == b;
            if k < i - 1 {
                assert(counts.take(i - 1)[k].0 == b);
                assert(has_key(counts.take(i - 1), b));
                let m = choose|m: int|
                    0 <= m < q.len() && (#[trigger] q[m]).1 < a.len() && tree_has(
                        a,
                        q[m].1 as int,
                        b,
                    );
                lemma_tree_has_push(a, leaf, q[m].1 as int, b);
                assert(tree_has(a2, q[m].1 as int, b));
                if m < p {
                    assert(q2[m] == q[m]);
                    assert(0 <= m < q2.len() && q2[m].1 < a2.len() && tree_has(
                        a2,
                        q2[m].1 as int,
                        b,
                    ));
                    assert(q_has(a2, q2, b));
                } else {
                    assert(q2[m + 1] == q[m]);
                    assert(0 <= m + 1 < q2.len() && q2[m + 1].1 < a2.len() && tree_has(
                        a2,
                        q2[m + 1].1 as int,
                        b,
                    ));
                    assert(q_has(a2, q2, b));
                }
            } else {
                assert(counts[i - 1].0 == b);
                assert(a2[i - 1] == leaf);
                assert(tree_has(a2, i - 1, b));
                assert(q2[p] == e);
                assert(q_has(a2, q2, b));
            }
        }
    } else {
        assert forall|b: u8| has_key(counts.take(i), b) implies q_has(
            seed_state(counts, i).0,
            seed_state(counts, i).1,
            b,
        ) by {
            let k = choose|k: int|
                0 <= k < counts.take(i).len() && (#[trigger] counts.take(i)[k]).0 == b;
        }
    }
}

proof fn lemma_combine_props(a0: Seq<Node>, q0: Seq<(u64, usize)>, k: int)
    requires
        0 <= k <= q0.len() - 1,
        a0.len() <= 512,
        q0.len() <= 256,
        arena_wf(a0),
        forall|m: int| 0 <= m < q0.len() ==> (#[trigger] q0[m]).1 < a0.len(),
        sum_q(q0) <= 0xFFFF_FFFF_FFFF,
    ensures
        combine_state(a0, q0, k).0.len() == a0.len() + k,
        combine_state(a0, q0, k).1.len() == q0.len() - k,
        arena_wf(combine_state(a0, q0, k).0),
        forall|m: int|
            0 <= m < q0.len() - k ==> (#[trigger] combine_state(a0, q0, k).1[m]).1 < a0.len() + k,
        forall|j: int| 0 <= j < a0.len() ==> combine_state(a0, q0, k).0[j] == #[trigger] a0[j],
        sum_q(combine_state(a0, q0, k).1) == sum_q(q0),
        forall|b: u8| q_has(a0, q0, b) ==> q_has(combine_state(a0, q0, k).0, combine_state(a0, q0, k).1, b),
        k >= 1 && q0.len() - k == 1 ==> (combine_state(a0, q0, k).1[0].1 == a0.len() + k - 1
            && combine_state(a0, q0, k).0[a0.len() + k - 1].content is Branches),
    decreases k,
{
    if k > 0 {
        lemma_combine_props(a0, q0, k - 1);
        let a = combine_state(a0, q0, k - 1).0;
        let q = combine_state(a0, q0, k - 1).1;
        assert(q.len() >= 2);
        assert(sum_q(q) == q[0].0 + sum_q(q.skip(1)));
        assert(sum_q(q.skip(1)) == q.skip(1)[0].0 + sum_q(q.skip(1).skip(1)));
        assert(q.skip(1).skip(1) =~= q.skip(2));
        assert(q[0].0 + q[1].0 <= sum_q(q));
        let w = (q[0].0 + q[1].0) as u64;
        assert(w == q[0].0 + q[1].0);
        let nn = Node { value: w, content: NodeContent::Branches(q[0].1, q[1].1) };
        let a2 = a.push(nn);
        let e = (w, a.len() as usize);
        let p = ins_pos(q.skip(2), w);
        lemma_ins_pos_range(q.skip(2), w);
        let q2 = q.skip(2).insert(p, e);
        assert(combine_state(a0, q0, k).0 == a2);
        assert(combine_state(a0, q0, k).1 == q2);
        assert(arena_wf(a2)) by {
            assert forall|m: int|
                0 <= m < a2.len() implies ((#[trigger] a2[m]).content
                matches NodeContent::Branches(l, r) ==> l < m && r < m) by {
                if m < a.len() {
                    assert(a2[m] == a[m]);
                }
            }
        }
        lemma_sum_insert_at(q.skip(2), p, e);
        assert forall|m: int| 0 <= m < q2.len() implies (#[trigger] q2[m]).1 < a2.len() by {
            if m < p {
                assert(q2[m] == q.skip(2)[m]);
                assert(q.skip(2)[m] == q[m + 2]);
            } else if m == p {
                assert(q2[m] == e);
            } else {
                assert(q2[m] == q.skip(2)[m - 1]);
                assert(q.skip(2)[m - 1] == q[m + 1]);
            }
        }
        assert forall|b: u8| q_has(a0, q0, b) implies q_has(a2, q2, b) by {
            let m = choose|m: int|
                0 <= m < q.len() && (#[trigger] q[m]).1 < a.len() && tree_has(a, q[m].1 as int, b);
            lemma_tree_has_push(a, nn, q[m].1 as int, b);
            assert(tree_has(a2, q[m].1 as int, b));
            if m >= 2 {
                assert(q.skip(2)[m - 2] == q[m]);
                if m - 2 < p {
                    assert(q2[m - 2] == q[m]);
                    assert(0 <= m - 2 < q2.len() && q2[m - 2].1 < a2.len() && tree_has(
                        a2,
                        q2[m - 2].1 as int,
                        b,
                    ));
                    assert(q_has(a2, q2, b));
                } else {
                    assert(q2[m - 1] == q[m]);
                    assert(0 <= m - 1 < q2.len() && q2[m - 1].1 < a2.len() && tree_has(
                        a2,
                        q2[m - 1].1 as int,
                        b,
                    ));
                    assert(q_has(a2, q2, b));
                }
            } else {
                assert(tree_has(a2, a.len() as int, b)) by {
                    assert(a2[a.len() as int] == nn);
                }
                assert(q2[p] == e);
                assert(0 <= p < q2.len() && q2[p].1 < a2.len() && tree_has(a2, q2[p].1 as int, b));
                assert(q_has(a2, q2, b));
            }
        }
        if q2.len() == 1 {
            assert(q.skip(2).len() == 0);
            assert(p == 0);
            assert(q2[0] == e);
            assert(a2[a0.len() + k - 1] == nn);
        }
    }
}

/// What the finished tree of a well-formed table looks like.
pub proof fn lemma_tree_props(counts: Seq<(u8, u32)>)
    requires
        1 <= counts.len() <= 256,
    ensures
        arena_wf(spec_tree(counts).0),
        spec_tree(counts).0.len() == 2 * counts.len() - 1,
        0 <= spec_tree(counts).1 < spec_tree(counts).0.len(),
        forall|b: u8| has_key(counts, b) ==> tree_has(spec_tree(counts).0, spec_tree(counts).1, b),
        counts.len() >= 2 ==> spec_tree(counts).0[spec_tree(counts).1].content is Branches,
        counts.len() == 1 ==> spec_tree(counts).0[spec_tree(counts).1].content
            == NodeContent::Byte(counts[0].0),
{
    let n = counts.len() as int;
    lemma_seed_props(counts, n);
    let a0 = seed_state(counts, n).0;
    let q0 = seed_state(counts, n).1;
    assert(sum_q(q0) <= n * 0xFFFF_FFFF);
    assert(n * 0xFFFF_FFFF <= 256 * 0xFFFF_FFFF) by (nonlinear_arith)
        requires
            1 <= n <= 256,
    ;
    lemma_combine_props(a0, q0, n - 1);
    let a = combine_state(a0, q0, n - 1).0;
    let q = combine_state(a0, q0, n - 1).1;
    assert(q.len() == 1);
    assert(counts.take(n) =~= counts);
    assert forall|b: u8| has_key(counts, b) implies tree_has(
        spec_tree(counts).0,
        spec_tree(counts).1,
        b,
    ) by {
        assert(q_has(a0, q0, b));
        assert(q_has(a, q, b));
        let m = choose|m: int|
            0 <= m < q.len() && (#[trigger] q[m]).1 < a.len() && tree_has(a, q[m].1 as int, b);
        assert(m == 0);
    }
    if counts.len() == 1 {
        assert(q == q0);
        assert(q0[0].1 < 1);
    }
}

/// View of an optional code.
pub open spec fn ov(o: Option<Vec<bool>>) -> Option<Seq<bool>> {
    match o {
        Some(v) => Some(v@),
        None => None,
    }
}

/// The code assigned to `b`: the path to its leaf, except that the sole
/// leaf of a one-entry table gets the one-bit code `0`.
pub open spec fn spec_code(nodes: Seq<Node>, root: int, b: u8) -> Option<Seq<bool>> {
    match nodes[root].content {
        NodeContent::Byte(x) => if x == b {
            Some(seq![false])
        } else {
            None
        },
        NodeContent::Branches(l, r) => code_of(nodes, root, b),
    }
}

/// The payload for `x`: each byte's code, in input order.
pub open spec fn codes_cat(nodes: Seq<Node>, root: int, x: Seq<u8>) -> Seq<bool>
    decreases x.len(),
{
    if x.len() == 0 {
        Seq::empty()
    } else {
        codes_cat(nodes, root, x.drop_last()) + (match spec_code(nodes, root, x.last()) {
            Some(p) => p,
            None => Seq::empty(),
        })
    }
}

/// A byte below a node has a code there.
proof fn lemma_code_some(nodes: Seq<Node>, idx: int, b: u8)
    requires
        arena_wf(nodes),
        0 <= idx < nodes.len(),
        tree_has(nodes, idx, b),
    ensures
        code_of(nodes, idx, b) is Some,
    decreases idx,
{
    match nodes[idx].content {
        NodeContent::Byte(x) => {},
        NodeContent::Branches(l, r) => {
            if tree_has(nodes, l as int, b) {
                lemma_code_some(nodes, l as int, b);
            } else {
                lemma_code_some(nodes, r as int, b);
            }
        },
    }
}

/// Codes are never longer than the arena index of their node.
proof fn lemma_code_len(nodes: Seq<Node>, idx: int, b: u8)
    requires
        arena_wf(nodes),
        0 <= idx < nodes.len(),
    ensures
        code_of(nodes, idx, b) matches Some(p) ==> p.len() <= idx,
    decreases idx,
{
    match nodes[idx].content {
        NodeContent::Byte(x) => {},
        NodeContent::Branches(l, r) => {
            lemma_code_len(nodes, l as int, b);
            lemma_code_len(nodes, r as int, b);
        },
    }
}

/// Decode `bits` one at a time: descend from the current node, emit a byte
/// and return to the root at each leaf; fail when bits end mid-code.
pub open spec fn walk(nodes: Seq<Node>, root: int, cur: int, bits: Seq<bool>, acc: Seq<u8>)
    -> Option<Seq<u8>>
    recommends
        arena_wf(nodes),
        0 <= root < nodes.len(),
        0 <= cur < nodes.len(),
    decreases bits.len(),
{
    if bits.len() == 0 {
        if cur == root {
            Some(acc)
        } else {
            None
        }
    } else {
        match nodes[cur].content {
            NodeContent::Byte(x) => None,
            NodeContent::Branches(l, r) => {
                let nxt = if bits[0] {
                    r as int
                } else {
                    l as int
                };
                match nodes[nxt].content {
                    NodeContent::Byte(x) => walk(nodes, root, root, bits.skip(1), acc.push(x)),
                    NodeContent::Branches(l2, r2) => walk(nodes, root, nxt, bits.skip(1), acc),
                }
            },
        }
    }
}

/// Decoding a code's bits from the node it starts at emits its byte and
/// returns to the root for the rest of the stream.
proof fn lemma_walk_code(
    nodes: Seq<Node>,
    root: int,
    cur: int,
    b: u8,
    p: Seq<bool>,
    rest: Seq<bool>,
    acc: Seq<u8>,
)
    requires
        arena_wf(nodes),
        0 <= root < nodes.len(),
        0 <= cur < nodes.len(),
        nodes[cur].content is Branches,
        code_of(nodes, cur, b) == Some(p),
    ensures
        walk(nodes, root, cur, p + rest, acc) == walk(nodes, root, root, rest, acc.push(b)),
    decreases p.len(),
{
    let content = nodes[cur].content;
    match content {
        NodeContent::Byte(x) => {},
        NodeContent::Branches(l, r) => {
            let bits = p + rest;
            if code_of(nodes, l as int, b) is Some {
                let pl = code_of(nodes, l as int, b)->Some_0;
                assert(p == seq![false] + pl);
                assert(p[0] == false);
                assert(bits[0] == false);
                assert(bits.skip(1) =~= pl + rest);
                match nodes[l as int].content {
                    NodeContent::Byte(x) => {
                        assert(x == b);
                        assert(pl =~= Seq::<bool>::empty());
                        assert(pl + rest =~= rest);
                    },
                    NodeContent::Branches(l2, r2) => {
                        lemma_walk_code(nodes, root, l as int, b, pl, rest, acc);
                    },
                }
            } else {
                let pr = code_of(nodes, r as int, b)->Some_0;
                assert(p == seq![true] + pr);
                assert(p[0] == true);
                assert(bits[0] == true);
                assert(bits.skip(1) =~= pr + rest);
                match nodes[r as int].content {
                    NodeContent::Byte(x) => {
                        assert(x == b);
                        assert(pr =~= Seq::<bool>::empty());
                        assert(pr + rest =~= rest);
                    },
                    NodeContent::Branches(l2, r2) => {
                        lemma_walk_code(nodes, root, r as int, b, pr, rest, acc);
                    },
                }
            }
        },
    }
}

/// Concatenation of per-byte codes starting at `j`.
pub open spec fn codes_cat_from(nodes: Seq<Node>, root: int, x: Seq<u8>, j: int) -> Seq<bool>
    decreases x.len() - j,
{
    if j < 0 || j >= x.len() {
        Seq::empty()
    } else {
        (match spec_code(nodes, root, x[j]) {
            Some(p) => p,
            None => Seq::empty(),
        }) + codes_cat_from(nodes, root, x, j + 1)
    }
}

proof fn lemma_codes_cat_from(nodes: Seq<Node>, root: int, x: Seq<u8>)
    ensures
        codes_cat(nodes, root, x) == codes_cat_from(nodes, root, x, 0),
    decreases x.len(),
{
    if x.len() > 0 {
        lemma_codes_cat_from(nodes, root, x.drop_last());
        lemma_codes_cat_snoc(nodes, root, x, 0);
    } else {
        assert(codes_cat_from(nodes, root, x, 0) =~= Seq::<bool>::empty());
    }
}

proof fn lemma_codes_cat_snoc(nodes: Seq<Node>, root: int, x: Seq<u8>, j: int)
    requires
        0 <= j <= x.len(),
        x.len() >= 1,
    ensures
        codes_cat_from(nodes, root, x, j) == codes_cat_from(nodes, root, x.drop_last(), j)
            + (if j <= x.len() - 1 {
                match spec_code(nodes, root, x.last()) {
                    Some(p) => p,
                    None => Seq::<bool>::empty(),
                }
            } else {
                Seq::<bool>::empty()
            }),
    decreases x.len() - j,
{
    if j >= x.len() {
        assert(codes_cat_from(nodes, root, x, j) =~= Seq::<bool>::empty());
        assert(codes_cat_from(nodes, root, x.drop_last(), j) =~= Seq::<bool>::empty());
    } else if j == x.len() - 1 {
        assert(codes_cat_from(nodes, root, x, j + 1) =~= Seq::<bool>::empty());
        assert(codes_cat_from(nodes, root, x.drop_last(), j) =~= Seq::<bool>::empty());
        assert(codes_cat_from(nodes, root, x, j) =~= (match spec_code(nodes, root, x.last()) {
            Some(p) => p,
            None => Seq::<bool>::empty(),
        }));
    } else {
        lemma_codes_cat_snoc(nodes, root, x, j + 1);
        assert(x.drop_last()[j] == x[j]);
        assert(codes_cat_from(nodes, root, x, j) =~= codes_cat_from(nodes, root, x.drop_last(), j)
            + (match spec_code(nodes, root, x.last()) {
            Some(p) => p,
            None => Seq::<bool>::empty(),
        }));
    }
}

/// Decoding the concatenated codes of `x` from the root yields `x`.
proof fn lemma_walk_concat(nodes: Seq<Node>, root: int, x: Seq<u8>, j: int)
    requires
        arena_wf(nodes),
        0 <= root < nodes.len(),
        nodes[root].content is Branches,
        0 <= j <= x.len(),
        forall|m: int| 0 <= m < x.len() ==> tree_has(nodes, root, #[trigger] x[m]),
    ensures
        walk(nodes, root, root, codes_cat_from(nodes, root, x, j), x.take(j)) == Some(x),
    decreases x.len() - j,
{
    if j == x.len() {
        assert(codes_cat_from(nodes, root, x, j).len() == 0);
        assert(x.take(j) =~= x);
    } else {
        lemma_walk_concat(nodes, root, x, j + 1);
        lemma_code_some(nodes, root, x[j]);
        let p = code_of(nodes, root, x[j])->Some_0;
        assert(spec_code(nodes, root, x[j]) == Some(p));
        lemma_walk_code(nodes, root, root, x[j], p, codes_cat_from(nodes, root, x, j + 1), x.take(j));
        assert(codes_cat_from(nodes, root, x, j) == p + codes_cat_from(nodes, root, x, j + 1));
        assert(x.take(j).push(x[j]) =~= x.take(j + 1));
    }
}

/// A fresh copy of a code's bits.
fn copy_bits(v: &Vec<bool>) -> (r: Vec<bool>)
    ensures
        r@ == v@,
{
    let mut r: Vec<bool> = Vec::new();
    let n = v.len();
    let mut i: usize = 0;
    while i < n
        invariant
            i <= n,
            n == v@.len(),
            r@ == v@.take(i as int),
        decreases n - i,
    {
        r.push(v[i]);
        proof {
            assert(v@.take(i + 1) =~= v@.take(i as int).push(v@[i as int]));
        }
        i = i + 1;
    }
    proof {
        assert(v@.take(n as int) =~= v@);
    }
    r
}

/// Record, under each byte of the subtree at `idx` not yet in the table,
/// the prefix extended by the byte's path.
fn collect_codes(
    nodes: &Vec<Node>,
    idx: usize,
    prefix: &mut Vec<bool>,
    table: &mut Vec<Option<Vec<bool>>>,
)
    requires
        arena_wf(nodes@),
        idx < nodes@.len(),
        old(table)@.len() == 256,
    ensures
        final(table)@.len() == 256,
        final(prefix)@ == old(prefix)@,
        forall|b: u8|
            ov(#[trigger] final(table)@[b as int]) == (match old(table)@[b as int] {
                Some(v) => Some(v@),
                None => match code_of(nodes@, idx as int, b) {
                    Some(p) => Some(old(prefix)@ + p),
                    None => None::<Seq<bool>>,
                },
            }),
    decreases idx,
{
    match nodes[idx].content {
        NodeContent::Byte(x) => {
            let xi = x as usize;
            if table[xi].is_none() {
                let code = copy_bits(prefix);
                table[xi] = Some(code);
            }
            proof {
                assert forall|b: u8|
                    ov(#[trigger] table@[b as int]) == (match old(table)@[b as int] {
                        Some(v) => Some(v@),
                        None => match code_of(nodes@, idx as int, b) {
                            Some(p) => Some(old(prefix)@ + p),
                            None => None::<Seq<bool>>,
                        },
                    }) by {
                    if b == x && old(table)@[b as int] is None {
                        assert(old(prefix)@ + Seq::<bool>::empty() =~= old(prefix)@);
                    }
                }
            }
        },
        NodeContent::Branches(l, r) => {
            proof {
                assert(nodes@[idx as int].content == NodeContent::Branches(l, r));
            }
            let ghost t0 = table@;
            let ghost p0 = prefix@;
            prefix.push(false);
            collect_codes(nodes, l, prefix, table);
            let ghost t1 = table@;
            let _ = prefix.pop();
            proof {
                assert((p0 + seq![false]).drop_last() =~= p0);
            }
            prefix.push(true);
            collect_codes(nodes, r, prefix, table);
            let _ = prefix.pop();
            proof {
                assert((p0 + seq![true]).drop_last() =~= p0);
                assert(prefix@ == p0);
                assert forall|b: u8|
                    ov(#[trigger] table@[b as int]) == (match t0[b as int] {
                        Some(v) => Some(v@),
                        None => match code_of(nodes@, idx as int, b) {
                            Some(p) => Some(p0 + p),
                            None => None::<Seq<bool>>,
                        },
                    }) by {
                    if t0[b as int] is None {
                        match code_of(nodes@, l as int, b) {
                            Some(pl) => {
                                assert(ov(t1[b as int]) == Some((p0 + seq![false]) + pl));
                                assert((p0 + seq![false]) + pl =~= p0 + (seq![false] + pl));
                            },
                            None => {
                                assert(ov(t1[b as int]) == ov(t0[b as int]));
                                match code_of(nodes@, r as int, b) {
                                    Some(pr) => {
                                        assert(ov(table@[b as int]) == Some(
                                            (p0 + seq![true]) + pr,
                                        ));
                                        assert((p0 + seq![true]) + pr =~= p0 + (seq![true] + pr));
                                    },
                                    None => {},
                                }
                            },
                        }
                    }
                }
            }
        },
    }
}

impl Tree {
    /// The code of every byte in the tree, indexed by byte value; bytes
    /// outside the model get no entry.
    pub fn get_codes(&self) -> (table: Vec<Option<Vec<bool>>>)
        requires
            arena_wf(self.nodes@),
            self.root < self.nodes@.len(),
        ensures
            table@.len() == 256,
            forall|b: u8|
                ov(#[trigger] table@[b as int]) == spec_code(self.nodes@, self.root as int, b),
    {
        let mut table: Vec<Option<Vec<bool>>> = Vec::new();
        let mut z: usize = 0;
        while z < 256
            invariant
                table@.len() == z <= 256,
                forall|m: int| 0 <= m < z ==> table@[m] is None,
            decreases 256 - z,
        {
            table.push(None);
            z = z + 1;
        }
        match nodes_content(&self.nodes, self.root) {
            NodeContent::Byte(x) => {
                let mut one: Vec<bool> = Vec::new();
                one.push(false);
                proof {
                    assert(one@ =~= seq![false]);
                }
                table[x as usize] = Some(one);
            },
            NodeContent::Branches(l, r) => {
                let mut prefix: Vec<bool> = Vec::new();
                collect_codes(&self.nodes, self.root, &mut prefix, &mut table);
                proof {
                    assert forall|b: u8|
                        ov(#[trigger] table@[b as int]) == spec_code(
                            self.nodes@,
                            self.root as int,
                            b,
                        ) by {
                        match code_of(self.nodes@, self.root as int, b) {
                            Some(p) => {
                                assert(Seq::<bool>::empty() + p =~= p);
                            },
                            None => {},
                        }
                    }
                }
            },
        }
        table
    }
}

/// The content of an arena node, copied out.
fn nodes_content(nodes: &Vec<Node>, idx: usize) -> (c: NodeContent)
    requires
        idx < nodes@.len(),
    ensures
        c == nodes@[idx as int].content,
{
    match nodes[idx].content {
        NodeContent::Byte(x) => NodeContent::Byte(x),
        NodeContent::Branches(l, r) => NodeContent::Branches(l, r),
    }
}

/// The record block of a header from entry `j` on: one byte, then a
/// four-byte big-endian count, per entry.
pub open spec fn recs_bytes(c: Seq<(u8, u32)>, j: int) -> Seq<u8>
    decreases c.len() - j,
{
    if j < 0 || j >= c.len() {
        Seq::empty()
    } else {
        seq![c[j].0] + crate::endian::u32_bytes(c[j].1) + recs_bytes(c, j + 1)
    }
}

/// The model header: entry count, then the records in table order.
pub open spec fn header_bytes(c: Seq<(u8, u32)>) -> Seq<u8>
    recommends
        c.len() <= 0xFFFF,
{
    crate::endian::u16_bytes(c.len() as u16) + recs_bytes(c, 0)
}

/// Serialize a frequency table into its header form.
pub fn counts_to_header(counts: &Vec<(u8, u32)>) -> (h: Vec<u8>)
    requires
        counts@.len() <= 0xFFFF,
    ensures
        h@ == header_bytes(counts@),
{
    let mut h: Vec<u8> = Vec::new();
    push_u16(&mut h, counts.len() as u16);
    proof {
        assert(h@ =~= crate::endian::u16_bytes(counts@.len() as u16));
    }
    let n = counts.len();
    let mut j: usize = 0;
    while j < n
        invariant
            j <= n,
            n == counts@.len() <= 0xFFFF,
            h@ + recs_bytes(counts@, j as int) == header_bytes(counts@),
        decreases n - j,
    {
        let entry = counts[j];
        let ghost pre = h@;
        h.push(entry.0);
        push_u32(&mut h, entry.1);
        proof {
            assert(h@ =~= pre + (seq![entry.0] + crate::endian::u32_bytes(entry.1)));
            assert(recs_bytes(counts@, j as int) == seq![entry.0] + crate::endian::u32_bytes(
                entry.1,
            ) + recs_bytes(counts@, j + 1));
            assert(h@ + recs_bytes(counts@, j + 1) =~= pre + recs_bytes(counts@, j as int));
        }
        j = j + 1;
    }
    proof {
        assert(recs_bytes(counts@, n as int).len() == 0);
        assert(h@ + recs_bytes(counts@, n as int) =~= h@);
    }
    h
}

/// Insert a record into a table, keys kept ascending; an existing key's
/// count is replaced.
pub open spec fn tbl_insert(c: Seq<(u8, u32)>, b: u8, v: u32) -> Seq<(u8, u32)>
    decreases c.len(),
{
    if c.len() == 0 {
        seq![(b, v)]
    } else if c[0].0 < b {
        seq![c[0]] + tbl_insert(c.skip(1), b, v)
    } else if c[0].0 == b {
        seq![(b, v)] + c.skip(1)
    } else {
        seq![(b, v)] + c
    }
}

proof fn lemma_tbl_insert_char(c: Seq<(u8, u32)>, b: u8, v: u32, p: int)
    requires
        0 <= p <= c.len(),
        forall|k: int| 0 <= k < p ==> (#[trigger] c[k]).0 < b,
        p < c.len() ==> c[p].0 >= b,
    ensures
        tbl_insert(c, b, v) == (if p < c.len() && c[p].0 == b {
            c.update(p, (b, v))
        } else {
            c.insert(p, (b, v))
        }),
    decreases c.len(),
{
    if c.len() == 0 {
        assert(tbl_insert(c, b, v) =~= c.insert(0, (b, v)));
    } else if c[0].0 < b {
        assert(p >= 1);
        lemma_tbl_insert_char(c.skip(1), b, v, p - 1);
        if p < c.len() && c[p].0 == b {
            assert(c.skip(1)[p - 1].0 == b);
            assert(tbl_insert(c, b, v) =~= c.update(p, (b, v)));
        } else {
            assert(tbl_insert(c, b, v) =~= c.insert(p, (b, v)));
        }
    } else if c[0].0 == b {
        assert(p == 0);
        assert(tbl_insert(c, b, v) =~= c.update(0, (b, v)));
    } else {
        assert(p == 0);
        assert(tbl_insert(c, b, v) =~= c.insert(0, (b, v)));
    }
}

proof fn lemma_tbl_insert_props(c: Seq<(u8, u32)>, b: u8, v: u32)
    requires
        counts_wf(c),
    ensures
        counts_wf(tbl_insert(c, b, v)),
        tbl_insert(c, b, v).len() <= c.len() + 1,
        tbl_insert(c, b, v).len() >= 1,
        forall|y: u8| #[trigger] has_key(tbl_insert(c, b, v), y) <==> (y == b || has_key(c, y)),
    decreases c.len(),
{
    let t = tbl_insert(c, b, v);
    if c.len() == 0 {
        assert forall|y: u8| has_key(t, y) implies (y == b || has_key(c, y)) by {
            let k = choose|k: int| 0 <= k < t.len() && (#[trigger] t[k]).0 == y;
        }
        assert(t[0].0 == b);
    } else if c[0].0 < b {
        assert(counts_wf(c.skip(1))) by {
            assert forall|i: int, j: int|
                0 <= i < j < c.skip(1).len() implies (#[trigger] c.skip(1)[i]).0
                < (#[trigger] c.skip(1)[j]).0 by {
                assert(c.skip(1)[i] == c[i + 1]);
                assert(c.skip(1)[j] == c[j + 1]);
            }
        }
        lemma_tbl_insert_props(c.skip(1), b, v);
        let u = tbl_insert(c.skip(1), b, v);
        assert(t == seq![c[0]] + u);
        assert forall|i: int, j: int| #![trigger t[i], t[j]] 0 <= i < j < t.len() implies t[i].0
            < t[j].0 by {
            if i == 0 {
                assert(t[0] == c[0]);
                assert(t[j] == u[j - 1]);
                assert(has_key(u, u[j - 1].0)) by {
                    assert(u[j - 1].0 == u[j - 1].0);
                }
                if u[j - 1].0 == b {
                    assert(c[0].0 < b);
                } else {
                    assert(has_key(c.skip(1), u[j - 1].0));
                    let m = choose|m: int|
                        0 <= m < c.skip(1).len() && (#[trigger] c.skip(1)[m]).0 == u[j - 1].0;
                    assert(c.skip(1)[m] == c[m + 1]);
                    assert(c[0].0 < c[m + 1].0);
                }
            } else {
                assert(t[i] == u[i - 1]);
                assert(t[j] == u[j - 1]);
            }
        }
        assert forall|y: u8| has_key(t, y) implies (y == b || has_key(c, y)) by {
            let k = choose|k: int| 0 <= k < t.len() && (#[trigger] t[k]).0 == y;
            if k == 0 {
                assert(c[0].0 == y);
            } else {
                assert(u[k - 1].0 == y);
                assert(has_key(u, y));
                if y != b {
                    assert(has_key(c.skip(1), y));
                    let m = choose|m: int|
                        0 <= m < c.skip(1).len() && (#[trigger] c.skip(1)[m]).0 == y;
                    assert(c[m + 1].0 == y);
                }
            }
        }
        assert forall|y: u8| (y == b || has_key(c, y)) implies has_key(t, y) by {
            if y == b {
                assert(has_key(u, y));
                let m = choose|m: int| 0 <= m < u.len() && (#[trigger] u[m]).0 == y;
                assert(t[m + 1].0 == y);
            } else {
                let k = choose|k: int| 0 <= k < c.len() && (#[trigger] c[k]).0 == y;
                if k == 0 {
                    assert(t[0].0 == y);
                } else {
                    assert(c.skip(1)[k - 1].0 == y);
                    assert(has_key(c.skip(1), y));
                    assert(has_key(u, y));
                    let m = choose|m: int| 0 <= m < u.len() && (#[trigger] u[m]).0 == y;
                    assert(t[m + 1].0 == y);
                }
            }
        }
    } else if c[0].0 == b {
        assert(t == seq![(b, v)] + c.skip(1));
        assert forall|i: int, j: int| #![trigger t[i], t[j]] 0 <= i < j < t.len() implies t[i].0
            < t[j].0 by {
            if i == 0 {
                assert(t[j] == c[j]);
                assert(c[0].0 < c[j].0);
            } else {
                assert(t[i] == c[i]);
                assert(t[j] == c[j]);
            }
        }
        assert forall|y: u8| has_key(t, y) implies (y == b || has_key(c, y)) by {
            let k = choose|k: int| 0 <= k < t.len() && (#[trigger] t[k]).0 == y;
            if k > 0 {
                assert(c[k].0 == y);
            }
        }
        assert forall|y: u8| (y == b || has_key(c, y)) implies has_key(t, y) by {
            if y == b {
                assert(t[0].0 == y);
            } else {
                let k = choose|k: int| 0 <= k < c.len() && (#[trigger] c[k]).0 == y;
                assert(k > 0);
                assert(t[k].0 == y);
            }
        }
    } else {
        assert(t == seq![(b, v)] + c);
        assert forall|i: int, j: int| #![trigger t[i], t[j]] 0 <= i < j < t.len() implies t[i].0
            < t[j].0 by {
            if i == 0 {
                assert(t[j] == c[j - 1]);
                if j - 1 > 0 {
                    assert(c[0].0 < c[j - 1].0);
                }
            } else {
                assert(t[i] == c[i - 1]);
                assert(t[j] == c[j - 1]);
            }
        }
        assert forall|y: u8| has_key(t, y) implies (y == b || has_key(c, y)) by {
            let k = choose|k: int| 0 <= k < t.len() && (#[trigger] t[k]).0 == y;
            if k > 0 {
                assert(c[k - 1].0 == y);
            }
        }
        assert forall|y: u8| (y == b || has_key(c, y)) implies has_key(t, y) by {
            if y == b {
                assert(t[0].0 == y);
            } else {
                let k = choose|k: int| 0 <= k < c.len() && (#[trigger] c[k]).0 == y;
                assert(t[k + 1].0 == y);
            }
        }
    }
}

proof fn lemma_wf_key_ge(c: Seq<(u8, u32)>, j: int)
    requires
        counts_wf(c),
        0 <= j < c.len(),
    ensures
        c[j].0 >= j,
    decreases j,
{
    if j > 0 {
        lemma_wf_key_ge(c, j - 1);
        assert(c[j - 1].0 < c[j].0);
    }
}

/// Strictly ascending byte keys cap a table at 256 entries.
pub proof fn lemma_wf_len(c: Seq<(u8, u32)>)
    requires
        counts_wf(c),
    ensures
        c.len() <= 256,
{
    if c.len() > 256 {
        lemma_wf_key_ge(c, 256);
    }
}

/// The table read from a header's first `j` records.
pub open spec fn recs_fold(bytes: Seq<u8>, j: int) -> Seq<(u8, u32)>
    decreases j,
{
    if j <= 0 {
        Seq::empty()
    } else {
        tbl_insert(
            recs_fold(bytes, j - 1),
            bytes[2 + 5 * (j - 1)],
            be32(bytes.subrange(3 + 5 * (j - 1), 7 + 5 * (j - 1))) as u32,
        )
    }
}

proof fn lemma_recs_fold_wf(bytes: Seq<u8>, j: int)
    ensures
        counts_wf(recs_fold(bytes, j)),
        recs_fold(bytes, j).len() <= 256,
        j >= 1 ==> recs_fold(bytes, j).len() >= 1,
    decreases j,
{
    if j > 0 {
        lemma_recs_fold_wf(bytes, j - 1);
        lemma_tbl_insert_props(
            recs_fold(bytes, j - 1),
            bytes[2 + 5 * (j - 1)],
            be32(bytes.subrange(3 + 5 * (j - 1), 7 + 5 * (j - 1))) as u32,
        );
        lemma_wf_len(recs_fold(bytes, j));
    }
}

/// The frequency table and record-block end of a header, when the bytes
/// reach that far.
pub open spec fn parse_counts(bytes: Seq<u8>) -> Option<(Seq<(u8, u32)>, int)> {
    if bytes.len() < 2 {
        None
    } else {
        let k = be16(bytes.take(2));
        if bytes.len() < 2 + 5 * k {
            None
        } else {
            Some((recs_fold(bytes, k as int), 2 + 5 * k as int))
        }
    }
}

/// Everything a well-formed compressed chunk decodes to; `None` on any
/// malformed input: a truncated header or bit-count field, a bit count
/// larger than the payload, a non-empty payload with an empty model, or
/// payload bits that end in the middle of a code.
pub open spec fn huff_parse(bytes: Seq<u8>) -> Option<Seq<u8>> {
    match parse_counts(bytes) {
        None => None,
        Some((table, off)) => {
            if bytes.len() < off + 8 {
                None
            } else {
                let bcount = be64(bytes.subrange(off, off + 8));
                let payload = bytes.skip(off + 8);
                if bcount > payload.len() * 8 {
                    None
                } else if table.len() == 0 {
                    if bcount == 0 {
                        Some(Seq::<u8>::empty())
                    } else {
                        None
                    }
                } else if table.len() == 1 {
                    Some(Seq::new(bcount, |m: int| table[0].0))
                } else {
                    let t = spec_tree(table);
                    walk(t.0, t.1, t.1, crate::bits::bytes_bits(payload).take(bcount as int), Seq::empty())
                }
            }
        },
    }
}

/// Parse a header: the frequency table, the payload bit count, and the
/// offset where the payload begins.
pub fn header_to_counts(input: &[u8]) -> (r: Option<(Vec<(u8, u32)>, u64, usize)>)
    ensures
        match r {
            Some(t) => {
                &&& parse_counts(input@) == Some((t.0@, t.2 - 8 as int))
                &&& t.2 <= input@.len()
                &&& t.2 >= 10
                &&& t.1 == be64(input@.subrange(t.2 - 8, t.2 as int))
                &&& counts_wf(t.0@)
                &&& t.0@.len() <= 256
            },
            None => match parse_counts(input@) {
                None => true,
                Some(pc) => input@.len() < pc.1 + 8,
            },
        },
{
    let len = input.len();
    if len < 2 {
        return None;
    }
    let k = read_u16(input, 0);
    proof {
        assert(input@.take(2) =~= input@.subrange(0, 2));
    }
    let recs_end = 2 + 5 * (k as usize);
    if len < recs_end {
        return None;
    }
    let mut table: Vec<(u8, u32)> = Vec::new();
    let mut j: usize = 0;
    while j < k as usize
        invariant
            j <= k as usize,
            recs_end == 2 + 5 * (k as usize) <= input@.len(),
            table@ == recs_fold(input@, j as int),
        decreases k as usize - j,
    {
        let byte = input[2 + 5 * j];
        let cnt = read_u32(input, 3 + 5 * j);
        let ghost pre = table@;
        proof {
            lemma_recs_fold_wf(input@, j as int);
        }
        table_insert(&mut table, byte, cnt);
        j = j + 1;
    }
    if len < recs_end + 8 {
        return None;
    }
    let bcount = read_u64(input, recs_end);
    proof {
        lemma_recs_fold_wf(input@, k as int);
    }
    Some((table, bcount, recs_end + 8))
}

/// Insert one record into a sorted table, replacing an existing key.
fn table_insert(c: &mut Vec<(u8, u32)>, b: u8, v: u32)
    requires
        counts_wf(old(c)@),
    ensures
        final(c)@ == tbl_insert(old(c)@, b, v),
{
    let n = c.len();
    let mut p: usize = 0;
    while p < n && c[p].0 < b
        invariant
            p <= n,
            n == c@.len(),
            forall|m: int| 0 <= m < p ==> (#[trigger] c@[m]).0 < b,
        decreases n - p,
    {
        p = p + 1;
    }
    proof {
        lemma_tbl_insert_char(c@, b, v, p as int);
    }
    if p < n && c[p].0 == b {
        c[p] = (b, v);
        proof {
            assert(c@ =~= old(c)@.update(p as int, (b, v)));
        }
    } else {
        c.insert(p, (b, v));
    }
}

/// A byte that occurs in `s` occurs in it at its own position.
proof fn lemma_count_in_at(s: Seq<u8>, i: int)
    requires
        0 <= i < s.len(),
    ensures
        count_in(s, s[i]) >= 1,
    decreases s.len(),
{
    if i < s.len() - 1 {
        lemma_count_in_at(s.drop_last(), i);
    }
}

/// The whole compressed form of a chunk: header, payload bit count, and
/// the packed payload of concatenated codes.
pub open spec fn huff_encoding(x: Seq<u8>) -> Seq<u8> {
    let c = counts_of(x);
    if c.len() == 0 {
        crate::endian::u16_bytes(0) + crate::endian::u64_bytes(0)
    } else {
        let t = spec_tree(c);
        let payload = codes_cat(t.0, t.1, x);
        header_bytes(c) + crate::endian::u64_bytes(payload.len() as u64)
            + crate::bits::pack_bits(payload)
    }
}

/// Compress one chunk: count bytes, build the canonical tree, emit the
/// header and each byte's code.
pub fn compress(input: &[u8]) -> (out: Vec<u8>)
    requires
        input@.len() < 0x1_0000_0000,
    ensures
        out@ == huff_encoding(input@),
{
    proof {
        lemma_counts_of_props(input@);
    }
    let counts = count_freqs(input);
    let mut out = counts_to_header(&counts);
    if counts.len() == 0 {
        proof {
            assert(recs_bytes(counts@, 0).len() == 0);
            assert(header_bytes(counts@) =~= crate::endian::u16_bytes(0));
        }
        push_u64(&mut out, 0);
        proof {
            assert(out@ =~= crate::endian::u16_bytes(0) + crate::endian::u64_bytes(0));
        }
        return out;
    }
    let tree = Node::new_tree(&counts);
    proof {
        lemma_tree_props(counts@);
    }
    let table = tree.get_codes();
    let ghost nodes = tree.nodes@;
    let ghost root = tree.root as int;
    let mut w = crate::bits::BitWriter::new();
    let mut bcount: u64 = 0;
    let n = input.len();
    let mut i: usize = 0;
    proof {
        assert(codes_cat(nodes, root, input@.take(0)) =~= Seq::<bool>::empty());
    }
    while i < n
        invariant
            i <= n,
            n == input@.len() < 0x1_0000_0000,
            counts@ == counts_of(input@),
            counts_match(counts@, input@),
            1 <= counts@.len() <= 256,
            nodes == spec_tree(counts@).0,
            root == spec_tree(counts@).1,
            arena_wf(nodes),
            0 <= root < nodes.len(),
            nodes.len() <= 511,
            forall|b: u8| has_key(counts@, b) ==> tree_has(nodes, root, b),
            table@.len() == 256,
            forall|b: u8| ov(#[trigger] table@[b as int]) == spec_code(nodes, root, b),
            w.wf(),
            w@ == codes_cat(nodes, root, input@.take(i as int)),
            bcount == w@.len(),
            bcount <= 511 * i,
        decreases n - i,
    {
        let b = input[i];
        proof {
            lemma_count_in_at(input@, i as int);
            assert(has_key(counts@, b));
            match nodes[root].content {
                NodeContent::Byte(x) => {
                    assert(tree_has(nodes, root, b));
                    assert(x == b);
                },
                NodeContent::Branches(l, r) => {
                    lemma_code_some(nodes, root, b);
                },
            }
            assert(spec_code(nodes, root, b) is Some);
            lemma_code_len(nodes, root, b);
            match spec_code(nodes, root, b) {
                Some(p) => {
                    assert(p.len() <= 511);
                },
                None => {},
            }
        }
        match &table[b as usize] {
            Some(code) => {
                let m = code.len();
                let ghost pre = w@;
                let mut jj: usize = 0;
                while jj < m
                    invariant
                        jj <= m,
                        m == code@.len(),
                        w.wf(),
                        w@ == pre + code@.take(jj as int),
                    decreases m - jj,
                {
                    w.bit(code[jj]);
                    proof {
                        assert(code@.take(jj + 1) =~= code@.take(jj as int).push(
                            code@[jj as int],
                        ));
                    }
                    jj = jj + 1;
                }
                proof {
                    assert(code@.take(m as int) =~= code@);
                    assert(input@.take(i + 1).drop_last() =~= input@.take(i as int));
                    assert(input@.take(i + 1).last() == b);
                    assert(w@ == codes_cat(nodes, root, input@.take(i + 1)));
                }
                bcount = bcount + (m as u64);
            },
            None => {
                proof {
                    assert(false);
                }
            },
        }
        i = i + 1;
    }
    proof {
        assert(input@.take(n as int) =~= input@);
    }
    push_u64(&mut out, bcount);
    w.flush();
    let mut payload = w.into_boxed_slice();
    proof {
        crate::bits::lemma_pack_pad(codes_cat(nodes, root, input@));
    }
    out.append(&mut payload);
    proof {
        assert(out@ =~= header_bytes(counts@) + crate::endian::u64_bytes(
            codes_cat(nodes, root, input@).len() as u64,
        ) + crate::bits::pack_bits(codes_cat(nodes, root, input@)));
    }
    out
}

/// Why a compressed chunk was rejected: its bytes do not carry a
/// well-formed model and payload.
#[derive(Debug, PartialEq, Eq, Structural)]
pub enum HuffmanError {
    Malformed,
}

/// Decompress one chunk. `Err` exactly when the bytes are malformed:
/// header or bit-count field truncated, bit count beyond the payload, an
/// empty model with a non-empty payload, or bits ending mid-code.
pub fn decompress(input: &[u8]) -> (r: Result<Vec<u8>, HuffmanError>)
    ensures
        match r {
            Ok(v) => huff_parse(input@) == Some(v@),
            Err(e) => huff_parse(input@) is None,
        },
{
    let parsed = header_to_counts(input);
    let (table, bcount, payload_off) = match parsed {
        Some(t) => t,
        None => {
            return Err(HuffmanError::Malformed);
        },
    };
    let rem = input.len() - payload_off;
    let rem64 = rem as u64;
    let over = if rem64 >= 0x2000_0000_0000_0000u64 {
        false
    } else {
        bcount > 8 * rem64
    };
    let ghost payload = input@.skip(payload_off as int);
    proof {
        assert(payload.len() == rem);
    }
    if over {
        proof {
            assert(bcount > payload.len() * 8);
        }
        return Err(HuffmanError::Malformed);
    }
    proof {
        if rem64 >= 0x2000_0000_0000_0000u64 {
            assert(payload.len() * 8 >= 0x1_0000_0000_0000_0000);
        }
        assert(bcount <= payload.len() * 8);
    }
    if table.len() == 0 {
        if bcount == 0 {
            proof {
                assert(huff_parse(input@) == Some(Seq::<u8>::empty()));
            }
            return Ok(Vec::new());
        } else {
            return Err(HuffmanError::Malformed);
        }
    }
    if table.len() == 1 {
        let b = table[0].0;
        let mut out: Vec<u8> = Vec::new();
        let mut j: u64 = 0;
        while j < bcount
            invariant
                j <= bcount,
                out@ =~= Seq::new(j as nat, |m: int| b),
            decreases bcount - j,
        {
            out.push(b);
            proof {
                assert(out@ =~= Seq::new((j + 1) as nat, |m: int| b));
            }
            j = j + 1;
        }
        proof {
            assert(out@ =~= Seq::new(bcount as nat, |m: int| table@[0].0));
        }
        return Ok(out);
    }
    proof {
        lemma_tree_props(table@);
    }
    let tree = Node::new_tree(&table);
    let ghost nodes = tree.nodes@;
    let ghost root = tree.root as int;
    let payload_slice = vstd::slice::slice_subrange(input, payload_off, input.len());
    let mut rd = crate::bits::BitReader::new(payload_slice);
    let ghost bits = crate::bits::bytes_bits(payload).take(bcount as int);
    let mut cur = tree.root;
    let mut out: Vec<u8> = Vec::new();
    let mut j: u64 = 0;
    proof {
        assert(bits.skip(0) =~= bits);
    }
    while j < bcount
        invariant
            j <= bcount,
            bcount <= 8 * payload.len(),
            payload == input@.skip(payload_off as int),
            payload_off <= input@.len(),
            bits == crate::bits::bytes_bits(payload).take(bcount as int),
            rd.wf(),
            rd.stream() == crate::bits::bytes_bits(payload),
            rd.cursor() == j,
            nodes == spec_tree(table@).0,
            root == spec_tree(table@).1,
            arena_wf(nodes),
            0 <= root < nodes.len(),
            cur < nodes.len(),
            nodes[cur as int].content is Branches,
            walk(nodes, root, cur as int, bits.skip(j as int), out@) == walk(
                nodes,
                root,
                root,
                bits,
                Seq::empty(),
            ),
        decreases bcount - j,
    {
        let bit = rd.bit();
        proof {
            assert(bits.skip(j as int)[0] == bits[j as int]);
            assert(bits[j as int] == rd.stream()[j as int]);
            assert(bits.skip(j as int).skip(1) =~= bits.skip(j + 1));
        }
        let nxt = match nodes_content(&tree.nodes, cur) {
            NodeContent::Branches(l, r) => if bit {
                r
            } else {
                l
            },
            NodeContent::Byte(x) => 0,
        };
        match nodes_content(&tree.nodes, nxt) {
            NodeContent::Byte(x) => {
                out.push(x);
                cur = tree.root;
            },
            NodeContent::Branches(l2, r2) => {
                cur = nxt;
            },
        }
        j = j + 1;
    }
    proof {
        assert(bits.skip(bcount as int).len() == 0);
    }
    if cur == tree.root {
        Ok(out)
    } else {
        Err(HuffmanError::Malformed)
    }
}

proof fn lemma_recs_len(c: Seq<(u8, u32)>, j: int)
    requires
        0 <= j <= c.len(),
    ensures
        recs_bytes(c, j).len() == 5 * (c.len() - j),
    decreases c.len() - j,
{
    if j < c.len() {
        lemma_recs_len(c, j + 1);
    }
}

proof fn lemma_recs_index(c: Seq<(u8, u32)>, m: int, j: int)
    requires
        0 <= m <= j < c.len(),
    ensures
        recs_bytes(c, m)[5 * (j - m)] == c[j].0,
        recs_bytes(c, m).subrange(5 * (j - m) + 1, 5 * (j - m) + 5) == crate::endian::u32_bytes(
            c[j].1,
        ),
    decreases j - m,
{
    lemma_recs_len(c, m);
    lemma_recs_len(c, m + 1);
    if j == m {
        assert(recs_bytes(c, m)[0] == c[m].0);
        assert(recs_bytes(c, m).subrange(1, 5) =~= crate::endian::u32_bytes(c[m].1));
    } else {
        lemma_recs_index(c, m + 1, j);
        let head = seq![c[m].0] + crate::endian::u32_bytes(c[m].1);
        assert(head.len() == 5);
        assert(recs_bytes(c, m) == head + recs_bytes(c, m + 1));
        assert(recs_bytes(c, m)[5 * (j - m)] == recs_bytes(c, m + 1)[5 * (j - m) - 5]);
        assert(5 * (j - m) - 5 == 5 * (j - (m + 1)));
        assert(recs_bytes(c, m).subrange(5 * (j - m) + 1, 5 * (j - m) + 5) =~= recs_bytes(
            c,
            m + 1,
        ).subrange(5 * (j - (m + 1)) + 1, 5 * (j - (m + 1)) + 5));
    }
}

proof fn lemma_tbl_insert_append(c: Seq<(u8, u32)>, b: u8, v: u32)
    requires
        forall|k: int| 0 <= k < c.len() ==> (#[trigger] c[k]).0 < b,
    ensures
        tbl_insert(c, b, v) == c.push((b, v)),
    decreases c.len(),
{
    if c.len() == 0 {
        assert(tbl_insert(c, b, v) =~= c.push((b, v)));
    } else {
        assert forall|k: int| 0 <= k < c.skip(1).len() implies (#[trigger] c.skip(1)[k]).0 < b by {
            assert(c.skip(1)[k] == c[k + 1]);
        }
        lemma_tbl_insert_append(c.skip(1), b, v);
        assert(tbl_insert(c, b, v) =~= c.push((b, v)));
    }
}

/// Parsing the records of a serialized table, in order, rebuilds the table.
proof fn lemma_recs_fold_rt(c: Seq<(u8, u32)>, rest: Seq<u8>, j: int)
    requires
        counts_wf(c),
        c.len() <= 0xFFFF,
        0 <= j <= c.len(),
    ensures
        recs_fold(header_bytes(c) + rest, j) == c.take(j),
    decreases j,
{
    let full = header_bytes(c) + rest;
    if j == 0 {
        assert(recs_fold(full, 0) =~= c.take(0));
    } else {
        lemma_recs_fold_rt(c, rest, j - 1);
        lemma_recs_len(c, 0);
        lemma_recs_index(c, 0, j - 1);
        assert(crate::endian::u16_bytes(c.len() as u16).len() == 2);
        assert(full[2 + 5 * (j - 1)] == recs_bytes(c, 0)[5 * (j - 1)]);
        assert(full.subrange(3 + 5 * (j - 1), 7 + 5 * (j - 1)) =~= recs_bytes(c, 0).subrange(
            5 * (j - 1) + 1,
            5 * (j - 1) + 5,
        ));
        crate::endian::lemma_be32_bytes(c[j - 1].1);
        assert(full[2 + 5 * (j - 1)] == c[j - 1].0);
        assert(be32(full.subrange(3 + 5 * (j - 1), 7 + 5 * (j - 1))) == c[j - 1].1);
        assert forall|k: int| 0 <= k < c.take(j - 1).len() implies (#[trigger] c.take(
            j - 1,
        )[k]).0 < c[j - 1].0 by {
            assert(c.take(j - 1)[k] == c[k]);
        }
        lemma_tbl_insert_append(c.take(j - 1), c[j - 1].0, c[j - 1].1);
        assert(c.take(j - 1).push((c[j - 1].0, c[j - 1].1)) =~= c.take(j));
        assert((c[j - 1].0, c[j - 1].1) == c[j - 1]);
    }
}

/// Header round trip: parsing a serialized table recovers it, along with
/// the following bit count and the untouched payload.
pub proof fn lemma_header_round_trip(c: Seq<(u8, u32)>, bcount: u64, payload: Seq<u8>)
    requires
        counts_wf(c),
        c.len() <= 0xFFFF,
    ensures
        parse_counts(header_bytes(c) + crate::endian::u64_bytes(bcount) + payload) == Some(
            (c, 2 + 5 * c.len() as int),
        ),
        (header_bytes(c) + crate::endian::u64_bytes(bcount) + payload).subrange(
            2 + 5 * c.len() as int,
            10 + 5 * c.len() as int,
        ) == crate::endian::u64_bytes(bcount),
        be64(
            (header_bytes(c) + crate::endian::u64_bytes(bcount) + payload).subrange(
                2 + 5 * c.len() as int,
                10 + 5 * c.len() as int,
            ),
        ) == bcount,
        (header_bytes(c) + crate::endian::u64_bytes(bcount) + payload).skip(
            10 + 5 * c.len() as int,
        ) == payload,
{
    let full = header_bytes(c) + crate::endian::u64_bytes(bcount) + payload;
    lemma_recs_len(c, 0);
    crate::endian::lemma_be16_bytes(c.len() as u16);
    crate::endian::lemma_be64_bytes(bcount);
    assert(full.take(2) =~= crate::endian::u16_bytes(c.len() as u16));
    assert(be16(full.take(2)) == c.len());
    let rest = crate::endian::u64_bytes(bcount) + payload;
    assert(full =~= header_bytes(c) + rest);
    lemma_recs_fold_rt(c, rest, c.len() as int);
    assert(c.take(c.len() as int) =~= c);
    assert(full.subrange(2 + 5 * c.len() as int, 10 + 5 * c.len() as int)
        =~= crate::endian::u64_bytes(bcount));
    assert(full.skip(10 + 5 * c.len() as int) =~= payload);
}

proof fn lemma_codes_cat_len(nodes: Seq<Node>, root: int, x: Seq<u8>)
    requires
        arena_wf(nodes),
        0 <= root < nodes.len(),
        nodes.len() <= 511,
    ensures
        codes_cat(nodes, root, x).len() <= 511 * x.len(),
    decreases x.len(),
{
    if x.len() > 0 {
        lemma_codes_cat_len(nodes, root, x.drop_last());
        lemma_code_len(nodes, root, x.last());
        match spec_code(nodes, root, x.last()) {
            Some(p) => {
                assert(p.len() <= 511);
            },
            None => {},
        }
    }
}

proof fn lemma_codes_cat_single(nodes: Seq<Node>, root: int, x: Seq<u8>, b0: u8)
    requires
        0 <= root < nodes.len(),
        nodes[root].content == NodeContent::Byte(b0),
        forall|m: int| 0 <= m < x.len() ==> x[m] == b0,
    ensures
        codes_cat(nodes, root, x).len() == x.len(),
    decreases x.len(),
{
    if x.len() > 0 {
        assert forall|m: int| 0 <= m < x.drop_last().len() implies x.drop_last()[m] == b0 by {
            assert(x.drop_last()[m] == x[m]);
        }
        lemma_codes_cat_single(nodes, root, x.drop_last(), b0);
        assert(x.last() == x[x.len() - 1]);
        assert(spec_code(nodes, root, x.last()) == Some(seq![false]));
    }
}

/// Round trip: parsing a compressed chunk's bytes yields the chunk.
pub proof fn lemma_huffman_round_trip(x: Seq<u8>)
    requires
        x.len() < 0x1_0000_0000,
    ensures
        huff_parse(huff_encoding(x)) == Some(x),
{
    lemma_counts_of_props(x);
    let c = counts_of(x);
    let enc = huff_encoding(x);
    if c.len() == 0 {
        assert(x.len() == 0) by {
            if x.len() > 0 {
                lemma_count_in_at(x, 0);
                assert(has_key(c, x[0]));
                let k = choose|k: int| 0 <= k < c.len() && (#[trigger] c[k]).0 == x[0];
            }
        }
        crate::endian::lemma_be16_bytes(0);
        crate::endian::lemma_be64_bytes(0);
        assert(enc.take(2) =~= crate::endian::u16_bytes(0));
        assert(be16(enc.take(2)) == 0);
        assert(recs_fold(enc, 0) =~= Seq::<(u8, u32)>::empty());
        assert(parse_counts(enc) == Some((Seq::<(u8, u32)>::empty(), 2int)));
        assert(enc.subrange(2, 10) =~= crate::endian::u64_bytes(0));
        assert(enc.skip(10) =~= Seq::<u8>::empty());
        assert(x =~= Seq::<u8>::empty());
    } else {
        let t = spec_tree(c);
        let cc = codes_cat(t.0, t.1, x);
        lemma_tree_props(c);
        lemma_codes_cat_len(t.0, t.1, x);
        assert(511 * x.len() < 0x400_0000_0000) by (nonlinear_arith)
            requires
                x.len() < 0x1_0000_0000,
        ;
        let b64 = cc.len() as u64;
        assert(b64 == cc.len());
        lemma_header_round_trip(c, b64, crate::bits::pack_bits(cc));
        assert(enc == header_bytes(c) + crate::endian::u64_bytes(b64) + crate::bits::pack_bits(
            cc,
        ));
        let off = 2 + 5 * c.len() as int;
        assert(parse_counts(enc) == Some((c, off)));
        assert(enc.len() >= off + 8) by {
            lemma_recs_len(c, 0);
        }
        let payload = enc.skip(off + 8);
        assert(payload == crate::bits::pack_bits(cc));
        crate::bits::lemma_pack_bits(cc);
        assert(payload.len() * 8 == cc.len() + crate::bits::pad_len(cc.len()));
        assert(b64 <= payload.len() * 8);
        assert(crate::bits::bytes_bits(payload) == crate::bits::pad_to_byte(cc));
        assert(crate::bits::bytes_bits(payload).take(b64 as int) =~= cc);
        assert forall|m: int| 0 <= m < x.len() implies tree_has(t.0, t.1, #[trigger] x[m]) by {
            lemma_count_in_at(x, m);
            assert(has_key(c, x[m]));
        }
        if c.len() == 1 {
            assert forall|m: int| 0 <= m < x.len() implies x[m] == c[0].0 by {
                lemma_count_in_at(x, m);
                assert(has_key(c, x[m]));
                let k = choose|k: int| 0 <= k < c.len() && (#[trigger] c[k]).0 == x[m];
                assert(k == 0);
            }
            lemma_codes_cat_single(t.0, t.1, x, c[0].0);
            assert(Seq::new(b64 as nat, |m: int| c[0].0) =~= x);
        } else {
            lemma_codes_cat_from(t.0, t.1, x);
            lemma_walk_concat(t.0, t.1, x, 0);
            assert(x.take(0) =~= Seq::<u8>::empty());
        }
    }
}

/// Deterministic codes: any two tables that meet the builder's contract
/// for the same frequency table agree on every byte.
pub proof fn lemma_deterministic_codes(
    c: Seq<(u8, u32)>,
    t1: Seq<Option<Vec<bool>>>,
    t2: Seq<Option<Vec<bool>>>,
)
    requires
        t1.len() == 256,
        t2.len() == 256,
        forall|b: u8| ov(#[trigger] t1[b as int]) == spec_code(spec_tree(c).0, spec_tree(c).1, b),
        forall|b: u8| ov(#[trigger] t2[b as int]) == spec_code(spec_tree(c).0, spec_tree(c).1, b),
    ensures
        forall|b: u8| ov(#[trigger] t1[b as int]) == ov(t2[b as int]),
{
}

/// Follow bits from a node to the first leaf reached, ignoring leftover
/// bits; nothing when the bits end at an internal node.
pub open spec fn descend(nodes: Seq<Node>, idx: int, bits: Seq<bool>) -> Option<u8>
    recommends
        arena_wf(nodes),
        0 <= idx < nodes.len(),
    decreases bits.len(),
{
    match nodes[idx].content {
        NodeContent::Byte(x) => Some(x),
        NodeContent::Branches(l, r) => if bits.len() == 0 {
            None
        } else {
            descend(
                nodes,
                if bits[0] {
                    r as int
                } else {
                    l as int
                },
                bits.skip(1),
            )
        },
    }
}

impl Tree {
    /// The byte whose code the given bits begin with.
    pub fn get_byte(&self, bits: &Vec<bool>) -> (r: Option<u8>)
        requires
            arena_wf(self.nodes@),
            self.root < self.nodes@.len(),
        ensures
            r == descend(self.nodes@, self.root as int, bits@),
    {
        let mut cur = self.root;
        let n = bits.len();
        let mut i: usize = 0;
        proof {
            assert(bits@.skip(0) =~= bits@);
        }
        while i < n
            invariant
                i <= n,
                n == bits@.len(),
                arena_wf(self.nodes@),
                self.root < self.nodes@.len(),
                cur < self.nodes@.len(),
                descend(self.nodes@, cur as int, bits@.skip(i as int)) == descend(
                    self.nodes@,
                    self.root as int,
                    bits@,
                ),
            decreases n - i,
        {
            match nodes_content(&self.nodes, cur) {
                NodeContent::Byte(x) => {
                    return Some(x);
                },
                NodeContent::Branches(l, r) => {
                    proof {
                        assert(bits@.skip(i as int).skip(1) =~= bits@.skip(i + 1));
                        assert(bits@.skip(i as int)[0] == bits@[i as int]);
                    }
                    cur = if bits[i] {
                        r
                    } else {
                        l
                    };
                },
            }
            i = i + 1;
        }
        proof {
            assert(bits@.skip(n as int).len() == 0);
        }
        match nodes_content(&self.nodes, cur) {
            NodeContent::Byte(x) => Some(x),
            NodeContent::Branches(_, _) => None,
        }
    }
}

} // verus!
