//! Breadth-first serialization of a finished tree into the opening-book
//! binary block format.
//!
//! The file is a sequence of blocks, one per tree node, in breadth-first
//! discovery order with the root's block first at offset 0. A block is a
//! big-endian `u64` size field (`8 + 24 * entries`) followed by one 24-byte
//! entry per child in insertion order: seven padding bytes, the move code,
//! the child's score as eight bytes, and the child block's absolute byte
//! offset (`0` when the child has no block data of its own).
//!
//! Addresses depend on the sizes of all earlier blocks, so the work is split
//! in two passes: discover and size every block first, then write with every
//! pointer resolved.
//!
//! Scores live in the tree as exact `(sum, plays)` pairs; the eight score
//! bytes of an entry are the IEEE 754 bits of `sum / plays`, which the caller
//! computes and passes in as plain `u64` values, one per node in the same
//! breadth-first order that `bfs_stats` reports.

use vstd::prelude::*;

use crate::tree::{count_front, count_tree, lemma_model_stable, lemma_wf_mono, wf_node, GameTree,
    NodeModel};

verus! {

/// Upper bound on the node count `serialize` accepts; keeps every size,
/// address and block id far from its machine limit.
pub const MAX_BLOCKS: u64 = 0x8000_0000_0000;

/// Big-endian bytes of `v`, `n` of them, most significant first.
pub open spec fn be_bytes(v: nat, n: nat) -> Seq<u8>
    decreases n,
{
    if n == 0 {
        Seq::empty()
    } else {
        be_bytes(v / 256, (n - 1) as nat).push((v % 256) as u8)
    }
}

/// Total child count of the first `k` blocks: block `k`'s children are the
/// blocks numbered `1 + pc(B, k)` onward.
pub open spec fn pc(b: Seq<NodeModel>, k: int) -> nat
    decreases k,
{
    if k <= 0 {
        0
    } else {
        pc(b, k - 1) + b[k - 1].children.len()
    }
}

/// Child `j` of block `k` stands at position `1 + pc(b, k) + j`.
pub open spec fn placed_at(b: Seq<NodeModel>, k: int, j: int) -> bool {
    1 + pc(b, k) + j < b.len() && b[1 + pc(b, k) + j] == b[k].children[j].1
}

/// The children of each of the first `upto` blocks stand, in order, at the
/// consecutive positions starting at `1 + pc(b, k)`.
pub open spec fn placed(b: Seq<NodeModel>, upto: int) -> bool {
    forall|k: int, j: int|
        0 <= k < upto && 0 <= j < b[k].children.len() ==> #[trigger] placed_at(b, k, j)
}

/// `b` lists every node of the tree rooted at `root` in breadth-first
/// discovery order: the root first, and the children of block `k`, in
/// insertion order, as the consecutive blocks starting at `1 + pc(b, k)`.
pub open spec fn bfs_rel(root: NodeModel, b: Seq<NodeModel>) -> bool {
    &&& b.len() >= 1
    &&& b[0] == root
    &&& b.len() == 1 + pc(b, b.len() as int)
    &&& placed(b, b.len() as int)
}

/// On-disk size of a node's block.
pub open spec fn size_of(m: NodeModel) -> nat {
    8 + 24 * m.children.len()
}

/// Byte offset of block `i`: the sizes of all blocks written before it.
pub open spec fn addr_of(b: Seq<NodeModel>, i: int) -> nat
    decreases i,
{
    if i <= 0 {
        0
    } else {
        addr_of(b, i - 1) + size_of(b[i - 1])
    }
}

/// The pointer stored for child block `kid`: its address, or `0` when that
/// block holds no entries of its own.
pub open spec fn child_ptr(b: Seq<NodeModel>, kid: int) -> nat {
    if b[kid].children.len() == 0 {
        0
    } else {
        addr_of(b, kid)
    }
}

/// The 24 bytes of entry `j` of block `k`: padding, move code, score bits of
/// the child, pointer to the child's block.
pub open spec fn entry_bytes(b: Seq<NodeModel>, sb: Seq<u64>, k: int, j: int) -> Seq<u8> {
    let kid = 1 + pc(b, k) + j;
    seq![0u8, 0u8, 0u8, 0u8, 0u8, 0u8, 0u8, b[k].children[j].0] + be_bytes(sb[kid] as nat, 8)
        + be_bytes(child_ptr(b, kid), 8)
}

/// The first `j` entries of block `k`, concatenated.
pub open spec fn entries_bytes(b: Seq<NodeModel>, sb: Seq<u64>, k: int, j: int) -> Seq<u8>
    decreases j,
{
    if j <= 0 {
        Seq::empty()
    } else {
        entries_bytes(b, sb, k, j - 1) + entry_bytes(b, sb, k, j - 1)
    }
}

/// The whole block `k`: size field, then its entries.
pub open spec fn block_bytes(b: Seq<NodeModel>, sb: Seq<u64>, k: int) -> Seq<u8> {
    be_bytes(size_of(b[k]), 8) + entries_bytes(b, sb, k, b[k].children.len() as int)
}

/// The first `k` blocks of the file, concatenated.
pub open spec fn book_bytes_upto(b: Seq<NodeModel>, sb: Seq<u64>, k: int) -> Seq<u8>
    decreases k,
{
    if k <= 0 {
        Seq::empty()
    } else {
        book_bytes_upto(b, sb, k - 1) + block_bytes(b, sb, k - 1)
    }
}

/// The whole opening-book file for block list `b` and per-node score bits
/// `sb`.
pub open spec fn book_bytes(b: Seq<NodeModel>, sb: Seq<u64>) -> Seq<u8> {
    book_bytes_upto(b, sb, b.len() as int)
}

/// One finished block of pass 1: its children's move codes in insertion
/// order, and the block id of the first child; the children's ids are
/// consecutive from there.
struct Block {
    first: usize,
    codes: Vec<u8>,
}

/// Node count of the trees `q[from..]`, as pass 1 still has to visit them.
spec fn sum_count_from(q: Seq<&GameTree>, from: int) -> nat
    decreases q.len() - from,
{
    if from < 0 || from >= q.len() {
        0
    } else {
        count_tree(*q[from]) + sum_count_from(q, from + 1)
    }
}

proof fn lemma_sum_push(q: Seq<&GameTree>, from: int, x: &GameTree)
    requires
        0 <= from <= q.len(),
    ensures
        sum_count_from(q.push(x), from) == sum_count_from(q, from) + count_tree(*x),
    decreases q.len() - from,
{
    if from == q.len() {
        assert(sum_count_from(q.push(x), from + 1) == 0);
    } else {
        lemma_sum_push(q, from + 1, x);
    }
}

/// A prefix-children count only reads the prefix.
proof fn lemma_pc_prefix(b1: Seq<NodeModel>, b2: Seq<NodeModel>, k: int)
    requires
        0 <= k <= b1.len(),
        k <= b2.len(),
        forall|i: int| 0 <= i < k ==> b1[i] == b2[i],
    ensures
        pc(b1, k) == pc(b2, k),
    decreases k,
{
    if k > 0 {
        lemma_pc_prefix(b1, b2, k - 1);
    }
}

proof fn lemma_pc_mono(b: Seq<NodeModel>, k1: int, k2: int)
    requires
        k1 <= k2,
    ensures
        pc(b, k1) <= pc(b, k2),
    decreases k2 - k1,
{
    if k1 < k2 {
        lemma_pc_mono(b, k1, k2 - 1);
    }
}

/// Addresses in closed form: every block before `i` contributes its header
/// and one entry per child.
proof fn lemma_addr_closed(b: Seq<NodeModel>, i: int)
    requires
        i >= 0,
    ensures
        addr_of(b, i) == 8 * i + 24 * pc(b, i),
    decreases i,
{
    if i > 0 {
        lemma_addr_closed(b, i - 1);
    }
}

/// Appending block `h`'s children to a placed block list keeps it placed.
proof fn lemma_placed_extend(b1: Seq<NodeModel>, b2: Seq<NodeModel>, h: int, m: NodeModel)
    requires
        0 <= h < b1.len(),
        placed(b1, h),
        b1.len() == 1 + pc(b1, h),
        m == b1[h],
        b2.len() == b1.len() + m.children.len(),
        forall|i: int| 0 <= i < b1.len() ==> b2[i] == b1[i],
        forall|j: int|
            0 <= j < m.children.len() ==> b2[b1.len() + j] == (#[trigger] m.children[j]).1,
    ensures
        placed(b2, h + 1),
        b2.len() == 1 + pc(b2, h + 1),
{
    lemma_pc_prefix(b2, b1, h);
    lemma_pc_prefix(b2, b1, h + 1);
    assert(pc(b1, h + 1) == pc(b1, h) + b1[h].children.len());
    assert(b2.len() == 1 + pc(b2, h + 1));
    assert forall|k: int, j: int|
        0 <= k < h + 1 && 0 <= j < b2[k].children.len() implies #[trigger] placed_at(
        b2,
        k,
        j,
    ) by {
        lemma_pc_prefix(b2, b1, k);
        if k < h {
            assert(b2[k] == b1[k]);
            assert(0 <= j < b1[k].children.len());
            assert(placed_at(b1, k, j));
            assert(b2[1 + pc(b1, k) + j] == b1[1 + pc(b1, k) + j]);
        } else {
            assert(k == h);
            assert(b2[k] == m);
            assert(pc(b2, k) == pc(b1, h));
            assert(1 + pc(b1, h) + j == b1.len() + j);
            assert(b2[b1.len() + j] == m.children[j].1);
        }
    }
}

/// Pass 1: breadth-first discovery. Returns, per block in discovery
/// order, its child move codes and first-child block id, and the node's
/// exact `(score total, play count)` pair; the ghost result is the block
/// list itself.
fn layout(tree: &GameTree) -> (r: (Vec<Block>, Vec<(i64, u64)>, Ghost<Seq<NodeModel>>))
    requires
        tree.wf(),
    ensures
        bfs_rel(tree.model(), r.2@),
        r.2@.len() == count_tree(*tree),
        r.0@.len() == r.2@.len(),
        r.1@.len() == r.2@.len(),
        forall|k: int|
            0 <= k < r.2@.len() ==> (#[trigger] r.0@[k]).first == 1 + pc(r.2@, k)
                && r.0@[k].codes@.len() == r.2@[k].children.len(),
        forall|k: int, j: int|
            0 <= k < r.2@.len() && 0 <= j < r.2@[k].children.len() ==> r.0@[k].codes@[j] == (
            #[trigger] r.2@[k].children[j]).0,
        forall|k: int|
            0 <= k < r.2@.len() ==> (#[trigger] r.1@[k]).0 == r.2@[k].sum && r.1@[k].1
                == r.2@[k].plays,
{
    let ghost root = tree.model();
    let mut queue: Vec<&GameTree> = Vec::new();
    queue.push(tree);
    let ghost bm0 = Seq::<NodeModel>::empty().push(root);
    let ghost mut bm = bm0;
    let mut blocks: Vec<Block> = Vec::new();
    let mut stats: Vec<(i64, u64)> = Vec::new();
    let mut head: usize = 0;
    proof {
        assert(bm[0] == root);
        assert(pc(bm, 0) == 0);
        assert(sum_count_from(queue@, 1) == 0);
        assert(sum_count_from(queue@, 0) == count_tree(*tree));
    }
    while head < queue.len()
        invariant
            tree.wf(),
            root == tree.model(),
            queue@.len() == bm.len(),
            head <= bm.len(),
            bm.len() >= 1,
            bm[0] == root,
            forall|k: int|
                0 <= k < bm.len() ==> #[trigger] bm[k] == queue@[k].model_to(60) && wf_node(
                    bm[k],
                    60,
                ),
            bm.len() == 1 + pc(bm, head as int),
            blocks@.len() == head,
            stats@.len() == head,
            forall|k: int|
                0 <= k < head ==> (#[trigger] blocks@[k]).first == 1 + pc(bm, k)
                    && blocks@[k].codes@.len() == bm[k].children.len(),
            forall|k: int, j: int|
                0 <= k < head && 0 <= j < bm[k].children.len() ==> blocks@[k].codes@[j] == (
                #[trigger] bm[k].children[j]).0,
            placed(bm, head as int),
            forall|k: int|
                0 <= k < head ==> (#[trigger] stats@[k]).0 == bm[k].sum && stats@[k].1
                    == bm[k].plays,
            count_tree(*tree) == head + sum_count_from(queue@, head as int),
        decreases count_tree(*tree) - head,
    {
        let node: &GameTree = queue[head];
        let c = node.children.len();
        let first = queue.len();
        let mut codes: Vec<u8> = Vec::new();
        stats.push((node.score_sum, node.plays));
        let ghost m = bm[head as int];
        let ghost bm_in = bm;
        let ghost q_in = queue@;
        proof {
            assert(m == node.model_to(60));
            assert(m.children.len() == c);
            assert(sum_count_from(q_in, head as int) == count_tree(*node) + sum_count_from(
                q_in,
                head as int + 1,
            ));
        }
        let mut j: usize = 0;
        while j < c
            invariant
                j <= c,
                head < first,
                q_in.len() == first,
                c == node.children@.len(),
                m.children.len() == c,
                m == node.model_to(60),
                wf_node(m, 60),
                first == bm_in.len(),
                queue@.len() == bm.len(),
                bm.len() == first + j,
                codes@.len() == j,
                forall|k: int| 0 <= k < first ==> #[trigger] bm[k] == bm_in[k],
                forall|jj: int|
                    0 <= jj < j ==> bm[first + jj] == (#[trigger] m.children[jj]).1,
                forall|jj: int| 0 <= jj < j ==> #[trigger] codes@[jj] == m.children[jj].0,
                forall|k: int|
                    0 <= k < bm.len() ==> #[trigger] bm[k] == queue@[k].model_to(60)
                        && wf_node(bm[k], 60),
                forall|k: int| 0 <= k < first ==> #[trigger] q_in[k] == queue@[k],
                sum_count_from(queue@, head as int + 1) == sum_count_from(
                    q_in,
                    head as int + 1,
                ) + count_front(*node, j as int),
            decreases c - j,
        {
            let pair: &(u8, GameTree) = &node.children[j];
            codes.push(pair.0);
            proof {
                assert(m.children[j as int].1 == node.children@[j as int].1.model_to(59));
                assert(wf_node(m.children[j as int].1, 59));
                lemma_model_stable(node.children@[j as int].1, 59, 60);
                lemma_wf_mono(m.children[j as int].1, 59, 60);
                lemma_sum_push(queue@, head as int + 1, &node.children@[j as int].1);
                bm = bm.push(m.children[j as int].1);
            }
            queue.push(&pair.1);
            proof {
                assert(count_front(*node, j + 1) == count_front(*node, j as int)
                    + count_tree(node.children@[j as int].1));
            }
            j = j + 1;
        }
        blocks.push(Block { first, codes });
        proof {
            lemma_pc_prefix(bm_in, bm, head as int + 1);
            assert(pc(bm, head as int + 1) == pc(bm, head as int) + m.children.len());
            assert(bm.len() == 1 + pc(bm, head as int + 1));
            // the invariant's per-block clauses for earlier blocks carry
            // over because bm kept its prefix and pc reads only prefixes
            assert forall|k: int| 0 <= k < head + 1 implies (#[trigger] blocks@[k]).first == 1
                + pc(bm, k) && blocks@[k].codes@.len() == bm[k].children.len() by {
                lemma_pc_prefix(bm_in, bm, k);
            }
            lemma_placed_extend(bm_in, bm, head as int, m);
            assert(bm[head as int] == m);
            assert(blocks@[head as int].codes@ == codes@);
            assert(forall|jj: int|
                0 <= jj < m.children.len() ==> codes@[jj] == (#[trigger] m.children[jj]).0);
            assert(stats@[head as int].0 == m.sum && stats@[head as int].1 == m.plays);
            assert(count_tree(*node) == 1 + count_front(*node, c as int));
            assert(count_tree(*tree) == (head + 1) + sum_count_from(queue@, head as int + 1));
        }
        head = head + 1;
    }
    proof {
        assert(head >= queue.len());
        assert(head == bm.len());
        assert(sum_count_from(queue@, head as int) == 0);
        assert(bm.len() == count_tree(*tree));
        assert(bm.len() == 1 + pc(bm, bm.len() as int));
        assert(placed(bm, bm.len() as int));
        assert(bfs_rel(root, bm));
    }
    (blocks, stats, Ghost(bm))
}

/// Every node's exact `(score total, play count)` pair, in the same
/// breadth-first block order as `serialize` writes. The caller derives
/// each node's eight score bytes from its pair.
pub fn bfs_stats(tree: &GameTree) -> (r: Vec<(i64, u64)>)
    requires
        tree.wf(),
    ensures
        r@.len() == count_tree(*tree),
        exists|b: Seq<NodeModel>|
            bfs_rel(tree.model(), b) && b.len() == r@.len() && forall|k: int|
                0 <= k < b.len() ==> (#[trigger] r@[k]).0 == b[k].sum && r@[k].1 == b[k].plays,
{
    let (_blocks, stats, Ghost(bm)) = layout(tree);
    proof {
        assert(bfs_rel(tree.model(), bm));
    }
    stats
}

/// Serializes the tree: blocks in breadth-first order, every non-zero
/// child pointer the absolute offset of the child's block, every score
/// field the caller-supplied bits for that node. `score_bits` holds one
/// value per node, in `bfs_stats` order.
pub fn serialize(tree: &GameTree, score_bits: &Vec<u64>) -> (r: Vec<u8>)
    requires
        tree.wf(),
        count_tree(*tree) <= MAX_BLOCKS,
        score_bits@.len() == count_tree(*tree),
    ensures
        exists|b: Seq<NodeModel>|
            bfs_rel(tree.model(), b) && b.len() == count_tree(*tree) && r@ == book_bytes(
                b,
                score_bits@,
            ),
{
    let (blocks, _stats, Ghost(bm)) = layout(tree);
    let n = blocks.len();
    proof {
        assert(n == bm.len());
        lemma_pc_mono(bm, 0, bm.len() as int);
    }
    // resolve every block's address: the running total of prior sizes
    let mut addrs: Vec<u64> = Vec::new();
    let mut cur: u64 = 0;
    let mut k: usize = 0;
    while k < n
        invariant
            bfs_rel(tree.model(), bm),
            n == bm.len() == blocks@.len(),
            bm.len() <= MAX_BLOCKS,
            score_bits@.len() == bm.len(),
            forall|i: int|
                0 <= i < n ==> (#[trigger] blocks@[i]).first == 1 + pc(bm, i)
                    && blocks@[i].codes@.len() == bm[i].children.len(),
            forall|i: int, j: int|
                0 <= i < n && 0 <= j < bm[i].children.len() ==> blocks@[i].codes@[j] == (
                #[trigger] bm[i].children[j]).0,
            k <= n,
            addrs@.len() == k,
            cur == addr_of(bm, k as int),
            forall|i: int| 0 <= i < k ==> (#[trigger] addrs@[i]) == addr_of(bm, i),
        decreases n - k,
    {
        proof {
            lemma_addr_closed(bm, k as int);
            lemma_addr_closed(bm, k as int + 1);
            lemma_pc_mono(bm, k as int + 1, bm.len() as int);
        }
        addrs.push(cur);
        let clen = blocks[k].codes.len();
        cur = cur + 8 + 24 * (clen as u64);
        k = k + 1;
    }
    // write every block with its pointers resolved
    let mut out: Vec<u8> = Vec::new();
    let mut b: usize = 0;
    while b < n
        invariant
            bfs_rel(tree.model(), bm),
            n == bm.len() == blocks@.len() == addrs@.len(),
            bm.len() <= MAX_BLOCKS,
            score_bits@.len() == bm.len(),
            forall|i: int|
                0 <= i < n ==> (#[trigger] blocks@[i]).first == 1 + pc(bm, i)
                    && blocks@[i].codes@.len() == bm[i].children.len(),
            forall|i: int, j: int|
                0 <= i < n && 0 <= j < bm[i].children.len() ==> blocks@[i].codes@[j] == (
                #[trigger] bm[i].children[j]).0,
            forall|i: int| 0 <= i < n ==> (#[trigger] addrs@[i]) == addr_of(bm, i),
            b <= n,
            out@ == book_bytes_upto(bm, score_bits@, b as int),
        decreases n - b,
    {
        let clen = blocks[b].codes.len();
        proof {
            lemma_pc_mono(bm, b as int + 1, bm.len() as int);
            lemma_addr_closed(bm, bm.len() as int);
        }
        push_be8(&mut out, 8 + 24 * (clen as u64));
        let ghost entry_base = out@;
        assert(entry_base =~= book_bytes_upto(bm, score_bits@, b as int) + be_bytes(
            size_of(bm[b as int]),
            8,
        ));
        let mut j: usize = 0;
        while j < clen
            invariant
                bfs_rel(tree.model(), bm),
                n == bm.len() == blocks@.len() == addrs@.len(),
                bm.len() <= MAX_BLOCKS,
                score_bits@.len() == bm.len(),
                b < n,
                clen == blocks@[b as int].codes@.len(),
                clen == bm[b as int].children.len(),
                blocks@[b as int].first == 1 + pc(bm, b as int),
                1 + pc(bm, b as int) + clen <= bm.len(),
                forall|i: int, jj: int|
                    0 <= i < n && 0 <= jj < bm[i].children.len() ==> blocks@[i].codes@[jj] == (
                    #[trigger] bm[i].children[jj]).0,
                forall|i: int| 0 <= i < n ==> (#[trigger] addrs@[i]) == addr_of(bm, i),
                forall|i: int|
                    0 <= i < n ==> (#[trigger] blocks@[i]).codes@.len() == bm[
                        i
                    ].children.len(),
                j <= clen,
                out@ == entry_base + entries_bytes(bm, score_bits@, b as int, j as int),
            decreases clen - j,
        {
            let ghost pre = out@;
            out.push(0);
            out.push(0);
            out.push(0);
            out.push(0);
            out.push(0);
            out.push(0);
            out.push(0);
            out.push(blocks[b].codes[j]);
            let kid = blocks[b].first + j;
            proof {
                lemma_pc_mono(bm, b as int + 1, bm.len() as int);
                assert(kid == 1 + pc(bm, b as int) + j);
                assert(kid < bm.len());
            }
            push_be8(&mut out, score_bits[kid]);
            let ptr: u64 = if blocks[kid].codes.len() == 0 {
                0
            } else {
                addrs[kid]
            };
            proof {
                lemma_addr_closed(bm, kid as int);
                lemma_pc_mono(bm, kid as int, bm.len() as int);
                assert(ptr == child_ptr(bm, kid as int));
            }
            push_be8(&mut out, ptr);
            proof {
                assert(out@ =~= pre + entry_bytes(bm, score_bits@, b as int, j as int));
                assert(out@ =~= entry_base + entries_bytes(bm, score_bits@, b as int, j
                    + 1));
            }
            j = j + 1;
        }
        proof {
            assert(out@ =~= book_bytes_upto(bm, score_bits@, b as int + 1));
        }
        b = b + 1;
    }
    proof {
        assert(out@ == book_bytes(bm, score_bits@));
        assert(bfs_rel(tree.model(), bm));
    }
    out
}

/// Appends the eight big-endian bytes of `v`.
fn push_be8(out: &mut Vec<u8>, v: u64)
    ensures
        final(out)@ == old(out)@ + be_bytes(v as nat, 8),
{
    let mut scratch: Vec<u8> = vec![0u8; 8];
    let mut tmp: u64 = v;
    let mut k: usize = 8;
    while k > 0
        invariant
            k <= 8,
            scratch@.len() == 8,
            be_bytes(v as nat, 8) == be_bytes(tmp as nat, k as nat) + scratch@.subrange(
                k as int,
                8,
            ),
        decreases k,
    {
        k = k - 1;
        let ghost pre = scratch@;
        let ghost tmp0 = tmp as nat;
        scratch[k] = (tmp % 256) as u8;
        tmp = tmp / 256;
        proof {
            assert(scratch@.subrange(k as int, 8) =~= seq![(tmp0 % 256) as u8] + pre.subrange(
                k as int + 1,
                8,
            ));
            assert(be_bytes(tmp0, (k + 1) as nat) =~= be_bytes(tmp as nat, k as nat)
                + seq![(tmp0 % 256) as u8]);
            assert(be_bytes(v as nat, 8) =~= be_bytes(tmp as nat, k as nat) + scratch@.subrange(
                k as int,
                8,
            ));
        }
    }
    proof {
        assert(scratch@.subrange(0, 8) =~= scratch@);
        assert(be_bytes(v as nat, 8) == scratch@);
    }
    out.append(&mut scratch);
}


/// Powers of 256: the count of values `n` bytes can hold.
pub open spec fn pow256(n: nat) -> nat
    decreases n,
{
    if n == 0 {
        1
    } else {
        256 * pow256((n - 1) as nat)
    }
}

/// The value a big-endian byte sequence encodes.
pub open spec fn be_val(s: Seq<u8>) -> nat
    decreases s.len(),
{
    if s.len() == 0 {
        0
    } else {
        be_val(s.drop_last()) * 256 + s.last() as nat
    }
}

pub proof fn lemma_be_bytes_len(v: nat, n: nat)
    ensures
        be_bytes(v, n).len() == n,
    decreases n,
{
    if n > 0 {
        lemma_be_bytes_len(v / 256, (n - 1) as nat);
    }
}

/// Reading back the big-endian bytes of a value in range recovers it.
pub proof fn lemma_be_round_trip(v: nat, n: nat)
    requires
        v < pow256(n),
    ensures
        be_val(be_bytes(v, n)) == v,
    decreases n,
{
    if n == 0 {
    } else {
        let rest = be_bytes(v / 256, (n - 1) as nat);
        assert(be_bytes(v, n).drop_last() =~= rest);
        assert(v / 256 < pow256((n - 1) as nat)) by (nonlinear_arith)
            requires
                v < 256 * pow256((n - 1) as nat),
        ;
        lemma_be_round_trip(v / 256, (n - 1) as nat);
        vstd::arithmetic::div_mod::lemma_fundamental_div_mod(v as int, 256);
    }
}

proof fn lemma_entry_len(b: Seq<NodeModel>, sb: Seq<u64>, k: int, j: int)
    ensures
        entry_bytes(b, sb, k, j).len() == 24,
{
    lemma_be_bytes_len(sb[1 + pc(b, k) + j] as nat, 8);
    lemma_be_bytes_len(child_ptr(b, 1 + pc(b, k) + j), 8);
}

proof fn lemma_entries_len(b: Seq<NodeModel>, sb: Seq<u64>, k: int, j: int)
    requires
        j >= 0,
    ensures
        entries_bytes(b, sb, k, j).len() == 24 * j,
    decreases j,
{
    if j > 0 {
        lemma_entries_len(b, sb, k, j - 1);
        lemma_entry_len(b, sb, k, j - 1);
    }
}

proof fn lemma_block_len(b: Seq<NodeModel>, sb: Seq<u64>, k: int)
    ensures
        block_bytes(b, sb, k).len() == size_of(b[k]),
{
    lemma_be_bytes_len(size_of(b[k]), 8);
    lemma_entries_len(b, sb, k, b[k].children.len() as int);
}

/// The first `k` blocks take exactly the bytes before block `k`'s address.
proof fn lemma_upto_len(b: Seq<NodeModel>, sb: Seq<u64>, k: int)
    requires
        k >= 0,
    ensures
        book_bytes_upto(b, sb, k).len() == addr_of(b, k),
    decreases k,
{
    if k > 0 {
        lemma_upto_len(b, sb, k - 1);
        lemma_block_len(b, sb, k - 1);
    }
}

proof fn lemma_addr_mono(b: Seq<NodeModel>, k1: int, k2: int)
    requires
        0 <= k1 <= k2,
    ensures
        addr_of(b, k1) <= addr_of(b, k2),
    decreases k2 - k1,
{
    if k1 < k2 {
        lemma_addr_mono(b, k1, k2 - 1);
    }
}

/// Block `k` stands in the file at its address, byte for byte.
proof fn lemma_block_slice(b: Seq<NodeModel>, sb: Seq<u64>, k: int, upto: int)
    requires
        0 <= k < upto,
    ensures
        book_bytes_upto(b, sb, upto).subrange(
            addr_of(b, k) as int,
            addr_of(b, k) as int + size_of(b[k]) as int,
        ) == block_bytes(b, sb, k),
    decreases upto,
{
    lemma_upto_len(b, sb, k);
    lemma_upto_len(b, sb, upto - 1);
    lemma_block_len(b, sb, k);
    lemma_block_len(b, sb, upto - 1);
    if upto == k + 1 {
        assert(book_bytes_upto(b, sb, upto).subrange(
            addr_of(b, k) as int,
            addr_of(b, k) as int + size_of(b[k]) as int,
        ) =~= block_bytes(b, sb, k));
    } else {
        lemma_block_slice(b, sb, k, upto - 1);
        lemma_addr_mono(b, k + 1, upto - 1);
        assert(book_bytes_upto(b, sb, upto).subrange(
            addr_of(b, k) as int,
            addr_of(b, k) as int + size_of(b[k]) as int,
        ) =~= book_bytes_upto(b, sb, upto - 1).subrange(
            addr_of(b, k) as int,
            addr_of(b, k) as int + size_of(b[k]) as int,
        ));
    }
}

/// Entry `j` stands in its block's entry area at offset `24 * j`.
proof fn lemma_entry_slice(b: Seq<NodeModel>, sb: Seq<u64>, k: int, j: int, c: int)
    requires
        0 <= j < c,
    ensures
        entries_bytes(b, sb, k, c).subrange(24 * j, 24 * j + 24) == entry_bytes(b, sb, k, j),
    decreases c,
{
    lemma_entries_len(b, sb, k, c - 1);
    lemma_entry_len(b, sb, k, c - 1);
    lemma_entry_len(b, sb, k, j);
    if c == j + 1 {
        assert(entries_bytes(b, sb, k, c).subrange(24 * j, 24 * j + 24) =~= entry_bytes(
            b,
            sb,
            k,
            j,
        ));
    } else {
        lemma_entry_slice(b, sb, k, j, c - 1);
        assert(entries_bytes(b, sb, k, c).subrange(24 * j, 24 * j + 24) =~= entries_bytes(
            b,
            sb,
            k,
            c - 1,
        ).subrange(24 * j, 24 * j + 24));
    }
}

/// The serialization round trip: a reader that takes the `u64` at a block's
/// address gets the block's size; `(size - 8) / 24` is the node's child
/// count; entry `j` holds the child's move code, the child's score bits, and
/// a pointer that is `0` exactly when the child has no children, and the
/// child block's address otherwise — and that block describes exactly the
/// in-memory child. Applied at every block, the file reconstructs the tree.
pub proof fn lemma_reader_round_trip(
    root: NodeModel,
    b: Seq<NodeModel>,
    sb: Seq<u64>,
    k: int,
    j: int,
)
    requires
        bfs_rel(root, b),
        b.len() <= MAX_BLOCKS,
        sb.len() == b.len(),
        0 <= k < b.len(),
        0 <= j < b[k].children.len(),
    ensures
        ({
            let bytes = book_bytes(b, sb);
            let a = addr_of(b, k) as int;
            let e = a + 8 + 24 * j;
            let kid = 1 + pc(b, k) + j;
            &&& be_val(bytes.subrange(a, a + 8)) == size_of(b[k])
            &&& (size_of(b[k]) - 8) / 24 == b[k].children.len()
            &&& bytes[e + 7] == b[k].children[j].0
            &&& be_val(bytes.subrange(e + 8, e + 16)) == sb[kid]
            &&& kid < b.len() && b[kid] == b[k].children[j].1
            &&& be_val(bytes.subrange(e + 16, e + 24)) == child_ptr(b, kid as int)
            &&& (b[kid].children.len() == 0 <==> child_ptr(b, kid as int) == 0)
            &&& (b[kid].children.len() > 0 ==> child_ptr(b, kid as int) == addr_of(
                b,
                kid as int,
            ))
        }),
{
    let bytes = book_bytes(b, sb);
    let a = addr_of(b, k) as int;
    let e = a + 8 + 24 * j;
    let kid = 1 + pc(b, k) + j;
    let c = b[k].children.len() as int;
    assert(placed_at(b, k, j));
    lemma_pc_mono(b, k + 1, b.len() as int);
    lemma_addr_closed(b, b.len() as int);
    lemma_addr_closed(b, kid as int);
    lemma_addr_closed(b, k);
    lemma_pc_mono(b, kid as int, b.len() as int);
    assert(c <= pc(b, k + 1) <= pc(b, b.len() as int));
    assert(size_of(b[k]) < 0x1_0000_0000_0000_0000);
    assert((24 * c) / 24 == c) by (nonlinear_arith);
    let block = block_bytes(b, sb, k);
    lemma_block_slice(b, sb, k, b.len() as int);
    lemma_block_len(b, sb, k);
    lemma_upto_len(b, sb, b.len() as int);
    assert(bytes.subrange(a, a + size_of(b[k]) as int) == block);
    // the size field
    lemma_be_bytes_len(size_of(b[k]), 8);
    assert(bytes.subrange(a, a + 8) =~= block.subrange(0, 8));
    assert(block.subrange(0, 8) =~= be_bytes(size_of(b[k]), 8));
    reveal_with_fuel(pow256, 9);
    lemma_be_round_trip(size_of(b[k]), 8);
    // the entry
    let entry = entry_bytes(b, sb, k, j);
    lemma_entry_slice(b, sb, k, j, c);
    lemma_entries_len(b, sb, k, c);
    lemma_entry_len(b, sb, k, j);
    assert(bytes.subrange(e, e + 24) =~= block.subrange(8 + 24 * j, 8 + 24 * j + 24));
    assert(block.subrange(8 + 24 * j, 8 + 24 * j + 24) =~= entries_bytes(b, sb, k, c).subrange(
        24 * j,
        24 * j + 24,
    ));
    assert(bytes.subrange(e, e + 24) == entry);
    lemma_be_bytes_len(sb[kid as int] as nat, 8);
    lemma_be_bytes_len(child_ptr(b, kid as int), 8);
    assert(bytes[e + 7] == entry[7]);
    assert(entry[7] == b[k].children[j].0);
    assert(bytes.subrange(e + 8, e + 16) =~= entry.subrange(8, 16));
    assert(entry.subrange(8, 16) =~= be_bytes(sb[kid as int] as nat, 8));
    lemma_be_round_trip(sb[kid as int] as nat, 8);
    assert(bytes.subrange(e + 16, e + 24) =~= entry.subrange(16, 24));
    assert(entry.subrange(16, 24) =~= be_bytes(child_ptr(b, kid as int), 8));
    assert(child_ptr(b, kid as int) <= addr_of(b, kid as int));
    lemma_be_round_trip(child_ptr(b, kid as int), 8);
    // the pointer semantics
    assert(b[kid] == b[k].children[j].1);
    if b[kid].children.len() > 0 {
        assert(addr_of(b, kid as int) >= 8) by {
            lemma_addr_closed(b, kid as int);
        }
    }
}

} // verus!
