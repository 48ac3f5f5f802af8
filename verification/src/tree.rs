//! The move-prefix tree and its builder.

use vstd::prelude::*;

use crate::canon::{
    apply_class, class_from_coords, class_mul, lemma_apply_compose, lemma_apply_special,
    lemma_class_first_symmetric, lemma_mul_cancel, valid_move_byte, Class, Transform, SENTINEL,
};

verus! {

/// Upper bound on the play count of any node that `add_play` accepts; keeps
/// every counter and score total far from its machine limit.
pub const MAX_PLAYS: u64 = 0x100_0000_0000;

/// Mathematical model of one tree node: children keyed by move code in
/// first-insertion order, the exact sum of the outcome differentials of the
/// records that updated the node, and how many did.
#[verifier::ext_equal]
pub struct NodeModel {
    pub children: Seq<(u8, NodeModel)>,
    pub sum: int,
    pub plays: nat,
}

/// The keys of a child sequence, in insertion order.
pub open spec fn keys_of(s: Seq<(u8, NodeModel)>) -> Seq<u8> {
    s.map_values(|c: (u8, NodeModel)| c.0)
}

/// The model of a node that no record has visited yet.
pub open spec fn empty_node() -> NodeModel {
    NodeModel { children: Seq::empty(), sum: 0, plays: 0 }
}

/// One fixed 64-byte record holds 60 move bytes.
pub open spec fn record_moves(rec: Seq<u8>) -> Seq<u8> {
    rec.subrange(0, 60)
}

/// Final black disc count minus final white disc count of a record.
pub open spec fn record_diff(rec: Seq<u8>) -> int {
    rec[62] - rec[63]
}

/// The class a walk carries after turn 0: freshly derived from the first move
/// when canonicalization is on, the incoming class otherwise.
pub open spec fn class_from_first_or(cls: Class, p: u8, canon: bool) -> Class {
    if canon {
        class_from_coords(p as int / 16, p as int % 16)
    } else {
        cls
    }
}

/// One record's walk of the tree, mirrored at the model level.
///
/// `moves` holds the not yet consumed move bytes, `turn` the index of the
/// node the walk stands at. A node is updated whenever the walk reaches it
/// below the turn limit with moves left; the walk descends further unless the
/// next byte is the sentinel, remapping the byte through the symmetry class
/// chosen at turn 0 when canonicalization is on.
pub open spec fn insert_at(
    t: NodeModel,
    moves: Seq<u8>,
    diff: int,
    turn: nat,
    limit: nat,
    cls: Class,
    canon: bool,
) -> NodeModel
    decreases moves.len(), 0int,
{
    if turn >= limit || moves.len() == 0 {
        t
    } else {
        let p = moves[0];
        let t1 = NodeModel { children: t.children, sum: t.sum + diff, plays: t.plays + 1 };
        if p == SENTINEL {
            t1
        } else {
            let cls2 = if turn == 0 {
                class_from_first_or(cls, p, canon)
            } else {
                cls
            };
            let q = if canon {
                apply_class(cls2, p)
            } else {
                p
            };
            NodeModel {
                children: step_children(
                    t1.children,
                    moves.skip(1),
                    q,
                    diff,
                    (turn + 1) as nat,
                    limit,
                    cls2,
                    canon,
                ),
                ..t1
            }
        }
    }
}

/// What one record step does to a node's child sequence: the child keyed `q`
/// (created empty when absent) absorbs the rest of the record from the next
/// turn on.
pub open spec fn step_children(
    children: Seq<(u8, NodeModel)>,
    rest: Seq<u8>,
    q: u8,
    diff: int,
    turn: nat,
    limit: nat,
    cls: Class,
    canon: bool,
) -> Seq<(u8, NodeModel)>
    decreases rest.len(), 1int,
{
    let keys = keys_of(children);
    if keys.contains(q) {
        let j = keys.index_of(q);
        children.update(j, (q, insert_at(children[j].1, rest, diff, turn, limit, cls, canon)))
    } else {
        children.push((q, insert_at(empty_node(), rest, diff, turn, limit, cls, canon)))
    }
}

/// Well-formedness of a node model, with depth budget `d`: child keys are
/// distinct, the score total is bounded by the play count, play counts do not
/// grow downward, and no child exists once the budget is exhausted.
pub open spec fn wf_node(t: NodeModel, d: nat) -> bool
    decreases d,
{
    &&& keys_of(t.children).no_duplicates()
    &&& -255 * t.plays <= t.sum <= 255 * t.plays
    &&& (d == 0 ==> t.children.len() == 0)
    &&& forall|i: int|
        0 <= i < t.children.len()
            ==> (#[trigger] t.children[i]).1.plays <= t.plays && d > 0 && wf_node(
                t.children[i].1,
                (d - 1) as nat,
            )
}

/// An untouched node is well formed at every depth budget.
pub proof fn lemma_wf_empty(d: nat)
    ensures
        wf_node(empty_node(), d),
{
    assert(keys_of(empty_node().children) =~= Seq::<u8>::empty());
}

/// One record's walk keeps a node well formed within the same depth budget
/// and raises its play count by at most one.
pub proof fn lemma_insert_wf(
    t: NodeModel,
    moves: Seq<u8>,
    diff: int,
    turn: nat,
    limit: nat,
    cls: Class,
    canon: bool,
    d: nat,
)
    requires
        wf_node(t, d),
        moves.len() <= d,
        -255 <= diff <= 255,
    ensures
        wf_node(insert_at(t, moves, diff, turn, limit, cls, canon), d),
        t.plays <= insert_at(t, moves, diff, turn, limit, cls, canon).plays <= t.plays + 1,
    decreases moves.len(),
{
    let r = insert_at(t, moves, diff, turn, limit, cls, canon);
    if turn >= limit || moves.len() == 0 {
    } else {
        let p = moves[0];
        let t1 = NodeModel { children: t.children, sum: t.sum + diff, plays: t.plays + 1 };
        if p == SENTINEL {
        } else {
            let cls2 = if turn == 0 {
                class_from_first_or(cls, p, canon)
            } else {
                cls
            };
            let q = if canon {
                apply_class(cls2, p)
            } else {
                p
            };
            let keys = keys_of(t.children);
            let rest = moves.skip(1);
            if keys.contains(q) {
                let j = keys.index_of(q);
                assert(0 <= j < keys.len() && keys[j] == q);
                assert(t.children[j].1.plays <= t.plays);
                assert(wf_node(t.children[j].1, (d - 1) as nat));
                lemma_insert_wf(t.children[j].1, rest, diff, turn + 1, limit, cls2, canon,
                    (d - 1) as nat);
                let sub = insert_at(t.children[j].1, rest, diff, turn + 1, limit, cls2, canon);
                assert(r.children =~= t.children.update(j, (q, sub)));
                assert(keys_of(r.children) =~= keys);
                assert forall|i: int| 0 <= i < r.children.len() implies (#[trigger] r.children[i]).1.plays
                    <= r.plays && d > 0 && wf_node(r.children[i].1, (d - 1) as nat) by {
                    assert(t.children[i].1.plays <= t.plays);
                    assert(wf_node(t.children[i].1, (d - 1) as nat));
                }
            } else {
                lemma_wf_empty((d - 1) as nat);
                lemma_insert_wf(empty_node(), rest, diff, turn + 1, limit, cls2, canon,
                    (d - 1) as nat);
                let sub = insert_at(empty_node(), rest, diff, turn + 1, limit, cls2, canon);
                assert(r.children =~= t.children.push((q, sub)));
                assert(keys_of(r.children) =~= keys.push(q));
                assert(keys_of(r.children).no_duplicates()) by {
                    assert(forall|i: int| 0 <= i < keys.len() ==> keys[i] != q);
                }
                assert forall|i: int| 0 <= i < r.children.len() implies (#[trigger] r.children[i]).1.plays
                    <= r.plays && d > 0 && wf_node(r.children[i].1, (d - 1) as nat) by {
                    if i < t.children.len() {
                        assert(t.children[i].1.plays <= t.plays);
                        assert(wf_node(t.children[i].1, (d - 1) as nat));
                    } else {
                        assert(r.children[i] == (q, sub));
                        assert(sub.plays <= 1);
                    }
                }
            }
        }
    }
}

/// A move-prefix tree: children in first-insertion order with the move code
/// as key, an exact integer score total, and a play counter. The average
/// score of a node is `score_sum / plays`; keeping the two parts exact leaves
/// the division to the moment the tree is serialized.
pub struct GameTree {
    pub children: Vec<(u8, GameTree)>,
    pub score_sum: i64,
    pub plays: u64,
}

impl GameTree {
    /// The mathematical model of the node and everything below it, cut off
    /// below depth `d`.
    pub open spec fn model_to(self, d: nat) -> NodeModel
        decreases d,
    {
        NodeModel {
            children: Seq::new(
                self.children@.len(),
                |i: int|
                    (
                        self.children@[i].0,
                        if d == 0 {
                            empty_node()
                        } else {
                            self.children@[i].1.model_to((d - 1) as nat)
                        },
                    ),
            ),
            sum: self.score_sum as int,
            plays: self.plays as nat,
        }
    }

    /// The model of the whole tree. Records hold 60 moves, so no tree the
    /// builder makes is deeper than 60 and the cutoff never loses a node.
    pub open spec fn model(self) -> NodeModel {
        self.model_to(60)
    }

    /// The tree's invariant.
    pub open spec fn wf(self) -> bool {
        wf_node(self.model(), 60)
    }

    /// A tree holding only the root, visited by no record yet.
    pub fn new() -> (t: GameTree)
        ensures
            t.children@.len() == 0,
            t.score_sum == 0,
            t.plays == 0,
            t.model() == empty_node(),
            t.wf(),
    {
        let t = GameTree { children: Vec::new(), score_sum: 0, plays: 0 };
        proof {
            lemma_model_empty(t, 60);
            lemma_wf_empty(60);
        }
        t
    }

    /// Ingests one 64-byte record: walks the tree along the record's
    /// (canonicalized) move prefix up to `limit` turns, adding the record's
    /// differential to every visited node's score total, and creating the
    /// branch where it does not exist yet.
    pub fn add_play(&mut self, buf: &[u8], limit: u32, canonicalize: bool)
        requires
            buf@.len() == 64,
            forall|k: int| 0 <= k < 60 ==> valid_move_byte(#[trigger] buf@[k]),
            old(self).wf(),
            old(self).plays < MAX_PLAYS,
        ensures
            final(self).model() == insert_at(
                old(self).model(),
                record_moves(buf@),
                record_diff(buf@),
                0,
                limit as nat,
                Class::Identity,
                canonicalize,
            ),
            final(self).wf(),
            old(self).plays <= final(self).plays <= old(self).plays + 1,
    {
        let diff: i64 = buf[62] as i64 - buf[63] as i64;
        let ghost moves = record_moves(buf@);
        let ghost t0 = self.model();
        let ghost target = insert_at(t0, moves, diff as int, 0, limit as nat, Class::Identity,
            canonicalize);
        proof {
            lemma_insert_wf(t0, moves, diff as int, 0, limit as nat, Class::Identity,
                canonicalize, 60);
        }
        if limit == 0 {
            return ;
        }
        assert(moves.len() == 60);
        let p = buf[0];
        assert(p == moves[0]);
        self.score_sum = self.score_sum + diff;
        self.plays = self.plays + 1;
        assert(self.model().children =~= t0.children);
        if p == SENTINEL {
            assert(self.model() =~= target);
            return ;
        }
        let mut tr = Transform::new();
        let ghost cls = class_from_first_or(Class::Identity, p, canonicalize);
        let q: u8 = if canonicalize {
            tr.init(p / 16, p % 16);
            tr.get(p)
        } else {
            p
        };
        proof {
            assert(valid_move_byte(p) && p != SENTINEL);
            assert(canonicalize ==> q == apply_class(cls, p));
            assert(moves.skip(1) =~= buf@.subrange(1, 60));
            assert(target.children == step_children(self.model().children, buf@.subrange(1, 60),
                q, diff as int, 1, limit as nat, cls, canonicalize));
        }
        self.enter_child(buf, 1, q, diff, &tr, Ghost(cls), limit, canonicalize, Ghost(60nat),
            Ghost(target));
    }

    /// Finds or creates the child keyed `q` and lets the record's remaining
    /// moves, starting at index `next`, descend into it. `self`'s own score
    /// was already updated with the record; `target` names the model the
    /// caller owes: a node like the current one whose child sequence took the
    /// record's step.
    fn enter_child(
        &mut self,
        buf: &[u8],
        next: usize,
        q: u8,
        diff: i64,
        tr: &Transform,
        Ghost(cls): Ghost<Class>,
        limit: u32,
        canonicalize: bool,
        Ghost(d): Ghost<nat>,
        Ghost(target): Ghost<NodeModel>,
    )
        requires
            buf@.len() == 64,
            1 <= next <= 60,
            forall|k: int| next <= k < 60 ==> valid_move_byte(#[trigger] buf@[k]),
            -255 <= diff <= 255,
            d >= 61 - next,
            keys_of(old(self).model_to(d).children).no_duplicates(),
            forall|i: int|
                0 <= i < old(self).children@.len() ==> wf_node(
                    (#[trigger] old(self).model_to(d).children[i]).1,
                    (d - 1) as nat,
                ) && old(self).model_to(d).children[i].1.plays < MAX_PLAYS,
            canonicalize ==> tr.is_init_for(cls),
            target.sum == old(self).score_sum as int,
            target.plays == old(self).plays as nat,
            target.children == step_children(
                old(self).model_to(d).children,
                buf@.subrange(next as int, 60),
                q,
                diff as int,
                next as nat,
                limit as nat,
                cls,
                canonicalize,
            ),
        ensures
            final(self).model_to(d) == target,
        decreases 60 - next, 1int,
    {
        let n = self.children.len();
        let ghost pre = *self;
        let mut j: usize = 0;
        while j < n && self.children[j].0 != q
            invariant
                *self == pre,
                j <= n,
                n == self.children@.len(),
                forall|k: int| 0 <= k < j ==> (#[trigger] self.children@[k]).0 != q,
            decreases n - j,
        {
            j = j + 1;
        }
        let ghost cm = pre.model_to(d).children;
        let ghost keys = keys_of(cm);
        proof {
            assert(keys.len() == cm.len() && cm.len() == pre.children@.len());
            assert(forall|k: int|
                0 <= k < keys.len() ==> keys[k] == (#[trigger] cm[k]).0 && cm[k].0
                    == pre.children@[k].0 && cm[k].1 == pre.children@[k].1.model_to(
                    (d - 1) as nat,
                ));
        }
        if j < n {
            // The move's child exists: descend into it in place.
            proof {
                assert(keys[j as int] == q);
                assert(keys.contains(q));
                let j2 = keys.index_of(q);
                assert(0 <= j2 < keys.len() && keys[j2] == q);
                assert(j2 == j as int);
            }
            let pair = self.children.remove(j);
            let k0 = pair.0;
            let mut child = pair.1;
            child.descend(buf, next, diff, tr, Ghost(cls), limit, canonicalize,
                Ghost((d - 1) as nat));
            self.children.insert(j, (k0, child));
            proof {
                assert(self.children@ =~= pre.children@.update(j as int, (k0, child)));
                assert(self.model_to(d).children =~= target.children);
                assert(self.model_to(d) =~= target);
            }
        } else {
            // First time this move is seen here: create the branch.
            proof {
                assert(forall|k: int| 0 <= k < keys.len() ==> keys[k] != q);
                assert(!keys.contains(q));
                lemma_wf_empty((d - 1) as nat);
            }
            let mut child = GameTree::new();
            proof {
                lemma_model_empty(child, (d - 1) as nat);
            }
            child.descend(buf, next, diff, tr, Ghost(cls), limit, canonicalize,
                Ghost((d - 1) as nat));
            self.children.push((q, child));
            proof {
                assert(self.children@ =~= pre.children@.push((q, child)));
                assert(self.model_to(d).children =~= target.children);
                assert(self.model_to(d) =~= target);
            }
        }
    }

    /// Continues one record's walk at turn `i >= 1`: updates this node's
    /// score total with the record's differential and carries the walk on
    /// into the child for the next move, exactly as the model walk does.
    fn descend(
        &mut self,
        buf: &[u8],
        i: usize,
        diff: i64,
        tr: &Transform,
        Ghost(cls): Ghost<Class>,
        limit: u32,
        canonicalize: bool,
        Ghost(d): Ghost<nat>,
    )
        requires
            buf@.len() == 64,
            1 <= i <= 60,
            forall|k: int| i <= k < 60 ==> valid_move_byte(#[trigger] buf@[k]),
            -255 <= diff <= 255,
            wf_node(old(self).model_to(d), d),
            old(self).plays < MAX_PLAYS,
            d >= 60 - i,
            canonicalize ==> tr.is_init_for(cls),
        ensures
            final(self).model_to(d) == insert_at(
                old(self).model_to(d),
                buf@.subrange(i as int, 60),
                diff as int,
                i as nat,
                limit as nat,
                cls,
                canonicalize,
            ),
        decreases 60 - i, 0int,
    {
        let ghost t0 = old(self).model_to(d);
        let ghost moves = buf@.subrange(i as int, 60);
        let ghost target = insert_at(t0, moves, diff as int, i as nat, limit as nat, cls,
            canonicalize);
        if i >= limit as usize || i == 60 {
            assert(self.model_to(d) == t0);
            assert(target == t0);
            return ;
        }
        let p = buf[i];
        assert(p == moves[0]);
        self.score_sum = self.score_sum + diff;
        self.plays = self.plays + 1;
        assert(self.model_to(d).children =~= t0.children);
        if p == SENTINEL {
            assert(self.model_to(d) =~= target);
            return ;
        }
        let q: u8 = if canonicalize {
            tr.get(p)
        } else {
            p
        };
        proof {
            assert(valid_move_byte(p) && p != SENTINEL);
            assert(canonicalize ==> q == apply_class(cls, p));
            assert(moves.skip(1) =~= buf@.subrange(i + 1, 60));
            assert(target.children == step_children(self.model_to(d).children,
                buf@.subrange(i + 1, 60), q, diff as int, (i + 1) as nat, limit as nat, cls,
                canonicalize));
        }
        self.enter_child(buf, i + 1, q, diff, tr, Ghost(cls), limit, canonicalize, Ghost(d),
            Ghost(target));
    }
}

/// An empty tree value models the untouched node at every depth budget.
pub proof fn lemma_model_empty(t: GameTree, d: nat)
    requires
        t.children@.len() == 0,
        t.score_sum == 0,
        t.plays == 0,
    ensures
        t.model_to(d) == empty_node(),
{
    assert(t.model_to(d).children =~= empty_node().children);
    assert(t.model_to(d) =~= empty_node());
}


/// A larger depth budget keeps a node well formed.
pub proof fn lemma_wf_mono(m: NodeModel, d1: nat, d2: nat)
    requires
        wf_node(m, d1),
        d1 <= d2,
    ensures
        wf_node(m, d2),
    decreases d1,
{
    if d1 == 0 {
        assert(m.children.len() == 0);
    } else {
        assert forall|i: int| 0 <= i < m.children.len() implies (#[trigger] m.children[i]).1.plays
            <= m.plays && d2 > 0 && wf_node(m.children[i].1, (d2 - 1) as nat) by {
            assert(wf_node(m.children[i].1, (d1 - 1) as nat));
            lemma_wf_mono(m.children[i].1, (d1 - 1) as nat, (d2 - 1) as nat);
        }
    }
}

/// Once a tree is well formed within budget `d1`, deeper budgets see the very
/// same model: the cutoff never reaches a real node.
pub proof fn lemma_model_stable(t: GameTree, d1: nat, d2: nat)
    requires
        wf_node(t.model_to(d1), d1),
        d1 <= d2,
    ensures
        t.model_to(d2) == t.model_to(d1),
    decreases d1,
{
    let m1 = t.model_to(d1);
    let m2 = t.model_to(d2);
    if d1 == 0 {
        assert(m1.children.len() == 0);
        assert(t.children@.len() == 0);
        assert(m2.children =~= m1.children);
        assert(m2 =~= m1);
    } else {
        assert forall|i: int| 0 <= i < m2.children.len() implies m2.children[i]
            == m1.children[i] by {
            assert(wf_node((#[trigger] m1.children[i]).1, (d1 - 1) as nat));
            assert(m1.children[i].1 == t.children@[i].1.model_to((d1 - 1) as nat));
            lemma_model_stable(t.children@[i].1, (d1 - 1) as nat, (d2 - 1) as nat);
        }
        assert(m2.children =~= m1.children);
        assert(m2 =~= m1);
    }
}

/// How many nodes a tree holds, the node itself included.
pub open spec fn count_tree(t: GameTree) -> nat
    decreases t, 1int, 0int,
{
    1 + count_front(t, t.children@.len() as int)
}

/// Total node count of the first `i` children of `t`.
pub open spec fn count_front(t: GameTree, i: int) -> nat
    decreases t, 0int, i,
{
    if i <= 0 || i > t.children@.len() {
        0
    } else {
        count_front(t, i - 1) + count_tree(t.children@[i - 1].1)
    }
}


/// The sequence of child keys one record's walk visits or creates: its moves
/// up to the turn limit, the end of the record or the sentinel, each remapped
/// through the symmetry class in force.
pub open spec fn canon_path(moves: Seq<u8>, turn: nat, limit: nat, cls: Class, canon: bool) -> Seq<
    u8,
>
    decreases moves.len(),
{
    if turn >= limit || moves.len() == 0 || moves[0] == SENTINEL {
        Seq::empty()
    } else {
        let cls2 = if turn == 0 {
            class_from_first_or(cls, moves[0], canon)
        } else {
            cls
        };
        let q = if canon {
            apply_class(cls2, moves[0])
        } else {
            moves[0]
        };
        seq![q] + canon_path(moves.skip(1), turn + 1, limit, cls2, canon)
    }
}

/// Whether the walk of `moves` updates the node at relative path `p`: the
/// walk reaches it (so `p` follows the canonical moves) with moves left and
/// below the turn limit.
pub open spec fn visits(
    moves: Seq<u8>,
    turn: nat,
    limit: nat,
    cls: Class,
    canon: bool,
    p: Seq<u8>,
) -> bool
    decreases moves.len(),
{
    if turn >= limit || moves.len() == 0 {
        false
    } else if p.len() == 0 {
        true
    } else if moves[0] == SENTINEL {
        false
    } else {
        let cls2 = if turn == 0 {
            class_from_first_or(cls, moves[0], canon)
        } else {
            cls
        };
        let q = if canon {
            apply_class(cls2, moves[0])
        } else {
            moves[0]
        };
        p[0] == q && visits(moves.skip(1), turn + 1, limit, cls2, canon, p.skip(1))
    }
}

/// Score total and play count of the node at path `p`; `(0, 0)` where no
/// node stands.
pub open spec fn val_at(t: NodeModel, p: Seq<u8>) -> (int, nat)
    decreases p.len(),
{
    if p.len() == 0 {
        (t.sum, t.plays)
    } else {
        let keys = keys_of(t.children);
        if keys.contains(p[0]) {
            val_at(t.children[keys.index_of(p[0])].1, p.skip(1))
        } else {
            (0, 0)
        }
    }
}

/// Whether a node stands at path `p`.
pub open spec fn node_exists(t: NodeModel, p: Seq<u8>) -> bool
    decreases p.len(),
{
    if p.len() == 0 {
        true
    } else {
        let keys = keys_of(t.children);
        keys.contains(p[0]) && node_exists(t.children[keys.index_of(p[0])].1, p.skip(1))
    }
}

/// A node no record visited scores `(0, 0)` everywhere.
pub proof fn lemma_val_empty(p: Seq<u8>)
    ensures
        val_at(empty_node(), p) == (0int, 0nat),
{
    if p.len() > 0 {
        assert(keys_of(empty_node().children) =~= Seq::<u8>::empty());
    }
}

/// One record's walk adds its differential once to the score total, and one
/// to the play count, of exactly the nodes it visits, and touches no other
/// node's statistics.
pub proof fn lemma_insert_val(
    t: NodeModel,
    moves: Seq<u8>,
    diff: int,
    turn: nat,
    limit: nat,
    cls: Class,
    canon: bool,
    p: Seq<u8>,
    d: nat,
)
    requires
        wf_node(t, d),
        moves.len() <= d,
    ensures
        ({
            let r = insert_at(t, moves, diff, turn, limit, cls, canon);
            let v = visits(moves, turn, limit, cls, canon, p);
            val_at(r, p).0 == val_at(t, p).0 + if v {
                diff
            } else {
                0
            } && val_at(r, p).1 == val_at(t, p).1 + if v {
                1nat
            } else {
                0nat
            }
        }),
    decreases moves.len(),
{
    let r = insert_at(t, moves, diff, turn, limit, cls, canon);
    let v = visits(moves, turn, limit, cls, canon, p);
    if turn >= limit || moves.len() == 0 {
    } else if p.len() == 0 {
    } else if moves[0] == SENTINEL {
        assert(r.children == t.children);
    } else {
        let cls2 = if turn == 0 {
            class_from_first_or(cls, moves[0], canon)
        } else {
            cls
        };
        let q = if canon {
            apply_class(cls2, moves[0])
        } else {
            moves[0]
        };
        let keys = keys_of(t.children);
        let rest = moves.skip(1);
        if keys.contains(q) {
            let j = keys.index_of(q);
            assert(0 <= j < keys.len() && keys[j] == q);
            let sub = insert_at(t.children[j].1, rest, diff, turn + 1, limit, cls2, canon);
            assert(r.children == t.children.update(j, (q, sub)));
            assert(keys_of(r.children) =~= keys);
            if p[0] == q {
                assert(wf_node(t.children[j].1, (d - 1) as nat));
                lemma_insert_val(t.children[j].1, rest, diff, turn + 1, limit, cls2, canon,
                    p.skip(1), (d - 1) as nat);
                assert(val_at(r, p) == val_at(sub, p.skip(1)));
                assert(val_at(t, p) == val_at(t.children[j].1, p.skip(1)));
            } else {
                if keys.contains(p[0]) {
                    let j2 = keys.index_of(p[0]);
                    assert(keys[j2] == p[0]);
                    assert(j2 != j);
                    assert(r.children[j2] == t.children[j2]);
                    assert(val_at(r, p) == val_at(t.children[j2].1, p.skip(1)));
                    assert(val_at(t, p) == val_at(t.children[j2].1, p.skip(1)));
                }
            }
        } else {
            let sub = insert_at(empty_node(), rest, diff, turn + 1, limit, cls2, canon);
            assert(r.children == t.children.push((q, sub)));
            let rkeys = keys_of(r.children);
            assert(rkeys =~= keys.push(q));
            if p[0] == q {
                assert(rkeys[keys.len() as int] == q);
                assert(rkeys.contains(q));
                let j2 = rkeys.index_of(q);
                assert(rkeys[j2] == q);
                if j2 < keys.len() {
                    assert(keys[j2] == rkeys[j2]);
                    assert(false);
                }
                assert(j2 == keys.len());
                assert(val_at(r, p) == val_at(sub, p.skip(1)));
                lemma_wf_empty((d - 1) as nat);
                lemma_insert_val(empty_node(), rest, diff, turn + 1, limit, cls2, canon,
                    p.skip(1), (d - 1) as nat);
                lemma_val_empty(p.skip(1));
            } else {
                if keys.contains(p[0]) {
                    let j2 = keys.index_of(p[0]);
                    assert(keys[j2] == p[0]);
                    assert(rkeys[j2] == p[0]);
                    assert(rkeys.contains(p[0]));
                    let j3 = rkeys.index_of(p[0]);
                    assert(rkeys[j3] == p[0]);
                    if j3 < keys.len() {
                        assert(keys[j3] == p[0]);
                        assert(keys.no_duplicates());
                        assert(j3 == j2);
                    } else {
                        assert(rkeys[j3] == q);
                        assert(false);
                    }
                    assert(r.children[j2] == t.children[j2]);
                    assert(val_at(r, p) == val_at(t.children[j2].1, p.skip(1)));
                    assert(val_at(t, p) == val_at(t.children[j2].1, p.skip(1)));
                } else {
                    assert forall|i: int| 0 <= i < rkeys.len() implies rkeys[i] != p[0] by {
                        if i < keys.len() {
                            assert(rkeys[i] == keys[i]);
                        } else {
                            assert(rkeys[i] == q);
                        }
                    }
                    assert(!rkeys.contains(p[0]));
                }
            }
        }
    }
}

/// The tree built by a record sequence, starting from `t`.
pub open spec fn ingest(t: NodeModel, recs: Seq<Seq<u8>>, limit: nat, canon: bool) -> NodeModel
    decreases recs.len(),
{
    if recs.len() == 0 {
        t
    } else {
        ingest(
            insert_at(
                t,
                record_moves(recs[0]),
                record_diff(recs[0]),
                0,
                limit,
                Class::Identity,
                canon,
            ),
            recs.skip(1),
            limit,
            canon,
        )
    }
}

/// Sum of the differentials of the records whose walk visits path `p`.
pub open spec fn visit_sum(recs: Seq<Seq<u8>>, limit: nat, canon: bool, p: Seq<u8>) -> int
    decreases recs.len(),
{
    if recs.len() == 0 {
        0
    } else {
        (if visits(record_moves(recs[0]), 0, limit, Class::Identity, canon, p) {
            record_diff(recs[0])
        } else {
            0
        }) + visit_sum(recs.skip(1), limit, canon, p)
    }
}

/// How many records' walks visit path `p`.
pub open spec fn visit_count(recs: Seq<Seq<u8>>, limit: nat, canon: bool, p: Seq<u8>) -> nat
    decreases recs.len(),
{
    if recs.len() == 0 {
        0
    } else {
        (if visits(record_moves(recs[0]), 0, limit, Class::Identity, canon, p) {
            1nat
        } else {
            0nat
        }) + visit_count(recs.skip(1), limit, canon, p)
    }
}

/// The averaging invariant: after ingesting any record sequence, the node at
/// any path `p` carries exactly the sum of the differentials of the records
/// that passed through it and their number — its score, `sum / plays`, is
/// their mean.
pub proof fn lemma_averaging(
    t: NodeModel,
    recs: Seq<Seq<u8>>,
    limit: nat,
    canon: bool,
    p: Seq<u8>,
    d: nat,
)
    requires
        wf_node(t, d),
        60 <= d,
        forall|i: int| 0 <= i < recs.len() ==> (#[trigger] recs[i]).len() == 64,
    ensures
        val_at(ingest(t, recs, limit, canon), p).0 == val_at(t, p).0 + visit_sum(
            recs,
            limit,
            canon,
            p,
        ),
        val_at(ingest(t, recs, limit, canon), p).1 == val_at(t, p).1 + visit_count(
            recs,
            limit,
            canon,
            p,
        ),
    decreases recs.len(),
{
    if recs.len() == 0 {
    } else {
        let moves = record_moves(recs[0]);
        let diff = record_diff(recs[0]);
        assert(recs[0].len() == 64);
        assert(moves.len() == 60);
        assert(-255 <= diff <= 255);
        let t1 = insert_at(t, moves, diff, 0, limit, Class::Identity, canon);
        lemma_insert_val(t, moves, diff, 0, limit, Class::Identity, canon, p, d);
        lemma_insert_wf(t, moves, diff, 0, limit, Class::Identity, canon, d);
        lemma_averaging(t1, recs.skip(1), limit, canon, p, d);
    }
}

/// The depth bound: a record's walk only updates nodes strictly below the
/// turn limit.
pub proof fn lemma_visits_below_limit(
    moves: Seq<u8>,
    turn: nat,
    limit: nat,
    cls: Class,
    canon: bool,
    p: Seq<u8>,
)
    ensures
        visits(moves, turn, limit, cls, canon, p) ==> turn + p.len() < limit,
    decreases moves.len(),
{
    if turn >= limit || moves.len() == 0 {
    } else if p.len() == 0 {
    } else if moves[0] == SENTINEL {
    } else {
        let cls2 = if turn == 0 {
            class_from_first_or(cls, moves[0], canon)
        } else {
            cls
        };
        lemma_visits_below_limit(moves.skip(1), turn + 1, limit, cls2, canon, p.skip(1));
    }
}

/// The depth bound, creation side: beyond the turn limit a record's walk
/// creates no node — whatever stands deeper than `limit` stood there before.
pub proof fn lemma_no_node_beyond_limit(
    t: NodeModel,
    moves: Seq<u8>,
    diff: int,
    turn: nat,
    limit: nat,
    cls: Class,
    canon: bool,
    p: Seq<u8>,
    d: nat,
)
    requires
        wf_node(t, d),
        moves.len() <= d,
        turn + p.len() > limit,
    ensures
        node_exists(insert_at(t, moves, diff, turn, limit, cls, canon), p) == node_exists(t, p),
{
    lemma_insert_creates(t, moves, diff, turn, limit, cls, canon, p, d);
    lemma_canon_path_len(moves, turn, limit, cls, canon);
}

/// A canonical path is never longer than the record or the turns left below
/// the limit.
pub proof fn lemma_canon_path_len(moves: Seq<u8>, turn: nat, limit: nat, cls: Class, canon: bool)
    ensures
        canon_path(moves, turn, limit, cls, canon).len() <= moves.len(),
        turn >= limit ==> canon_path(moves, turn, limit, cls, canon).len() == 0,
        turn < limit ==> turn + canon_path(moves, turn, limit, cls, canon).len() <= limit,
    decreases moves.len(),
{
    if turn >= limit || moves.len() == 0 || moves[0] == SENTINEL {
    } else {
        let cls2 = if turn == 0 {
            class_from_first_or(cls, moves[0], canon)
        } else {
            cls
        };
        lemma_canon_path_len(moves.skip(1), turn + 1, limit, cls2, canon);
    }
}

/// What one record's walk creates: afterwards a node stands at `p` exactly
/// when one stood there before or `p` is a nonempty prefix of the record's
/// canonical path.
pub proof fn lemma_insert_creates(
    t: NodeModel,
    moves: Seq<u8>,
    diff: int,
    turn: nat,
    limit: nat,
    cls: Class,
    canon: bool,
    p: Seq<u8>,
    d: nat,
)
    requires
        wf_node(t, d),
        moves.len() <= d,
    ensures
        ({
            let cp = canon_path(moves, turn, limit, cls, canon);
            node_exists(insert_at(t, moves, diff, turn, limit, cls, canon), p) <==> node_exists(
                t,
                p,
            ) || (1 <= p.len() <= cp.len() && p == cp.take(p.len() as int))
        }),
    decreases moves.len(),
{
    let r = insert_at(t, moves, diff, turn, limit, cls, canon);
    let cp = canon_path(moves, turn, limit, cls, canon);
    if turn >= limit || moves.len() == 0 {
    } else if moves[0] == SENTINEL {
        assert(r.children == t.children);
        if p.len() > 0 {
        }
    } else {
        let cls2 = if turn == 0 {
            class_from_first_or(cls, moves[0], canon)
        } else {
            cls
        };
        let q = if canon {
            apply_class(cls2, moves[0])
        } else {
            moves[0]
        };
        let cpr = canon_path(moves.skip(1), turn + 1, limit, cls2, canon);
        assert(cp == seq![q] + cpr);
        assert(cp[0] == q);
        let keys = keys_of(t.children);
        let rest = moves.skip(1);
        if p.len() == 0 {
        } else {
            let pr = p.skip(1);
            if p[0] == q {
                assert((1 <= p.len() <= cp.len() && p == cp.take(p.len() as int)) <==> pr.len()
                    <= cpr.len() && pr == cpr.take(pr.len() as int)) by {
                    if 1 <= p.len() <= cp.len() && p == cp.take(p.len() as int) {
                        assert forall|i: int| 0 <= i < pr.len() implies pr[i] == cpr.take(
                            pr.len() as int,
                        )[i] by {
                            assert(pr[i] == p[i + 1]);
                            assert(p[i + 1] == cp[i + 1]);
                            assert(cp[i + 1] == cpr[i]);
                        }
                        assert(pr =~= cpr.take(pr.len() as int));
                    }
                    if pr.len() <= cpr.len() && pr == cpr.take(pr.len() as int) {
                        assert forall|i: int| 0 <= i < p.len() implies p[i] == cp.take(
                            p.len() as int,
                        )[i] by {
                            if i >= 1 {
                                assert(p[i] == pr[i - 1]);
                                assert(pr[i - 1] == cpr[i - 1]);
                                assert(cp[i] == cpr[i - 1]);
                            }
                        }
                        assert(p =~= cp.take(p.len() as int));
                    }
                }
            }
            if keys.contains(q) {
                let j = keys.index_of(q);
                assert(0 <= j < keys.len() && keys[j] == q);
                let sub = insert_at(t.children[j].1, rest, diff, turn + 1, limit, cls2, canon);
                assert(r.children == t.children.update(j, (q, sub)));
                assert(keys_of(r.children) =~= keys);
                if p[0] == q {
                    assert(wf_node(t.children[j].1, (d - 1) as nat));
                    lemma_insert_creates(t.children[j].1, rest, diff, turn + 1, limit, cls2,
                        canon, pr, (d - 1) as nat);
                    assert(node_exists(r, p) == node_exists(sub, pr));
                    assert(node_exists(t, p) == node_exists(t.children[j].1, pr));
                } else {
                    if keys.contains(p[0]) {
                        let j2 = keys.index_of(p[0]);
                        assert(keys[j2] == p[0]);
                        assert(j2 != j);
                        assert(r.children[j2] == t.children[j2]);
                    }
                    assert(!(1 <= p.len() <= cp.len() && p == cp.take(p.len() as int))) by {
                        if 1 <= p.len() <= cp.len() && p == cp.take(p.len() as int) {
                            assert(p[0] == cp[0]);
                        }
                    }
                }
            } else {
                let sub = insert_at(empty_node(), rest, diff, turn + 1, limit, cls2, canon);
                assert(r.children == t.children.push((q, sub)));
                let rkeys = keys_of(r.children);
                assert(rkeys =~= keys.push(q));
                if p[0] == q {
                    assert(rkeys[keys.len() as int] == q);
                    assert(rkeys.contains(q));
                    let j2 = rkeys.index_of(q);
                    assert(rkeys[j2] == q);
                    if j2 < keys.len() {
                        assert(keys[j2] == rkeys[j2]);
                        assert(false);
                    }
                    assert(node_exists(r, p) == node_exists(sub, pr));
                    lemma_wf_empty((d - 1) as nat);
                    lemma_insert_creates(empty_node(), rest, diff, turn + 1, limit, cls2, canon,
                        pr, (d - 1) as nat);
                    assert(!keys.contains(p[0]));
                    assert(!node_exists(t, p));
                    if pr.len() > 0 {
                        assert(!keys_of(empty_node().children).contains(pr[0])) by {
                            assert(keys_of(empty_node().children) =~= Seq::<u8>::empty());
                        }
                        assert(!node_exists(empty_node(), pr));
                    } else {
                        assert(node_exists(empty_node(), pr));
                        assert(p =~= cp.take(p.len() as int));
                    }
                } else {
                    assert(!(1 <= p.len() <= cp.len() && p == cp.take(p.len() as int))) by {
                        if 1 <= p.len() <= cp.len() && p == cp.take(p.len() as int) {
                            assert(p[0] == cp[0]);
                        }
                    }
                    if keys.contains(p[0]) {
                        let j2 = keys.index_of(p[0]);
                        assert(keys[j2] == p[0]);
                        assert(rkeys[j2] == p[0]);
                        assert(rkeys.contains(p[0]));
                        let j3 = rkeys.index_of(p[0]);
                        assert(rkeys[j3] == p[0]);
                        if j3 < keys.len() {
                            assert(keys[j3] == p[0]);
                            assert(j3 == j2);
                        } else {
                            assert(rkeys[j3] == q);
                            assert(false);
                        }
                        assert(r.children[j2] == t.children[j2]);
                    } else {
                        assert forall|i: int| 0 <= i < rkeys.len() implies rkeys[i] != p[0] by {
                            if i < keys.len() {
                                assert(rkeys[i] == keys[i]);
                            } else {
                                assert(rkeys[i] == q);
                            }
                        }
                        assert(!rkeys.contains(p[0]));
                    }
                }
            }
        }
    }
}

/// Sentinel handling: a record whose move `k` is the sentinel updates the
/// nodes at depths `0..=k` only — no node deeper than `k` is visited, and no
/// child is created for position `k` or beyond.
pub proof fn lemma_sentinel_cut(
    moves: Seq<u8>,
    turn: nat,
    limit: nat,
    cls: Class,
    canon: bool,
    p: Seq<u8>,
    k: int,
)
    requires
        0 <= k < moves.len(),
        moves[k] == SENTINEL,
        forall|i: int| 0 <= i < k ==> moves[i] != SENTINEL,
    ensures
        canon_path(moves, turn, limit, cls, canon).len() == if turn >= limit {
            0int
        } else if k <= limit - turn {
            k
        } else {
            limit - turn
        },
        visits(moves, turn, limit, cls, canon, p) ==> p.len() <= k,
    decreases moves.len(),
{
    if turn >= limit || moves.len() == 0 || moves[0] == SENTINEL {
    } else {
        let cls2 = if turn == 0 {
            class_from_first_or(cls, moves[0], canon)
        } else {
            cls
        };
        assert(k >= 1);
        assert(moves.skip(1)[k - 1] == SENTINEL);
        assert(forall|i: int| 0 <= i < k - 1 ==> moves.skip(1)[i] == moves[i + 1]);
        lemma_sentinel_cut(moves.skip(1), turn + 1, limit, cls2, canon, p.skip(1), k - 1);
    }
}


/// From turn 1 on the class is fixed: a game and its reflection, walked with
/// the correspondingly composed classes, trace the same canonical path and
/// visit the same nodes.
proof fn lemma_symmetric_same_path(
    moves1: Seq<u8>,
    moves2: Seq<u8>,
    sigma: Class,
    turn: nat,
    limit: nat,
    cls: Class,
    p: Seq<u8>,
)
    requires
        turn >= 1,
        moves1.len() == moves2.len(),
        forall|i: int| 0 <= i < moves1.len() ==> valid_move_byte(#[trigger] moves1[i]),
        forall|i: int|
            0 <= i < moves1.len() ==> moves2[i] == apply_class(sigma, #[trigger] moves1[i]),
    ensures
        canon_path(moves2, turn, limit, class_mul(cls, sigma), true) == canon_path(
            moves1,
            turn,
            limit,
            cls,
            true,
        ),
        visits(moves2, turn, limit, class_mul(cls, sigma), true, p) == visits(
            moves1,
            turn,
            limit,
            cls,
            true,
            p,
        ),
    decreases moves1.len(),
{
    if turn >= limit || moves1.len() == 0 {
    } else {
        lemma_apply_special(sigma, moves1[0]);
        if moves1[0] == SENTINEL {
        } else {
            lemma_apply_compose(class_mul(cls, sigma), sigma, moves1[0]);
            lemma_mul_cancel(cls, sigma);
            assert(apply_class(class_mul(cls, sigma), moves2[0]) == apply_class(
                cls,
                moves1[0],
            ));
            assert(forall|i: int|
                0 <= i < moves1.skip(1).len() ==> valid_move_byte(#[trigger] moves1.skip(1)[i]));
            assert(forall|i: int|
                0 <= i < moves1.skip(1).len() ==> moves2.skip(1)[i] == apply_class(
                    sigma,
                    #[trigger] moves1.skip(1)[i],
                ));
            lemma_symmetric_same_path(moves1.skip(1), moves2.skip(1), sigma, turn + 1, limit,
                cls, p.skip(1));
        }
    }
}

/// Canonicalization idempotence: a game opening with one of the four legal
/// first moves and its image under any of the four board symmetries trace
/// the same canonical tree path and visit exactly the same nodes.
pub proof fn lemma_symmetric_records(
    moves1: Seq<u8>,
    moves2: Seq<u8>,
    sigma: Class,
    limit: nat,
    p: Seq<u8>,
)
    requires
        moves1.len() == moves2.len(),
        moves1.len() >= 1,
        moves1[0] == 0x23 || moves1[0] == 0x32 || moves1[0] == 0x54 || moves1[0] == 0x45,
        forall|i: int| 0 <= i < moves1.len() ==> valid_move_byte(#[trigger] moves1[i]),
        forall|i: int|
            0 <= i < moves1.len() ==> moves2[i] == apply_class(sigma, #[trigger] moves1[i]),
    ensures
        canon_path(moves2, 0, limit, Class::Identity, true) == canon_path(
            moves1,
            0,
            limit,
            Class::Identity,
            true,
        ),
        visits(moves2, 0, limit, Class::Identity, true, p) == visits(
            moves1,
            0,
            limit,
            Class::Identity,
            true,
            p,
        ),
{
    if limit == 0 {
    } else {
        let m0 = moves1[0];
        assert(m0 != SENTINEL);
        lemma_apply_special(sigma, m0);
        let cls1 = class_from_first_or(Class::Identity, m0, true);
        let cls2 = class_from_first_or(Class::Identity, moves2[0], true);
        lemma_class_first_symmetric(sigma, m0);
        assert(cls2 == class_mul(cls1, sigma));
        lemma_apply_compose(cls2, sigma, m0);
        lemma_mul_cancel(cls1, sigma);
        assert(apply_class(cls2, moves2[0]) == apply_class(cls1, m0));
        assert(forall|i: int|
            0 <= i < moves1.skip(1).len() ==> valid_move_byte(#[trigger] moves1.skip(1)[i]));
        assert(forall|i: int|
            0 <= i < moves1.skip(1).len() ==> moves2.skip(1)[i] == apply_class(
                sigma,
                #[trigger] moves1.skip(1)[i],
            ));
        lemma_symmetric_same_path(moves1.skip(1), moves2.skip(1), sigma, 1, limit, cls1,
            p.skip(1));
    }
}

/// Ingesting a record and then its board-symmetric image raises one shared
/// path's play count by two (and its score total by both differentials)
/// instead of opening a second branch.
pub proof fn lemma_symmetric_merge(
    t: NodeModel,
    rec1: Seq<u8>,
    rec2: Seq<u8>,
    sigma: Class,
    limit: nat,
    p: Seq<u8>,
    d: nat,
)
    requires
        wf_node(t, d),
        60 <= d,
        rec1.len() == 64,
        rec2.len() == 64,
        record_moves(rec1)[0] == 0x23 || record_moves(rec1)[0] == 0x32 || record_moves(rec1)[0]
            == 0x54 || record_moves(rec1)[0] == 0x45,
        forall|i: int| 0 <= i < 60 ==> valid_move_byte(#[trigger] rec1[i]),
        forall|i: int| 0 <= i < 60 ==> rec2[i] == apply_class(sigma, #[trigger] rec1[i]),
    ensures
        ({
            let t2 = insert_at(
                insert_at(t, record_moves(rec1), record_diff(rec1), 0, limit, Class::Identity,
                    true),
                record_moves(rec2),
                record_diff(rec2),
                0,
                limit,
                Class::Identity,
                true,
            );
            let v = visits(record_moves(rec1), 0, limit, Class::Identity, true, p);
            val_at(t2, p).1 == val_at(t, p).1 + if v {
                2nat
            } else {
                0nat
            } && val_at(t2, p).0 == val_at(t, p).0 + if v {
                record_diff(rec1) + record_diff(rec2)
            } else {
                0
            }
        }),
{
    let m1 = record_moves(rec1);
    let m2 = record_moves(rec2);
    assert(forall|i: int| 0 <= i < 60 ==> valid_move_byte(#[trigger] m1[i]));
    assert(forall|i: int| 0 <= i < 60 ==> m2[i] == apply_class(sigma, #[trigger] m1[i]));
    lemma_symmetric_records(m1, m2, sigma, limit, p);
    let t1 = insert_at(t, m1, record_diff(rec1), 0, limit, Class::Identity, true);
    lemma_insert_val(t, m1, record_diff(rec1), 0, limit, Class::Identity, true, p, d);
    lemma_insert_wf(t, m1, record_diff(rec1), 0, limit, Class::Identity, true, d);
    lemma_insert_val(t1, m2, record_diff(rec2), 0, limit, Class::Identity, true, p, d);
}

} // verus!
