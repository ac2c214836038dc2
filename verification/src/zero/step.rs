//! One iteration of the search, in two halves: the walk down the tree that
//! ends in a request for an evaluation, and the way back up once the
//! evaluation has arrived.

use crate::zero::game::{GameBoard, Numeric, OutcomeWDL};
use crate::zero::node::Node;
use crate::zero::range::IdxRange;
use crate::zero::tree::{
    board_at, counted, grown_from, lemma_after_apply, lemma_after_expand, lemma_after_terminal,
    lemma_grown_from_chain, lemma_on_path_below, lemma_on_path_ends, lemma_on_path_parent,
    lemma_on_path_shape, lemma_path_waiting, lemma_range_sum_ge, lemma_root_bounds,
    lemma_same_shape_linked, linked, node_counted, node_linked, node_played, on_path, same_shape,
    tree_wf, virtual_of, Tree,
};
use vstd::prelude::*;

verus! {

/// A position that the network is asked to evaluate, and the node it
/// belongs to.
#[derive(Debug)]
pub struct ZeroRequest<B> {
    pub node: usize,
    pub board: B,
}

/// What the network says of a position: its values, and one prior per move
/// in the order of the moves.
#[derive(Debug)]
pub struct ZeroEvaluation<P, V> {
    pub values: V,
    pub policy: Vec<P>,
}

/// The answer to a [`ZeroRequest`].
#[derive(Debug)]
pub struct ZeroResponse<B, P, V> {
    pub node: usize,
    pub board: B,
    pub eval: ZeroEvaluation<P, V>,
}

/// The values that stand for a child that has not been visited yet.
#[derive(Debug, Copy, Clone)]
pub enum FpuMode<V> {
    /// Always the same values.
    Fixed(V),
    /// The values of the parent, as the child sees them.
    Parent,
}

/// Why an evaluation was not taken into the tree.
#[derive(Debug, Copy, Clone, PartialEq, Eq, Structural)]
pub enum ApplyError {
    /// The tree has no node with that number.
    UnknownNode,
    /// The node has not been expanded, so nothing was asked about it.
    NotExpanded,
    /// The node has been evaluated before.
    AlreadyEvaluated,
    /// The policy does not have one entry per child.
    PolicyLength,
}

impl<V> FpuMode<V> {
    /// The values that stand for a child without visits, given those of the
    /// parent as the child sees them.
    pub open spec fn spec_select(self, parent_flipped: V) -> V {
        match self {
            FpuMode::Fixed(values) => values,
            FpuMode::Parent => parent_flipped,
        }
    }
}

impl<V: Copy> FpuMode<V> {
    /// The values that stand for a child without visits, given those of the
    /// parent as the child sees them.
    pub fn select(&self, parent_flipped: V) -> (r: V)
        ensures
            r == self.spec_select(parent_flipped),
    {
        match self {
            FpuMode::Fixed(values) => *values,
            FpuMode::Parent => parent_flipped,
        }
    }
}

impl<B> ZeroRequest<B> {
    /// The answer to this request that carries `eval`.
    pub fn respond<P, V>(self, eval: ZeroEvaluation<P, V>) -> (r: ZeroResponse<B, P, V>)
        ensures
            r.node == self.node,
            r.board == self.board,
            r.eval == eval,
    {
        ZeroResponse { node: self.node, board: self.board, eval }
    }
}

/// The place of the largest key; of several largest keys, the first.
pub fn argmax_first(keys: &Vec<i64>) -> (r: usize)
    requires
        keys@.len() > 0,
    ensures
        r < keys@.len(),
        forall|i: int| 0 <= i < keys@.len() ==> keys@[i] <= keys@[r as int],
        forall|i: int| 0 <= i < r ==> keys@[i] < keys@[r as int],
        is_first_largest(keys@, r as int),
{
    let mut best: usize = 0;
    let mut i: usize = 1;
    while i < keys.len()
        invariant
            1 <= i <= keys@.len(),
            best < i,
            forall|j: int| 0 <= j < i ==> keys@[j] <= keys@[best as int],
            forall|j: int| 0 <= j < best ==> keys@[j] < keys@[best as int],
        decreases keys@.len() - i,
    {
        if keys[i] > keys[best] {
            best = i;
        }
        i += 1;
    }
    best
}

/// Whether the sums of values on the way from the root to `leaf` have grown
/// by the values `values` of `leaf`, where `at` holds for every node on the
/// way what the values count for there: the values themselves at `leaf`,
/// at each node further up what [`Numeric::parent`] makes of the values
/// one step below, and at every node the new sum is what [`Numeric::add`]
/// makes of the old sum and of the values of the node.
pub open spec fn added_along<M, P, V, N: Numeric<P, V>>(
    numeric: N,
    before: Seq<Node<M, P, V>>,
    after: Seq<Node<M, P, V>>,
    leaf: int,
    values: V,
    at: Map<int, V>,
) -> bool {
    &&& at[leaf] == values
    &&& forall|c: int|
        0 < c < before.len() && #[trigger] on_path(before, c, leaf) ==> call_ensures(
            N::parent,
            (&numeric, &at[c]),
            at[before[c].parent->0 as int],
        )
    &&& forall|a: int|
        0 <= a < before.len() && #[trigger] on_path(before, a, leaf) ==> call_ensures(
            N::add,
            (&numeric, &before[a].sum_values, &at[a]),
            after[a].sum_values,
        )
}

/// Whether the sums of values on the way from the root to `leaf` have grown
/// by the values `values` of `leaf`, see [`added_along`].
pub open spec fn values_added<M, P, V, N: Numeric<P, V>>(
    numeric: N,
    before: Seq<Node<M, P, V>>,
    after: Seq<Node<M, P, V>>,
    leaf: int,
    values: V,
) -> bool {
    exists|at: Map<int, V>| #[trigger] added_along(numeric, before, after, leaf, values, at)
}

/// Adds one finished visit to every node on the way from `node` up to the
/// root and takes one waiting visit from it; the values are added at `node`
/// as they are and at each node further up as they count for that node.
pub fn tree_propagate_values<M, P, V: Copy, N: Numeric<P, V>>(
    nodes: &mut Vec<Node<M, P, V>>,
    node: usize,
    values: V,
    numeric: &N,
)
    requires
        linked(old(nodes)@),
        node < old(nodes)@.len(),
        forall|i: int|
            0 <= i < old(nodes)@.len() && on_path(old(nodes)@, i, node as int) ==> (#[trigger] old(
                nodes,
            )@[i]).virtual_visits >= 1 && old(nodes)@[i].complete_visits < u64::MAX,
    ensures
        same_shape(old(nodes)@, final(nodes)@),
        forall|i: int|
            0 <= i < old(nodes)@.len() ==> {
                &&& (#[trigger] final(nodes)@[i]).net_values == old(nodes)@[i].net_values
                &&& final(nodes)@[i].net_policy == old(nodes)@[i].net_policy
                &&& final(nodes)@[i].complete_visits == old(nodes)@[i].complete_visits + if on_path(
                    old(nodes)@,
                    i,
                    node as int,
                ) {
                    1int
                } else {
                    0int
                }
                &&& final(nodes)@[i].virtual_visits == old(nodes)@[i].virtual_visits - if on_path(
                    old(nodes)@,
                    i,
                    node as int,
                ) {
                    1int
                } else {
                    0int
                }
                &&& !on_path(old(nodes)@, i, node as int) ==> final(nodes)@[i].sum_values == old(
                    nodes,
                )@[i].sum_values
            },
        values_added(*numeric, old(nodes)@, final(nodes)@, node as int, values),
{
    let ghost base = nodes@;
    let ghost first = values;
    let ghost mut at: Map<int, V> = Map::empty().insert(node as int, values);
    let mut curr_index: usize = node;
    let mut values: V = values;
    let mut done: bool = false;
    let ghost mut lower: int = node as int + 1;
    proof {
        assert forall|i: int| 0 <= i < base.len() && on_path(base, i, node as int) implies i
            < lower by {
            lemma_on_path_ends(base, i, node as int);
        }
    }
    while !done
        invariant
            linked(base),
            node < base.len(),
            nodes@.len() == base.len(),
            same_shape(base, nodes@),
            0 <= lower <= node + 1,
            done ==> lower == 0,
            !done ==> lower == curr_index + 1 && on_path(base, curr_index as int, node as int),
            at[node as int] == first,
            !done ==> at[curr_index as int] == values,
            forall|c: int|
                lower <= c < base.len() && 0 < c && #[trigger] on_path(base, c, node as int)
                    ==> call_ensures(N::parent, (numeric, &at[c]), at[base[c].parent->0 as int]),
            forall|a: int|
                lower <= a < base.len() && #[trigger] on_path(base, a, node as int) ==> call_ensures(
                    N::add,
                    (numeric, &base[a].sum_values, &at[a]),
                    nodes@[a].sum_values,
                ),
            forall|i: int|
                0 <= i < base.len() && on_path(base, i, node as int) ==> (#[trigger] base[i]).virtual_visits
                    >= 1 && base[i].complete_visits < u64::MAX,
            forall|i: int|
                0 <= i < base.len() ==> {
                    &&& (#[trigger] nodes@[i]).net_values == base[i].net_values
                    &&& nodes@[i].net_policy == base[i].net_policy
                    &&& nodes@[i].complete_visits == base[i].complete_visits + if on_path(
                        base,
                        i,
                        node as int,
                    ) && i >= lower {
                        1int
                    } else {
                        0int
                    }
                    &&& nodes@[i].virtual_visits == base[i].virtual_visits - if on_path(
                        base,
                        i,
                        node as int,
                    ) && i >= lower {
                        1int
                    } else {
                        0int
                    }
                    &&& !(on_path(base, i, node as int) && i >= lower) ==> nodes@[i].sum_values
                        == base[i].sum_values
                },
        decreases lower,
    {
        let ghost before = nodes@;
        let ghost here = values;
        assert(base[curr_index as int].virtual_visits >= 1);
        assert(nodes@[curr_index as int].complete_visits == base[curr_index as int].complete_visits);
        assert(nodes@[curr_index as int].sum_values == base[curr_index as int].sum_values);
        let sum = numeric.add(&nodes[curr_index].sum_values, &values);
        let curr_node = &mut nodes[curr_index];
        curr_node.complete_visits += 1;
        curr_node.virtual_visits -= 1;
        curr_node.sum_values = sum;
        let parent = nodes[curr_index].parent;
        proof {
            assert(node_linked(base, curr_index as int));
            assert(before[curr_index as int].parent == base[curr_index as int].parent);
            assert(call_ensures(
                N::add,
                (numeric, &base[curr_index as int].sum_values, &here),
                nodes@[curr_index as int].sum_values,
            ));
            assert forall|a: int|
                curr_index <= a < base.len() && #[trigger] on_path(base, a, node as int) implies call_ensures(
                    N::add,
                    (numeric, &base[a].sum_values, &at[a]),
                    nodes@[a].sum_values,
                ) by {
                if a != curr_index {
                    assert(nodes@[a] == before[a]);
                }
            }
        }
        match parent {
            Some(p) => {
                proof {
                    assert forall|i: int|
                        0 <= i < base.len() && on_path(base, i, node as int) && i
                            < curr_index implies i <= p by {
                        lemma_on_path_below(base, i, curr_index as int, node as int);
                    }
                    lemma_on_path_parent(base, curr_index as int, node as int);
                    lower = p as int + 1;
                }
                values = numeric.parent(&values);
                proof {
                    let ghost known = at;
                    at = at.insert(p as int, values);
                    assert forall|c: int|
                        curr_index <= c < base.len() && 0 < c && #[trigger] on_path(
                            base,
                            c,
                            node as int,
                        ) implies call_ensures(
                            N::parent,
                            (numeric, &at[c]),
                            at[base[c].parent->0 as int],
                        ) by {
                        if c != curr_index {
                            lemma_on_path_ends(base, c, node as int);
                            assert(node_linked(base, c));
                            lemma_on_path_below(base, curr_index as int, c, node as int);
                            assert(at[c] == known[c]);
                            assert(at[base[c].parent->0 as int] == known[base[c].parent->0 as int]);
                        }
                    }
                }
                curr_index = p;
            },
            None => {
                proof {
                    assert forall|i: int|
                        0 <= i < base.len() && on_path(base, i, node as int) implies i
                            >= 0 by {
                        lemma_on_path_ends(base, i, node as int);
                    }
                    lower = 0;
                }
                done = true;
            },
        }
    }
    proof {
        assert(added_along(*numeric, base, nodes@, node as int, first, at));
    }
}

/// What a walk down to `leaf` changes in the nodes that were there before:
/// every node on the way gets `waiting` more waiting visits and `finished`
/// more finished ones, and nothing else changes but the sums of values on
/// the way, which change only where a visit finishes.
pub open spec fn walked<M, P, V>(
    before: Seq<Node<M, P, V>>,
    after: Seq<Node<M, P, V>>,
    leaf: int,
    waiting: int,
    finished: int,
) -> bool {
    forall|i: int|
        0 <= i < before.len() ==> {
            &&& (#[trigger] after[i]).parent == before[i].parent
            &&& after[i].last_move == before[i].last_move
            &&& after[i].net_values == before[i].net_values
            &&& after[i].net_policy == before[i].net_policy
            &&& i != leaf ==> after[i].children == before[i].children
            &&& after[i].complete_visits == before[i].complete_visits + if on_path(before, i, leaf) {
                finished
            } else {
                0
            }
            &&& after[i].virtual_visits == before[i].virtual_visits + if on_path(before, i, leaf) {
                waiting
            } else {
                0
            }
            &&& finished == 0 || !on_path(before, i, leaf) ==> after[i].sum_values == before[i].sum_values
        }
}

/// The walk ended at the unexpanded node `leaf` and expanded it: the node
/// got one fresh child per move of its position, in the order of the moves,
/// and every node on the way has one more waiting visit.
pub open spec fn expanded<B: GameBoard, P, V>(
    root: B,
    before: Seq<Node<B::Move, P, V>>,
    after: Seq<Node<B::Move, P, V>>,
    leaf: int,
) -> bool {
    let moves = board_at(root, before, leaf).spec_moves();
    &&& 0 <= leaf < before.len()
    &&& before[leaf].children is None
    &&& board_at(root, before, leaf).spec_outcome() is None
    &&& after.len() == before.len() + moves.len()
    &&& after[leaf].children == Some(IdxRange { start: before.len() as usize, length: moves.len() as u8 })
    &&& walked(before, after, leaf, 1, 0)
    &&& forall|i: int|
        before.len() <= i < after.len() ==> {
            &&& (#[trigger] after[i]).parent == Some(leaf as usize)
            &&& after[i].last_move == Some(moves[i - before.len()])
            &&& after[i].children is None
            &&& after[i].net_values is None
            &&& after[i].complete_visits == 0
            &&& after[i].virtual_visits == 0
        }
}

/// The walk ended at `leaf`, whose position is finished: every node on the
/// way has one more finished visit and no node was added.
pub open spec fn visited_terminal<B: GameBoard, P, V>(
    root: B,
    before: Seq<Node<B::Move, P, V>>,
    after: Seq<Node<B::Move, P, V>>,
    leaf: int,
) -> bool {
    &&& 0 <= leaf < before.len()
    &&& board_at(root, before, leaf).spec_outcome() is Some
    &&& after.len() == before.len()
    &&& after[leaf].children == before[leaf].children
    &&& walked(before, after, leaf, 0, 1)
}

/// What one walk down the tree does: it either ends at a finished position,
/// whose outcome it takes back up to the root, or it expands a node and asks
/// for the evaluation of its position.
pub open spec fn gathered<B: GameBoard, P, V>(
    root: B,
    before: Seq<Node<B::Move, P, V>>,
    after: Seq<Node<B::Move, P, V>>,
    r: Option<ZeroRequest<B>>,
) -> bool {
    match r {
        Some(request) => {
            &&& expanded(root, before, after, request.node as int)
            &&& request.board == board_at(root, before, request.node as int)
        },
        None => exists|leaf: int| visited_terminal(root, before, after, leaf),
    }
}

/// Whether an evaluation for node `node` with `policy_len` priors can be
/// taken into the tree, and if not, why.
pub open spec fn apply_check<M, P, V>(nodes: Seq<Node<M, P, V>>, node: usize, policy_len: nat) -> Result<
    (),
    ApplyError,
> {
    if node >= nodes.len() {
        Err(ApplyError::UnknownNode)
    } else if nodes[node as int].children is None {
        Err(ApplyError::NotExpanded)
    } else if nodes[node as int].net_values is Some {
        Err(ApplyError::AlreadyEvaluated)
    } else if nodes[node as int].children->0.length != policy_len {
        Err(ApplyError::PolicyLength)
    } else {
        Ok(())
    }
}

/// What taking an evaluation into the tree does: the node holds the values,
/// each child holds its prior, and every node on the way up to the root has
/// one more finished visit and one waiting visit less.
pub open spec fn applied<M, P, V>(
    before: Seq<Node<M, P, V>>,
    after: Seq<Node<M, P, V>>,
    node: int,
    values: V,
    policy: Seq<P>,
) -> bool {
    let children = before[node].children->0;
    &&& same_shape(before, after)
    &&& after[node].net_values == Some(values)
    &&& forall|i: int|
        0 <= i < before.len() ==> {
            &&& i != node ==> (#[trigger] after[i]).net_values == before[i].net_values
            &&& after[i].net_policy == if children.contains(i) {
                policy[i - children.start]
            } else {
                before[i].net_policy
            }
            &&& after[i].complete_visits == before[i].complete_visits + if on_path(before, i, node) {
                1int
            } else {
                0int
            }
            &&& after[i].virtual_visits == before[i].virtual_visits - if on_path(before, i, node) {
                1int
            } else {
                0int
            }
            &&& !on_path(before, i, node) ==> after[i].sum_values == before[i].sum_values
        }
}

/// Whether place `k` holds the largest of `keys`; of several largest, the
/// first counts.
pub open spec fn is_first_largest(keys: Seq<i64>, k: int) -> bool {
    &&& 0 <= k < keys.len()
    &&& forall|i: int| 0 <= i < keys.len() ==> keys[i] <= keys[k]
    &&& forall|i: int| 0 <= i < k ==> keys[i] < keys[k]
}

/// Whether `keys` are the scores of the nodes of `children`, in their
/// order: each is what [`Numeric::uct`] makes of the visits of the parent,
/// of the values `fpu` that stand for a child without visits, and of the
/// visits, the sum of values and the prior of the child.
pub open spec fn scored<M, P, V, N: Numeric<P, V>>(
    numeric: N,
    nodes: Seq<Node<M, P, V>>,
    children: IdxRange,
    parent_visits: u64,
    fpu: V,
    keys: Seq<i64>,
) -> bool {
    &&& keys.len() == children.length
    &&& forall|k: int|
        0 <= k < keys.len() ==> call_ensures(
            N::uct,
            (
                &numeric,
                parent_visits,
                &fpu,
                nodes[children.start + k].complete_visits,
                nodes[children.start + k].virtual_visits,
                &nodes[children.start + k].sum_values,
                &nodes[children.start + k].net_policy,
            ),
            #[trigger] keys[k],
        )
}

/// Whether `pre` and `off` hold the values that a walk offers at node `a`
/// to the children without visits. `pre[a]` is the mean of the values of
/// the node, or, while it has no finished visit, what was offered at its
/// parent, and at the root a draw; `off[a]` is `pre[a]` turned to the other
/// side by [`Numeric::flip`].
pub open spec fn offered<M, P, V, N: Numeric<P, V>>(
    numeric: N,
    nodes: Seq<Node<M, P, V>>,
    a: int,
    pre: Map<int, V>,
    off: Map<int, V>,
) -> bool {
    &&& if nodes[a].complete_visits > 0 {
        call_ensures(N::mean, (&numeric, &nodes[a].sum_values, nodes[a].complete_visits), pre[a])
    } else if a == 0 {
        call_ensures(N::outcome_values, (&numeric, OutcomeWDL::Draw), pre[a])
    } else {
        pre[a] == off[nodes[a].parent->0 as int]
    }
    &&& call_ensures(N::flip, (&numeric, &pre[a]), off[a])
}

/// Whether node `c` is the child that a walk takes at its parent: the
/// first of the children with the highest score. The visits of the parent
/// that go into the scores are all its visits and `walk` more; the values
/// that stand for a child without visits are those that `fpu_mode` selects
/// from what is offered at the parent, see [`offered`].
pub open spec fn taken<M, P, V, N: Numeric<P, V>>(
    numeric: N,
    fpu_mode: FpuMode<V>,
    nodes: Seq<Node<M, P, V>>,
    c: int,
    walk: int,
    pre: Map<int, V>,
    off: Map<int, V>,
) -> bool {
    let a = nodes[c].parent->0 as int;
    let children = nodes[a].children->0;
    &&& offered(numeric, nodes, a, pre, off)
    &&& exists|keys: Seq<i64>|
        #[trigger] scored(
            numeric,
            nodes,
            children,
            (nodes[a].spec_total_visits() + walk) as u64,
            fpu_mode.spec_select(off[a]),
            keys,
        ) && is_first_largest(keys, c - children.start)
}

/// Whether a walk from the root comes to `leaf` with the values `pre` and
/// `off` on its way: at every node on the way it takes the first of the
/// children with the highest score.
pub open spec fn descended_by<M, P, V, N: Numeric<P, V>>(
    numeric: N,
    fpu_mode: FpuMode<V>,
    nodes: Seq<Node<M, P, V>>,
    leaf: int,
    walk: int,
    pre: Map<int, V>,
    off: Map<int, V>,
) -> bool {
    forall|c: int|
        0 < c < nodes.len() && on_path(nodes, c, leaf) ==> #[trigger] taken(
            numeric,
            fpu_mode,
            nodes,
            c,
            walk,
            pre,
            off,
        )
}

/// Whether a walk from the root comes to `leaf`: at every node on the way
/// it takes the first of the children with the highest score.
pub open spec fn descended<M, P, V, N: Numeric<P, V>>(
    numeric: N,
    fpu_mode: FpuMode<V>,
    nodes: Seq<Node<M, P, V>>,
    leaf: int,
    walk: int,
) -> bool {
    exists|pre: Map<int, V>, off: Map<int, V>|
        #[trigger] descended_by(numeric, fpu_mode, nodes, leaf, walk, pre, off)
}

/// What is offered higher up does not change when the values of a node
/// further down are noted.
pub proof fn lemma_descended_noted<M, P, V, N: Numeric<P, V>>(
    numeric: N,
    fpu_mode: FpuMode<V>,
    nodes: Seq<Node<M, P, V>>,
    leaf: int,
    walk: int,
    pre: Map<int, V>,
    off: Map<int, V>,
    g: V,
    f: V,
)
    requires
        linked(nodes),
        0 <= leaf < nodes.len(),
        descended_by(numeric, fpu_mode, nodes, leaf, walk, pre, off),
    ensures
        descended_by(numeric, fpu_mode, nodes, leaf, walk, pre.insert(leaf, g), off.insert(leaf, f)),
{
    let pre2 = pre.insert(leaf, g);
    let off2 = off.insert(leaf, f);
    assert forall|c: int| 0 < c < nodes.len() && on_path(nodes, c, leaf) implies #[trigger] taken(
        numeric,
        fpu_mode,
        nodes,
        c,
        walk,
        pre2,
        off2,
    ) by {
        assert(taken(numeric, fpu_mode, nodes, c, walk, pre, off));
        lemma_on_path_ends(nodes, c, leaf);
        assert(node_linked(nodes, c));
        let a = nodes[c].parent->0 as int;
        assert(a < leaf);
        assert(pre2[a] == pre[a] && off2[a] == off[a]);
        if a > 0 {
            assert(node_linked(nodes, a));
            let q = nodes[a].parent->0 as int;
            assert(off2[q] == off[q]);
        }
    }
}

/// What one walk down the tree does, where `leaf` is the node it ends at:
/// it comes to `leaf` by the scores of the nodes as they were; and it
/// either expands `leaf`, whose new children hold the prior and the sum of
/// values of a node without visits, or it finds the game finished at
/// `leaf` and adds the values of the outcome, as the player to move there
/// sees it, on the way back up.
pub open spec fn gathered_at<B: GameBoard, P, V, N: Numeric<P, V>>(
    numeric: N,
    root: B,
    before: Seq<Node<B::Move, P, V>>,
    after: Seq<Node<B::Move, P, V>>,
    fpu_mode: FpuMode<V>,
    r: Option<ZeroRequest<B>>,
    leaf: int,
) -> bool {
    &&& 0 <= leaf < before.len()
    &&& descended(numeric, fpu_mode, before, leaf, 1)
    &&& match r {
        Some(request) => {
            &&& request.node == leaf
            &&& expanded(root, before, after, leaf)
            &&& forall|i: int|
                before.len() <= i < after.len() ==> call_ensures(
                    N::uniform_prior,
                    (&numeric,),
                    (#[trigger] after[i]).net_policy,
                ) && call_ensures(N::zero_values, (&numeric,), after[i].sum_values)
        },
        None => {
            &&& visited_terminal(root, before, after, leaf)
            &&& exists|values: V|
                call_ensures(
                    N::outcome_values,
                    (
                        &numeric,
                        board_at(root, before, leaf).spec_outcome()->0.spec_pov(
                            board_at(root, before, leaf).spec_next_player(),
                        ),
                    ),
                    values,
                ) && #[trigger] values_added(numeric, before, after, leaf, values)
        },
    }
}

/// The sums that have grown along the way in one arena have grown along the
/// way in every arena with the same parents and the same sums.
pub proof fn lemma_added_shape<M, P, V, N: Numeric<P, V>>(
    numeric: N,
    x: Seq<Node<M, P, V>>,
    y: Seq<Node<M, P, V>>,
    after: Seq<Node<M, P, V>>,
    leaf: int,
    values: V,
)
    requires
        0 <= leaf < y.len(),
        y.len() <= x.len(),
        forall|j: int|
            0 <= j < y.len() ==> (#[trigger] x[j]).parent == y[j].parent && x[j].sum_values
                == y[j].sum_values,
        values_added(numeric, x, after, leaf, values),
    ensures
        values_added(numeric, y, after, leaf, values),
{
    let at = choose|at: Map<int, V>| #[trigger] added_along(numeric, x, after, leaf, values, at);
    assert forall|c: int| 0 <= c < y.len() implies on_path(x, c, leaf) == on_path(y, c, leaf) by {
        lemma_on_path_shape(x, y, c, leaf);
    }
    assert forall|c: int| 0 < c < y.len() && #[trigger] on_path(y, c, leaf) implies call_ensures(
        N::parent,
        (&numeric, &at[c]),
        at[y[c].parent->0 as int],
    ) by {
        assert(on_path(x, c, leaf));
        assert(x[c].parent == y[c].parent);
    }
    assert forall|a: int| 0 <= a < y.len() && #[trigger] on_path(y, a, leaf) implies call_ensures(
        N::add,
        (&numeric, &y[a].sum_values, &at[a]),
        after[a].sum_values,
    ) by {
        assert(on_path(x, a, leaf));
        assert(x[a].sum_values == y[a].sum_values);
    }
    assert(added_along(numeric, y, after, leaf, values, at));
}

/// The child of `children` with the highest score; of several with the
/// highest score, the first.
pub(crate) fn select_child<M, P, V, N: Numeric<P, V>>(
    nodes: &Vec<Node<M, P, V>>,
    children: IdxRange,
    parent_total_visits: u64,
    fpu: &V,
    numeric: &N,
) -> (r: usize)
    requires
        children.wf(),
        children.end() <= nodes@.len(),
    ensures
        children.contains(r as int),
        exists|keys: Seq<i64>|
            #[trigger] scored(*numeric, nodes@, children, parent_total_visits, *fpu, keys)
                && is_first_largest(keys, r - children.start),
{
    let mut keys: Vec<i64> = Vec::new();
    let mut k: usize = 0;
    while k < children.length as usize
        invariant
            k <= children.length,
            keys@.len() == k,
            children.wf(),
            children.end() <= nodes@.len(),
            forall|j: int|
                0 <= j < k ==> call_ensures(
                    N::uct,
                    (
                        numeric,
                        parent_total_visits,
                        fpu,
                        nodes@[children.start + j].complete_visits,
                        nodes@[children.start + j].virtual_visits,
                        &nodes@[children.start + j].sum_values,
                        &nodes@[children.start + j].net_policy,
                    ),
                    #[trigger] keys@[j],
                ),
        decreases children.length - k,
    {
        let child = &nodes[children.get(k)];
        keys.push(
            numeric.uct(
                parent_total_visits,
                fpu,
                child.complete_visits,
                child.virtual_visits,
                &child.sum_values,
                &child.net_policy,
            ),
        );
        k += 1;
    }
    let best = argmax_first(&keys);
    proof {
        assert(scored(*numeric, nodes@, children, parent_total_visits, *fpu, keys@));
    }
    children.get(best)
}

/// The walk of [`zero_step_gather`], on the parts of a tree.
fn gather_nodes<B: GameBoard, P: Copy, V: Copy, N: Numeric<P, V>>(
    root_board: &B,
    nodes: &mut Vec<Node<B::Move, P, V>>,
    numeric: &N,
    fpu_mode: FpuMode<V>,
) -> (r: Option<ZeroRequest<B>>)
    requires
        tree_wf(*root_board, old(nodes)@),
        old(nodes)@[0].spec_total_visits() < u64::MAX,
    ensures
        tree_wf(*root_board, final(nodes)@),
        gathered(*root_board, old(nodes)@, final(nodes)@, r),
        exists|leaf: int|
            #[trigger] gathered_at(
                *numeric,
                *root_board,
                old(nodes)@,
                final(nodes)@,
                fpu_mode,
                r,
                leaf,
            ),
{
    let ghost root = *root_board;
    let ghost base = nodes@;
    let mut curr_node: usize = 0;
    let mut curr_board = root_board.duplicate();
    let mut fpu = numeric.outcome_values(OutcomeWDL::Draw);
    let ghost mut pre: Map<int, V> = Map::empty();
    let ghost mut off: Map<int, V> = Map::empty();

    loop
        invariant
            tree_wf(root, base),
            curr_node == 0 ==> call_ensures(N::outcome_values, (numeric, OutcomeWDL::Draw), fpu),
            curr_node > 0 ==> fpu == off[base[curr_node as int].parent->0 as int],
            root == *root_board,
            base == old(nodes)@,
            base[0].spec_total_visits() < u64::MAX,
            same_shape(base, nodes@),
            curr_node < base.len(),
            curr_board.valid(),
            curr_board == board_at(root, base, curr_node as int),
            descended_by(*numeric, fpu_mode, base, curr_node as int, 1, pre, off),
            forall|i: int|
                0 <= i < base.len() ==> {
                    &&& (#[trigger] nodes@[i]).net_values == base[i].net_values
                    &&& nodes@[i].net_policy == base[i].net_policy
                    &&& nodes@[i].complete_visits == base[i].complete_visits
                    &&& nodes@[i].sum_values == base[i].sum_values
                    &&& nodes@[i].virtual_visits == base[i].virtual_visits + if on_path(
                        base,
                        i,
                        curr_node as int,
                    ) && i != curr_node {
                        1int
                    } else {
                        0int
                    }
                },
        decreases base.len() - curr_node,
    {
        proof {
            lemma_root_bounds(base, curr_node as int);
        }
        let curr = &mut nodes[curr_node];
        curr.virtual_visits += 1;
        let ghost mid = nodes@;
        proof {
            assert forall|i: int| 0 <= i < base.len() && (#[trigger] mid[i]).net_values is Some implies mid[i].children is Some by {
                assert(node_linked(base, i));
                assert(mid[i].children == base[i].children);
            }
            lemma_same_shape_linked(base, mid);
        }

        if let Some(outcome) = curr_board.outcome() {
            let wdl = outcome.pov(curr_board.next_player());
            let values = numeric.outcome_values(wdl);
            proof {
                assert forall|i: int| 0 <= i < mid.len() && on_path(mid, i, curr_node as int) implies (
                #[trigger] mid[i]).virtual_visits >= 1 && mid[i].complete_visits < u64::MAX by {
                    lemma_on_path_ends(mid, i, curr_node as int);
                    lemma_on_path_shape(mid, base, i, curr_node as int);
                    lemma_root_bounds(base, i);
                }
            }
            tree_propagate_values(nodes, curr_node, values, numeric);
            proof {
                let fin = nodes@;
                lemma_added_shape(*numeric, mid, base, fin, curr_node as int, values);
                assert forall|i: int| 0 <= i < base.len() implies on_path(mid, i, curr_node as int)
                    == on_path(base, i, curr_node as int) by {
                    lemma_on_path_shape(mid, base, i, curr_node as int);
                }
                assert(same_shape(base, fin)) by {
                    assert forall|i: int| 0 <= i < base.len() implies (#[trigger] base[i]).parent
                        == fin[i].parent && base[i].last_move == fin[i].last_move
                        && base[i].children == fin[i].children by {
                        assert(mid[i].parent == fin[i].parent);
                    }
                }
                assert forall|i: int| 0 <= i < base.len() implies {
                    &&& (#[trigger] fin[i]).net_values == base[i].net_values
                    &&& fin[i].virtual_visits == base[i].virtual_visits
                    &&& fin[i].complete_visits == base[i].complete_visits + if on_path(
                        base,
                        i,
                        curr_node as int,
                    ) {
                        1int
                    } else {
                        0int
                    }
                } by {
                    assert(mid[i].net_values == base[i].net_values);
                }
                lemma_after_terminal(root, base, fin, curr_node as int);
                assert(walked(base, fin, curr_node as int, 0, 1)) by {
                    assert forall|i: int| 0 <= i < base.len() implies (#[trigger] fin[i]).net_policy
                        == base[i].net_policy && fin[i].parent == base[i].parent by {
                        assert(mid[i].net_policy == base[i].net_policy);
                        assert(base[i].parent == fin[i].parent);
                    }
                }
                assert(visited_terminal(root, base, fin, curr_node as int));
                assert(descended(*numeric, fpu_mode, base, curr_node as int, 1));
                assert(gathered_at(*numeric, root, base, fin, fpu_mode, None, curr_node as int));
            }
            return None;
        }
        let children = nodes[curr_node].children;
        match children {
            None => {
                let moves = curr_board.available_moves();
                let start = nodes.len();
                let mut k: usize = 0;
                while k < moves.len()
                    invariant
                        k <= moves@.len(),
                        start == mid.len(),
                        nodes@.len() == mid.len() + k,
                        forall|i: int| 0 <= i < mid.len() ==> #[trigger] nodes@[i] == mid[i],
                        forall|i: int|
                            mid.len() <= i < nodes@.len() ==> {
                                &&& (#[trigger] nodes@[i]).parent == Some(curr_node)
                                &&& nodes@[i].last_move == Some(moves@[i - mid.len()])
                                &&& nodes@[i].children is None
                                &&& nodes@[i].net_values is None
                                &&& nodes@[i].complete_visits == 0
                                &&& nodes@[i].virtual_visits == 0
                                &&& call_ensures(N::uniform_prior, (numeric,), nodes@[i].net_policy)
                                &&& call_ensures(N::zero_values, (numeric,), nodes@[i].sum_values)
                            },
                    decreases moves@.len() - k,
                {
                    nodes.push(
                        Node::new(
                            Some(curr_node),
                            Some(moves[k]),
                            numeric.uniform_prior(),
                            numeric.zero_values(),
                        ),
                    );
                    k += 1;
                }
                let end = nodes.len();
                let leaf = &mut nodes[curr_node];
                leaf.children = Some(IdxRange::new(start, end));
                leaf.net_values = None;
                proof {
                    let fin = nodes@;
                    assert(node_linked(base, curr_node as int));
                    assert(base[curr_node as int].children == mid[curr_node as int].children);
                    assert forall|i: int| 0 <= i < base.len() implies {
                        &&& (#[trigger] fin[i]).parent == base[i].parent
                        &&& fin[i].last_move == base[i].last_move
                        &&& i != curr_node ==> fin[i].children == base[i].children
                        &&& fin[i].net_values == base[i].net_values
                        &&& fin[i].net_policy == base[i].net_policy
                        &&& fin[i].sum_values == base[i].sum_values
                        &&& fin[i].complete_visits == base[i].complete_visits
                        &&& fin[i].virtual_visits == base[i].virtual_visits + if on_path(
                            base,
                            i,
                            curr_node as int,
                        ) {
                            1int
                        } else {
                            0int
                        }
                    } by {
                        assert(mid[i].parent == base[i].parent);
                        assert(mid[i].net_values == base[i].net_values);
                    }
                    lemma_after_expand(root, base, fin, curr_node as int);
                    assert(walked(base, fin, curr_node as int, 1, 0));
                    assert(expanded(root, base, fin, curr_node as int));
                }
                let request = ZeroRequest { board: curr_board, node: curr_node };
                proof {
                    assert(descended(*numeric, fpu_mode, base, curr_node as int, 1));
                    assert(gathered_at(
                        *numeric,
                        root,
                        base,
                        nodes@,
                        fpu_mode,
                        Some(request),
                        curr_node as int,
                    ));
                }
                return Some(request);
            },
            Some(children) => {
                proof {
                    assert(node_linked(base, curr_node as int));
                    assert(node_played(root, base, curr_node as int));
                    assert(base[curr_node as int].children == mid[curr_node as int].children);
                }
                let ghost carried = fpu;
                if nodes[curr_node].complete_visits > 0 {
                    fpu = numeric.mean(&nodes[curr_node].sum_values, nodes[curr_node].complete_visits);
                }
                let ghost turned = fpu;
                fpu = numeric.flip(&fpu);
                let used_fpu = fpu_mode.select(fpu);
                proof {
                    lemma_descended_noted(
                        *numeric,
                        fpu_mode,
                        base,
                        curr_node as int,
                        1,
                        pre,
                        off,
                        turned,
                        fpu,
                    );
                    pre = pre.insert(curr_node as int, turned);
                    off = off.insert(curr_node as int, fpu);
                    assert(mid[curr_node as int].sum_values == base[curr_node as int].sum_values);
                    assert(mid[curr_node as int].complete_visits
                        == base[curr_node as int].complete_visits);
                    assert(offered(*numeric, base, curr_node as int, pre, off));
                }
                let parent_total_visits = nodes[curr_node].total_visits();
                let selected = select_child(nodes, children, parent_total_visits, &used_fpu, numeric);
                let ghost k = selected - children.start;
                let ghost moves = curr_board.spec_moves();
                proof {
                    assert(base[children.start + k].last_move == Some(moves[k]));
                    assert(mid[selected as int].last_move == base[selected as int].last_move);
                    assert(moves.contains(moves[k]));
                    assert(base[selected as int].parent == Some(curr_node));
                    assert forall|i: int| 0 <= i < base.len() implies (on_path(base, i, selected as int)
                        && i != selected) == on_path(base, i, curr_node as int) by {
                        lemma_on_path_ends(base, i, curr_node as int);
                    }
                    let keys = choose|keys: Seq<i64>|
                        #[trigger] scored(*numeric, mid, children, parent_total_visits, used_fpu, keys)
                            && is_first_largest(keys, selected - children.start);
                    assert forall|j: int| 0 <= j < keys.len() implies call_ensures(
                        N::uct,
                        (
                            numeric,
                            parent_total_visits,
                            &used_fpu,
                            base[children.start + j].complete_visits,
                            base[children.start + j].virtual_visits,
                            &base[children.start + j].sum_values,
                            &base[children.start + j].net_policy,
                        ),
                        #[trigger] keys[j],
                    ) by {
                        let c = children.start + j;
                        lemma_on_path_ends(base, c, curr_node as int);
                        assert(mid[c].virtual_visits == base[c].virtual_visits);
                        assert(mid[c].complete_visits == base[c].complete_visits);
                    }
                    assert(scored(*numeric, base, children, parent_total_visits, used_fpu, keys));
                    assert(parent_total_visits == base[curr_node as int].spec_total_visits() + 1);
                    assert(base[curr_node as int].children == Some(children));
                    assert(((base[curr_node as int].spec_total_visits() + 1) as u64)
                        == parent_total_visits);
                    assert(used_fpu == fpu_mode.spec_select(off[curr_node as int]));
                    assert(scored(
                        *numeric,
                        base,
                        base[base[selected as int].parent->0 as int].children->0,
                        (base[base[selected as int].parent->0 as int].spec_total_visits() + 1) as u64,
                        fpu_mode.spec_select(off[base[selected as int].parent->0 as int]),
                        keys,
                    ));
                    assert(taken(*numeric, fpu_mode, base, selected as int, 1, pre, off));
                    assert forall|c: int|
                        0 < c < base.len() && on_path(base, c, selected as int) implies #[trigger] taken(
                            *numeric,
                            fpu_mode,
                            base,
                            c,
                            1,
                            pre,
                            off,
                        ) by {
                        if c != selected {
                            assert(on_path(base, c, curr_node as int));
                        }
                    }
                }
                let mv = nodes[selected].last_move.unwrap();
                curr_node = selected;
                curr_board.play(mv);
            },
        }
    }
}

/// The first half of a step. Walks down from the root, at each expanded
/// node to the child with the highest score, and leaves a waiting visit at
/// every node it passes. The walk ends in one of two ways:
///
/// * at a finished position: its outcome is taken back up to the root at
///   once, the waiting visits become finished ones, and nothing is
///   returned;
/// * at a node that has not been expanded: it gets its children, and its
///   number and position are returned for the network to evaluate.
///
/// The score of a child is what [`Numeric::uct`] makes of the visits of its
/// parent, waiting ones and the one of this walk included, and of the
/// visits, the values and the prior of the child; the walk takes the first
/// of the children with the highest score. For a child without visits the values are those
/// that `fpu_mode` selects. The values of a parent that are offered to it
/// are the mean of the node, or, while a node has no finished visit, what
/// was offered one step further up, and at the root a draw; at each step
/// down they are turned to the other side by [`Numeric::flip`].
pub fn zero_step_gather<B: GameBoard, P: Copy, V: Copy, N: Numeric<P, V>>(
    tree: &mut Tree<B, P, V>,
    numeric: &N,
    fpu_mode: FpuMode<V>,
) -> (r: Option<ZeroRequest<B>>)
    requires
        old(tree).wf(),
        old(tree)@[0].spec_total_visits() < u64::MAX,
    ensures
        final(tree).wf(),
        final(tree).root() == old(tree).root(),
        gathered(old(tree).root(), old(tree)@, final(tree)@, r),
        exists|leaf: int|
            #[trigger] gathered_at(
                *numeric,
                old(tree).root(),
                old(tree)@,
                final(tree)@,
                fpu_mode,
                r,
                leaf,
            ),
        grown_from(old(tree)@, final(tree)@),
{
    let r = gather_nodes(&tree.root_board, &mut tree.nodes, numeric, fpu_mode);
    proof {
        lemma_gathered_grown(old(tree).root(), old(tree)@, tree@, r);
    }
    r
}

/// A walk down the tree only lets the tree grow.
pub proof fn lemma_gathered_grown<B: GameBoard, P, V>(
    root: B,
    before: Seq<Node<B::Move, P, V>>,
    after: Seq<Node<B::Move, P, V>>,
    r: Option<ZeroRequest<B>>,
)
    requires
        gathered(root, before, after, r),
    ensures
        grown_from(before, after),
{
    match r {
        Some(request) => {
            let leaf = request.node as int;
            assert forall|i: int| 0 <= i < before.len() implies {
                &&& (#[trigger] after[i]).parent == before[i].parent
                &&& after[i].last_move == before[i].last_move
                &&& before[i].children is Some ==> after[i].children == before[i].children
                &&& before[i].net_values is Some ==> after[i].net_values == before[i].net_values
                &&& after[i].complete_visits >= before[i].complete_visits
            } by {}
        },
        None => {
            let leaf = choose|leaf: int| visited_terminal(root, before, after, leaf);
            assert forall|i: int| 0 <= i < before.len() implies {
                &&& (#[trigger] after[i]).parent == before[i].parent
                &&& after[i].last_move == before[i].last_move
                &&& before[i].children is Some ==> after[i].children == before[i].children
                &&& before[i].net_values is Some ==> after[i].net_values == before[i].net_values
                &&& after[i].complete_visits >= before[i].complete_visits
            } by {}
        },
    }
}

/// Takes an evaluation that the node waits for into the arena.
fn apply_nodes<M, P: Copy, V: Copy, N: Numeric<P, V>>(
    nodes: &mut Vec<Node<M, P, V>>,
    node: usize,
    values: V,
    policy: &Vec<P>,
    numeric: &N,
)
    requires
        linked(old(nodes)@),
        counted(old(nodes)@),
        old(nodes)@[0].spec_total_visits() <= u64::MAX,
        node < old(nodes)@.len(),
        old(nodes)@[node as int].in_flight(),
        old(nodes)@[node as int].children->0.length == policy@.len(),
    ensures
        applied(old(nodes)@, final(nodes)@, node as int, values, policy@),
        values_added(*numeric, old(nodes)@, final(nodes)@, node as int, values),
{
    let ghost base = nodes@;
    proof {
        assert(node_linked(base, node as int));
    }
    let children = nodes[node].children.unwrap();
    let target = &mut nodes[node];
    target.net_values = Some(values);

    let mut k: usize = 0;
    while k < children.length as usize
        invariant
            k <= children.length,
            children.wf(),
            node < children.start,
            children.end() <= base.len(),
            children.length == policy@.len(),
            same_shape(base, nodes@),
            nodes@[node as int].net_values == Some(values),
            forall|i: int|
                0 <= i < base.len() ==> {
                    &&& i != node ==> (#[trigger] nodes@[i]).net_values == base[i].net_values
                    &&& nodes@[i].net_policy == if children.contains(i) && i - children.start < k {
                        policy@[i - children.start]
                    } else {
                        base[i].net_policy
                    }
                    &&& nodes@[i].complete_visits == base[i].complete_visits
                    &&& nodes@[i].virtual_visits == base[i].virtual_visits
                    &&& nodes@[i].sum_values == base[i].sum_values
                },
        decreases children.length - k,
    {
        let c = children.get(k);
        let child = &mut nodes[c];
        child.net_policy = policy[k];
        k += 1;
    }
    let ghost mid = nodes@;
    proof {
        assert forall|i: int| 0 <= i < base.len() && (#[trigger] mid[i]).net_values is Some implies mid[i].children is Some by {
            assert(node_linked(base, i));
            assert(mid[i].children == base[i].children);
        }
        lemma_same_shape_linked(base, mid);
        assert(node_counted(base, node as int));
        lemma_range_sum_ge(
            virtual_of(base),
            children.start as int,
            children.length as nat,
            children.start as int,
        );
        lemma_on_path_ends(base, 0, node as int);
        lemma_path_waiting(base, 0, node as int);
        assert forall|i: int| 0 <= i < mid.len() && on_path(mid, i, node as int) implies (
        #[trigger] mid[i]).virtual_visits >= 1 && mid[i].complete_visits < u64::MAX by {
            lemma_on_path_shape(mid, base, i, node as int);
            lemma_on_path_ends(base, i, node as int);
            lemma_path_waiting(base, i, node as int);
            lemma_root_bounds(base, i);
        }
    }
    tree_propagate_values(nodes, node, values, numeric);
    proof {
        let fin = nodes@;
        lemma_added_shape(*numeric, mid, base, fin, node as int, values);
        assert forall|i: int| 0 <= i < base.len() implies on_path(mid, i, node as int) == on_path(
            base,
            i,
            node as int,
        ) by {
            lemma_on_path_shape(mid, base, i, node as int);
        }
        assert(same_shape(base, fin)) by {
            assert forall|i: int| 0 <= i < base.len() implies (#[trigger] base[i]).parent
                == fin[i].parent && base[i].last_move == fin[i].last_move && base[i].children
                == fin[i].children by {
                assert(mid[i].parent == fin[i].parent);
            }
        }
        assert forall|i: int| 0 <= i < base.len() implies {
            &&& i != node ==> (#[trigger] fin[i]).net_values == base[i].net_values
            &&& fin[i].net_policy == if children.contains(i) {
                policy@[i - children.start]
            } else {
                base[i].net_policy
            }
            &&& fin[i].complete_visits == base[i].complete_visits + if on_path(base, i, node as int) {
                1int
            } else {
                0int
            }
            &&& fin[i].virtual_visits == base[i].virtual_visits - if on_path(base, i, node as int) {
                1int
            } else {
                0int
            }
            &&& !on_path(base, i, node as int) ==> fin[i].sum_values == base[i].sum_values
        } by {
            assert(mid[i].net_values == fin[i].net_values);
        }
    }
}

/// Takes the evaluation of node `node` into the tree as
/// [`zero_step_apply`] does, if it is one that was asked for. An evaluation
/// that nothing asked for is refused and leaves the tree as it was.
pub fn apply_evaluation<B: GameBoard, P: Copy, V: Copy, N: Numeric<P, V>>(
    tree: &mut Tree<B, P, V>,
    node: usize,
    values: V,
    policy: &Vec<P>,
    numeric: &N,
) -> (r: Result<(), ApplyError>)
    requires
        old(tree).wf(),
    ensures
        final(tree).wf(),
        final(tree).root() == old(tree).root(),
        r == apply_check(old(tree)@, node, policy@.len()),
        r is Err ==> final(tree)@ == old(tree)@,
        r is Ok ==> applied(old(tree)@, final(tree)@, node as int, values, policy@),
        r is Ok ==> values_added(*numeric, old(tree)@, final(tree)@, node as int, values),
        grown_from(old(tree)@, final(tree)@),
{
    proof {
        lemma_grown_from_chain(old(tree)@, old(tree)@, old(tree)@);
    }
    if node >= tree.nodes.len() {
        return Err(ApplyError::UnknownNode);
    }
    let children = match tree.nodes[node].children {
        None => {
            return Err(ApplyError::NotExpanded);
        },
        Some(children) => children,
    };
    if tree.nodes[node].net_values.is_some() {
        return Err(ApplyError::AlreadyEvaluated);
    }
    if children.length as usize != policy.len() {
        return Err(ApplyError::PolicyLength);
    }
    apply_nodes(&mut tree.nodes, node, values, policy, numeric);
    proof {
        lemma_after_apply(old(tree).root(), old(tree)@, tree@, node as int);
        lemma_applied_grown(old(tree)@, tree@, node as int, values, policy@);
    }
    Ok(())
}

/// The second half of a step. Takes the evaluation of a node into the tree:
/// the node holds the values, each child gets its prior, and the values are
/// taken up to the root, where every node on the way trades a waiting visit
/// for a finished one.
///
/// The evaluation must be one that was asked for: the node is expanded,
/// waits for its evaluation, and has one child per prior. Whether that is
/// so says [`apply_check`]; [`apply_evaluation`] tests it and refuses what
/// does not fit.
pub fn zero_step_apply<B: GameBoard, P: Copy, V: Copy, N: Numeric<P, V>>(
    tree: &mut Tree<B, P, V>,
    response: ZeroResponse<B, P, V>,
    numeric: &N,
)
    requires
        old(tree).wf(),
        apply_check(old(tree)@, response.node, response.eval.policy@.len()) is Ok,
    ensures
        final(tree).wf(),
        final(tree).root() == old(tree).root(),
        applied(
            old(tree)@,
            final(tree)@,
            response.node as int,
            response.eval.values,
            response.eval.policy@,
        ),
        values_added(
            *numeric,
            old(tree)@,
            final(tree)@,
            response.node as int,
            response.eval.values,
        ),
        grown_from(old(tree)@, final(tree)@),
{
    let ZeroResponse { node: curr_node, board: _, eval } = response;
    let applied_now = apply_evaluation(tree, curr_node, eval.values, &eval.policy, numeric);
    assert(applied_now is Ok);
}

/// Taking an evaluation into the tree only lets the tree grow.
pub proof fn lemma_applied_grown<M, P, V>(
    before: Seq<Node<M, P, V>>,
    after: Seq<Node<M, P, V>>,
    node: int,
    values: V,
    policy: Seq<P>,
)
    requires
        0 <= node < before.len(),
        before[node].net_values is None,
        applied(before, after, node, values, policy),
    ensures
        grown_from(before, after),
{
    assert forall|i: int| 0 <= i < before.len() implies {
        &&& (#[trigger] after[i]).parent == before[i].parent
        &&& after[i].last_move == before[i].last_move
        &&& before[i].children is Some ==> after[i].children == before[i].children
        &&& before[i].net_values is Some ==> after[i].net_values == before[i].net_values
        &&& after[i].complete_visits >= before[i].complete_visits
    } by {
        assert(before[i].parent == after[i].parent);
    }
}

} // verus!
