//! The search for a network that has learnt the rules of the game itself.
//!
//! Below the root there are no boards: a node holds the hidden state that
//! the network has reached, and a move is known by its entry in the policy.
//! A node gets its children from the evaluation that brings its state, so
//! a node is expanded exactly when it has been evaluated, and no visit ever
//! waits.

use crate::mapping::mapper::PolicyMapper;
use crate::zero::game::{GameBoard, Numeric, OutcomeWDL};
use crate::zero::node::Node;
use crate::zero::range::IdxRange;
use crate::zero::step::{
    added_along, descended, descended_by, is_first_largest, lemma_added_shape,
    lemma_descended_noted, offered, scored, select_child, taken, values_added, FpuMode,
};
use crate::zero::tree::{
    complete_of, counted, lemma_on_path_below, lemma_on_path_child, lemma_on_path_ends,
    lemma_on_path_parent, lemma_path_sum, lemma_range_sum_zero, linked, node_counted, node_linked,
    on_path, same_shape, virtual_of,
};
use vstd::prelude::*;

verus! {

/// A tree of hidden states. `S` is a hidden state, or what stands for one.
pub struct MuTree<B, S, P, V> {
    pub(crate) root_board: B,
    pub(crate) nodes: Vec<Node<usize, P, V>>,
    pub(crate) states: Vec<Option<S>>,
}

/// What the network is asked for.
#[derive(Debug)]
pub enum MuZeroRequest<B, S> {
    /// The hidden state and the evaluation of the board at the root.
    Root { node: usize, board: B },
    /// The hidden state and the evaluation of what follows from `state` by
    /// the move with entry `move_index` in the policy.
    Expand { node: usize, state: S, move_index: usize },
}

/// The answer to a request: the hidden state of the node, its values, and
/// the policy over all moves that there are.
#[derive(Debug)]
pub struct MuZeroResponse<S, P, V> {
    pub node: usize,
    pub state: S,
    pub values: V,
    pub policy: Vec<P>,
}

/// Why an answer was not taken into the tree.
#[derive(Debug, Copy, Clone, PartialEq, Eq, Structural)]
pub enum MuApplyError {
    /// The tree has no node with that number.
    UnknownNode,
    /// The node has been evaluated before.
    AlreadyEvaluated,
    /// The policy does not have the length that the mapper gives it.
    PolicyLength,
    /// The mapper has no entry for a move of the root.
    UnmappedMove,
    /// The node would get no child, or more than 255.
    ChildCount,
}

/// What holds of every tree of hidden states: the arena is a tree, the
/// visits of the children of a node and its own evaluation add up to its
/// visits, and a node has children, an evaluation and a hidden state all
/// at once or not at all.
pub open spec fn mu_wf<S, P, V>(nodes: Seq<Node<usize, P, V>>, states: Seq<Option<S>>) -> bool {
    &&& linked(nodes)
    &&& counted(nodes)
    &&& states.len() == nodes.len()
    &&& nodes[0].complete_visits < u64::MAX
    &&& forall|i: int|
        0 <= i < nodes.len() ==> {
            &&& (#[trigger] nodes[i]).virtual_visits == 0
            &&& nodes[i].children is Some <==> nodes[i].net_values is Some
            &&& nodes[i].children is Some <==> states[i] is Some
            &&& nodes[i].children is None ==> nodes[i].complete_visits == 0
            &&& i > 0 ==> nodes[i].last_move is Some
        }
}

/// What the new children of a node hold, where `moves` are the entries of
/// the policy that they stand for: no sum of values yet, and for priors the
/// entries of their moves, made to add up to one by
/// [`Numeric::normalize`]; a child that the normalised priors do not reach
/// holds the prior of a node whose parent has not been evaluated.
pub open spec fn mu_children<P, V, N: Numeric<P, V>>(
    numeric: N,
    before: Seq<Node<usize, P, V>>,
    after: Seq<Node<usize, P, V>>,
    policy: Seq<P>,
    moves: Seq<usize>,
) -> bool {
    exists|raw: Vec<P>, normal: Vec<P>|
        {
            &&& raw@.len() == moves.len()
            &&& forall|k: int| 0 <= k < moves.len() ==> #[trigger] raw@[k] == policy[moves[k] as int]
            &&& #[trigger] call_ensures(N::normalize, (&numeric, raw), normal)
            &&& forall|k: int|
                0 <= k < moves.len() ==> {
                    &&& call_ensures(
                        N::zero_values,
                        (&numeric,),
                        (#[trigger] after[before.len() + k]).sum_values,
                    )
                    &&& if k < normal@.len() {
                        after[before.len() + k].net_policy == normal@[k]
                    } else {
                        call_ensures(N::uniform_prior, (&numeric,), after[before.len() + k].net_policy)
                    }
                }
        }
}

/// Whether the answer for node `node`, with a policy of `policy_len`
/// entries, can be taken into the tree, and if not, why. The root gets a
/// child for every move of its board, so each of them needs its entry in
/// the policy; any other node gets `top_moves` children, or as many as the
/// policy has entries if those are fewer.
pub open spec fn mu_apply_check<B: GameBoard, P, V, M: PolicyMapper<B, B::Move>>(
    root: B,
    nodes: Seq<Node<usize, P, V>>,
    mapper: M,
    node: usize,
    policy_len: nat,
    top_moves: usize,
) -> Result<(), MuApplyError> {
    if node >= nodes.len() {
        Err(MuApplyError::UnknownNode)
    } else if nodes[node as int].children is Some {
        Err(MuApplyError::AlreadyEvaluated)
    } else if policy_len != mapper.spec_policy_len() {
        Err(MuApplyError::PolicyLength)
    } else if node == 0 {
        if exists|i: int|
            0 <= i < root.spec_moves().len() && #[trigger] mapper.spec_index(
                root,
                root.spec_moves()[i],
            ) is None {
            Err(MuApplyError::UnmappedMove)
        } else {
            Ok(())
        }
    } else if top_moves == 0 || policy_len == 0 || (top_moves > u8::MAX && policy_len > u8::MAX) {
        Err(MuApplyError::ChildCount)
    } else {
        Ok(())
    }
}

/// What taking the answer for `leaf` into the tree does: the node gets
/// its hidden state, its values and one child for each of `moves`, in that
/// order, and every node on the way up to the root has one more visit.
pub open spec fn mu_applied<S, P, V>(
    before: Seq<Node<usize, P, V>>,
    old_states: Seq<Option<S>>,
    after: Seq<Node<usize, P, V>>,
    new_states: Seq<Option<S>>,
    leaf: int,
    state: S,
    values: V,
    moves: Seq<usize>,
) -> bool {
    &&& after.len() == before.len() + moves.len()
    &&& after[leaf].children == Some(IdxRange { start: before.len() as usize, length: moves.len() as u8 })
    &&& after[leaf].net_values == Some(values)
    &&& new_states[leaf] == Some(state)
    &&& forall|i: int|
        0 <= i < before.len() ==> {
            &&& (#[trigger] after[i]).parent == before[i].parent
            &&& after[i].last_move == before[i].last_move
            &&& after[i].net_policy == before[i].net_policy
            &&& i != leaf ==> after[i].children == before[i].children && after[i].net_values
                == before[i].net_values && new_states[i] == old_states[i]
            &&& after[i].complete_visits == before[i].complete_visits + if on_path(before, i, leaf) {
                1int
            } else {
                0int
            }
            &&& !on_path(before, i, leaf) ==> after[i].sum_values == before[i].sum_values
        }
    &&& forall|i: int|
        before.len() <= i < after.len() ==> {
            &&& (#[trigger] after[i]).parent == Some(leaf as usize)
            &&& after[i].last_move == Some(moves[i - before.len()])
            &&& after[i].children is None
            &&& after[i].net_values is None
            &&& after[i].complete_visits == 0
            &&& new_states[i] is None
        }
}

/// The tree after an answer has been taken in is a tree of hidden states.
proof fn lemma_after_mu_apply<S, P, V>(
    base: Seq<Node<usize, P, V>>,
    base_states: Seq<Option<S>>,
    fin: Seq<Node<usize, P, V>>,
    fin_states: Seq<Option<S>>,
    leaf: int,
    state: S,
    values: V,
    moves: Seq<usize>,
)
    requires
        mu_wf(base, base_states),
        0 <= leaf < base.len(),
        base[leaf].children is None,
        0 < moves.len() <= u8::MAX,
        fin.len() <= usize::MAX,
        fin_states.len() == fin.len(),
        base[0].complete_visits + 1 < u64::MAX,
        mu_applied(base, base_states, fin, fin_states, leaf, state, values, moves),
        forall|i: int| 0 <= i < fin.len() ==> (#[trigger] fin[i]).virtual_visits == 0,
    ensures
        mu_wf(fin, fin_states),
{
    let n = base.len() as int;
    let fresh = IdxRange { start: n as usize, length: moves.len() as u8 };
    assert(node_linked(base, leaf));
    lemma_on_path_ends(base, 0, leaf);
    assert forall|i: int| 0 <= i < fin.len() implies #[trigger] node_linked(fin, i) by {
        if i < n {
            assert(node_linked(base, i));
            assert(fin[i].parent == base[i].parent);
            if i != 0 {
                let p = base[i].parent->0 as int;
                assert(fin[p].parent == base[p].parent);
                if p == leaf {
                    assert(false);
                }
            }
        } else {
            assert(fresh.contains(i));
        }
    }
    assert forall|i: int, c: int|
        0 <= i < fin.len() && 0 <= c < fin.len() && (fin[i].children matches Some(r) && r.contains(
            c,
        )) implies (#[trigger] fin[c]).parent == Some(i as usize) || !#[trigger] node_linked(
        fin,
        i,
    ) by {
        if i < n && i != leaf {
            assert(node_linked(base, i));
            assert(fin[i].children == base[i].children);
            assert(fin[c].parent == base[c].parent);
        }
    }
    assert forall|x: int| 0 <= x < fin.len() implies #[trigger] node_counted(fin, x) by {
        assert(fin[x].virtual_visits == 0);
        if x < n && x != leaf {
            assert(node_counted(base, x));
            assert(base[x].virtual_visits == 0);
            assert(fin[x].children == base[x].children);
            if fin[x].children is Some {
                let r = fin[x].children->0;
                assert(node_linked(base, x));
                lemma_path_sum(base, complete_of(base), complete_of(fin), leaf, 1, x);
                assert forall|i: int| r.start <= i < r.start + r.length implies #[trigger] virtual_of(
                    fin,
                )(i) == 0 by {
                    assert(fin[i].virtual_visits == 0);
                }
                lemma_range_sum_zero(virtual_of(fin), r.start as int, r.length as nat);
            } else {
                if on_path(base, x, leaf) {
                    let c = lemma_on_path_child(base, x, leaf);
                }
            }
        } else if x == leaf {
            assert forall|i: int| fresh.start <= i < fresh.start + fresh.length implies #[trigger] complete_of(
                fin,
            )(i) == 0 by {
                assert(fin[i].complete_visits == 0);
            }
            assert forall|i: int| fresh.start <= i < fresh.start + fresh.length implies #[trigger] virtual_of(
                fin,
            )(i) == 0 by {
                assert(fin[i].virtual_visits == 0);
            }
            lemma_range_sum_zero(complete_of(fin), fresh.start as int, fresh.length as nat);
            lemma_range_sum_zero(virtual_of(fin), fresh.start as int, fresh.length as nat);
            assert(on_path(base, leaf, leaf));
            assert(base[leaf].complete_visits == 0);
        }
    }
    assert forall|i: int| 0 <= i < fin.len() implies {
        &&& (#[trigger] fin[i]).virtual_visits == 0
        &&& fin[i].children is Some <==> fin[i].net_values is Some
        &&& fin[i].children is Some <==> fin_states[i] is Some
        &&& fin[i].children is None ==> fin[i].complete_visits == 0
        &&& i > 0 ==> fin[i].last_move is Some
    } by {
        if i < n && i != leaf {
            assert(base[i].virtual_visits == 0);
            assert(fin[i].children == base[i].children);
            if fin[i].children is None && on_path(base, i, leaf) {
                let c = lemma_on_path_child(base, i, leaf);
            }
        } else if i >= n {
            assert(fin[i].parent == Some(leaf as usize));
        } else {
            assert(base[i].virtual_visits == 0);
        }
    }
}

/// Adds one visit to every node on the way from `node` up to the root; the
/// values are added at `node` as they are and further up as they count
/// there.
fn mu_propagate<P, V: Copy, N: Numeric<P, V>>(
    nodes: &mut Vec<Node<usize, P, V>>,
    node: usize,
    values: V,
    numeric: &N,
)
    requires
        linked(old(nodes)@),
        node < old(nodes)@.len(),
        forall|i: int|
            0 <= i < old(nodes)@.len() && on_path(old(nodes)@, i, node as int) ==> (#[trigger] old(
                nodes,
            )@[i]).complete_visits < u64::MAX,
    ensures
        same_shape(old(nodes)@, final(nodes)@),
        forall|i: int|
            0 <= i < old(nodes)@.len() ==> {
                &&& (#[trigger] final(nodes)@[i]).net_values == old(nodes)@[i].net_values
                &&& final(nodes)@[i].net_policy == old(nodes)@[i].net_policy
                &&& final(nodes)@[i].virtual_visits == old(nodes)@[i].virtual_visits
                &&& final(nodes)@[i].complete_visits == old(nodes)@[i].complete_visits + if on_path(
                    old(nodes)@,
                    i,
                    node as int,
                ) {
                    1int
                } else {
                    0int
                }
                &&& !on_path(old(nodes)@, i, node as int) ==> final(nodes)@[i].sum_values == old(
                    nodes,
                )@[i].sum_values
            },
        values_added(*numeric, old(nodes)@, final(nodes)@, node as int, values),
{
    let ghost base = nodes@;
    let ghost first = values;
    let ghost mut at: Map<int, V> = Map::empty().insert(node as int, values);
    let mut curr_index: usize = node;
    let mut values: V = values;
    let mut done: bool = false;
    let ghost mut lower: int = node as int + 1;
    proof {
        assert forall|i: int| 0 <= i < base.len() && on_path(base, i, node as int) implies i
            < lower by {
            lemma_on_path_ends(base, i, node as int);
        }
    }
    while !done
        invariant
            linked(base),
            node < base.len(),
            nodes@.len() == base.len(),
            same_shape(base, nodes@),
            0 <= lower <= node + 1,
            done ==> lower == 0,
            !done ==> lower == curr_index + 1 && on_path(base, curr_index as int, node as int),
            at[node as int] == first,
            !done ==> at[curr_index as int] == values,
            forall|c: int|
                lower <= c < base.len() && 0 < c && #[trigger] on_path(base, c, node as int)
                    ==> call_ensures(N::parent, (numeric, &at[c]), at[base[c].parent->0 as int]),
            forall|a: int|
                lower <= a < base.len() && #[trigger] on_path(base, a, node as int) ==> call_ensures(
                    N::add,
                    (numeric, &base[a].sum_values, &at[a]),
                    nodes@[a].sum_values,
                ),
            forall|i: int|
                0 <= i < base.len() && on_path(base, i, node as int) ==> (#[trigger] base[i]).complete_visits
                    < u64::MAX,
            forall|i: int|
                0 <= i < base.len() ==> {
                    &&& (#[trigger] nodes@[i]).net_values == base[i].net_values
                    &&& nodes@[i].net_policy == base[i].net_policy
                    &&& nodes@[i].virtual_visits == base[i].virtual_visits
                    &&& nodes@[i].complete_visits == base[i].complete_visits + if on_path(
                        base,
                        i,
                        node as int,
                    ) && i >= lower {
                        1int
                    } else {
                        0int
                    }
                    &&& !(on_path(base, i, node as int) && i >= lower) ==> nodes@[i].sum_values
                        == base[i].sum_values
                },
        decreases lower,
    {
        let ghost before = nodes@;
        let ghost here = values;
        assert(nodes@[curr_index as int].complete_visits == base[curr_index as int].complete_visits);
        assert(nodes@[curr_index as int].sum_values == base[curr_index as int].sum_values);
        let sum = numeric.add(&nodes[curr_index].sum_values, &values);
        let curr_node = &mut nodes[curr_index];
        curr_node.complete_visits += 1;
        curr_node.sum_values = sum;
        let parent = nodes[curr_index].parent;
        proof {
            assert(node_linked(base, curr_index as int));
            assert(before[curr_index as int].parent == base[curr_index as int].parent);
            assert(call_ensures(
                N::add,
                (numeric, &base[curr_index as int].sum_values, &here),
                nodes@[curr_index as int].sum_values,
            ));
            assert forall|a: int|
                curr_index <= a < base.len() && #[trigger] on_path(base, a, node as int) implies call_ensures(
                    N::add,
                    (numeric, &base[a].sum_values, &at[a]),
                    nodes@[a].sum_values,
                ) by {
                if a != curr_index {
                    assert(nodes@[a] == before[a]);
                }
            }
        }
        match parent {
            Some(p) => {
                proof {
                    assert forall|i: int|
                        0 <= i < base.len() && on_path(base, i, node as int) && i
                            < curr_index implies i <= p by {
                        lemma_on_path_below(base, i, curr_index as int, node as int);
                    }
                    lemma_on_path_parent(base, curr_index as int, node as int);
                    lower = p as int + 1;
                }
                values = numeric.parent(&values);
                proof {
                    let ghost known = at;
                    at = at.insert(p as int, values);
                    assert forall|c: int|
                        curr_index <= c < base.len() && 0 < c && #[trigger] on_path(
                            base,
                            c,
                            node as int,
                        ) implies call_ensures(
                            N::parent,
                            (numeric, &at[c]),
                            at[base[c].parent->0 as int],
                        ) by {
                        if c != curr_index {
                            lemma_on_path_ends(base, c, node as int);
                            assert(node_linked(base, c));
                            lemma_on_path_below(base, curr_index as int, c, node as int);
                            assert(at[c] == known[c]);
                            assert(at[base[c].parent->0 as int] == known[base[c].parent->0 as int]);
                        }
                    }
                }
                curr_index = p;
            },
            None => {
                proof {
                    lower = 0;
                }
                done = true;
            },
        }
    }
    proof {
        assert(added_along(*numeric, base, nodes@, node as int, first, at));
    }
}

/// Whether `r` holds the places of the `count` largest of `keys`, the
/// largest first, or of all keys if they are fewer; of equal keys, the
/// earlier one counts as the larger.
pub open spec fn are_top(keys: Seq<i64>, count: usize, r: Seq<usize>) -> bool {
    &&& r.len() == if count <= keys.len() {
        count as nat
    } else {
        keys.len()
    }
    &&& forall|a: int| 0 <= a < r.len() ==> (#[trigger] r[a]) < keys.len()
    &&& forall|a: int, b: int| #![trigger r[a], r[b]] 0 <= a < b < r.len() ==> r[a] != r[b]
    &&& forall|a: int, b: int|
        #![trigger r[a], r[b]]
        0 <= a < b < r.len() ==> keys[r[a] as int] > keys[r[b] as int] || (keys[r[a] as int]
            == keys[r[b] as int] && r[a] < r[b])
    &&& forall|a: int, i: int|
        #![trigger r[a], keys[i]]
        0 <= a < r.len() && 0 <= i < keys.len() && !r.contains(i as usize) ==> keys[i]
            < keys[r[a] as int] || (keys[i] == keys[r[a] as int] && r[a] < i)
}

/// Whether `moves` are the entries of `policy` with the `count` highest
/// priors, the highest first, where [`Numeric::prior_key`] orders the
/// priors.
pub open spec fn top_priors<P, V, N: Numeric<P, V>>(
    numeric: N,
    policy: Seq<P>,
    count: usize,
    moves: Seq<usize>,
) -> bool {
    exists|keys: Seq<i64>|
        {
            &&& keys.len() == policy.len()
            &&& forall|i: int|
                0 <= i < policy.len() ==> call_ensures(
                    N::prior_key,
                    (&numeric, &policy[i]),
                    #[trigger] keys[i],
                )
            &&& #[trigger] are_top(keys, count, moves)
        }
}

/// The places of the `count` largest keys, the largest first; of equal
/// keys, the earlier one counts as the larger.
pub fn top_k_indices(keys: &Vec<i64>, count: usize) -> (r: Vec<usize>)
    ensures
        are_top(keys@, count, r@),
        r@.len() == if count <= keys@.len() {
            count as nat
        } else {
            keys@.len()
        },
        forall|a: int| 0 <= a < r@.len() ==> (#[trigger] r@[a]) < keys@.len(),
        forall|a: int, b: int| #![trigger r@[a], r@[b]] 0 <= a < b < r@.len() ==> r@[a] != r@[b],
        forall|a: int, b: int|
            #![trigger r@[a], r@[b]]
            0 <= a < b < r@.len() ==> keys@[r@[a] as int] > keys@[r@[b] as int] || (keys@[r@[a] as int]
                == keys@[r@[b] as int] && r@[a] < r@[b]),
        forall|a: int, i: int|
            #![trigger r@[a], keys@[i]]
            0 <= a < r@.len() && 0 <= i < keys@.len() && !r@.contains(i as usize) ==> keys@[i]
                < keys@[r@[a] as int] || (keys@[i] == keys@[r@[a] as int] && r@[a] < i),
{
    let mut picked: Vec<usize> = Vec::new();
    let mut taken: Vec<bool> = Vec::new();
    let mut i: usize = 0;
    while i < keys.len()
        invariant
            i <= keys@.len(),
            taken@.len() == i,
            forall|j: int| 0 <= j < i ==> !taken@[j],
        decreases keys@.len() - i,
    {
        taken.push(false);
        i += 1;
    }
    while picked.len() < count && picked.len() < keys.len()
        invariant
            taken@.len() == keys@.len(),
            picked@.len() <= keys@.len(),
            picked@.len() <= count,
            forall|a: int| 0 <= a < picked@.len() ==> (#[trigger] picked@[a]) < keys@.len(),
            forall|j: int| 0 <= j < keys@.len() ==> (#[trigger] taken@[j] <==> picked@.contains(j as usize)),
            forall|a: int, b: int|
                #![trigger picked@[a], picked@[b]]
                0 <= a < b < picked@.len() ==> picked@[a] != picked@[b],
            forall|a: int, b: int|
                #![trigger picked@[a], picked@[b]]
                0 <= a < b < picked@.len() ==> keys@[picked@[a] as int] > keys@[picked@[b] as int] || (
                keys@[picked@[a] as int] == keys@[picked@[b] as int] && picked@[a] < picked@[b]),
            forall|a: int, i: int|
                #![trigger picked@[a], keys@[i]]
                0 <= a < picked@.len() && 0 <= i < keys@.len() && !taken@[i] ==> keys@[i]
                    < keys@[picked@[a] as int] || (keys@[i] == keys@[picked@[a] as int] && picked@[a]
                    < i),
        decreases keys@.len() - picked@.len(),
    {
        let ghost before = picked@;
        // some key is left: fewer have been taken than there are
        let mut best: Option<usize> = None;
        let mut j: usize = 0;
        while j < keys.len()
            invariant
                j <= keys@.len(),
                taken@.len() == keys@.len(),
                match best {
                    Some(b) => {
                        &&& b < j
                        &&& !taken@[b as int]
                        &&& forall|i: int|
                            0 <= i < j && !taken@[i] ==> #[trigger] keys@[i] < keys@[b as int] || (
                            keys@[i] == keys@[b as int] && b <= i)
                    },
                    None => forall|i: int| 0 <= i < j ==> taken@[i],
                },
            decreases keys@.len() - j,
        {
            if !taken[j] {
                match best {
                    Some(b) => {
                        if keys[j] > keys[b] {
                            best = Some(j);
                        }
                    },
                    None => {
                        best = Some(j);
                    },
                }
            }
            j += 1;
        }
        match best {
            None => {
                proof {
                    lemma_all_taken(picked@, taken@);
                }
                return picked;
            },
            Some(b) => {
                taken.set(b, true);
                picked.push(b);
                proof {
                    let now = picked@;
                    assert(now[before.len() as int] == b);
                    assert forall|j: int| 0 <= j < keys@.len() implies (#[trigger] taken@[j]
                        <==> now.contains(j as usize)) by {
                        if j == b {
                            assert(now[before.len() as int] == j as usize);
                        } else if before.contains(j as usize) {
                            let a = choose|a: int| 0 <= a < before.len() && before[a] == j as usize;
                            assert(now[a] == j as usize);
                        } else if now.contains(j as usize) {
                            let a = choose|a: int| 0 <= a < now.len() && now[a] == j as usize;
                            assert(before[a] == j as usize);
                        }
                    }
                    assert forall|a: int, c: int|
                        #![trigger now[a], now[c]]
                        0 <= a < c < now.len() implies now[a] != now[c] by {
                        if c == before.len() {
                            assert(before[a] == now[a]);
                            assert(before.contains(now[a]));
                        }
                    }
                }
            },
        }
    }
    proof {
        assert forall|a: int, i: int|
            #![trigger picked@[a], keys@[i]]
            0 <= a < picked@.len() && 0 <= i < keys@.len() && !picked@.contains(
                i as usize,
            ) implies keys@[i] < keys@[picked@[a] as int] || (keys@[i] == keys@[picked@[a] as int]
            && picked@[a] < i) by {
            assert(!taken@[i]);
        }
        if picked@.len() < count && picked@.len() < keys@.len() {
            assert(false);
        }
    }
    picked
}

/// Distinct places that are all taken are as many as there are places.
proof fn lemma_all_taken(picked: Seq<usize>, taken: Seq<bool>)
    requires
        forall|a: int| 0 <= a < picked.len() ==> (#[trigger] picked[a]) < taken.len(),
        forall|a: int, b: int|
            #![trigger picked[a], picked[b]]
            0 <= a < b < picked.len() ==> picked[a] != picked[b],
        forall|j: int| 0 <= j < taken.len() ==> (#[trigger] taken[j] <==> picked.contains(j as usize)),
        forall|j: int| 0 <= j < taken.len() ==> taken[j],
        taken.len() <= usize::MAX,
    ensures
        picked.len() >= taken.len(),
{
    let all = vstd::set_lib::set_int_range(0, taken.len() as int);
    vstd::set_lib::lemma_int_range(0, taken.len() as int);
    let as_ints = picked.map(|a: int, p: usize| p as int);
    assert(all.subset_of(as_ints.to_set())) by {
        assert forall|x: int| all.contains(x) implies as_ints.to_set().contains(x) by {
            assert(taken[x]);
            let a = choose|a: int| 0 <= a < picked.len() && picked[a] == x as usize;
            assert(as_ints[a] == x);
        }
    }
    as_ints.lemma_cardinality_of_set();
    vstd::set_lib::lemma_len_subset(all, as_ints.to_set());
}

impl<B: GameBoard, S: Copy, P: Copy, V: Copy> MuTree<B, S, P, V> {
    /// What holds of every tree that this library hands out, see [`mu_wf`].
    pub open(crate) spec fn wf(&self) -> bool {
        &&& mu_wf(self.nodes@, self.states@)
        &&& self.root_board.valid()
        &&& self.root_board.spec_outcome() is None
    }

    /// The nodes of the tree.
    pub open(crate) spec fn spec_nodes(&self) -> Seq<Node<usize, P, V>> {
        self.nodes@
    }

    /// The hidden states of the nodes, where they have one.
    pub open(crate) spec fn spec_states(&self) -> Seq<Option<S>> {
        self.states@
    }

    /// The board at the root.
    pub open(crate) spec fn root(&self) -> B {
        self.root_board
    }

    /// The tree of a board that nothing has been searched from. The game
    /// must not be over.
    pub fn new<N: Numeric<P, V>>(root_board: B, numeric: &N) -> (r: Self)
        requires
            root_board.valid(),
            root_board.spec_outcome() is None,
        ensures
            r.wf(),
            r.root() == root_board,
            r.spec_nodes().len() == 1,
            r.spec_nodes()[0].children is None,
    {
        let root = Node::new(None, None, numeric.uniform_prior(), numeric.zero_values());
        let mut nodes: Vec<Node<usize, P, V>> = Vec::new();
        nodes.push(root);
        let mut states: Vec<Option<S>> = Vec::new();
        states.push(None);
        proof {
            assert(node_linked(nodes@, 0));
            assert(node_counted(nodes@, 0));
        }
        MuTree { root_board, nodes, states }
    }

    /// The number of nodes.
    pub fn len(&self) -> (r: usize)
        ensures
            r == self.spec_nodes().len(),
    {
        self.nodes.len()
    }

    /// The node in slot `index`.
    pub fn node(&self, index: usize) -> (r: &Node<usize, P, V>)
        requires
            index < self.spec_nodes().len(),
        ensures
            *r == self.spec_nodes()[index as int],
    {
        &self.nodes[index]
    }

    /// The visits of the root.
    pub fn root_visits(&self) -> (r: u64)
        requires
            self.wf(),
        ensures
            r == self.spec_nodes()[0].complete_visits,
    {
        self.nodes[0].complete_visits
    }

    /// The first half of a step. Walks down from the root, at each
    /// evaluated node to the child with the highest score, until it comes
    /// to a node that has not been evaluated, and asks for what that node
    /// needs: at the root the evaluation of the board, below it the step
    /// from the hidden state of the parent by the move of the node. The
    /// tree stays as it is.
    ///
    /// The scores are made as in [`crate::zero::step::zero_step_gather`],
    /// but from the finished visits of the parent alone: at every node the
    /// walk takes the first of the children with the highest score.
    pub fn muzero_step_gather<N: Numeric<P, V>>(&self, numeric: &N, fpu_mode: FpuMode<V>) -> (r:
        MuZeroRequest<B, S>)
        requires
            self.wf(),
        ensures
            match r {
                MuZeroRequest::Root { node, board } => {
                    &&& node == 0
                    &&& board == self.root()
                    &&& self.spec_nodes()[0].children is None
                },
                MuZeroRequest::Expand { node, state, move_index } => {
                    &&& 0 < node < self.spec_nodes().len()
                    &&& self.spec_nodes()[node as int].children is None
                    &&& self.spec_nodes()[node as int].last_move == Some(move_index)
                    &&& self.spec_nodes()[node as int].parent matches Some(p)
                    &&& self.spec_states()[p as int] == Some(state)
                    &&& descended(*numeric, fpu_mode, self.spec_nodes(), node as int, 0)
                },
            },
    {
        if self.nodes[0].children.is_none() {
            return MuZeroRequest::Root { node: 0, board: self.root_board.duplicate() };
        }
        let mut curr_node: usize = 0;
        let mut fpu = numeric.outcome_values(OutcomeWDL::Draw);
        let ghost mut pre: Map<int, V> = Map::empty();
        let ghost mut off: Map<int, V> = Map::empty();
        loop
            invariant
                self.wf(),
                curr_node < self.nodes@.len(),
                self.nodes@[curr_node as int].children is Some,
                curr_node == 0 ==> call_ensures(N::outcome_values, (numeric, OutcomeWDL::Draw), fpu),
                curr_node > 0 ==> fpu == off[self.nodes@[curr_node as int].parent->0 as int],
                descended_by(*numeric, fpu_mode, self.nodes@, curr_node as int, 0, pre, off),
            decreases self.nodes@.len() - curr_node,
        {
            proof {
                assert(node_linked(self.nodes@, curr_node as int));
            }
            let children = self.nodes[curr_node].children.unwrap();
            if self.nodes[curr_node].complete_visits > 0 {
                fpu = numeric.mean(&self.nodes[curr_node].sum_values, self.nodes[curr_node].complete_visits);
            }
            let ghost turned = fpu;
            fpu = numeric.flip(&fpu);
            let used_fpu = fpu_mode.select(fpu);
            proof {
                lemma_descended_noted(
                    *numeric,
                    fpu_mode,
                    self.nodes@,
                    curr_node as int,
                    0,
                    pre,
                    off,
                    turned,
                    fpu,
                );
                pre = pre.insert(curr_node as int, turned);
                off = off.insert(curr_node as int, fpu);
                assert(offered(*numeric, self.nodes@, curr_node as int, pre, off));
            }
            let parent_visits = self.nodes[curr_node].complete_visits;

            let selected = select_child(&self.nodes, children, parent_visits, &used_fpu, numeric);
            proof {
                let nodes = self.nodes@;
                assert(nodes[selected as int].parent == Some(curr_node));
                assert(nodes[selected as int].last_move is Some);
                let keys = choose|keys: Seq<i64>|
                    #[trigger] scored(*numeric, nodes, children, parent_visits, used_fpu, keys)
                        && is_first_largest(keys, selected - children.start);
                assert(nodes[curr_node as int].virtual_visits == 0);
                assert(((nodes[curr_node as int].spec_total_visits() + 0) as u64) == parent_visits);
                assert(used_fpu == fpu_mode.spec_select(off[curr_node as int]));
                assert(scored(
                    *numeric,
                    nodes,
                    nodes[nodes[selected as int].parent->0 as int].children->0,
                    (nodes[nodes[selected as int].parent->0 as int].spec_total_visits() + 0) as u64,
                    fpu_mode.spec_select(off[nodes[selected as int].parent->0 as int]),
                    keys,
                ));
                assert(taken(*numeric, fpu_mode, nodes, selected as int, 0, pre, off));
                assert forall|c: int|
                    0 < c < nodes.len() && on_path(nodes, c, selected as int) implies #[trigger] taken(
                        *numeric,
                        fpu_mode,
                        nodes,
                        c,
                        0,
                        pre,
                        off,
                    ) by {
                    if c != selected {
                        assert(on_path(nodes, c, curr_node as int));
                    }
                }
                assert(descended_by(*numeric, fpu_mode, nodes, selected as int, 0, pre, off));
            }
            if self.nodes[selected].children.is_none() {
                let state = self.states[curr_node].unwrap();
                let move_index = self.nodes[selected].last_move.unwrap();
                proof {
                    assert(descended(*numeric, fpu_mode, self.nodes@, selected as int, 0));
                }
                return MuZeroRequest::Expand { node: selected, state, move_index };
            }
            curr_node = selected;
        }
    }

    /// The entries of the policy that the children of node `node` stand
    /// for: at the root the entries of the moves of the board, below it the
    /// `top_moves` entries with the highest priors.
    fn child_moves<M: PolicyMapper<B, B::Move>, N: Numeric<P, V>>(
        &self,
        node: usize,
        policy: &Vec<P>,
        top_moves: usize,
        mapper: &M,
        numeric: &N,
    ) -> (r: Result<Vec<usize>, MuApplyError>)
        requires
            self.wf(),
            policy@.len() == mapper.spec_policy_len(),
        ensures
            r matches Ok(moves) ==> 0 < moves@.len() <= u8::MAX && forall|k: int|
                0 <= k < moves@.len() ==> (#[trigger] moves@[k]) < policy@.len(),
            r matches Ok(moves) ==> node == 0 ==> moves@.len() == self.root().spec_moves().len()
                && forall|k: int|
                #![trigger moves@[k]]
                #![trigger mapper.spec_index(self.root(), self.root().spec_moves()[k])]
                0 <= k < moves@.len() ==> mapper.spec_index(self.root(), self.root().spec_moves()[k])
                    == Some(moves@[k]),
            r matches Ok(moves) ==> node != 0 ==> moves@.len() == if top_moves <= policy@.len() {
                top_moves as nat
            } else {
                policy@.len()
            },
            r matches Ok(moves) ==> node != 0 ==> forall|a: int, b: int|
                #![trigger moves@[a], moves@[b]]
                0 <= a < b < moves@.len() ==> moves@[a] != moves@[b],
            r matches Ok(moves) ==> node != 0 ==> top_priors(*numeric, policy@, top_moves, moves@),
            match r {
                Ok(_) => true,
                Err(e) => if node == 0 {
                    e == MuApplyError::UnmappedMove && exists|i: int|
                        0 <= i < self.root().spec_moves().len() && #[trigger] mapper.spec_index(
                            self.root(),
                            self.root().spec_moves()[i],
                        ) is None
                } else {
                    e == MuApplyError::ChildCount && (top_moves == 0 || policy@.len() == 0 || (top_moves
                        > u8::MAX && policy@.len() > u8::MAX))
                },
            },
            r is Ok && node != 0 ==> !(top_moves == 0 || policy@.len() == 0 || (top_moves > u8::MAX
                && policy@.len() > u8::MAX)),
    {
        if node == 0 {
            let board_moves = self.root_board.available_moves();
            let mut moves: Vec<usize> = Vec::new();
            let mut i: usize = 0;
            while i < board_moves.len()
                invariant
                    i <= board_moves@.len(),
                    moves@.len() == i,
                    node == 0,
                    board_moves@ == self.root().spec_moves(),
                    policy@.len() == mapper.spec_policy_len(),
                    forall|k: int| 0 <= k < i ==> (#[trigger] moves@[k]) < policy@.len(),
                    forall|k: int|
                        0 <= k < i ==> mapper.spec_index(self.root(), board_moves@[k]) == Some(
                            #[trigger] moves@[k],
                        ),
                decreases board_moves@.len() - i,
            {
                match mapper.move_to_index(&self.root_board, board_moves[i]) {
                    Some(index) => {
                        moves.push(index);
                    },
                    None => {
                        proof {
                            assert(mapper.spec_index(self.root(), self.root().spec_moves()[i as int]) is None);
                        }
                        return Err(MuApplyError::UnmappedMove);
                    },
                }
                i += 1;
            }
            Ok(moves)
        } else {
            let mut keys: Vec<i64> = Vec::new();
            let mut i: usize = 0;
            while i < policy.len()
                invariant
                    i <= policy@.len(),
                    keys@.len() == i,
                    forall|j: int|
                        0 <= j < i ==> call_ensures(
                            N::prior_key,
                            (numeric, &policy@[j]),
                            #[trigger] keys@[j],
                        ),
                decreases policy@.len() - i,
            {
                keys.push(numeric.prior_key(&policy[i]));
                i += 1;
            }
            let moves = top_k_indices(&keys, top_moves);
            proof {
                assert(top_priors(*numeric, policy@, top_moves, moves@));
            }
            if moves.len() == 0 || moves.len() > 255 {
                return Err(MuApplyError::ChildCount);
            }
            Ok(moves)
        }
    }

    /// The second half of a step. Takes the answer to a request into the
    /// tree: the node holds its hidden state and its values and gets its
    /// children, each with the prior of its move, made to add up to one
    /// over the children; and every node on the way up to the root gets one
    /// more visit and the values. The children of the root are the moves
    /// of the board, those of any other node the `top_moves` moves with the
    /// highest priors.
    ///
    /// An answer that does not fit is refused and leaves the tree as it
    /// was.
    pub fn muzero_step_apply<M: PolicyMapper<B, B::Move>, N: Numeric<P, V>>(
        &mut self,
        top_moves: usize,
        response: MuZeroResponse<S, P, V>,
        mapper: &M,
        numeric: &N,
    ) -> (r: Result<(), MuApplyError>)
        requires
            old(self).wf(),
            old(self).spec_nodes()[0].complete_visits + 1 < u64::MAX,
        ensures
            final(self).wf(),
            final(self).root() == old(self).root(),
            r == mu_apply_check(
                old(self).root(),
                old(self).spec_nodes(),
                *mapper,
                response.node,
                response.policy@.len(),
                top_moves,
            ),
            r is Err ==> final(self).spec_nodes() == old(self).spec_nodes() && final(self).spec_states()
                == old(self).spec_states(),
            r is Ok ==> values_added(
                *numeric,
                old(self).spec_nodes(),
                final(self).spec_nodes(),
                response.node as int,
                response.values,
            ),
            r is Ok ==> exists|moves: Seq<usize>|
                {
                    &&& #[trigger] mu_applied(
                        old(self).spec_nodes(),
                        old(self).spec_states(),
                        final(self).spec_nodes(),
                        final(self).spec_states(),
                        response.node as int,
                        response.state,
                        response.values,
                        moves,
                    )
                    &&& 0 < moves.len() <= u8::MAX
                    &&& forall|k: int| 0 <= k < moves.len() ==> (#[trigger] moves[k]) < response.policy@.len()
                    &&& mu_children(
                        *numeric,
                        old(self).spec_nodes(),
                        final(self).spec_nodes(),
                        response.policy@,
                        moves,
                    )
                    &&& response.node == 0 ==> moves.len() == old(self).root().spec_moves().len()
                    &&& response.node == 0 ==> forall|k: int|
                        0 <= k < moves.len() ==> mapper.spec_index(
                            old(self).root(),
                            old(self).root().spec_moves()[k],
                        ) == Some(#[trigger] moves[k])
                    &&& response.node != 0 ==> forall|a: int, b: int|
                        #![trigger moves[a], moves[b]]
                        0 <= a < b < moves.len() ==> moves[a] != moves[b]
                    &&& response.node != 0 ==> top_priors(
                        *numeric,
                        response.policy@,
                        top_moves,
                        moves,
                    )
                    &&& response.node != 0 ==> moves.len() == if top_moves
                        <= response.policy@.len() {
                        top_moves as nat
                    } else {
                        response.policy@.len()
                    }
                },
    {
        let MuZeroResponse { node, state, values, policy } = response;
        if node >= self.nodes.len() {
            return Err(MuApplyError::UnknownNode);
        }
        if self.nodes[node].children.is_some() {
            return Err(MuApplyError::AlreadyEvaluated);
        }
        if policy.len() != mapper.policy_len() {
            return Err(MuApplyError::PolicyLength);
        }
        let moves = match self.child_moves(node, &policy, top_moves, mapper, numeric) {
            Ok(moves) => moves,
            Err(e) => {
                return Err(e);
            },
        };
        let ghost base = self.nodes@;
        let ghost base_states = self.states@;
        let ghost count = moves@.len();
        proof {
            assert(base == old(self).spec_nodes());
            assert(node == 0 ==> count == old(self).root().spec_moves().len());
            assert(node != 0 ==> count == if top_moves <= response.policy@.len() {
                top_moves as nat
            } else {
                response.policy@.len()
            });
        }

        // the priors of the children, made to add up to one
        let mut priors: Vec<P> = Vec::new();
        let mut k: usize = 0;
        while k < moves.len()
            invariant
                k <= moves@.len(),
                priors@.len() == k,
                forall|j: int| 0 <= j < moves@.len() ==> (#[trigger] moves@[j]) < policy@.len(),
                forall|j: int| 0 <= j < k ==> #[trigger] priors@[j] == policy@[moves@[j] as int],
            decreases moves@.len() - k,
        {
            priors.push(policy[moves[k]]);
            k += 1;
        }
        let ghost raw = priors;
        let priors = numeric.normalize(priors);
        let start = self.nodes.len();
        let mut k: usize = 0;
        while k < moves.len()
            invariant
                k <= moves@.len(),
                start == base.len(),
                self.root_board == old(self).root_board,
                self.nodes@.len() == base.len() + k,
                self.states@.len() == base.len() + k,
                forall|i: int| 0 <= i < base.len() ==> #[trigger] self.nodes@[i] == base[i],
                forall|i: int| 0 <= i < base.len() ==> #[trigger] self.states@[i] == base_states[i],
                forall|i: int|
                    base.len() <= i < self.nodes@.len() ==> {
                        &&& (#[trigger] self.nodes@[i]).parent == Some(node)
                        &&& self.nodes@[i].last_move == Some(moves@[i - base.len()])
                        &&& self.nodes@[i].children is None
                        &&& self.nodes@[i].net_values is None
                        &&& self.nodes@[i].complete_visits == 0
                        &&& self.nodes@[i].virtual_visits == 0
                        &&& self.states@[i] is None
                        &&& call_ensures(N::zero_values, (numeric,), self.nodes@[i].sum_values)
                        &&& if i - base.len() < priors@.len() {
                            self.nodes@[i].net_policy == priors@[i - base.len()]
                        } else {
                            call_ensures(N::uniform_prior, (numeric,), self.nodes@[i].net_policy)
                        }
                    },
            decreases moves@.len() - k,
        {
            let prior = if k < priors.len() {
                priors[k]
            } else {
                numeric.uniform_prior()
            };
            self.nodes.push(Node::new(Some(node), Some(moves[k]), prior, numeric.zero_values()));
            self.states.push(None);
            k += 1;
        }
        let end = self.nodes.len();
        let leaf = &mut self.nodes[node];
        leaf.children = Some(IdxRange::new(start, end));
        leaf.net_values = Some(values);
        self.states.set(node, Some(state));
        let ghost mid = self.nodes@;
        proof {
            assert(node_linked(base, node as int));
            lemma_expanded_linked(base, mid, node as int, moves@.len());
            assert forall|i: int| 0 <= i < mid.len() && on_path(mid, i, node as int) implies (
            #[trigger] mid[i]).complete_visits < u64::MAX by {
                lemma_on_path_ends(mid, i, node as int);
                crate::zero::tree::lemma_on_path_shape(mid, base, i, node as int);
                crate::zero::tree::lemma_root_bounds(base, i);
            }
        }
        mu_propagate(&mut self.nodes, node, values, numeric);
        proof {
            let fin = self.nodes@;
            lemma_added_shape(*numeric, mid, base, fin, node as int, values);
            assert(mu_children(*numeric, base, fin, policy@, moves@)) by {
                assert(call_ensures(N::normalize, (numeric, raw), priors));
                assert forall|k: int| 0 <= k < moves@.len() implies {
                    &&& call_ensures(
                        N::zero_values,
                        (numeric,),
                        (#[trigger] fin[base.len() + k]).sum_values,
                    )
                    &&& if k < priors@.len() {
                        fin[base.len() + k].net_policy == priors@[k]
                    } else {
                        call_ensures(N::uniform_prior, (numeric,), fin[base.len() + k].net_policy)
                    }
                } by {
                    let i = base.len() + k;
                    lemma_on_path_ends(mid, i, node as int);
                    crate::zero::tree::lemma_on_path_shape(mid, base, 0, node as int);
                    assert(fin[i].net_policy == mid[i].net_policy);
                    assert(fin[i].sum_values == mid[i].sum_values);
                }
            }
            assert forall|i: int| 0 <= i < base.len() implies on_path(mid, i, node as int)
                == on_path(base, i, node as int) by {
                crate::zero::tree::lemma_on_path_shape(mid, base, i, node as int);
            }
            assert forall|i: int| 0 <= i < fin.len() implies (#[trigger] fin[i]).virtual_visits
                == 0 by {
                assert(fin[i].virtual_visits == mid[i].virtual_visits);
                if i < base.len() {
                    assert(mid[i].virtual_visits == base[i].virtual_visits);
                }
            }
            assert forall|i: int| 0 <= i < base.len() implies {
                &&& (#[trigger] fin[i]).parent == base[i].parent
                &&& fin[i].last_move == base[i].last_move
                &&& fin[i].net_policy == base[i].net_policy
                &&& i != node ==> fin[i].children == base[i].children && fin[i].net_values
                    == base[i].net_values && self.states@[i] == base_states[i]
                &&& fin[i].complete_visits == base[i].complete_visits + if on_path(
                    base,
                    i,
                    node as int,
                ) {
                    1int
                } else {
                    0int
                }
                &&& !on_path(base, i, node as int) ==> fin[i].sum_values == base[i].sum_values
            } by {
                assert(mid[i].parent == fin[i].parent);
                assert(mid[i].net_values == fin[i].net_values);
            }
            assert forall|i: int| base.len() <= i < fin.len() implies {
                &&& (#[trigger] fin[i]).parent == Some(node)
                &&& fin[i].last_move == Some(moves@[i - base.len()])
                &&& fin[i].children is None
                &&& fin[i].net_values is None
                &&& fin[i].complete_visits == 0
                &&& self.states@[i] is None
            } by {
                assert(mid[i].parent == fin[i].parent);
                assert(mid[i].net_values == fin[i].net_values);
                lemma_on_path_ends(mid, i, node as int);
            }
            assert(mu_applied(
                base,
                base_states,
                fin,
                self.states@,
                node as int,
                state,
                values,
                moves@,
            ));
            lemma_after_mu_apply(
                base,
                base_states,
                fin,
                self.states@,
                node as int,
                state,
                values,
                moves@,
            );
            assert(mu_applied(
                old(self).spec_nodes(),
                old(self).spec_states(),
                self.spec_nodes(),
                self.spec_states(),
                response.node as int,
                response.state,
                response.values,
                moves@,
            ));
            assert(moves@.len() == count);
        }
        Ok(())
    }
}

/// A tree with fresh children below one of its childless nodes is a tree.
proof fn lemma_expanded_linked<P, V>(
    base: Seq<Node<usize, P, V>>,
    mid: Seq<Node<usize, P, V>>,
    leaf: int,
    count: nat,
)
    requires
        linked(base),
        0 <= leaf < base.len(),
        base[leaf].children is None,
        0 < count <= u8::MAX,
        mid.len() == base.len() + count,
        mid.len() <= usize::MAX,
        mid[leaf].children == Some(IdxRange { start: base.len() as usize, length: count as u8 }),
        mid[leaf].parent == base[leaf].parent,
        forall|i: int|
            0 <= i < base.len() && i != leaf ==> (#[trigger] mid[i]).parent == base[i].parent
                && mid[i].children == base[i].children && mid[i].net_values == base[i].net_values,
        forall|i: int|
            base.len() <= i < mid.len() ==> (#[trigger] mid[i]).parent == Some(leaf as usize)
                && mid[i].children is None && mid[i].net_values is None,
    ensures
        linked(mid),
{
    let n = base.len() as int;
    let fresh = IdxRange { start: n as usize, length: count as u8 };
    assert(node_linked(base, leaf));
    assert forall|i: int| 0 <= i < mid.len() implies #[trigger] node_linked(mid, i) by {
        if i < n {
            assert(node_linked(base, i));
            if i != 0 {
                let p = base[i].parent->0 as int;
                assert(mid[i].parent == base[i].parent);
                if p == leaf {
                    assert(false);
                } else {
                    assert(mid[p].children == base[p].children);
                }
            }
        } else {
            assert(fresh.contains(i));
        }
    }
    assert forall|i: int, c: int|
        0 <= i < mid.len() && 0 <= c < mid.len() && (mid[i].children matches Some(r) && r.contains(
            c,
        )) implies (#[trigger] mid[c]).parent == Some(i as usize) || !#[trigger] node_linked(
        mid,
        i,
    ) by {
        if i < n && i != leaf {
            assert(node_linked(base, i));
            assert(mid[i].children == base[i].children);
            assert(mid[c].parent == base[c].parent);
        }
    }
}

} // verus!
